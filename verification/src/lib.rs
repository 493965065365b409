//! Heuristic documentation-metadata extraction for a hierarchical C source
//! tree: category discovery, prototype/tag/description heuristics, a
//! declaration fallback, manual overrides, and an order-stable merge into a
//! single catalog.
use vstd::prelude::*;

pub mod grouping;
pub mod parser;
pub mod patterns;
pub mod text;

use crate::text::first_seg;
use crate::text::split_chars;
use crate::text::is_clean_path;
use crate::text::opt_view;
use crate::text::str_eq;

verus! {

/// One function parameter of a documented function.
pub struct Parameter {
    pub name: String,
    pub param_type: String,
    pub description: String,
}

/// Ghost image of a `Parameter`: every field as a character sequence.
pub ghost struct ParameterV {
    pub name: Seq<char>,
    pub param_type: Seq<char>,
    pub description: Seq<char>,
}

impl View for Parameter {
    type V = ParameterV;

    open spec fn view(&self) -> ParameterV {
        ParameterV { name: self.name@, param_type: self.param_type@, description: self.description@ }
    }
}

/// A usage example attached to a documented function.
pub struct Example {
    pub title: String,
    pub code: String,
    pub output: Option<String>,
}

/// Ghost image of an `Example`.
pub ghost struct ExampleV {
    pub title: Seq<char>,
    pub code: Seq<char>,
    pub output: Option<Seq<char>>,
}

impl View for Example {
    type V = ExampleV;

    open spec fn view(&self) -> ExampleV {
        ExampleV { title: self.title@, code: self.code@, output: opt_view(self.output) }
    }
}

/// One catalog entry: everything recorded about a single function.
pub struct FunctionMetadata {
    pub name: String,
    pub category: String,
    pub category_path: String,
    pub tags: Vec<String>,
    pub prototype: String,
    pub description: String,
    pub parameters: Vec<Parameter>,
    pub return_value: String,
    pub examples: Vec<Example>,
    pub complexity: Option<String>,
    pub notes: Vec<String>,
    pub see_also: Vec<String>,
    pub updated_at: Option<String>,
    pub author_role: Option<String>,
    pub related: Vec<String>,
    pub manual_path: Option<String>,
    pub manual_html: Option<String>,
}

/// Ghost image of a `FunctionMetadata`: every field as sequences and
/// options over character sequences.
pub ghost struct RecordV {
    pub name: Seq<char>,
    pub category: Seq<char>,
    pub category_path: Seq<char>,
    pub tags: Seq<Seq<char>>,
    pub prototype: Seq<char>,
    pub description: Seq<char>,
    pub parameters: Seq<ParameterV>,
    pub return_value: Seq<char>,
    pub examples: Seq<ExampleV>,
    pub complexity: Option<Seq<char>>,
    pub notes: Seq<Seq<char>>,
    pub see_also: Seq<Seq<char>>,
    pub updated_at: Option<Seq<char>>,
    pub author_role: Option<Seq<char>>,
    pub related: Seq<Seq<char>>,
    pub manual_path: Option<Seq<char>>,
    pub manual_html: Option<Seq<char>>,
}

impl View for FunctionMetadata {
    type V = RecordV;

    open spec fn view(&self) -> RecordV {
        RecordV {
            name: self.name@,
            category: self.category@,
            category_path: self.category_path@,
            tags: self.tags.deep_view(),
            prototype: self.prototype@,
            description: self.description@,
            parameters: Seq::new(self.parameters@.len(), |i: int| self.parameters@[i]@),
            return_value: self.return_value@,
            examples: Seq::new(self.examples@.len(), |i: int| self.examples@[i]@),
            complexity: opt_view(self.complexity),
            notes: self.notes.deep_view(),
            see_also: self.see_also.deep_view(),
            updated_at: opt_view(self.updated_at),
            author_role: opt_view(self.author_role),
            related: self.related.deep_view(),
            manual_path: opt_view(self.manual_path),
            manual_html: opt_view(self.manual_html),
        }
    }
}

/// A record is well formed when its top-level category is nonempty, its
/// nested category path has no empty segments, and a nonempty path begins
/// with the top-level category.
pub open spec fn record_wf(r: RecordV) -> bool {
    &&& r.category.len() > 0
    &&& is_clean_path(r.category_path)
    &&& r.category_path.len() > 0 ==> first_seg(r.category_path) == r.category
}

/// The names of a sequence of records, in order.
pub open spec fn names_of(fs: Seq<FunctionMetadata>) -> Seq<Seq<char>> {
    Seq::new(fs.len(), |i: int| fs[i].name@)
}

/// The paired function list and discovery order are consistent: same
/// length, matching names position by position, no duplicate names, and
/// every record well formed.
pub open spec fn entries_wf(fs: Seq<FunctionMetadata>, order: Seq<String>) -> bool {
    &&& order.len() == fs.len()
    &&& forall|i: int| 0 <= i < fs.len() ==> order[i]@ == #[trigger] fs[i].name@
    &&& forall|i: int, j: int|
        0 <= i < j < fs.len() ==> #[trigger] fs[i].name@ != #[trigger] fs[j].name@
    &&& forall|i: int| 0 <= i < fs.len() ==> record_wf(#[trigger] fs[i]@)
}

/// The whole catalog: library identity, discovered categories, and the
/// per-function records in first-discovery order (`order` lists exactly
/// the names of `functions`, position by position).
pub struct LibraryMetadata {
    pub name: String,
    pub version: String,
    pub description: String,
    pub author: String,
    pub categories: Vec<String>,
    pub functions: Vec<FunctionMetadata>,
    pub order: Vec<String>,
}

impl LibraryMetadata {
    /// The catalog invariant: records and order are consistent and unique.
    pub open spec fn wf(&self) -> bool {
        entries_wf(self.functions@, self.order@)
    }
}

/// A flat search index over the catalog, as the renderer consumes it.
pub struct SearchIndex {
    pub functions: Vec<SearchableFunction>,
    pub categories: Vec<String>,
    pub tags: Vec<String>,
}

/// One searchable entry: the fields the search box matches against.
pub struct SearchableFunction {
    pub name: String,
    pub category: String,
    pub tags: Vec<String>,
    pub description: String,
    pub keywords: Vec<String>,
}

/// Index of the record named `name`, if one is present.
pub fn find_function(functions: &Vec<FunctionMetadata>, name: &str) -> (r: Option<usize>)
    ensures
        match r {
            Some(i) => i < functions@.len() && functions@[i as int].name@ == name@,
            None => forall|i: int| 0 <= i < functions@.len() ==> functions@[i].name@ != name@,
        },
{
    let n = functions.len();
    let mut i: usize = 0;
    while i < n
        invariant
            i <= n,
            n == functions@.len(),
            forall|j: int| 0 <= j < i ==> functions@[j].name@ != name@,
        decreases n - i,
    {
        if str_eq(functions[i].name.as_str(), name) {
            return Some(i);
        }
        i += 1;
    }
    None
}

/// Appends `rec` unless its name is already recorded: within one parsing
/// phase the first discovery of a name wins and later files are skipped.
pub fn add_if_absent(
    functions: &mut Vec<FunctionMetadata>,
    order: &mut Vec<String>,
    rec: FunctionMetadata,
)
    requires
        entries_wf(old(functions)@, old(order)@),
        record_wf(rec@),
    ensures
        entries_wf(final(functions)@, final(order)@),
        names_of(old(functions)@).contains(rec.name@) ==> final(functions)@ == old(functions)@
            && final(order)@ == old(order)@,
        !names_of(old(functions)@).contains(rec.name@) ==> final(functions)@ == old(
            functions,
        )@.push(rec) && final(order)@.len() == old(order)@.len() + 1 && final(order)@.subrange(
            0,
            old(order)@.len() as int,
        ) == old(order)@ && final(order)@.last()@ == rec.name@,
{
    let ghost oldfs = functions@;
    match find_function(functions, rec.name.as_str()) {
        Some(i) => {
            proof {
                assert(names_of(oldfs)[i as int] == rec.name@);
                assert(names_of(oldfs).contains(rec.name@));
            }
        },
        None => {
            proof {
                if names_of(oldfs).contains(rec.name@) {
                    let w = choose|w: int|
                        0 <= w < names_of(oldfs).len() && names_of(oldfs)[w] == rec.name@;
                    assert(oldfs[w].name@ == rec.name@);
                    assert(false);
                }
            }
            let name_copy = rec.name.clone();
            functions.push(rec);
            order.push(name_copy);
            proof {
                assert(final(order)@.subrange(0, oldfs.len() as int) =~= old(order)@);
                let ghost newfs = final(functions)@;
                assert forall|i: int, j: int|
                    0 <= i < j < newfs.len() implies #[trigger] newfs[i].name@
                    != #[trigger] newfs[j].name@ by {
                    if j == final(functions)@.len() - 1 {
                        assert(names_of(oldfs)[i] == oldfs[i].name@);
                        assert(!names_of(oldfs).contains(rec.name@));
                        if oldfs[i].name@ == rec.name@ {
                            assert(names_of(oldfs).contains(rec.name@));
                        }
                    }
                }
            }
        },
    }
}

/// Replaces the record of the same name in place, or appends a new record
/// at the end of the discovery order. An existing name keeps its position
/// in `order`, and the stored content afterwards is exactly `rec`.
pub fn apply_override(
    functions: &mut Vec<FunctionMetadata>,
    order: &mut Vec<String>,
    rec: FunctionMetadata,
)
    requires
        entries_wf(old(functions)@, old(order)@),
        record_wf(rec@),
    ensures
        entries_wf(final(functions)@, final(order)@),
        forall|i: int|
            0 <= i < old(functions)@.len() && old(functions)@[i].name@ != rec.name@
                ==> final(functions)@[i] == #[trigger] old(functions)@[i],
        forall|i: int|
            0 <= i < old(functions)@.len() && #[trigger] old(functions)@[i].name@ == rec.name@
                ==> final(functions)@[i] == rec,
        names_of(old(functions)@).contains(rec.name@) ==> final(functions)@.len() == old(
            functions,
        )@.len() && final(order)@ == old(order)@,
        !names_of(old(functions)@).contains(rec.name@) ==> final(functions)@ == old(
            functions,
        )@.push(rec) && final(order)@.len() == old(order)@.len() + 1 && final(order)@.subrange(
            0,
            old(order)@.len() as int,
        ) == old(order)@ && final(order)@.last()@ == rec.name@,
        names_of(final(functions)@).contains(rec.name@),
{
    let ghost oldfs = functions@;
    match find_function(functions, rec.name.as_str()) {
        Some(i) => {
            proof {
                assert(names_of(oldfs)[i as int] == rec.name@);
                assert(names_of(oldfs).contains(rec.name@));
            }
            let ghost namev = rec.name@;
            functions[i] = rec;
            proof {
                assert(final(functions)@ == oldfs.update(i as int, rec));
                assert forall|k: int|
                    0 <= k < oldfs.len() && #[trigger] oldfs[k].name@ == namev implies final(functions)@[k] == rec by {
                    if k != i {
                        assert(oldfs[k].name@ == oldfs[i as int].name@);
                        if k < i {
                            assert(false);
                        } else {
                            assert(false);
                        }
                    }
                }
                assert(names_of(final(functions)@)[i as int] == rec.name@);
            }
        },
        None => {
            proof {
                if names_of(oldfs).contains(rec.name@) {
                    let w = choose|w: int|
                        0 <= w < names_of(oldfs).len() && names_of(oldfs)[w] == rec.name@;
                    assert(oldfs[w].name@ == rec.name@);
                    assert(false);
                }
            }
            let name_copy = rec.name.clone();
            let ghost namev = rec.name@;
            functions.push(rec);
            order.push(name_copy);
            proof {
                assert(final(order)@.subrange(0, oldfs.len() as int) =~= old(order)@);
                let ghost newfs = final(functions)@;
                assert forall|i: int, j: int|
                    0 <= i < j < newfs.len() implies #[trigger] newfs[i].name@
                    != #[trigger] newfs[j].name@ by {
                    if j == final(functions)@.len() - 1 {
                        if oldfs[i].name@ == namev {
                            assert(names_of(oldfs)[i] == oldfs[i].name@);
                            assert(names_of(oldfs).contains(namev));
                        }
                    }
                }
                assert(names_of(final(functions)@).last() == namev);
                assert(names_of(final(functions)@).contains(namev));
            }
        },
    }
}

/// Uniqueness law: in a well-formed catalog the function names are
/// pairwise distinct, and the discovery order lists exactly those names,
/// position by position, so no name repeats in it either.
pub proof fn lemma_catalog_unique(c: &LibraryMetadata)
    requires
        c.wf(),
    ensures
        c.order@.len() == c.functions@.len(),
        forall|i: int| 0 <= i < c.order@.len() ==> c.order@[i]@ == names_of(c.functions@)[i],
        forall|i: int, j: int| 0 <= i < j < c.order@.len() ==> c.order@[i]@ != c.order@[j]@,
{
    assert forall|i: int| 0 <= i < c.order@.len() implies c.order@[i]@ == names_of(
        c.functions@,
    )[i] by {
        assert(c.order@[i]@ == c.functions@[i].name@);
    }
    assert forall|i: int, j: int| 0 <= i < j < c.order@.len() implies c.order@[i]@
        != c.order@[j]@ by {
        assert(c.functions@[i].name@ != c.functions@[j].name@);
    }
}

/// Category-consistency law: every record of a well-formed catalog has a
/// nonempty top-level category, and a nonempty nested path splits into
/// nonempty segments whose first is exactly that category.
pub proof fn lemma_category_consistency(c: &LibraryMetadata)
    requires
        c.wf(),
    ensures
        forall|i: int|
            0 <= i < c.functions@.len() ==> (#[trigger] c.functions@[i]@).category.len() > 0,
        forall|i: int|
            0 <= i < c.functions@.len() && (#[trigger] c.functions@[i]@).category_path.len() > 0
                ==> split_chars(c.functions@[i]@.category_path, '/')[0]
                == c.functions@[i]@.category,
        forall|i: int, k: int|
            0 <= i < c.functions@.len() && (#[trigger] c.functions@[i]@).category_path.len() > 0
                && 0 <= k < split_chars(c.functions@[i]@.category_path, '/').len()
                ==> #[trigger] split_chars(c.functions@[i]@.category_path, '/')[k].len() > 0,
{
    assert forall|i: int|
        0 <= i < c.functions@.len() && (#[trigger] c.functions@[i]@).category_path.len() > 0
        implies split_chars(c.functions@[i]@.category_path, '/')[0]
        == c.functions@[i]@.category by {
        assert(record_wf(c.functions@[i]@));
    }
    assert forall|i: int, k: int|
        0 <= i < c.functions@.len() && (#[trigger] c.functions@[i]@).category_path.len() > 0 && 0
            <= k < split_chars(c.functions@[i]@.category_path, '/').len() implies #[trigger] split_chars(
        c.functions@[i]@.category_path,
        '/',
    )[k].len() > 0 by {
        assert(record_wf(c.functions@[i]@));
    }
}

} // verus!
