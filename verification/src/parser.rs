//! The extraction pipeline: heuristic per-file parsing, category
//! discovery, declaration fallback, manual overrides, and the order-stable
//! merge of all three sources into one catalog.
use vstd::prelude::*;

use crate::add_if_absent;
use crate::apply_override;
use crate::entries_wf;
use crate::find_function;
use crate::names_of;
use crate::record_wf;
use crate::Example;
use crate::ExampleV;
use crate::FunctionMetadata;
use crate::LibraryMetadata;
use crate::Parameter;
use crate::ParameterV;
use crate::RecordV;
use crate::patterns::block_comment_text;
use crate::patterns::doc_comment_text;
use crate::patterns::find_block_comment;
use crate::patterns::find_doc_comment;
use crate::patterns::find_header_decls;
use crate::patterns::find_line_comment;
use crate::patterns::find_proto_decl;
use crate::patterns::find_proto_def;
use crate::patterns::find_proto_loose;
use crate::patterns::header_decl_list;
use crate::patterns::html_of;
use crate::patterns::line_comment_text;
use crate::patterns::proto_decl_text;
use crate::patterns::proto_def_text;
use crate::patterns::proto_loose_text;
use crate::patterns::render_markdown;
use crate::text::clean_path_spec;
use crate::text::clean_path_str;
use crate::text::ext_of;
use crate::text::ext_spec;
use crate::text::first_seg;
use crate::text::first_segment;
use crate::text::has_sub;
use crate::text::is_blank;
use crate::text::is_blank_str;
use crate::text::is_clean_path;
use crate::text::join_chars;
use crate::text::join_str;
use crate::text::keep_nonempty;
use crate::text::lemma_clean_path_props;
use crate::text::lemma_keep_nonempty;
use crate::text::lemma_split_join;
use crate::text::lemma_single_seg;
use crate::text::lemma_split_sep_free;
use crate::text::nonempty_segments;
use crate::text::opt_view;
use crate::text::split_chars;
use crate::text::split_str;
use crate::text::stem_of;
use crate::text::stem_spec;
use crate::text::str_eq;
use crate::text::str_has_sub;
use crate::text::str_starts_with;
use crate::text::strictly_sorted;
use crate::text::sorted_insert_unique;
use crate::text::trim_lead_spec;
use crate::text::trim_spec;
use crate::text::trim_str;
use crate::text::trim_lead_char;
use crate::text::trim_trail_char;
use crate::text::trim_trail_spec;
use vstd::string::StringExecFns;

verus! {

/// One immediate subdirectory of the categories root: its name and the
/// paths of every file found beneath it.
pub struct DirListing {
    pub name: String,
    pub files: Vec<String>,
}

/// Ghost image of a `DirListing`.
pub ghost struct DirListingV {
    pub name: Seq<char>,
    pub files: Seq<Seq<char>>,
}

impl View for DirListing {
    type V = DirListingV;

    open spec fn view(&self) -> DirListingV {
        DirListingV { name: self.name@, files: self.files.deep_view() }
    }
}

/// One file from the recursive source walk: its path relative to the
/// scanned root, separated by `/`, and its text content.
pub struct SourceFile {
    pub path: String,
    pub content: String,
}

/// Ghost image of a `SourceFile`.
pub ghost struct SourceFileV {
    pub path: Seq<char>,
    pub content: Seq<char>,
}

impl View for SourceFile {
    type V = SourceFileV;

    open spec fn view(&self) -> SourceFileV {
        SourceFileV { path: self.path@, content: self.content@ }
    }
}

/// One structured override document: the stem of the file it came from
/// (the name fallback), the record it holds, and the narrative text
/// resolved from the record's manual path where that file could be read.
pub struct OverrideDoc {
    pub file_stem: String,
    pub record: FunctionMetadata,
    pub manual_text: Option<String>,
}

/// Ghost image of an `OverrideDoc`.
pub ghost struct OverrideDocV {
    pub file_stem: Seq<char>,
    pub record: RecordV,
    pub manual_text: Option<Seq<char>>,
}

impl View for OverrideDoc {
    type V = OverrideDocV;

    open spec fn view(&self) -> OverrideDocV {
        OverrideDocV {
            file_stem: self.file_stem@,
            record: self.record@,
            manual_text: opt_view(self.manual_text),
        }
    }
}

/// The heuristic parser, remembering the source tree it was made for.
pub struct LibftParser {
    source_dir: String,
}

/// Directory names that are never treated as code categories.
pub open spec fn excluded_dir(n: Seq<char>) -> bool {
    ||| n == "docs"@
    ||| n == "doc"@
    ||| n == "minilibx-linux"@
    ||| n == "target"@
    ||| n == "dist"@
    ||| n == "website"@
    ||| n == "bin"@
    ||| n == "obj"@
    ||| n == "build"@
    ||| n == ".git"@
    ||| n == ".github"@
    ||| n == ".idea"@
    ||| n == ".vscode"@
}

/// Some file in the listing is a source or header file.
pub open spec fn spec_dir_has_code(files: Seq<Seq<char>>) -> bool {
    exists|i: int|
        0 <= i < files.len() && (ext_spec(#[trigger] files[i]) == Some("c"@) || ext_spec(files[i])
            == Some("h"@))
}

/// A subdirectory counts as a category: not hidden, not in the exclusion
/// list, and holding at least one source or header file.
pub open spec fn category_dir(d: DirListingV) -> bool {
    &&& !(d.name.len() > 0 && d.name[0] == '.')
    &&& !excluded_dir(d.name)
    &&& spec_dir_has_code(d.files)
}

/// Zero or one tag, depending on whether the rule fired.
pub open spec fn opt_tag(b: bool, t: Seq<char>) -> Seq<Seq<char>> {
    if b {
        seq![t]
    } else {
        Seq::empty()
    }
}

/// The tags a function's name earns, in rule order.
pub open spec fn name_tags(n: Seq<char>) -> Seq<Seq<char>> {
    opt_tag("ft_str"@.is_prefix_of(n), "string"@) + opt_tag(
        "ft_mem"@.is_prefix_of(n),
        "memory"@,
    ) + opt_tag("ft_is"@.is_prefix_of(n), "validation"@) + opt_tag(
        "ft_to"@.is_prefix_of(n),
        "conversion"@,
    ) + opt_tag(has_sub(n, "printf"@), "output"@) + opt_tag(has_sub(n, "scanf"@), "input"@)
        + opt_tag(has_sub(n, "list"@), "linked_list"@) + opt_tag(has_sub(n, "queue"@), "queue"@)
        + opt_tag(has_sub(n, "vector"@), "vector"@) + opt_tag(has_sub(n, "matrix"@), "matrix"@)
        + opt_tag(has_sub(n, "sort"@), "sorting"@) + opt_tag(has_sub(n, "search"@), "searching"@)
        + opt_tag(has_sub(n, "map"@), "data_structure"@) + opt_tag(
        has_sub(n, "window"@),
        "graphics"@,
    ) + opt_tag(has_sub(n, "render"@), "rendering"@) + opt_tag(
        has_sub(n, "pool"@) || has_sub(n, "arena"@) || has_sub(n, "slab"@),
        "memory_management"@,
    )
}

/// The tags a file's content earns, in rule order.
pub open spec fn content_tags(c: Seq<char>) -> Seq<Seq<char>> {
    opt_tag(has_sub(c, "malloc"@), "allocation"@) + opt_tag(has_sub(c, "free"@), "cleanup"@)
        + opt_tag(has_sub(c, "while"@) || has_sub(c, "for"@), "iteration"@) + opt_tag(
        has_sub(c, "recursive"@) || has_sub(c, "recursion"@),
        "recursion"@,
    ) + opt_tag(has_sub(c, "mlx_"@), "minilibx"@) + opt_tag(has_sub(c, "pthread"@), "threading"@)
}

/// The single difficulty tag: advanced for recursion or threading,
/// intermediate for allocation or a generic data structure, basic else.
pub open spec fn difficulty_tag(n: Seq<char>, c: Seq<char>) -> Seq<char> {
    if has_sub(c, "recursive"@) || has_sub(c, "recursion"@) || has_sub(c, "pthread"@) {
        "advanced"@
    } else if has_sub(c, "malloc"@) || has_sub(n, "map"@) {
        "intermediate"@
    } else {
        "basic"@
    }
}

/// All tags of a function: name rules, content rules, then exactly one
/// difficulty tag at the end.
pub open spec fn spec_tags(n: Seq<char>, c: Seq<char>) -> Seq<Seq<char>> {
    (name_tags(n) + content_tags(c)).push(difficulty_tag(n, c))
}

/// Membership in a concatenation splits into the parts.
proof fn lemma_contains_concat(x: Seq<Seq<char>>, y: Seq<Seq<char>>, e: Seq<char>)
    ensures
        (x + y).contains(e) <==> x.contains(e) || y.contains(e),
{
    if (x + y).contains(e) {
        let w = choose|w: int| 0 <= w < (x + y).len() && (x + y)[w] == e;
        if w < x.len() {
            assert(x[w] == e);
        } else {
            assert(y[w - x.len()] == e);
        }
    }
    if x.contains(e) {
        let w = choose|w: int| 0 <= w < x.len() && x[w] == e;
        assert((x + y)[w] == e);
    }
    if y.contains(e) {
        let w = choose|w: int| 0 <= w < y.len() && y[w] == e;
        assert((x + y)[x.len() + w] == e);
    }
}

/// Membership in an optional singleton is the fired rule with that tag.
proof fn lemma_contains_opt_tag(b: bool, t: Seq<char>, e: Seq<char>)
    ensures
        opt_tag(b, t).contains(e) <==> (b && e == t),
{
    if b {
        assert(opt_tag(b, t)[0] == t);
        if opt_tag(b, t).contains(e) {
            let w = choose|w: int| 0 <= w < opt_tag(b, t).len() && opt_tag(b, t)[w] == e;
            assert(w == 0);
        }
    }
}

/// Membership in a push splits into the base and the pushed element.
proof fn lemma_contains_push(q: Seq<Seq<char>>, x: Seq<char>, e: Seq<char>)
    ensures
        q.push(x).contains(e) <==> q.contains(e) || e == x,
{
    if q.push(x).contains(e) {
        let w = choose|w: int| 0 <= w < q.push(x).len() && q.push(x)[w] == e;
        if w < q.len() {
            assert(q[w] == e);
        }
    }
    if q.contains(e) {
        let w = choose|w: int| 0 <= w < q.len() && q[w] == e;
        assert(q.push(x)[w] == e);
    }
    assert(q.push(x)[q.len() as int] == x);
}

/// Membership in a chain of 8 optional tags, over abstract rules.
#[verifier::spinoff_prover]
proof fn lemma_opt_chain8(b1: bool, t1: Seq<char>, b2: bool, t2: Seq<char>, b3: bool, t3: Seq<char>, b4: bool, t4: Seq<char>, b5: bool, t5: Seq<char>, b6: bool, t6: Seq<char>, b7: bool, t7: Seq<char>, b8: bool, t8: Seq<char>, e: Seq<char>)
    ensures
        (opt_tag(b1, t1) + opt_tag(b2, t2) + opt_tag(b3, t3) + opt_tag(b4, t4) + opt_tag(b5, t5) + opt_tag(b6, t6) + opt_tag(b7, t7) + opt_tag(b8, t8)).contains(e) <==> ((b1 && e == t1) || (b2 && e == t2) || (b3 && e == t3) || (b4 && e == t4) || (b5 && e == t5) || (b6 && e == t6) || (b7 && e == t7) || (b8 && e == t8)),
{
    let a1 = opt_tag(b1, t1);
    let a2 = opt_tag(b2, t2);
    let a3 = opt_tag(b3, t3);
    let a4 = opt_tag(b4, t4);
    let a5 = opt_tag(b5, t5);
    let a6 = opt_tag(b6, t6);
    let a7 = opt_tag(b7, t7);
    let a8 = opt_tag(b8, t8);
    lemma_contains_opt_tag(b1, t1, e);
    lemma_contains_opt_tag(b2, t2, e);
    lemma_contains_opt_tag(b3, t3, e);
    lemma_contains_opt_tag(b4, t4, e);
    lemma_contains_opt_tag(b5, t5, e);
    lemma_contains_opt_tag(b6, t6, e);
    lemma_contains_opt_tag(b7, t7, e);
    lemma_contains_opt_tag(b8, t8, e);
    assert(a1.contains(e) <==> (b1 && e == t1));
    lemma_contains_concat(a1, a2, e);
    assert((a1 + a2).contains(e) <==> ((b1 && e == t1) || (b2 && e == t2)));
    lemma_contains_concat(a1 + a2, a3, e);
    assert((a1 + a2 + a3).contains(e) <==> ((b1 && e == t1) || (b2 && e == t2) || (b3 && e == t3)));
    lemma_contains_concat(a1 + a2 + a3, a4, e);
    assert((a1 + a2 + a3 + a4).contains(e) <==> ((b1 && e == t1) || (b2 && e == t2) || (b3 && e == t3) || (b4 && e == t4)));
    lemma_contains_concat(a1 + a2 + a3 + a4, a5, e);
    assert((a1 + a2 + a3 + a4 + a5).contains(e) <==> ((b1 && e == t1) || (b2 && e == t2) || (b3 && e == t3) || (b4 && e == t4) || (b5 && e == t5)));
    lemma_contains_concat(a1 + a2 + a3 + a4 + a5, a6, e);
    assert((a1 + a2 + a3 + a4 + a5 + a6).contains(e) <==> ((b1 && e == t1) || (b2 && e == t2) || (b3 && e == t3) || (b4 && e == t4) || (b5 && e == t5) || (b6 && e == t6)));
    lemma_contains_concat(a1 + a2 + a3 + a4 + a5 + a6, a7, e);
    assert((a1 + a2 + a3 + a4 + a5 + a6 + a7).contains(e) <==> ((b1 && e == t1) || (b2 && e == t2) || (b3 && e == t3) || (b4 && e == t4) || (b5 && e == t5) || (b6 && e == t6) || (b7 && e == t7)));
    lemma_contains_concat(a1 + a2 + a3 + a4 + a5 + a6 + a7, a8, e);
    assert((a1 + a2 + a3 + a4 + a5 + a6 + a7 + a8).contains(e) <==> ((b1 && e == t1) || (b2 && e == t2) || (b3 && e == t3) || (b4 && e == t4) || (b5 && e == t5) || (b6 && e == t6) || (b7 && e == t7) || (b8 && e == t8)));
}

/// Prepending a sequence distributes membership over an eight-part chain.
#[verifier::spinoff_prover]
proof fn lemma_chain_extend8(x: Seq<Seq<char>>, q1: Seq<Seq<char>>, q2: Seq<Seq<char>>, q3: Seq<Seq<char>>, q4: Seq<Seq<char>>, q5: Seq<Seq<char>>, q6: Seq<Seq<char>>, q7: Seq<Seq<char>>, q8: Seq<Seq<char>>, e: Seq<char>)
    ensures
        (x + q1 + q2 + q3 + q4 + q5 + q6 + q7 + q8).contains(e) <==> (x.contains(e) || (q1 + q2 + q3 + q4 + q5 + q6 + q7 + q8).contains(e)),
{
    lemma_contains_concat(x, q1, e);
    lemma_contains_concat(x + q1, q2, e);
    lemma_contains_concat(q1, q2, e);
    lemma_contains_concat(x + q1 + q2, q3, e);
    lemma_contains_concat(q1 + q2, q3, e);
    lemma_contains_concat(x + q1 + q2 + q3, q4, e);
    lemma_contains_concat(q1 + q2 + q3, q4, e);
    lemma_contains_concat(x + q1 + q2 + q3 + q4, q5, e);
    lemma_contains_concat(q1 + q2 + q3 + q4, q5, e);
    lemma_contains_concat(x + q1 + q2 + q3 + q4 + q5, q6, e);
    lemma_contains_concat(q1 + q2 + q3 + q4 + q5, q6, e);
    lemma_contains_concat(x + q1 + q2 + q3 + q4 + q5 + q6, q7, e);
    lemma_contains_concat(q1 + q2 + q3 + q4 + q5 + q6, q7, e);
    lemma_contains_concat(x + q1 + q2 + q3 + q4 + q5 + q6 + q7, q8, e);
    lemma_contains_concat(q1 + q2 + q3 + q4 + q5 + q6 + q7, q8, e);
}

/// Membership in a chain of 16 optional tags, over abstract rules.
#[verifier::rlimit(100)]
#[verifier::spinoff_prover]
proof fn lemma_opt_chain16(b1: bool, t1: Seq<char>, b2: bool, t2: Seq<char>, b3: bool, t3: Seq<char>, b4: bool, t4: Seq<char>, b5: bool, t5: Seq<char>, b6: bool, t6: Seq<char>, b7: bool, t7: Seq<char>, b8: bool, t8: Seq<char>, b9: bool, t9: Seq<char>, b10: bool, t10: Seq<char>, b11: bool, t11: Seq<char>, b12: bool, t12: Seq<char>, b13: bool, t13: Seq<char>, b14: bool, t14: Seq<char>, b15: bool, t15: Seq<char>, b16: bool, t16: Seq<char>, e: Seq<char>)
    ensures
        (opt_tag(b1, t1) + opt_tag(b2, t2) + opt_tag(b3, t3) + opt_tag(b4, t4) + opt_tag(b5, t5) + opt_tag(b6, t6) + opt_tag(b7, t7) + opt_tag(b8, t8) + opt_tag(b9, t9) + opt_tag(b10, t10) + opt_tag(b11, t11) + opt_tag(b12, t12) + opt_tag(b13, t13) + opt_tag(b14, t14) + opt_tag(b15, t15) + opt_tag(b16, t16)).contains(e) <==> ((b1 && e == t1) || (b2 && e == t2) || (b3 && e == t3) || (b4 && e == t4) || (b5 && e == t5) || (b6 && e == t6) || (b7 && e == t7) || (b8 && e == t8) || (b9 && e == t9) || (b10 && e == t10) || (b11 && e == t11) || (b12 && e == t12) || (b13 && e == t13) || (b14 && e == t14) || (b15 && e == t15) || (b16 && e == t16)),
{
    lemma_opt_chain8(b1, t1, b2, t2, b3, t3, b4, t4, b5, t5, b6, t6, b7, t7, b8, t8, e);
    lemma_opt_chain8(b9, t9, b10, t10, b11, t11, b12, t12, b13, t13, b14, t14, b15, t15, b16, t16, e);
    lemma_chain_extend8(opt_tag(b1, t1) + opt_tag(b2, t2) + opt_tag(b3, t3) + opt_tag(b4, t4) + opt_tag(b5, t5) + opt_tag(b6, t6) + opt_tag(b7, t7) + opt_tag(b8, t8), opt_tag(b9, t9), opt_tag(b10, t10), opt_tag(b11, t11), opt_tag(b12, t12), opt_tag(b13, t13), opt_tag(b14, t14), opt_tag(b15, t15), opt_tag(b16, t16), e);
}

/// Membership in a chain of 6 optional tags, over abstract rules.
proof fn lemma_opt_chain6(b1: bool, t1: Seq<char>, b2: bool, t2: Seq<char>, b3: bool, t3: Seq<char>, b4: bool, t4: Seq<char>, b5: bool, t5: Seq<char>, b6: bool, t6: Seq<char>, e: Seq<char>)
    ensures
        (opt_tag(b1, t1) + opt_tag(b2, t2) + opt_tag(b3, t3) + opt_tag(b4, t4) + opt_tag(b5, t5) + opt_tag(b6, t6)).contains(e) <==> ((b1 && e == t1) || (b2 && e == t2) || (b3 && e == t3) || (b4 && e == t4) || (b5 && e == t5) || (b6 && e == t6)),
{
    let a1 = opt_tag(b1, t1);
    let a2 = opt_tag(b2, t2);
    let a3 = opt_tag(b3, t3);
    let a4 = opt_tag(b4, t4);
    let a5 = opt_tag(b5, t5);
    let a6 = opt_tag(b6, t6);
    lemma_contains_opt_tag(b1, t1, e);
    lemma_contains_opt_tag(b2, t2, e);
    lemma_contains_opt_tag(b3, t3, e);
    lemma_contains_opt_tag(b4, t4, e);
    lemma_contains_opt_tag(b5, t5, e);
    lemma_contains_opt_tag(b6, t6, e);
    assert(a1.contains(e) <==> (b1 && e == t1));
    lemma_contains_concat(a1, a2, e);
    assert((a1 + a2).contains(e) <==> ((b1 && e == t1) || (b2 && e == t2)));
    lemma_contains_concat(a1 + a2, a3, e);
    assert((a1 + a2 + a3).contains(e) <==> ((b1 && e == t1) || (b2 && e == t2) || (b3 && e == t3)));
    lemma_contains_concat(a1 + a2 + a3, a4, e);
    assert((a1 + a2 + a3 + a4).contains(e) <==> ((b1 && e == t1) || (b2 && e == t2) || (b3 && e == t3) || (b4 && e == t4)));
    lemma_contains_concat(a1 + a2 + a3 + a4, a5, e);
    assert((a1 + a2 + a3 + a4 + a5).contains(e) <==> ((b1 && e == t1) || (b2 && e == t2) || (b3 && e == t3) || (b4 && e == t4) || (b5 && e == t5)));
    lemma_contains_concat(a1 + a2 + a3 + a4 + a5, a6, e);
    assert((a1 + a2 + a3 + a4 + a5 + a6).contains(e) <==> ((b1 && e == t1) || (b2 && e == t2) || (b3 && e == t3) || (b4 && e == t4) || (b5 && e == t5) || (b6 && e == t6)));
}

/// Whether the name rules contribute the "recursion" tag.
#[verifier::rlimit(100)]
#[verifier::spinoff_prover]
proof fn lemma_recursion_name(n: Seq<char>)
    ensures
        name_tags(n).contains("recursion"@) <==> (false),
{
    reveal_strlit("conversion");
    reveal_strlit("data_structure");
    reveal_strlit("graphics");
    reveal_strlit("input");
    reveal_strlit("linked_list");
    reveal_strlit("matrix");
    reveal_strlit("memory");
    reveal_strlit("memory_management");
    reveal_strlit("output");
    reveal_strlit("queue");
    reveal_strlit("recursion");
    reveal_strlit("rendering");
    reveal_strlit("searching");
    reveal_strlit("sorting");
    reveal_strlit("string");
    reveal_strlit("validation");
    reveal_strlit("vector");
    assert("conversion"@.len() == 10);
    assert("data_structure"@.len() == 14);
    assert("graphics"@.len() == 8);
    assert("input"@.len() == 5);
    assert("linked_list"@.len() == 11);
    assert("matrix"@.len() == 6);
    assert("memory"@.len() == 6);
    assert("memory_management"@.len() == 17);
    assert("output"@.len() == 6);
    assert("queue"@.len() == 5);
    assert("recursion"@.len() == 9);
    assert("rendering"@.len() == 9);
    assert("searching"@.len() == 9);
    assert("sorting"@.len() == 7);
    assert("string"@.len() == 6);
    assert("validation"@.len() == 10);
    assert("vector"@.len() == 6);
    assert("recursion"@[0] == 'r');
    assert("rendering"@[0] == 'r');
    assert("searching"@[0] == 's');
    assert("recursion"@[2] == 'c');
    assert("rendering"@[2] == 'n');
    let e = "recursion"@;
    lemma_opt_chain16("ft_str"@.is_prefix_of(n), "string"@, "ft_mem"@.is_prefix_of(n), "memory"@, "ft_is"@.is_prefix_of(n), "validation"@, "ft_to"@.is_prefix_of(n), "conversion"@, has_sub(n, "printf"@), "output"@, has_sub(n, "scanf"@), "input"@, has_sub(n, "list"@), "linked_list"@, has_sub(n, "queue"@), "queue"@, has_sub(n, "vector"@), "vector"@, has_sub(n, "matrix"@), "matrix"@, has_sub(n, "sort"@), "sorting"@, has_sub(n, "search"@), "searching"@, has_sub(n, "map"@), "data_structure"@, has_sub(n, "window"@), "graphics"@, has_sub(n, "render"@), "rendering"@, has_sub(n, "pool"@) || has_sub(n, "arena"@) || has_sub(n, "slab"@), "memory_management"@, e);
}

/// Whether the content rules contribute the "recursion" tag.
#[verifier::rlimit(100)]
#[verifier::spinoff_prover]
proof fn lemma_recursion_content(c: Seq<char>)
    ensures
        content_tags(c).contains("recursion"@) <==> ((has_sub(c, "recursive"@) || has_sub(c, "recursion"@))),
{
    reveal_strlit("allocation");
    reveal_strlit("cleanup");
    reveal_strlit("iteration");
    reveal_strlit("minilibx");
    reveal_strlit("recursion");
    reveal_strlit("threading");
    assert("allocation"@.len() == 10);
    assert("cleanup"@.len() == 7);
    assert("iteration"@.len() == 9);
    assert("minilibx"@.len() == 8);
    assert("recursion"@.len() == 9);
    assert("threading"@.len() == 9);
    assert("iteration"@[0] == 'i');
    assert("recursion"@[0] == 'r');
    let e = "recursion"@;
    lemma_opt_chain6(has_sub(c, "malloc"@), "allocation"@, has_sub(c, "free"@), "cleanup"@, has_sub(c, "while"@) || has_sub(c, "for"@), "iteration"@, has_sub(c, "recursive"@) || has_sub(c, "recursion"@), "recursion"@, has_sub(c, "mlx_"@), "minilibx"@, has_sub(c, "pthread"@), "threading"@, e);
}

/// The "recursion" tag is present exactly when its rule fired.
#[verifier::rlimit(100)]
#[verifier::spinoff_prover]
proof fn lemma_contains_recursion(n: Seq<char>, c: Seq<char>)
    ensures
        spec_tags(n, c).contains("recursion"@) <==> (has_sub(c, "recursive"@) || has_sub(c, "recursion"@)),
{
    reveal_strlit("advanced");
    reveal_strlit("basic");
    reveal_strlit("intermediate");
    reveal_strlit("recursion");
    assert("advanced"@.len() == 8);
    assert("basic"@.len() == 5);
    assert("intermediate"@.len() == 12);
    assert("recursion"@.len() == 9);
    let e = "recursion"@;
    lemma_recursion_name(n);
    lemma_recursion_content(c);
    lemma_contains_concat(name_tags(n), content_tags(c), e);
    lemma_contains_push(name_tags(n) + content_tags(c), difficulty_tag(n, c), e);
    assert(e != difficulty_tag(n, c));
}

/// Whether the name rules contribute the "threading" tag.
#[verifier::rlimit(100)]
#[verifier::spinoff_prover]
proof fn lemma_threading_name(n: Seq<char>)
    ensures
        name_tags(n).contains("threading"@) <==> (false),
{
    reveal_strlit("conversion");
    reveal_strlit("data_structure");
    reveal_strlit("graphics");
    reveal_strlit("input");
    reveal_strlit("linked_list");
    reveal_strlit("matrix");
    reveal_strlit("memory");
    reveal_strlit("memory_management");
    reveal_strlit("output");
    reveal_strlit("queue");
    reveal_strlit("rendering");
    reveal_strlit("searching");
    reveal_strlit("sorting");
    reveal_strlit("string");
    reveal_strlit("threading");
    reveal_strlit("validation");
    reveal_strlit("vector");
    assert("conversion"@.len() == 10);
    assert("data_structure"@.len() == 14);
    assert("graphics"@.len() == 8);
    assert("input"@.len() == 5);
    assert("linked_list"@.len() == 11);
    assert("matrix"@.len() == 6);
    assert("memory"@.len() == 6);
    assert("memory_management"@.len() == 17);
    assert("output"@.len() == 6);
    assert("queue"@.len() == 5);
    assert("rendering"@.len() == 9);
    assert("searching"@.len() == 9);
    assert("sorting"@.len() == 7);
    assert("string"@.len() == 6);
    assert("threading"@.len() == 9);
    assert("validation"@.len() == 10);
    assert("vector"@.len() == 6);
    assert("rendering"@[0] == 'r');
    assert("searching"@[0] == 's');
    assert("threading"@[0] == 't');
    let e = "threading"@;
    lemma_opt_chain16("ft_str"@.is_prefix_of(n), "string"@, "ft_mem"@.is_prefix_of(n), "memory"@, "ft_is"@.is_prefix_of(n), "validation"@, "ft_to"@.is_prefix_of(n), "conversion"@, has_sub(n, "printf"@), "output"@, has_sub(n, "scanf"@), "input"@, has_sub(n, "list"@), "linked_list"@, has_sub(n, "queue"@), "queue"@, has_sub(n, "vector"@), "vector"@, has_sub(n, "matrix"@), "matrix"@, has_sub(n, "sort"@), "sorting"@, has_sub(n, "search"@), "searching"@, has_sub(n, "map"@), "data_structure"@, has_sub(n, "window"@), "graphics"@, has_sub(n, "render"@), "rendering"@, has_sub(n, "pool"@) || has_sub(n, "arena"@) || has_sub(n, "slab"@), "memory_management"@, e);
}

/// Whether the content rules contribute the "threading" tag.
#[verifier::rlimit(100)]
#[verifier::spinoff_prover]
proof fn lemma_threading_content(c: Seq<char>)
    ensures
        content_tags(c).contains("threading"@) <==> ((has_sub(c, "pthread"@))),
{
    reveal_strlit("allocation");
    reveal_strlit("cleanup");
    reveal_strlit("iteration");
    reveal_strlit("minilibx");
    reveal_strlit("recursion");
    reveal_strlit("threading");
    assert("allocation"@.len() == 10);
    assert("cleanup"@.len() == 7);
    assert("iteration"@.len() == 9);
    assert("minilibx"@.len() == 8);
    assert("recursion"@.len() == 9);
    assert("threading"@.len() == 9);
    assert("iteration"@[0] == 'i');
    assert("recursion"@[0] == 'r');
    assert("threading"@[0] == 't');
    let e = "threading"@;
    lemma_opt_chain6(has_sub(c, "malloc"@), "allocation"@, has_sub(c, "free"@), "cleanup"@, has_sub(c, "while"@) || has_sub(c, "for"@), "iteration"@, has_sub(c, "recursive"@) || has_sub(c, "recursion"@), "recursion"@, has_sub(c, "mlx_"@), "minilibx"@, has_sub(c, "pthread"@), "threading"@, e);
}

/// The "threading" tag is present exactly when its rule fired.
#[verifier::rlimit(100)]
#[verifier::spinoff_prover]
proof fn lemma_contains_threading(n: Seq<char>, c: Seq<char>)
    ensures
        spec_tags(n, c).contains("threading"@) <==> (has_sub(c, "pthread"@)),
{
    reveal_strlit("advanced");
    reveal_strlit("basic");
    reveal_strlit("intermediate");
    reveal_strlit("threading");
    assert("advanced"@.len() == 8);
    assert("basic"@.len() == 5);
    assert("intermediate"@.len() == 12);
    assert("threading"@.len() == 9);
    let e = "threading"@;
    lemma_threading_name(n);
    lemma_threading_content(c);
    lemma_contains_concat(name_tags(n), content_tags(c), e);
    lemma_contains_push(name_tags(n) + content_tags(c), difficulty_tag(n, c), e);
    assert(e != difficulty_tag(n, c));
}

/// Whether the name rules contribute the "allocation" tag.
#[verifier::rlimit(100)]
#[verifier::spinoff_prover]
proof fn lemma_allocation_name(n: Seq<char>)
    ensures
        name_tags(n).contains("allocation"@) <==> (false),
{
    reveal_strlit("allocation");
    reveal_strlit("conversion");
    reveal_strlit("data_structure");
    reveal_strlit("graphics");
    reveal_strlit("input");
    reveal_strlit("linked_list");
    reveal_strlit("matrix");
    reveal_strlit("memory");
    reveal_strlit("memory_management");
    reveal_strlit("output");
    reveal_strlit("queue");
    reveal_strlit("rendering");
    reveal_strlit("searching");
    reveal_strlit("sorting");
    reveal_strlit("string");
    reveal_strlit("validation");
    reveal_strlit("vector");
    assert("allocation"@.len() == 10);
    assert("conversion"@.len() == 10);
    assert("data_structure"@.len() == 14);
    assert("graphics"@.len() == 8);
    assert("input"@.len() == 5);
    assert("linked_list"@.len() == 11);
    assert("matrix"@.len() == 6);
    assert("memory"@.len() == 6);
    assert("memory_management"@.len() == 17);
    assert("output"@.len() == 6);
    assert("queue"@.len() == 5);
    assert("rendering"@.len() == 9);
    assert("searching"@.len() == 9);
    assert("sorting"@.len() == 7);
    assert("string"@.len() == 6);
    assert("validation"@.len() == 10);
    assert("vector"@.len() == 6);
    assert("allocation"@[0] == 'a');
    assert("conversion"@[0] == 'c');
    assert("validation"@[0] == 'v');
    let e = "allocation"@;
    lemma_opt_chain16("ft_str"@.is_prefix_of(n), "string"@, "ft_mem"@.is_prefix_of(n), "memory"@, "ft_is"@.is_prefix_of(n), "validation"@, "ft_to"@.is_prefix_of(n), "conversion"@, has_sub(n, "printf"@), "output"@, has_sub(n, "scanf"@), "input"@, has_sub(n, "list"@), "linked_list"@, has_sub(n, "queue"@), "queue"@, has_sub(n, "vector"@), "vector"@, has_sub(n, "matrix"@), "matrix"@, has_sub(n, "sort"@), "sorting"@, has_sub(n, "search"@), "searching"@, has_sub(n, "map"@), "data_structure"@, has_sub(n, "window"@), "graphics"@, has_sub(n, "render"@), "rendering"@, has_sub(n, "pool"@) || has_sub(n, "arena"@) || has_sub(n, "slab"@), "memory_management"@, e);
}

/// Whether the content rules contribute the "allocation" tag.
#[verifier::rlimit(100)]
#[verifier::spinoff_prover]
proof fn lemma_allocation_content(c: Seq<char>)
    ensures
        content_tags(c).contains("allocation"@) <==> ((has_sub(c, "malloc"@))),
{
    reveal_strlit("allocation");
    reveal_strlit("cleanup");
    reveal_strlit("iteration");
    reveal_strlit("minilibx");
    reveal_strlit("recursion");
    reveal_strlit("threading");
    assert("allocation"@.len() == 10);
    assert("cleanup"@.len() == 7);
    assert("iteration"@.len() == 9);
    assert("minilibx"@.len() == 8);
    assert("recursion"@.len() == 9);
    assert("threading"@.len() == 9);
    assert("allocation"@[0] == 'a');
    let e = "allocation"@;
    lemma_opt_chain6(has_sub(c, "malloc"@), "allocation"@, has_sub(c, "free"@), "cleanup"@, has_sub(c, "while"@) || has_sub(c, "for"@), "iteration"@, has_sub(c, "recursive"@) || has_sub(c, "recursion"@), "recursion"@, has_sub(c, "mlx_"@), "minilibx"@, has_sub(c, "pthread"@), "threading"@, e);
}

/// The "allocation" tag is present exactly when its rule fired.
#[verifier::rlimit(100)]
#[verifier::spinoff_prover]
proof fn lemma_contains_allocation(n: Seq<char>, c: Seq<char>)
    ensures
        spec_tags(n, c).contains("allocation"@) <==> (has_sub(c, "malloc"@)),
{
    reveal_strlit("advanced");
    reveal_strlit("allocation");
    reveal_strlit("basic");
    reveal_strlit("intermediate");
    assert("advanced"@.len() == 8);
    assert("allocation"@.len() == 10);
    assert("basic"@.len() == 5);
    assert("intermediate"@.len() == 12);
    let e = "allocation"@;
    lemma_allocation_name(n);
    lemma_allocation_content(c);
    lemma_contains_concat(name_tags(n), content_tags(c), e);
    lemma_contains_push(name_tags(n) + content_tags(c), difficulty_tag(n, c), e);
    assert(e != difficulty_tag(n, c));
}

/// If the name holds the generic-container marker, the
/// "data_structure" tag is among the tags.
#[verifier::spinoff_prover]
proof fn lemma_contains_data_structure(n: Seq<char>, c: Seq<char>)
    requires
        has_sub(n, "map"@),
    ensures
        spec_tags(n, c).contains("data_structure"@),
{
    let e = "data_structure"@;
    let a13 = opt_tag(has_sub(n, "map"@), e);
    lemma_contains_opt_tag(has_sub(n, "map"@), e, e);
    assert(a13.contains(e));
    let s12 = opt_tag("ft_str"@.is_prefix_of(n), "string"@) + opt_tag(
        "ft_mem"@.is_prefix_of(n),
        "memory"@,
    ) + opt_tag("ft_is"@.is_prefix_of(n), "validation"@) + opt_tag(
        "ft_to"@.is_prefix_of(n),
        "conversion"@,
    ) + opt_tag(has_sub(n, "printf"@), "output"@) + opt_tag(has_sub(n, "scanf"@), "input"@)
        + opt_tag(has_sub(n, "list"@), "linked_list"@) + opt_tag(has_sub(n, "queue"@), "queue"@)
        + opt_tag(has_sub(n, "vector"@), "vector"@) + opt_tag(has_sub(n, "matrix"@), "matrix"@)
        + opt_tag(has_sub(n, "sort"@), "sorting"@) + opt_tag(has_sub(n, "search"@), "searching"@);
    lemma_contains_concat(s12, a13, e);
    lemma_contains_concat(s12 + a13, opt_tag(has_sub(n, "window"@), "graphics"@), e);
    lemma_contains_concat(
        s12 + a13 + opt_tag(has_sub(n, "window"@), "graphics"@),
        opt_tag(has_sub(n, "render"@), "rendering"@),
        e,
    );
    lemma_contains_concat(
        s12 + a13 + opt_tag(has_sub(n, "window"@), "graphics"@) + opt_tag(
            has_sub(n, "render"@),
            "rendering"@,
        ),
        opt_tag(
            has_sub(n, "pool"@) || has_sub(n, "arena"@) || has_sub(n, "slab"@),
            "memory_management"@,
        ),
        e,
    );
    assert(name_tags(n).contains(e));
    lemma_contains_concat(name_tags(n), content_tags(c), e);
    lemma_contains_push(name_tags(n) + content_tags(c), difficulty_tag(n, c), e);
}

/// Difficulty law: a tag set with a recursion or threading marker always
/// ends in the "advanced" difficulty; one with none of the recursion,
/// threading, allocation or data-structure markers always ends in
/// "basic". The difficulty tag is always the last element.
pub proof fn lemma_difficulty(n: Seq<char>, c: Seq<char>)
    ensures
        spec_tags(n, c).len() > 0,
        spec_tags(n, c).last() == difficulty_tag(n, c),
        spec_tags(n, c).contains("recursion"@) || spec_tags(n, c).contains("threading"@)
            ==> spec_tags(n, c).last() == "advanced"@,
        !spec_tags(n, c).contains("recursion"@) && !spec_tags(n, c).contains("threading"@)
            && !spec_tags(n, c).contains("allocation"@) && !spec_tags(n, c).contains(
            "data_structure"@,
        ) ==> spec_tags(n, c).last() == "basic"@,
{
    lemma_contains_recursion(n, c);
    lemma_contains_threading(n, c);
    lemma_contains_allocation(n, c);
    if has_sub(n, "map"@) {
        lemma_contains_data_structure(n, c);
    }
}

/// Appends the tag to the list exactly when the rule fired.
fn push_tag(tags: &mut Vec<String>, cond: bool, tag: &str)
    ensures
        final(tags).deep_view() == old(tags).deep_view() + opt_tag(cond, tag@),
{
    let ghost olddv = tags.deep_view();
    if cond {
        tags.push(tag.to_owned());
        proof {
            assert(tags.deep_view() =~= olddv + opt_tag(cond, tag@));
        }
    } else {
        proof {
            assert(tags.deep_view() =~= olddv + opt_tag(cond, tag@));
        }
    }
}

/// One heuristically cleaned comment line: trimmed, with leading comment
/// stars removed.
pub open spec fn clean_line(l: Seq<char>) -> Seq<char> {
    trim_spec(trim_lead_spec(trim_spec(l), '*'))
}

/// A cleaned line survives when it is nonempty and not a decoration line.
pub open spec fn keep_line(l: Seq<char>) -> bool {
    l.len() > 0 && !has_sub(l, "****************"@) && !has_sub(l, ":::      ::::::::"@)
}

/// The cleaned lines that survive the decoration filter, in order.
pub open spec fn kept_lines(ls: Seq<Seq<char>>) -> Seq<Seq<char>>
    decreases ls.len(),
{
    if ls.len() == 0 {
        Seq::empty()
    } else {
        (if keep_line(clean_line(ls[0])) {
            seq![clean_line(ls[0])]
        } else {
            Seq::<Seq<char>>::empty()
        }) + kept_lines(ls.drop_first())
    }
}

/// A comment body flattened to one line: cleaned lines joined by spaces.
pub open spec fn clean_comment(t: Seq<char>) -> Seq<char> {
    join_chars(kept_lines(split_chars(t, '\n')), ' ')
}

/// A comment match is accepted when its cleaned text is long enough.
pub open spec fn comment_accepted(o: Option<Seq<char>>) -> bool {
    match o {
        Some(t) => clean_comment(t).len() > 10,
        None => false,
    }
}

/// The description extracted from file content: the first accepted match
/// of the three comment shapes, cleaned, or the fixed placeholder.
pub open spec fn spec_description(c: Seq<char>) -> Seq<char> {
    if comment_accepted(doc_comment_text(c)) {
        clean_comment(doc_comment_text(c).unwrap())
    } else if comment_accepted(block_comment_text(c)) {
        clean_comment(block_comment_text(c).unwrap())
    } else if comment_accepted(line_comment_text(c)) {
        clean_comment(line_comment_text(c).unwrap())
    } else {
        "No description available."@
    }
}

/// Flattens one comment body: cleans each line, drops decorations, joins
/// the survivors with single spaces.
pub fn clean_comment_str(t: &str) -> (r: String)
    ensures
        r@ == clean_comment(t@),
{
    let lines = split_str(t, '\n');
    let ghost dv = lines.deep_view();
    let mut kept: Vec<String> = Vec::new();
    let mut i: usize = 0;
    assert(dv.skip(0) =~= dv);
    while i < lines.len()
        invariant
            i <= lines@.len(),
            dv == lines.deep_view(),
            dv.len() == lines@.len(),
            kept_lines(dv) =~= kept.deep_view() + kept_lines(dv.skip(i as int)),
        decreases lines@.len() - i,
    {
        proof {
            assert(dv.skip(i as int)[0] == dv[i as int]);
            assert(dv.skip(i as int).drop_first() =~= dv.skip(i + 1));
            assert(dv[i as int] == lines@[i as int]@);
        }
        let t1 = trim_str(lines[i].as_str());
        let t2 = trim_lead_char(t1.as_str(), '*');
        let cl = trim_str(t2.as_str());
        let keep = !cl.as_str().is_empty() && !str_has_sub(cl.as_str(), "****************")
            && !str_has_sub(cl.as_str(), ":::      ::::::::");
        if keep {
            kept.push(cl);
            proof {
                assert(kept.deep_view() =~= kept.deep_view().drop_last().push(
                    clean_line(dv[i as int]),
                ));
            }
        }
        i += 1;
    }
    assert(dv.skip(dv.len() as int) =~= Seq::<Seq<char>>::empty());
    assert(kept.deep_view() =~= kept_lines(split_chars(t@, '\n')));
    join_str(&kept, ' ')
}

/// A prototype match after trimming: trailing braces, then trailing
/// semicolons, then surrounding whitespace.
pub open spec fn proto_trim(m: Seq<char>) -> Seq<char> {
    trim_spec(trim_trail_spec(trim_trail_spec(m, '{'), ';'))
}

/// A match is accepted when, trimmed, it is longer than the bare name.
pub open spec fn proto_ok(o: Option<Seq<char>>, name: Seq<char>) -> bool {
    match o {
        Some(m) => proto_trim(m).len() > 0 && proto_trim(m).len() > name.len(),
        None => false,
    }
}

/// The prototype extracted for `name` from `content`: the first accepted
/// match of the three patterns, trimmed, or the synthesized placeholder.
pub open spec fn spec_prototype(content: Seq<char>, name: Seq<char>) -> Seq<char> {
    if proto_ok(proto_def_text(content, name), name) {
        proto_trim(proto_def_text(content, name).unwrap())
    } else if proto_ok(proto_decl_text(content, name), name) {
        proto_trim(proto_decl_text(content, name).unwrap())
    } else if proto_ok(proto_loose_text(content, name), name) {
        proto_trim(proto_loose_text(content, name).unwrap())
    } else {
        "/* Function: "@ + name + " */"@
    }
}

/// The tags earned by the function name's rules, in order.
#[verifier::rlimit(100)]
#[verifier::spinoff_prover]
fn name_tags_vec(func_name: &str) -> (r: Vec<String>)
    ensures
        r.deep_view() == name_tags(func_name@),
{
    let mut tags: Vec<String> = Vec::new();
    push_tag(&mut tags, str_starts_with(func_name, "ft_str"), "string");
    proof {
        assert(tags.deep_view() =~= opt_tag("ft_str"@.is_prefix_of(func_name@), "string"@));
    }
    push_tag(&mut tags, str_starts_with(func_name, "ft_mem"), "memory");
    push_tag(&mut tags, str_starts_with(func_name, "ft_is"), "validation");
    push_tag(&mut tags, str_starts_with(func_name, "ft_to"), "conversion");
    push_tag(&mut tags, str_has_sub(func_name, "printf"), "output");
    push_tag(&mut tags, str_has_sub(func_name, "scanf"), "input");
    push_tag(&mut tags, str_has_sub(func_name, "list"), "linked_list");
    push_tag(&mut tags, str_has_sub(func_name, "queue"), "queue");
    push_tag(&mut tags, str_has_sub(func_name, "vector"), "vector");
    push_tag(&mut tags, str_has_sub(func_name, "matrix"), "matrix");
    push_tag(&mut tags, str_has_sub(func_name, "sort"), "sorting");
    push_tag(&mut tags, str_has_sub(func_name, "search"), "searching");
    push_tag(&mut tags, str_has_sub(func_name, "map"), "data_structure");
    push_tag(&mut tags, str_has_sub(func_name, "window"), "graphics");
    push_tag(&mut tags, str_has_sub(func_name, "render"), "rendering");
    let pool = str_has_sub(func_name, "pool") || str_has_sub(func_name, "arena") || str_has_sub(
        func_name,
        "slab",
    );
    push_tag(&mut tags, pool, "memory_management");
    tags
}

/// The tags earned by the file content's rules, in order.
#[verifier::rlimit(100)]
#[verifier::spinoff_prover]
fn content_tags_vec(content: &str) -> (r: Vec<String>)
    ensures
        r.deep_view() == content_tags(content@),
{
    let mut tags: Vec<String> = Vec::new();
    push_tag(&mut tags, str_has_sub(content, "malloc"), "allocation");
    proof {
        assert(tags.deep_view() =~= opt_tag(has_sub(content@, "malloc"@), "allocation"@));
    }
    push_tag(&mut tags, str_has_sub(content, "free"), "cleanup");
    let looping = str_has_sub(content, "while") || str_has_sub(content, "for");
    push_tag(&mut tags, looping, "iteration");
    let recursive = str_has_sub(content, "recursive") || str_has_sub(content, "recursion");
    push_tag(&mut tags, recursive, "recursion");
    push_tag(&mut tags, str_has_sub(content, "mlx_"), "minilibx");
    push_tag(&mut tags, str_has_sub(content, "pthread"), "threading");
    tags
}


/// The path segments relative to the categories root, when the file lies
/// beneath it: with a `libft` root the leading `libft` segment is
/// stripped, and a file outside it has no relative form.
pub open spec fn rel_segs(has_libft: bool, path: Seq<char>) -> Option<Seq<Seq<char>>> {
    let segs = keep_nonempty(split_chars(path, '/'));
    if has_libft {
        if segs.len() > 0 && segs[0] == "libft"@ {
            Some(segs.drop_first())
        } else {
            None
        }
    } else {
        Some(segs)
    }
}

/// The top-level category of a file: the first segment of its relative
/// path, or "misc" when there is none.
pub open spec fn spec_category(has_libft: bool, path: Seq<char>) -> Seq<char> {
    match rel_segs(has_libft, path) {
        Some(r) => if r.len() > 0 {
            r[0]
        } else {
            "misc"@
        },
        None => "misc"@,
    }
}

/// The nested category path of a file: its parent segments joined by the
/// separator, falling back to the top-level category.
pub open spec fn spec_category_path(has_libft: bool, path: Seq<char>) -> Seq<char> {
    match rel_segs(has_libft, path) {
        Some(r) => if r.len() > 1 {
            join_chars(r.take(r.len() - 1), '/')
        } else {
            spec_category(has_libft, path)
        },
        None => "misc"@,
    }
}

/// The derived category fields always satisfy the record invariant.
pub proof fn lemma_category_wf(has_libft: bool, path: Seq<char>)
    ensures
        spec_category(has_libft, path).len() > 0,
        spec_category_path(has_libft, path).len() > 0,
        is_clean_path(spec_category_path(has_libft, path)),
        first_seg(spec_category_path(has_libft, path)) == spec_category(has_libft, path),
{
    reveal_strlit("misc");
    assert("misc"@.len() == 4);
    assert("misc"@[0] == 'm');
    assert("misc"@[1] == 'i');
    assert("misc"@[2] == 's');
    assert("misc"@[3] == 'c');
    lemma_single_seg("misc"@);
    lemma_split_sep_free(path, '/');
    lemma_keep_nonempty(split_chars(path, '/'), '/');
    let segs = keep_nonempty(split_chars(path, '/'));
    match rel_segs(has_libft, path) {
        Some(r) => {
            assert forall|i: int| 0 <= i < r.len() implies r[i].len() > 0 && (forall|j: int|
                0 <= j < r[i].len() ==> r[i][j] != '/') by {
                if has_libft {
                    assert(r[i] == segs[i + 1]);
                } else {
                    assert(r[i] == segs[i]);
                }
            }
            if r.len() > 1 {
                let parents = r.take(r.len() - 1);
                assert forall|i: int, j: int|
                    0 <= i < parents.len() && 0 <= j < parents[i].len() implies parents[i][j]
                    != '/' by {
                    assert(parents[i] == r[i]);
                }
                lemma_split_join(parents, '/');
                let joined = join_chars(parents, '/');
                assert(split_chars(joined, '/') == parents);
                assert(parents[0] == r[0]);
                assert(joined.len() > 0) by {
                    if parents.len() == 1 {
                        assert(joined == parents[0]);
                    } else {
                        assert(joined == parents[0] + seq!['/'] + join_chars(
                            parents.drop_first(),
                            '/',
                        ));
                    }
                }
            } else if r.len() == 1 {
                lemma_single_seg(r[0]);
            }
        },
        None => {},
    }
}

/// The fixed placeholder for an unknown return value.
pub open spec fn placeholder_return() -> Seq<char> {
    "Return value description not available."@
}

/// The generated placeholder example for a function name.
pub open spec fn spec_example(n: Seq<char>) -> ExampleV {
    ExampleV {
        title: "Basic usage of "@ + n,
        code: "// Example usage of "@ + n + "\n// TODO: Add real example"@,
        output: None,
    }
}

/// The record synthesized for an implementation file.
pub open spec fn spec_impl_record(has_libft: bool, path: Seq<char>, content: Seq<char>) -> RecordV {
    RecordV {
        name: stem_spec(path),
        category: spec_category(has_libft, path),
        category_path: spec_category_path(has_libft, path),
        tags: spec_tags(stem_spec(path), content),
        prototype: spec_prototype(content, stem_spec(path)),
        description: spec_description(content),
        parameters: Seq::empty(),
        return_value: placeholder_return(),
        examples: seq![spec_example(stem_spec(path))],
        complexity: None,
        notes: Seq::empty(),
        see_also: Seq::empty(),
        updated_at: None,
        author_role: None,
        related: Seq::empty(),
        manual_path: None,
        manual_html: None,
    }
}

/// The record synthesized for one matched header declaration.
pub open spec fn spec_header_record(
    has_libft: bool,
    path: Seq<char>,
    content: Seq<char>,
    fname: Seq<char>,
    m0: Seq<char>,
) -> RecordV {
    RecordV {
        name: fname,
        category: spec_category(has_libft, path),
        category_path: spec_category_path(has_libft, path),
        tags: spec_tags(fname, content),
        prototype: trim_trail_spec(trim_spec(m0), ';'),
        description: spec_description(content),
        parameters: Seq::empty(),
        return_value: placeholder_return(),
        examples: seq![spec_example(fname)],
        complexity: None,
        notes: Seq::empty(),
        see_also: Seq::empty(),
        updated_at: None,
        author_role: None,
        related: Seq::empty(),
        manual_path: None,
        manual_html: None,
    }
}


/// The ghost images of a record list, in order.
pub open spec fn rec_views(fs: Seq<FunctionMetadata>) -> Seq<RecordV> {
    Seq::new(fs.len(), |i: int| fs[i]@)
}

/// The ghost images of a discovery order, in order.
pub open spec fn ord_views(os: Seq<String>) -> Seq<Seq<char>> {
    Seq::new(os.len(), |i: int| os[i]@)
}

/// The ghost images of the walked files, in order.
pub open spec fn file_views(fs: Seq<SourceFile>) -> Seq<SourceFileV> {
    Seq::new(fs.len(), |i: int| fs[i]@)
}

/// The ghost images of the override documents, in order.
pub open spec fn doc_views(ds: Seq<OverrideDoc>) -> Seq<OverrideDocV> {
    Seq::new(ds.len(), |i: int| ds[i]@)
}

/// Some record in the list bears this name.
pub open spec fn v_has(rs: Seq<RecordV>, n: Seq<char>) -> bool {
    exists|i: int| 0 <= i < rs.len() && #[trigger] rs[i].name == n
}

/// The first index bearing this name, or the length if absent.
pub open spec fn v_first(rs: Seq<RecordV>, n: Seq<char>) -> int
    decreases rs.len(),
{
    if rs.len() == 0 {
        0
    } else if rs[0].name == n {
        0
    } else {
        1 + v_first(rs.drop_first(), n)
    }
}

/// What `v_first` returns, characterised without recursion.
proof fn lemma_v_first(rs: Seq<RecordV>, n: Seq<char>)
    ensures
        v_has(rs, n) ==> 0 <= v_first(rs, n) < rs.len() && rs[v_first(rs, n)].name == n,
        !v_has(rs, n) ==> v_first(rs, n) == rs.len(),
        forall|j: int| 0 <= j < v_first(rs, n) && j < rs.len() ==> rs[j].name != n,
    decreases rs.len(),
{
    if rs.len() > 0 && rs[0].name != n {
        lemma_v_first(rs.drop_first(), n);
        assert forall|j: int|
            0 <= j < v_first(rs, n) && j < rs.len() implies rs[j].name != n by {
            if j > 0 {
                assert(rs.drop_first()[j - 1] == rs[j]);
            }
        }
        if v_has(rs, n) {
            let w = choose|w: int| 0 <= w < rs.len() && rs[w].name == n;
            assert(rs.drop_first()[w - 1].name == n);
            assert(v_has(rs.drop_first(), n));
            assert(rs[v_first(rs, n)] == rs.drop_first()[v_first(rs.drop_first(), n)]);
        } else {
            if v_has(rs.drop_first(), n) {
                let w = choose|w: int|
                    0 <= w < rs.drop_first().len() && rs.drop_first()[w].name == n;
                assert(rs[w + 1].name == n);
                assert(false);
            }
        }
    }
}

/// A merge state: the record images and the discovery-order names.
/// Appending a record only when its name is new.
pub open spec fn v_add(s: (Seq<RecordV>, Seq<Seq<char>>), r: RecordV) -> (
    Seq<RecordV>,
    Seq<Seq<char>>,
) {
    if v_has(s.0, r.name) {
        s
    } else {
        (s.0.push(r), s.1.push(r.name))
    }
}

/// Replacing the record of the same name in place, or appending it; the
/// discovery order never moves an existing name.
pub open spec fn v_put(s: (Seq<RecordV>, Seq<Seq<char>>), r: RecordV) -> (
    Seq<RecordV>,
    Seq<Seq<char>>,
) {
    if v_has(s.0, r.name) {
        (s.0.update(v_first(s.0, r.name), r), s.1)
    } else {
        (s.0.push(r), s.1.push(r.name))
    }
}

/// The implementation pass over one walked file: a `.c` file away from
/// the entry point yields a record, first discovery winning.
pub open spec fn impl_step(
    s: (Seq<RecordV>, Seq<Seq<char>>),
    f: SourceFileV,
    has_libft: bool,
) -> (Seq<RecordV>, Seq<Seq<char>>) {
    if ext_spec(f.path) == Some("c"@) && !has_sub(f.path, "main.c"@) {
        v_add(s, spec_impl_record(has_libft, f.path, f.content))
    } else {
        s
    }
}

/// The implementation pass over the whole walk, in order.
pub open spec fn impl_pass(
    s: (Seq<RecordV>, Seq<Seq<char>>),
    files: Seq<SourceFileV>,
    has_libft: bool,
) -> (Seq<RecordV>, Seq<Seq<char>>)
    decreases files.len(),
{
    if files.len() == 0 {
        s
    } else {
        impl_pass(impl_step(s, files[0], has_libft), files.drop_first(), has_libft)
    }
}

/// The declaration fallback over the matches of one header, in order:
/// each missing name gains a synthesized record.
pub open spec fn decls_fold(
    s: (Seq<RecordV>, Seq<Seq<char>>),
    has_libft: bool,
    path: Seq<char>,
    content: Seq<char>,
    ds: Seq<(Seq<char>, Seq<char>)>,
) -> (Seq<RecordV>, Seq<Seq<char>>)
    decreases ds.len(),
{
    if ds.len() == 0 {
        s
    } else {
        decls_fold(
            v_add(s, spec_header_record(has_libft, path, content, ds[0].1, ds[0].0)),
            has_libft,
            path,
            content,
            ds.drop_first(),
        )
    }
}

/// The declaration pass over one walked file: only headers contribute.
pub open spec fn header_step(
    s: (Seq<RecordV>, Seq<Seq<char>>),
    f: SourceFileV,
    has_libft: bool,
) -> (Seq<RecordV>, Seq<Seq<char>>) {
    if ext_spec(f.path) == Some("h"@) {
        decls_fold(s, has_libft, f.path, f.content, header_decl_list(f.content))
    } else {
        s
    }
}

/// The declaration pass over the whole walk, in order.
pub open spec fn header_pass(
    s: (Seq<RecordV>, Seq<Seq<char>>),
    files: Seq<SourceFileV>,
    has_libft: bool,
) -> (Seq<RecordV>, Seq<Seq<char>>)
    decreases files.len(),
{
    if files.len() == 0 {
        s
    } else {
        header_pass(header_step(s, files[0], has_libft), files.drop_first(), has_libft)
    }
}

/// One override document normalized: the name falls back to the file
/// stem, either category field fills the other, the nested path is
/// cleaned, and a resolved narrative is rendered to HTML.
pub open spec fn spec_normalize(d: OverrideDocV) -> RecordV {
    let cp0 = if is_blank(d.record.category_path) && !is_blank(d.record.category) {
        clean_path_spec(d.record.category)
    } else {
        clean_path_spec(d.record.category_path)
    };
    let cp = if is_blank(cp0) {
        Seq::<char>::empty()
    } else {
        cp0
    };
    RecordV {
        name: if is_blank(d.record.name) {
            d.file_stem
        } else {
            d.record.name
        },
        category: if cp.len() > 0 {
            first_seg(cp)
        } else {
            "misc"@
        },
        category_path: cp,
        tags: d.record.tags,
        prototype: d.record.prototype,
        description: d.record.description,
        parameters: d.record.parameters,
        return_value: d.record.return_value,
        examples: d.record.examples,
        complexity: d.record.complexity,
        notes: d.record.notes,
        see_also: d.record.see_also,
        updated_at: d.record.updated_at,
        author_role: d.record.author_role,
        related: d.record.related,
        manual_path: d.record.manual_path,
        manual_html: match d.manual_text {
            Some(t) => Some(html_of(t)),
            None => d.record.manual_html,
        },
    }
}

/// A normalized override record satisfies the record invariant.
proof fn lemma_normalize_wf(d: OverrideDocV)
    ensures
        record_wf(spec_normalize(d)),
{
    reveal_strlit("misc");
    assert("misc"@.len() == 4);
    lemma_clean_path_props(d.record.category_path);
    lemma_clean_path_props(d.record.category);
}

/// Replacing by name within the override mapping alone.
pub open spec fn ov_put(rs: Seq<RecordV>, r: RecordV) -> Seq<RecordV> {
    if v_has(rs, r.name) {
        rs.update(v_first(rs, r.name), r)
    } else {
        rs.push(r)
    }
}

/// The override mapping built from the documents in load order: later
/// documents for the same name fully replace earlier ones.
pub open spec fn ov_fold(rs: Seq<RecordV>, ds: Seq<OverrideDocV>) -> Seq<RecordV>
    decreases ds.len(),
{
    if ds.len() == 0 {
        rs
    } else {
        ov_fold(ov_put(rs, spec_normalize(ds[0])), ds.drop_first())
    }
}

/// The override mapping is well formed: unique names, records valid.
pub open spec fn ov_wf(rs: Seq<RecordV>) -> bool {
    &&& forall|i: int, j: int| 0 <= i < j < rs.len() ==> #[trigger] rs[i].name != #[trigger] rs[j].name
    &&& forall|i: int| 0 <= i < rs.len() ==> record_wf(#[trigger] rs[i])
}

/// The override pass over the catalog: each override replaces in place
/// or appends at the end of the discovery order.
pub open spec fn override_pass(
    s: (Seq<RecordV>, Seq<Seq<char>>),
    ovs: Seq<RecordV>,
) -> (Seq<RecordV>, Seq<Seq<char>>)
    decreases ovs.len(),
{
    if ovs.len() == 0 {
        s
    } else {
        override_pass(v_put(s, ovs[0]), ovs.drop_first())
    }
}

/// The final merge state of the whole pipeline on the given inputs:
/// implementation files, then declaration fallback, then overrides.
pub open spec fn spec_pipeline(
    files: Seq<SourceFileV>,
    docs: Seq<OverrideDocV>,
    has_libft: bool,
) -> (Seq<RecordV>, Seq<Seq<char>>) {
    let s1 = impl_pass((Seq::empty(), Seq::empty()), files, has_libft);
    let s2 = header_pass(s1, files, has_libft);
    override_pass(s2, ov_fold(Seq::empty(), docs))
}

/// Name lookup agrees between the record list and its ghost image.
proof fn lemma_names_bridge(fs: Seq<FunctionMetadata>, n: Seq<char>)
    ensures
        names_of(fs).contains(n) <==> v_has(rec_views(fs), n),
{
    if names_of(fs).contains(n) {
        let w = choose|w: int| 0 <= w < names_of(fs).len() && names_of(fs)[w] == n;
        assert(rec_views(fs)[w].name == n);
    }
    if v_has(rec_views(fs), n) {
        let w = choose|w: int| 0 <= w < rec_views(fs).len() && rec_views(fs)[w].name == n;
        assert(names_of(fs)[w] == n);
    }
}

/// What `add_if_absent` did, expressed on the ghost state.
proof fn lemma_add_matches(
    prefs: Seq<FunctionMetadata>,
    preord: Seq<String>,
    postfs: Seq<FunctionMetadata>,
    postord: Seq<String>,
    rec: FunctionMetadata,
)
    requires
        names_of(prefs).contains(rec.name@) ==> postfs == prefs && postord == preord,
        !names_of(prefs).contains(rec.name@) ==> postfs == prefs.push(rec) && postord.len()
            == preord.len() + 1 && postord.subrange(0, preord.len() as int) == preord
            && postord.last()@ == rec.name@,
    ensures
        (rec_views(postfs), ord_views(postord)) == v_add(
            (rec_views(prefs), ord_views(preord)),
            rec@,
        ),
{
    lemma_names_bridge(prefs, rec.name@);
    if !names_of(prefs).contains(rec.name@) {
        assert forall|k: int|
            0 <= k < rec_views(postfs).len() implies rec_views(postfs)[k] == rec_views(
            prefs,
        ).push(rec@)[k] by {
            if k < prefs.len() {
                assert(postfs[k] == prefs[k]);
            } else {
                assert(postfs[k] == rec);
            }
        }
        assert(rec_views(postfs) =~= rec_views(prefs).push(rec@));
        assert forall|k: int|
            0 <= k < ord_views(postord).len() implies ord_views(postord)[k] == ord_views(
            preord,
        ).push(rec@.name)[k] by {
            if k < preord.len() {
                assert(postord.subrange(0, preord.len() as int)[k] == postord[k]);
                assert(postord[k] == preord[k]);
            } else {
                assert(postord[k] == postord.last());
            }
        }
        assert(ord_views(postord) =~= ord_views(preord).push(rec@.name));
    }
}

/// `v_first` is the unique first index bearing the name.
proof fn lemma_v_first_is(rs: Seq<RecordV>, n: Seq<char>, i: int)
    requires
        0 <= i < rs.len(),
        rs[i].name == n,
        forall|j: int| 0 <= j < i ==> rs[j].name != n,
    ensures
        v_first(rs, n) == i,
    decreases rs.len(),
{
    if i > 0 {
        assert forall|j: int| 0 <= j < i - 1 implies rs.drop_first()[j].name != n by {
            assert(rs.drop_first()[j] == rs[j + 1]);
        }
        assert(rs.drop_first()[i - 1] == rs[i]);
        lemma_v_first_is(rs.drop_first(), n, i - 1);
    }
}

/// Order-stability law: applying an override for a name already present
/// leaves the discovery order untouched, so the name keeps its index.
pub proof fn lemma_order_stable(s: (Seq<RecordV>, Seq<Seq<char>>), r: RecordV)
    requires
        v_has(s.0, r.name),
    ensures
        v_put(s, r).1 == s.1,
{
}

/// Precedence law: after an override is applied, the record stored under
/// its name is exactly the override's content, whatever a declaration
/// fallback or an implementation parse put there before.
pub proof fn lemma_override_precedence(s: (Seq<RecordV>, Seq<Seq<char>>), r: RecordV)
    ensures
        v_has(v_put(s, r).0, r.name),
        v_put(s, r).0[v_first(v_put(s, r).0, r.name)] == r,
{
    lemma_v_first(s.0, r.name);
    if v_has(s.0, r.name) {
        let w = v_first(s.0, r.name);
        let ns = s.0.update(w, r);
        assert(ns[w].name == r.name);
        assert(v_has(ns, r.name));
        assert forall|j: int| 0 <= j < w implies ns[j].name != r.name by {
            assert(ns[j] == s.0[j]);
        }
        lemma_v_first_is(ns, r.name, w);
    } else {
        let ns = s.0.push(r);
        assert(ns[s.0.len() as int] == r);
        assert(v_has(ns, r.name));
        assert forall|j: int| 0 <= j < s.0.len() implies ns[j].name != r.name by {
            assert(ns[j] == s.0[j]);
            if s.0[j].name == r.name {
                assert(v_has(s.0, r.name));
            }
        }
        lemma_v_first_is(ns, r.name, s.0.len() as int);
    }
}

/// What `apply_override` did, expressed on the ghost state.
proof fn lemma_put_matches(
    prefs: Seq<FunctionMetadata>,
    preord: Seq<String>,
    postfs: Seq<FunctionMetadata>,
    postord: Seq<String>,
    rec: FunctionMetadata,
)
    requires
        entries_wf(prefs, preord),
        forall|i: int|
            0 <= i < prefs.len() && prefs[i].name@ != rec.name@ ==> postfs[i] == #[trigger] prefs[i],
        forall|i: int|
            0 <= i < prefs.len() && #[trigger] prefs[i].name@ == rec.name@ ==> postfs[i] == rec,
        names_of(prefs).contains(rec.name@) ==> postfs.len() == prefs.len() && postord == preord,
        !names_of(prefs).contains(rec.name@) ==> postfs == prefs.push(rec) && postord.len()
            == preord.len() + 1 && postord.subrange(0, preord.len() as int) == preord
            && postord.last()@ == rec.name@,
    ensures
        (rec_views(postfs), ord_views(postord)) == v_put(
            (rec_views(prefs), ord_views(preord)),
            rec@,
        ),
{
    lemma_names_bridge(prefs, rec.name@);
    lemma_v_first(rec_views(prefs), rec@.name);
    if names_of(prefs).contains(rec.name@) {
        let w = v_first(rec_views(prefs), rec@.name);
        assert(rec_views(prefs)[w].name == rec@.name);
        assert(prefs[w].name@ == rec.name@);
        assert forall|k: int|
            0 <= k < rec_views(postfs).len() implies rec_views(postfs)[k] == rec_views(
            prefs,
        ).update(w, rec@)[k] by {
            if k == w {
                assert(postfs[k] == rec);
            } else {
                assert(rec_views(prefs)[k].name == prefs[k].name@);
                if prefs[k].name@ == rec.name@ {
                    if k < w {
                        assert(prefs[k].name@ != prefs[w].name@);
                    } else {
                        assert(prefs[w].name@ != prefs[k].name@);
                    }
                    assert(false);
                }
                assert(postfs[k] == prefs[k]);
            }
        }
        assert(rec_views(postfs) =~= rec_views(prefs).update(w, rec@));
    } else {
        lemma_add_matches(prefs, preord, postfs, postord, rec);
    }
}

/// First-match law for prototype extraction: when a pattern yields a
/// match whose trimmed text is longer than the bare name, and every
/// earlier pattern did not, the extracted prototype is exactly that
/// match with trailing braces, semicolons and surrounding whitespace
/// removed — in particular longer than the bare name, so never the
/// synthesized placeholder; only when all three fail is the placeholder
/// returned.
pub proof fn lemma_prototype_first_match(content: Seq<char>, name: Seq<char>)
    ensures
        proto_ok(proto_def_text(content, name), name) ==> spec_prototype(content, name)
            == proto_trim(proto_def_text(content, name).unwrap()) && spec_prototype(
            content,
            name,
        ).len() > name.len(),
        !proto_ok(proto_def_text(content, name), name) && proto_ok(
            proto_decl_text(content, name),
            name,
        ) ==> spec_prototype(content, name) == proto_trim(proto_decl_text(content, name).unwrap())
            && spec_prototype(content, name).len() > name.len(),
        !proto_ok(proto_def_text(content, name), name) && !proto_ok(
            proto_decl_text(content, name),
            name,
        ) && proto_ok(proto_loose_text(content, name), name) ==> spec_prototype(content, name)
            == proto_trim(proto_loose_text(content, name).unwrap()) && spec_prototype(
            content,
            name,
        ).len() > name.len(),
        !proto_ok(proto_def_text(content, name), name) && !proto_ok(
            proto_decl_text(content, name),
            name,
        ) && !proto_ok(proto_loose_text(content, name), name) ==> spec_prototype(content, name)
            == "/* Function: "@ + name + " */"@,
{
}

impl LibftParser {
    /// The source directory this parser was made for.
    pub closed spec fn dir_view(&self) -> Seq<char> {
        self.source_dir@
    }

    /// Makes a parser for the given source directory.
    pub fn new(source_dir: String) -> (r: Self)
        ensures
            r.dir_view() == source_dir@,
    {
        Self { source_dir }
    }

    /// The directory that categories are read from: the conventional
    /// `libft` subdirectory when the caller found one, else the source
    /// directory itself.
    pub fn categories_root(&self, libft_is_dir: bool) -> (r: String)
        ensures
            libft_is_dir ==> r@ == self.dir_view() + "/libft"@,
            !libft_is_dir ==> r@ == self.dir_view(),
    {
        if libft_is_dir {
            self.source_dir.clone().concat("/libft")
        } else {
            self.source_dir.clone()
        }
    }

    /// Whether some file beneath a directory is a `.c` or `.h` file.
    pub fn dir_has_code(&self, files: &Vec<String>) -> (r: bool)
        ensures
            r == spec_dir_has_code(files.deep_view()),
    {
        let n = files.len();
        let mut i: usize = 0;
        while i < n
            invariant
                i <= n,
                n == files@.len(),
                forall|j: int|
                    0 <= j < i ==> !(ext_spec(#[trigger] files.deep_view()[j]) == Some("c"@)
                        || ext_spec(files.deep_view()[j]) == Some("h"@)),
            decreases n - i,
        {
            proof {
                assert(files.deep_view()[i as int] == files@[i as int]@);
            }
            let is_code = match ext_of(files[i].as_str()) {
                Some(e) => str_eq(e.as_str(), "c") || str_eq(e.as_str(), "h"),
                None => false,
            };
            if is_code {
                proof {
                    assert(ext_spec(files.deep_view()[i as int]) == Some("c"@) || ext_spec(
                        files.deep_view()[i as int],
                    ) == Some("h"@));
                }
                return true;
            }
            i += 1;
        }
        false
    }

    /// Collects the names of the immediate subdirectories that count as
    /// categories, sorted and without duplicates.
    pub fn discover_categories(&self, entries: &Vec<DirListing>) -> (r: Vec<String>)
        ensures
            strictly_sorted(r.deep_view()),
            forall|x: Seq<char>|
                #[trigger] r.deep_view().contains(x) <==> exists|i: int|
                    0 <= i < entries@.len() && category_dir(#[trigger] entries@[i]@) && entries@[i]@.name
                        == x,
    {
        let n = entries.len();
        let mut cats: Vec<String> = Vec::new();
        let mut i: usize = 0;
        while i < n
            invariant
                i <= n,
                n == entries@.len(),
                strictly_sorted(cats.deep_view()),
                forall|x: Seq<char>|
                    #[trigger] cats.deep_view().contains(x) <==> exists|j: int|
                        0 <= j < i && category_dir(#[trigger] entries@[j]@) && entries@[j]@.name
                            == x,
            decreases n - i,
        {
            let e = &entries[i];
            let hidden = match e.name.as_str().unicode_len() {
                0 => false,
                _ => e.name.as_str().get_char(0) == '.',
            };
            let is_excluded = str_eq(e.name.as_str(), "docs") || str_eq(e.name.as_str(), "doc")
                || str_eq(e.name.as_str(), "minilibx-linux") || str_eq(e.name.as_str(), "target")
                || str_eq(e.name.as_str(), "dist") || str_eq(e.name.as_str(), "website") || str_eq(
                e.name.as_str(),
                "bin",
            ) || str_eq(e.name.as_str(), "obj") || str_eq(e.name.as_str(), "build") || str_eq(
                e.name.as_str(),
                ".git",
            ) || str_eq(e.name.as_str(), ".github") || str_eq(e.name.as_str(), ".idea") || str_eq(
                e.name.as_str(),
                ".vscode",
            );
            if !hidden && !is_excluded {
                if self.dir_has_code(&e.files) {
                    proof {
                        assert(category_dir(entries@[i as int]@));
                    }
                    sorted_insert_unique(&mut cats, e.name.clone());
                }
            }
            i += 1;
        }
        cats
    }

    /// Derives the tag list for one function from its name and content:
    /// the fixed name and content rules in order, then the difficulty tag.
    #[verifier::spinoff_prover]
    pub fn generate_tags(&self, func_name: &str, content: &str) -> (r: Vec<String>)
        ensures
            r.deep_view() == spec_tags(func_name@, content@),
    {
        let mut tags = name_tags_vec(func_name);
        let mut ctags = content_tags_vec(content);
        let has_malloc = str_has_sub(content, "malloc");
        let recursive = str_has_sub(content, "recursive") || str_has_sub(content, "recursion");
        let threaded = str_has_sub(content, "pthread");
        let has_map = str_has_sub(func_name, "map");
        tags.append(&mut ctags);
        proof {
            assert(tags.deep_view() =~= name_tags(func_name@) + content_tags(content@));
        }
        let difficulty = if recursive || threaded {
            "advanced"
        } else if has_malloc || has_map {
            "intermediate"
        } else {
            "basic"
        };
        tags.push(difficulty.to_owned());
        proof {
            assert(tags.deep_view() =~= (name_tags(func_name@) + content_tags(content@)).push(
                difficulty_tag(func_name@, content@),
            ));
        }
        tags
    }

    /// Extracts the leading documentation comment of a file: the first of
    /// the three comment shapes whose cleaned text is long enough, or the
    /// fixed placeholder.
    pub fn extract_description(&self, content: &str) -> (r: String)
        ensures
            r@ == spec_description(content@),
    {
        match find_doc_comment(content) {
            Some(t) => {
                let d = clean_comment_str(t.as_str());
                if d.as_str().unicode_len() > 10 {
                    return d;
                }
            },
            None => {},
        }
        match find_block_comment(content) {
            Some(t) => {
                let d = clean_comment_str(t.as_str());
                if d.as_str().unicode_len() > 10 {
                    return d;
                }
            },
            None => {},
        }
        match find_line_comment(content) {
            Some(t) => {
                let d = clean_comment_str(t.as_str());
                if d.as_str().unicode_len() > 10 {
                    return d;
                }
            },
            None => {},
        }
        "No description available.".to_owned()
    }

    /// Extracts the prototype text for `func_name`: the first of the
    /// three patterns whose trimmed match is longer than the bare name,
    /// or the synthesized placeholder.
    pub fn extract_function_prototype(&self, content: &str, func_name: &str) -> (r: String)
        ensures
            r@ == spec_prototype(content@, func_name@),
    {
        let nlen = func_name.unicode_len();
        match find_proto_def(content, func_name) {
            Some(m) => {
                let p1 = trim_trail_char(m.as_str(), '{');
                let p2 = trim_trail_char(p1.as_str(), ';');
                let p = trim_str(p2.as_str());
                if !p.as_str().is_empty() && p.as_str().unicode_len() > nlen {
                    return p;
                }
            },
            None => {},
        }
        match find_proto_decl(content, func_name) {
            Some(m) => {
                let p1 = trim_trail_char(m.as_str(), '{');
                let p2 = trim_trail_char(p1.as_str(), ';');
                let p = trim_str(p2.as_str());
                if !p.as_str().is_empty() && p.as_str().unicode_len() > nlen {
                    return p;
                }
            },
            None => {},
        }
        match find_proto_loose(content, func_name) {
            Some(m) => {
                let p1 = trim_trail_char(m.as_str(), '{');
                let p2 = trim_trail_char(p1.as_str(), ';');
                let p = trim_str(p2.as_str());
                if !p.as_str().is_empty() && p.as_str().unicode_len() > nlen {
                    return p;
                }
            },
            None => {},
        }
        let s = "/* Function: ".to_owned();
        let s = s.concat(func_name);
        s.concat(" */")
    }

    /// The file's path segments relative to the categories root, if any.
    fn rel_segments(&self, has_libft: bool, path: &str) -> (r: Option<Vec<String>>)
        ensures
            match r {
                Some(v) => rel_segs(has_libft, path@) == Some(v.deep_view()),
                None => rel_segs(has_libft, path@) is None,
            },
    {
        let kept = nonempty_segments(path);
        let ghost dv = kept.deep_view();
        if has_libft {
            if kept.len() > 0 && str_eq(kept[0].as_str(), "libft") {
                let mut rest: Vec<String> = Vec::new();
                let mut i: usize = 1;
                while i < kept.len()
                    invariant
                        1 <= i <= kept@.len(),
                        dv == kept.deep_view(),
                        dv.len() == kept@.len(),
                        rest.deep_view() =~= dv.subrange(1, i as int),
                    decreases kept@.len() - i,
                {
                    let ghost prevdv = rest.deep_view();
                    let ghost prevv = rest@;
                    rest.push(kept[i].clone());
                    proof {
                        assert forall|k: int|
                            0 <= k < rest.deep_view().len() implies rest.deep_view()[k]
                            == prevdv.push(dv[i as int])[k] by {
                            assert(rest.deep_view()[k] == rest@[k]@);
                            if k < prevdv.len() {
                                assert(rest@[k] == prevv[k]);
                                assert(prevdv[k] == prevv[k]@);
                            } else {
                                assert(rest@[k] == kept@[i as int]);
                                assert(dv[i as int] == kept@[i as int]@);
                            }
                        }
                        assert(rest.deep_view() =~= prevdv.push(dv[i as int]));
                        assert(prevdv.push(dv[i as int]) =~= dv.subrange(1, i + 1));
                    }
                    i += 1;
                }
                proof {
                    assert(dv.subrange(1, dv.len() as int) =~= dv.drop_first());
                    assert(dv[0] == "libft"@);
                }
                Some(rest)
            } else {
                proof {
                    if kept@.len() > 0 {
                        assert(dv[0] == kept@[0]@);
                    }
                }
                None
            }
        } else {
            Some(kept)
        }
    }

    /// The top-level category derived from a file's path.
    pub fn extract_category_from_path(&self, has_libft: bool, path: &str) -> (r: String)
        ensures
            r@ == spec_category(has_libft, path@),
    {
        match self.rel_segments(has_libft, path) {
            Some(v) => {
                if v.len() > 0 {
                    proof {
                        assert(v.deep_view()[0] == v@[0]@);
                    }
                    v[0].clone()
                } else {
                    "misc".to_owned()
                }
            },
            None => "misc".to_owned(),
        }
    }

    /// The nested category path derived from a file's path.
    pub fn extract_category_path_from_path(&self, has_libft: bool, path: &str) -> (r: String)
        ensures
            r@ == spec_category_path(has_libft, path@),
    {
        match self.rel_segments(has_libft, path) {
            Some(mut v) => {
                if v.len() > 1 {
                    let n = v.len();
                    v.truncate(n - 1);
                    proof {
                        assert(v.deep_view() =~= rel_segs(has_libft, path@).unwrap().take(
                            n - 1,
                        ));
                    }
                    join_str(&v, '/')
                } else {
                    self.extract_category_from_path(has_libft, path)
                }
            },
            None => "misc".to_owned(),
        }
    }


    /// Parameter extraction is not implemented: the list is reserved for
    /// future use and always empty.
    pub fn extract_parameters(&self, content: &str) -> (r: Vec<Parameter>)
        ensures
            r@.len() == 0,
    {
        let _ = content;
        Vec::new()
    }

    /// The return-value text is not extracted: a fixed placeholder.
    pub fn extract_return_value(&self, content: &str) -> (r: String)
        ensures
            r@ == placeholder_return(),
    {
        let _ = content;
        "Return value description not available.".to_owned()
    }

    /// Generates the single placeholder example keyed by the function
    /// name.
    pub fn generate_examples(&self, func_name: &str) -> (r: Vec<Example>)
        ensures
            r@.len() == 1,
            r@[0]@ == spec_example(func_name@),
    {
        let title = "Basic usage of ".to_owned().concat(func_name);
        let code = "// Example usage of ".to_owned().concat(func_name).concat(
            "\n// TODO: Add real example",
        );
        let mut examples: Vec<Example> = Vec::new();
        examples.push(Example { title, code, output: None });
        examples
    }

    /// No complexity annotation is extracted.
    pub fn extract_complexity(&self, content: &str) -> (r: Option<String>)
        ensures
            r is None,
    {
        let _ = content;
        None
    }

    /// No notes are extracted.
    pub fn extract_notes(&self, content: &str) -> (r: Vec<String>)
        ensures
            r@.len() == 0,
    {
        let _ = content;
        Vec::new()
    }

    /// No cross-references are derived.
    pub fn extract_see_also(&self, func_name: &str) -> (r: Vec<String>)
        ensures
            r@.len() == 0,
    {
        let _ = func_name;
        Vec::new()
    }

    /// Builds the catalog record for one implementation file.
    pub fn parse_c_file(&self, has_libft: bool, path: &str, content: &str) -> (r: FunctionMetadata)
        ensures
            r@ == spec_impl_record(has_libft, path@, content@),
            record_wf(r@),
    {
        let name = stem_of(path);
        let category = self.extract_category_from_path(has_libft, path);
        let category_path = self.extract_category_path_from_path(has_libft, path);
        let tags = self.generate_tags(name.as_str(), content);
        let prototype = self.extract_function_prototype(content, name.as_str());
        let description = self.extract_description(content);
        let parameters = self.extract_parameters(content);
        let return_value = self.extract_return_value(content);
        let examples = self.generate_examples(name.as_str());
        let complexity = self.extract_complexity(content);
        let notes = self.extract_notes(content);
        let see_also = self.extract_see_also(name.as_str());
        let r = FunctionMetadata {
            name,
            category,
            category_path,
            tags,
            prototype,
            description,
            parameters,
            return_value,
            examples,
            complexity,
            notes,
            see_also,
            updated_at: None,
            author_role: None,
            related: Vec::new(),
            manual_path: None,
            manual_html: None,
        };
        proof {
            lemma_category_wf(has_libft, path@);
            assert(r@.parameters =~= Seq::<ParameterV>::empty());
            assert(r@.examples =~= seq![spec_example(stem_spec(path@))]);
            assert(r@.notes =~= Seq::<Seq<char>>::empty());
            assert(r@.see_also =~= Seq::<Seq<char>>::empty());
            assert(r@.related =~= Seq::<Seq<char>>::empty());
            assert(r@ == spec_impl_record(has_libft, path@, content@));
        }
        r
    }

    /// Builds the catalog record for one matched header declaration.
    pub fn build_header_record(
        &self,
        has_libft: bool,
        path: &str,
        content: &str,
        fname: &str,
        m0: &str,
    ) -> (r: FunctionMetadata)
        ensures
            r@ == spec_header_record(has_libft, path@, content@, fname@, m0@),
            record_wf(r@),
    {
        let category = self.extract_category_from_path(has_libft, path);
        let category_path = self.extract_category_path_from_path(has_libft, path);
        let tags = self.generate_tags(fname, content);
        let t1 = trim_str(m0);
        let prototype = trim_trail_char(t1.as_str(), ';');
        let description = self.extract_description(content);
        let title = "Basic usage of ".to_owned().concat(fname);
        let code = "// Example usage of ".to_owned().concat(fname).concat(
            "\n// TODO: Add real example",
        );
        let mut examples: Vec<Example> = Vec::new();
        examples.push(Example { title, code, output: None });
        let r = FunctionMetadata {
            name: fname.to_owned(),
            category,
            category_path,
            tags,
            prototype,
            description,
            parameters: Vec::new(),
            return_value: "Return value description not available.".to_owned(),
            examples,
            complexity: None,
            notes: Vec::new(),
            see_also: Vec::new(),
            updated_at: None,
            author_role: None,
            related: Vec::new(),
            manual_path: None,
            manual_html: None,
        };
        proof {
            lemma_category_wf(has_libft, path@);
            assert(r@.parameters =~= Seq::<ParameterV>::empty());
            assert(r@.examples =~= seq![spec_example(fname@)]);
            assert(r@.notes =~= Seq::<Seq<char>>::empty());
            assert(r@.see_also =~= Seq::<Seq<char>>::empty());
            assert(r@.related =~= Seq::<Seq<char>>::empty());
            assert(r@ == spec_header_record(has_libft, path@, content@, fname@, m0@));
        }
        r
    }

    /// Scans one header for declaration matches and synthesizes a record
    /// for every declared function not yet recorded, appending each new
    /// name to the discovery order.
    pub fn parse_header_file(
        &self,
        has_libft: bool,
        path: &str,
        content: &str,
        functions: &mut Vec<FunctionMetadata>,
        order: &mut Vec<String>,
    )
        requires
            entries_wf(old(functions)@, old(order)@),
        ensures
            entries_wf(final(functions)@, final(order)@),
            (rec_views(final(functions)@), ord_views(final(order)@)) == decls_fold(
                (rec_views(old(functions)@), ord_views(old(order)@)),
                has_libft,
                path@,
                content@,
                header_decl_list(content@),
            ),
    {
        let decls = find_header_decls(content);
        let ghost all = header_decl_list(content@);
        let ghost init = (rec_views(functions@), ord_views(order@));
        let mut i: usize = 0;
        assert(all.skip(0) =~= all);
        while i < decls.len()
            invariant
                i <= decls@.len(),
                decls@.len() == all.len(),
                forall|k: int|
                    0 <= k < decls@.len() ==> (#[trigger] decls@[k].0@, decls@[k].1@) == all[k],
                entries_wf(functions@, order@),
                decls_fold(
                    (rec_views(functions@), ord_views(order@)),
                    has_libft,
                    path@,
                    content@,
                    all.skip(i as int),
                ) == decls_fold(init, has_libft, path@, content@, all),
            decreases decls@.len() - i,
        {
            proof {
                assert(all.skip(i as int)[0] == all[i as int]);
                assert(all.skip(i as int).drop_first() =~= all.skip(i + 1));
                assert((decls@[i as int].0@, decls@[i as int].1@) == all[i as int]);
            }
            let m0 = decls[i].0.clone();
            let fname = decls[i].1.clone();
            let rec = self.build_header_record(
                has_libft,
                path,
                content,
                fname.as_str(),
                m0.as_str(),
            );
            let ghost prefs = functions@;
            let ghost preord = order@;
            add_if_absent(functions, order, rec);
            proof {
                lemma_add_matches(prefs, preord, functions@, order@, rec);
            }
            i += 1;
        }
        proof {
            assert(all.skip(all.len() as int) =~= Seq::<(Seq<char>, Seq<char>)>::empty());
        }
    }

    /// Normalizes one override document into a complete record.
    fn normalize_override(&self, doc: OverrideDoc) -> (r: FunctionMetadata)
        ensures
            r@ == spec_normalize(doc@),
            record_wf(r@),
    {
        let ghost dv = doc@;
        let stem = doc.file_stem;
        let mut rec = doc.record;
        let mt = doc.manual_text;
        if is_blank_str(rec.name.as_str()) {
            rec.name = stem;
        }
        let cp0 = if is_blank_str(rec.category_path.as_str()) && !is_blank_str(
            rec.category.as_str(),
        ) {
            clean_path_str(rec.category.as_str())
        } else {
            clean_path_str(rec.category_path.as_str())
        };
        let cp = if is_blank_str(cp0.as_str()) {
            String::new()
        } else {
            cp0
        };
        let cat = if !cp.as_str().is_empty() {
            first_segment(cp.as_str())
        } else {
            "misc".to_owned()
        };
        rec.category_path = cp;
        rec.category = cat;
        match mt {
            Some(t) => {
                rec.manual_html = Some(render_markdown(t.as_str()));
            },
            None => {},
        }
        proof {
            lemma_normalize_wf(dv);
            assert(rec@ == spec_normalize(dv));
        }
        rec
    }

    /// Loads the override documents into a name-keyed mapping: each
    /// record normalized, a later document for the same name fully
    /// replacing an earlier one, positions fixed at first appearance.
    pub fn load_manuals(&self, docs: Vec<OverrideDoc>) -> (r: Vec<FunctionMetadata>)
        ensures
            rec_views(r@) == ov_fold(Seq::empty(), doc_views(docs@)),
            ov_wf(rec_views(r@)),
    {
        let ghost total = doc_views(docs@);
        let mut rest = docs;
        let mut out: Vec<FunctionMetadata> = Vec::new();
        proof {
            assert(rec_views(out@) =~= Seq::<RecordV>::empty());
        }
        while rest.len() > 0
            invariant
                ov_wf(rec_views(out@)),
                ov_fold(rec_views(out@), doc_views(rest@)) == ov_fold(Seq::empty(), total),
            decreases rest@.len(),
        {
            let ghost prerest = rest@;
            let d = rest.remove(0);
            proof {
                assert(doc_views(prerest)[0] == d@);
                assert(doc_views(rest@) =~= doc_views(prerest).drop_first());
            }
            let rec = self.normalize_override(d);
            let ghost preout = out@;
            match find_function(&out, rec.name.as_str()) {
                Some(j) => {
                    proof {
                        lemma_v_first(rec_views(preout), rec@.name);
                        assert(rec_views(preout)[j as int].name == rec@.name);
                        assert(v_has(rec_views(preout), rec@.name));
                    }
                    let ghost w = v_first(rec_views(preout), rec@.name);
                    out[j] = rec;
                    proof {
                        assert(rec_views(preout)[w].name == rec@.name);
                        assert(preout[w].name@ == preout[j as int].name@);
                        if w != j {
                            if w < j {
                                assert(rec_views(preout)[w].name != rec_views(preout)[
                                j as int].name);
                            } else {
                                assert(rec_views(preout)[j as int].name != rec_views(preout)[
                                w].name);
                            }
                            assert(false);
                        }
                        assert forall|k: int|
                            0 <= k < rec_views(out@).len() implies rec_views(out@)[k]
                            == ov_put(rec_views(preout), rec@)[k] by {
                            if k != j {
                                assert(out@[k] == preout[k]);
                            }
                        }
                        assert(rec_views(out@) =~= ov_put(rec_views(preout), rec@));
                    }
                },
                None => {
                    proof {
                        if v_has(rec_views(preout), rec@.name) {
                            let w = choose|w: int|
                                0 <= w < rec_views(preout).len() && rec_views(preout)[w].name
                                    == rec@.name;
                            assert(preout[w].name@ == rec.name@);
                            assert(false);
                        }
                    }
                    out.push(rec);
                    proof {
                        assert forall|k: int|
                            0 <= k < rec_views(out@).len() implies rec_views(out@)[k]
                            == ov_put(rec_views(preout), rec@)[k] by {
                            if k < preout.len() {
                                assert(out@[k] == preout[k]);
                            } else {
                                assert(out@[k] == rec);
                            }
                        }
                        assert(rec_views(out@) =~= ov_put(rec_views(preout), rec@));
                    }
                },
            }
        }
        proof {
            assert(doc_views(rest@) =~= Seq::<OverrideDocV>::empty());
        }
        out
    }

    /// Assembles the catalog from the gathered inputs: category
    /// discovery, the implementation pass in walk order, the declaration
    /// fallback, and the override merge, with the discovery order fixed
    /// at each name's first appearance.
    pub fn parse(
        &self,
        has_libft: bool,
        dir_entries: &Vec<DirListing>,
        files: &Vec<SourceFile>,
        manual_docs: Vec<OverrideDoc>,
    ) -> (r: LibraryMetadata)
        ensures
            r.wf(),
            r.name@ == "libft"@,
            r.version@ == "1.0.0"@,
            r.description@ == "42 School C Library - Extended standard library functions"@,
            r.author@ == "dlesieur"@,
            strictly_sorted(r.categories.deep_view()),
            forall|x: Seq<char>|
                #[trigger] r.categories.deep_view().contains(x) <==> exists|i: int|
                    0 <= i < dir_entries@.len() && category_dir(#[trigger] dir_entries@[i]@)
                        && dir_entries@[i]@.name == x,
            (rec_views(r.functions@), ord_views(r.order@)) == spec_pipeline(
                file_views(files@),
                doc_views(manual_docs@),
                has_libft,
            ),
    {
        let categories = self.discover_categories(dir_entries);
        let mut functions: Vec<FunctionMetadata> = Vec::new();
        let mut order: Vec<String> = Vec::new();
        let ghost fv = file_views(files@);
        proof {
            assert(rec_views(functions@) =~= Seq::<RecordV>::empty());
            assert(ord_views(order@) =~= Seq::<Seq<char>>::empty());
            assert(fv.skip(0) =~= fv);
        }
        let ghost s1 = impl_pass((Seq::empty(), Seq::empty()), fv, has_libft);
        let mut i: usize = 0;
        while i < files.len()
            invariant
                i <= files@.len(),
                fv == file_views(files@),
                fv.len() == files@.len(),
                entries_wf(functions@, order@),
                impl_pass(
                    (rec_views(functions@), ord_views(order@)),
                    fv.skip(i as int),
                    has_libft,
                ) == s1,
            decreases files@.len() - i,
        {
            proof {
                assert(fv.skip(i as int)[0] == fv[i as int]);
                assert(fv.skip(i as int).drop_first() =~= fv.skip(i + 1));
                assert(fv[i as int] == files@[i as int]@);
            }
            let ghost pre = (rec_views(functions@), ord_views(order@));
            let is_c = match ext_of(files[i].path.as_str()) {
                Some(e) => str_eq(e.as_str(), "c"),
                None => false,
            };
            if is_c && !str_has_sub(files[i].path.as_str(), "main.c") {
                let rec = self.parse_c_file(
                    has_libft,
                    files[i].path.as_str(),
                    files[i].content.as_str(),
                );
                let ghost prefs = functions@;
                let ghost preord = order@;
                add_if_absent(&mut functions, &mut order, rec);
                proof {
                    lemma_add_matches(prefs, preord, functions@, order@, rec);
                    assert(impl_step(pre, fv[i as int], has_libft) == (
                        rec_views(functions@),
                        ord_views(order@),
                    ));
                }
            } else {
                proof {
                    assert(impl_step(pre, fv[i as int], has_libft) == pre);
                }
            }
            i += 1;
        }
        proof {
            assert(fv.skip(fv.len() as int) =~= Seq::<SourceFileV>::empty());
            assert((rec_views(functions@), ord_views(order@)) == s1);
        }
        let ghost s2 = header_pass(s1, fv, has_libft);
        let mut j: usize = 0;
        while j < files.len()
            invariant
                j <= files@.len(),
                fv == file_views(files@),
                fv.len() == files@.len(),
                entries_wf(functions@, order@),
                header_pass(
                    (rec_views(functions@), ord_views(order@)),
                    fv.skip(j as int),
                    has_libft,
                ) == s2,
            decreases files@.len() - j,
        {
            proof {
                assert(fv.skip(j as int)[0] == fv[j as int]);
                assert(fv.skip(j as int).drop_first() =~= fv.skip(j + 1));
                assert(fv[j as int] == files@[j as int]@);
            }
            let ghost pre = (rec_views(functions@), ord_views(order@));
            let is_h = match ext_of(files[j].path.as_str()) {
                Some(e) => str_eq(e.as_str(), "h"),
                None => false,
            };
            if is_h {
                self.parse_header_file(
                    has_libft,
                    files[j].path.as_str(),
                    files[j].content.as_str(),
                    &mut functions,
                    &mut order,
                );
                proof {
                    assert(header_step(pre, fv[j as int], has_libft) == (
                        rec_views(functions@),
                        ord_views(order@),
                    ));
                }
            } else {
                proof {
                    assert(header_step(pre, fv[j as int], has_libft) == pre);
                }
            }
            j += 1;
        }
        proof {
            assert(fv.skip(fv.len() as int) =~= Seq::<SourceFileV>::empty());
            assert((rec_views(functions@), ord_views(order@)) == s2);
        }
        let ghost allovs = ov_fold(Seq::empty(), doc_views(manual_docs@));
        let mut ovs = self.load_manuals(manual_docs);
        let ghost s3 = override_pass(s2, allovs);
        proof {
            assert(rec_views(ovs@) == allovs);
        }
        while ovs.len() > 0
            invariant
                entries_wf(functions@, order@),
                ov_wf(rec_views(ovs@)),
                override_pass((rec_views(functions@), ord_views(order@)), rec_views(ovs@)) == s3,
            decreases ovs@.len(),
        {
            let ghost preovs = ovs@;
            let rec = ovs.remove(0);
            proof {
                assert(rec_views(preovs)[0] == rec@);
                assert(rec_views(ovs@) =~= rec_views(preovs).drop_first());
                assert forall|k: int|
                    0 <= k < rec_views(ovs@).len() implies record_wf(
                    #[trigger] rec_views(ovs@)[k]) by {
                    assert(rec_views(ovs@)[k] == rec_views(preovs)[k + 1]);
                }
                assert forall|a: int, b: int|
                    0 <= a < b < rec_views(ovs@).len() implies #[trigger] rec_views(ovs@)[a].name
                    != #[trigger] rec_views(ovs@)[b].name by {
                    assert(rec_views(ovs@)[a] == rec_views(preovs)[a + 1]);
                    assert(rec_views(ovs@)[b] == rec_views(preovs)[b + 1]);
                }
                assert(record_wf(rec@)) by {
                    assert(rec_views(preovs)[0] == rec@);
                }
            }
            let ghost prefs = functions@;
            let ghost preord = order@;
            apply_override(&mut functions, &mut order, rec);
            proof {
                lemma_put_matches(prefs, preord, functions@, order@, rec);
            }
        }
        proof {
            assert(rec_views(ovs@) =~= Seq::<RecordV>::empty());
            assert((rec_views(functions@), ord_views(order@)) == s3);
        }
        let r = LibraryMetadata {
            name: "libft".to_owned(),
            version: "1.0.0".to_owned(),
            description: "42 School C Library - Extended standard library functions".to_owned(),
            author: "dlesieur".to_owned(),
            categories,
            functions,
            order,
        };
        r
    }
}

} // verus!
