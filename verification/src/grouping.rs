//! Supporting path and category utilities: anchor sanitizers, grouping of
//! records by their full category path, the prefix closure of those paths,
//! and the derived tree view that the renderer consumes.
use vstd::prelude::*;

use crate::FunctionMetadata;
use crate::RecordV;
use crate::text::char_count;
use crate::text::count_char_str;
use crate::text::chars_of;
use crate::text::file_name_of;
use crate::text::file_name_spec;
use crate::text::find_last_char;
use crate::text::is_blank;
use crate::text::is_blank_str;
use crate::text::join_chars;
use crate::text::last_idx;
use crate::text::lemma_last_idx;
use crate::text::lex_lt;
use crate::text::opt_view;
use crate::text::sorted_insert_unique;
use crate::text::split_chars;
use crate::text::split_str;
use crate::text::str_eq;
use crate::text::str_lt;
use crate::text::strictly_sorted;
use crate::text::string_from_chars;
use crate::text::subvec;
use vstd::string::StringExecFns;

verus! {

/// The ASCII lowering of one character; other characters are unchanged.
pub open spec fn lower_char(c: char) -> char {
    if 'A' <= c && c <= 'Z' {
        (((c as u8) + 32) as char)
    } else {
        c
    }
}

/// Whether `c` is an ASCII letter or digit.
pub open spec fn is_ascii_alnum(c: char) -> bool {
    ('a' <= c && c <= 'z') || ('A' <= c && c <= 'Z') || ('0' <= c && c <= '9')
}

/// One anchor character: lowered, with anything non-alphanumeric mapped
/// to a dash.
pub open spec fn id_char(c: char) -> char {
    if is_ascii_alnum(lower_char(c)) {
        lower_char(c)
    } else {
        '-'
    }
}

/// One style-class character: lowered, with anything non-alphanumeric
/// mapped to an underscore.
pub open spec fn tag_class_char(c: char) -> char {
    if is_ascii_alnum(lower_char(c)) {
        lower_char(c)
    } else {
        '_'
    }
}

/// A string mapped character by character to anchor characters.
pub open spec fn sanitize_id_spec(s: Seq<char>) -> Seq<char> {
    Seq::new(s.len(), |i: int| id_char(s[i]))
}

/// A string mapped character by character to style-class characters.
pub open spec fn sanitize_tag_class_spec(s: Seq<char>) -> Seq<char> {
    Seq::new(s.len(), |i: int| tag_class_char(s[i]))
}

/// Maps one character to its anchor form.
fn id_char_of(c: char) -> (r: char)
    ensures
        r == id_char(c),
{
    let l = if c >= 'A' && c <= 'Z' {
        (((c as u8) + 32) as char)
    } else {
        c
    };
    if (l >= 'a' && l <= 'z') || (l >= 'A' && l <= 'Z') || (l >= '0' && l <= '9') {
        l
    } else {
        '-'
    }
}

/// Maps one character to its style-class form.
fn tag_class_char_of(c: char) -> (r: char)
    ensures
        r == tag_class_char(c),
{
    let l = if c >= 'A' && c <= 'Z' {
        (((c as u8) + 32) as char)
    } else {
        c
    };
    if (l >= 'a' && l <= 'z') || (l >= 'A' && l <= 'Z') || (l >= '0' && l <= '9') {
        l
    } else {
        '_'
    }
}

/// Lowercases and replaces every non-alphanumeric character with a dash,
/// for use as a document anchor.
pub fn sanitize_id(s: &str) -> (r: String)
    ensures
        r@ == sanitize_id_spec(s@),
{
    let v = chars_of(s);
    let n = v.len();
    let mut out: Vec<char> = Vec::new();
    let mut i: usize = 0;
    while i < n
        invariant
            i <= n,
            n == v@.len(),
            v@ == s@,
            out@ =~= sanitize_id_spec(s@.subrange(0, i as int)),
        decreases n - i,
    {
        out.push(id_char_of(v[i]));
        proof {
            assert(out@ =~= sanitize_id_spec(s@.subrange(0, i + 1)));
        }
        i += 1;
    }
    assert(s@.subrange(0, n as int) =~= s@);
    assert(out@ =~= sanitize_id_spec(s@));
    string_from_chars(&out)
}

/// Lowercases and replaces every non-alphanumeric character with an
/// underscore, for use as a style class.
pub fn sanitize_tag_class(s: &str) -> (r: String)
    ensures
        r@ == sanitize_tag_class_spec(s@),
{
    let v = chars_of(s);
    let n = v.len();
    let mut out: Vec<char> = Vec::new();
    let mut i: usize = 0;
    while i < n
        invariant
            i <= n,
            n == v@.len(),
            v@ == s@,
            out@ =~= sanitize_tag_class_spec(s@.subrange(0, i as int)),
        decreases n - i,
    {
        out.push(tag_class_char_of(v[i]));
        proof {
            assert(out@ =~= sanitize_tag_class_spec(s@.subrange(0, i + 1)));
        }
        i += 1;
    }
    assert(s@.subrange(0, n as int) =~= s@);
    assert(out@ =~= sanitize_tag_class_spec(s@));
    string_from_chars(&out)
}

/// The path one level above `p`: what precedes the last separator.
pub open spec fn parent_path_spec(p: Seq<char>) -> Option<Seq<char>> {
    match last_idx(p, '/') {
        Some(i) => Some(p.take(i)),
        None => None,
    }
}

/// The part of a path before its last separator, if it has one.
pub fn parent_path(p: &str) -> (r: Option<String>)
    ensures
        opt_view(r) == parent_path_spec(p@),
{
    let v = chars_of(p);
    proof {
        lemma_last_idx(p@, '/');
    }
    match find_last_char(p, '/') {
        Some(i) => {
            let piece = subvec(&v, 0, i);
            assert(v@.subrange(0, i as int) =~= p@.take(i as int));
            Some(string_from_chars(&piece))
        },
        None => None,
    }
}

/// The nesting depth of a path: its number of separators, zero when the
/// path is empty.
pub fn indent_level(p: &str) -> (r: usize)
    ensures
        r == char_count(p@, '/'),
{
    count_char_str(p, '/')
}

/// The grouping key of one record: its nested category path, or the
/// top-level category when the path is blank.
pub open spec fn group_key(r: RecordV) -> Seq<char> {
    if is_blank(r.category_path) {
        r.category
    } else {
        r.category_path
    }
}

/// One group of records sharing a full category path: the key and the
/// indices of its members within the catalog's record list, in
/// discovery order.
pub struct PathGroup {
    pub path: String,
    pub members: Vec<usize>,
}

/// The keys of a group list, in order.
pub open spec fn group_keys(gs: Seq<PathGroup>) -> Seq<Seq<char>> {
    Seq::new(gs.len(), |i: int| gs[i].path@)
}

/// The groups are sound for the record list: keys sorted and distinct,
/// every member index valid with a matching key, members ascending, and
/// no group empty.
pub open spec fn groups_wf(gs: Seq<PathGroup>, fs: Seq<FunctionMetadata>) -> bool {
    &&& strictly_sorted(group_keys(gs))
    &&& forall|g: int, k: int|
        0 <= g < gs.len() && 0 <= k < gs[g].members@.len() ==> (#[trigger] gs[g].members@[k]
            < fs.len() && group_key(fs[gs[g].members@[k] as int]@) == gs[g].path@)
    &&& forall|g: int, k1: int, k2: int|
        0 <= g < gs.len() && 0 <= k1 < k2 < gs[g].members@.len() ==> #[trigger] gs[g].members@[k1]
            < #[trigger] gs[g].members@[k2]
    &&& forall|g: int| 0 <= g < gs.len() ==> gs[g].members@.len() > 0
}

/// Every record's grouping key appears among the group keys, and the
/// record's index appears as a member of some group.
pub open spec fn groups_complete(gs: Seq<PathGroup>, fs: Seq<FunctionMetadata>) -> bool {
    forall|i: int|
        0 <= i < fs.len() ==> (group_keys(gs).contains(group_key(#[trigger] fs[i]@)) && exists|
            g: int,
            k: int,
        |
            0 <= g < gs.len() && 0 <= k < gs[g].members@.len() && #[trigger] gs[g].members@[k]
                == i)
}

/// A per-record witness table for group membership: entry `i` names the
/// group and member slot where record `i` sits.
pub open spec fn wit_ok(w: Seq<(int, int)>, gs: Seq<PathGroup>, m: int) -> bool {
    &&& w.len() == m
    &&& forall|i: int|
        0 <= i < m ==> 0 <= (#[trigger] w[i]).0 < gs.len() && 0 <= w[i].1
            < gs[w[i].0].members@.len() && gs[w[i].0].members@[w[i].1] == i
}

/// Groups the records by their full category path: keys sorted and
/// distinct, members valid, ascending and keyed correctly, every
/// record's key present, and every record placed in some group.
#[verifier::rlimit(100)]
#[verifier::spinoff_prover]
pub fn group_functions_by_path(functions: &Vec<FunctionMetadata>) -> (r: Vec<PathGroup>)
    ensures
        groups_wf(r@, functions@),
        groups_complete(r@, functions@),
{
    let n = functions.len();
    let mut groups: Vec<PathGroup> = Vec::new();
    let ghost mut wit: Seq<(int, int)> = Seq::empty();
    let mut idx: usize = 0;
    while idx < n
        invariant
            idx <= n,
            n == functions@.len(),
            groups_wf(groups@, functions@),
            wit_ok(wit, groups@, idx as int),
            forall|i: int|
                0 <= i < idx ==> group_keys(groups@).contains(
                    group_key(#[trigger] functions@[i]@),
                ),
            forall|gx: int, kx: int|
                0 <= gx < groups@.len() && 0 <= kx < groups@[gx].members@.len()
                    ==> #[trigger] groups@[gx].members@[kx] < idx,
        decreases n - idx,
    {
        let ghost prewit = wit;
        let key = if is_blank_str(functions[idx].category_path.as_str()) {
            functions[idx].category.clone()
        } else {
            functions[idx].category_path.clone()
        };
        proof {
            assert(key@ == group_key(functions@[idx as int]@));
        }
        let mut g: usize = 0;
        while g < groups.len() && str_lt(groups[g].path.as_str(), key.as_str())
            invariant
                g <= groups@.len(),
                forall|t: int| 0 <= t < g ==> lex_lt(#[trigger] group_keys(groups@)[t], key@),
                groups_wf(groups@, functions@),
            decreases groups@.len() - g,
        {
            proof {
                assert(group_keys(groups@)[g as int] == groups@[g as int].path@);
            }
            g += 1;
        }
        let ghost pregroups = groups@;
        if g < groups.len() && str_eq(groups[g].path.as_str(), key.as_str()) {
            let mut entry = groups.remove(g);
            entry.members.push(idx);
            groups.insert(g, entry);
            proof {
                assert(groups@ =~= pregroups.update(g as int, groups@[g as int]));
                assert(groups@[g as int].path@ == key@);
                assert(groups@[g as int].members@ == pregroups[g as int].members@.push(idx));
                assert forall|gg: int| 0 <= gg < groups@.len() && gg != g implies groups@[gg]
                    == pregroups[gg] by {}
                assert(group_keys(groups@) =~= group_keys(pregroups));
                assert forall|i: int|
                    0 <= i < idx + 1 implies group_keys(groups@).contains(
                    group_key(#[trigger] functions@[i]@)) by {
                    if i < idx {
                        assert(group_keys(pregroups).contains(group_key(functions@[i]@)));
                    } else {
                        assert(group_keys(groups@)[g as int] == key@);
                    }
                }
                assert forall|gg: int, kk: int|
                    0 <= gg < groups@.len() && 0 <= kk < groups@[gg].members@.len() implies (
                #[trigger] groups@[gg].members@[kk] < idx + 1 && groups@[gg].members@[kk]
                    < functions@.len() && group_key(functions@[groups@[gg].members@[kk] as int]@)
                    == groups@[gg].path@) by {
                    if gg == g {
                        if kk < pregroups[g as int].members@.len() {
                            assert(groups@[gg].members@[kk] == pregroups[gg].members@[kk]);
                            assert(pregroups[gg].path@ == groups@[gg].path@);
                        } else {
                            assert(groups@[gg].members@[kk] == idx);
                        }
                    } else {
                        assert(groups@[gg] == pregroups[gg]);
                    }
                }
                assert forall|gg: int, k1: int, k2: int|
                    0 <= gg < groups@.len() && 0 <= k1 < k2 < groups@[gg].members@.len() implies
                    #[trigger] groups@[gg].members@[k1] < #[trigger] groups@[gg].members@[k2] by {
                    if gg == g {
                        assert(groups@[gg].members@[k1] == pregroups[gg].members@[k1]);
                        if k2 < pregroups[gg].members@.len() {
                            assert(groups@[gg].members@[k2] == pregroups[gg].members@[k2]);
                        } else {
                            assert(groups@[gg].members@[k2] == idx);
                        }
                    } else {
                        assert(groups@[gg] == pregroups[gg]);
                    }
                }
                assert forall|gg: int| 0 <= gg < groups@.len() implies groups@[gg].members@.len()
                    > 0 by {
                    if gg != g {
                        assert(groups@[gg] == pregroups[gg]);
                    }
                }
                wit = prewit.push((g as int, pregroups[g as int].members@.len() as int));
                assert forall|i: int|
                    0 <= i < idx + 1 implies 0 <= (#[trigger] wit[i]).0 < groups@.len() && 0
                    <= wit[i].1 < groups@[wit[i].0].members@.len() && groups@[wit[i].0].members@[
                wit[i].1] == i by {
                    if i < idx {
                        assert(wit[i] == prewit[i]);
                        let w = prewit[i];
                        if w.0 == g {
                            assert(groups@[w.0].members@[w.1] == pregroups[w.0].members@[w.1]);
                        } else {
                            assert(groups@[w.0] == pregroups[w.0]);
                        }
                    } else {
                        assert(wit[i] == (g as int, pregroups[g as int].members@.len() as int));
                        assert(groups@[g as int].members@[pregroups[g as int].members@.len() as int]
                            == idx as usize);
                    }
                }
            }
        } else {
            proof {
                if g < pregroups.len() {
                    crate::text::lemma_lex_trichotomy(pregroups[g as int].path@, key@);
                    assert(group_keys(pregroups)[g as int] == pregroups[g as int].path@);
                    assert(lex_lt(key@, group_keys(pregroups)[g as int]));
                }
            }
            let mut members: Vec<usize> = Vec::new();
            members.push(idx);
            groups.insert(g, PathGroup { path: key, members });
            proof {
                assert(groups@ == pregroups.insert(g as int, groups@[g as int]));
                assert(groups@[g as int].path@ == key@);
                assert(groups@[g as int].members@ =~= seq![idx as usize]);
                assert forall|gg: int| 0 <= gg < g implies groups@[gg] == pregroups[gg] by {}
                assert forall|gg: int| g < gg < groups@.len() implies groups@[gg] == pregroups[
                gg - 1] by {}
                assert forall|a: int, b: int|
                    0 <= a < b < group_keys(groups@).len() implies lex_lt(
                    #[trigger] group_keys(groups@)[a],
                    #[trigger] group_keys(groups@)[b],
                ) by {
                    let ka = group_keys(groups@)[a];
                    let kb = group_keys(groups@)[b];
                    assert(ka == groups@[a].path@);
                    assert(kb == groups@[b].path@);
                    if a < g && b == g {
                        assert(groups@[a] == pregroups[a]);
                        assert(group_keys(pregroups)[a] == pregroups[a].path@);
                    } else if a == g && b > g {
                        assert(groups@[b] == pregroups[b - 1]);
                        assert(group_keys(pregroups)[b - 1] == pregroups[b - 1].path@);
                        if b - 1 == g {
                        } else {
                            crate::text::lemma_lex_trans(
                                groups@[a].path@,
                                pregroups[g as int].path@,
                                pregroups[b - 1].path@,
                            );
                        }
                    } else if a < g && b > g {
                        assert(groups@[a] == pregroups[a]);
                        assert(groups@[b] == pregroups[b - 1]);
                        assert(group_keys(pregroups)[a] == pregroups[a].path@);
                        assert(group_keys(pregroups)[b - 1] == pregroups[b - 1].path@);
                        if a == b - 1 {
                            assert(false);
                        }
                    } else if b < g {
                        assert(groups@[a] == pregroups[a]);
                        assert(groups@[b] == pregroups[b]);
                        assert(group_keys(pregroups)[a] == pregroups[a].path@);
                        assert(group_keys(pregroups)[b] == pregroups[b].path@);
                    } else if a > g {
                        assert(groups@[a] == pregroups[a - 1]);
                        assert(groups@[b] == pregroups[b - 1]);
                        assert(group_keys(pregroups)[a - 1] == pregroups[a - 1].path@);
                        assert(group_keys(pregroups)[b - 1] == pregroups[b - 1].path@);
                    }
                }
                assert forall|i: int|
                    0 <= i < idx + 1 implies group_keys(groups@).contains(
                    group_key(#[trigger] functions@[i]@)) by {
                    if i < idx {
                        assert(group_keys(pregroups).contains(group_key(functions@[i]@)));
                        let w = choose|w: int|
                            0 <= w < group_keys(pregroups).len() && group_keys(pregroups)[w]
                                == group_key(functions@[i]@);
                        if w < g {
                            assert(group_keys(groups@)[w] == group_keys(pregroups)[w]);
                        } else {
                            assert(groups@[w + 1] == pregroups[w]);
                            assert(group_keys(groups@)[w + 1] == group_keys(pregroups)[w]);
                        }
                    } else {
                        assert(group_keys(groups@)[g as int] == key@);
                    }
                }
                assert forall|gg: int, kk: int|
                    0 <= gg < groups@.len() && 0 <= kk < groups@[gg].members@.len() implies (
                #[trigger] groups@[gg].members@[kk] < idx + 1 && groups@[gg].members@[kk]
                    < functions@.len() && group_key(functions@[groups@[gg].members@[kk] as int]@)
                    == groups@[gg].path@) by {
                    if gg < g {
                        assert(groups@[gg] == pregroups[gg]);
                    } else if gg == g {
                        assert(groups@[gg].members@[kk] == idx);
                        assert(groups@[gg].path@ == key@);
                    } else {
                        assert(groups@[gg] == pregroups[gg - 1]);
                    }
                }
                assert forall|gg: int, k1: int, k2: int|
                    0 <= gg < groups@.len() && 0 <= k1 < k2 < groups@[gg].members@.len() implies
                    #[trigger] groups@[gg].members@[k1] < #[trigger] groups@[gg].members@[k2] by {
                    if gg < g {
                        assert(groups@[gg] == pregroups[gg]);
                    } else if gg > g {
                        assert(groups@[gg] == pregroups[gg - 1]);
                    }
                }
                assert forall|gg: int| 0 <= gg < groups@.len() implies groups@[gg].members@.len()
                    > 0 by {
                    if gg < g {
                        assert(groups@[gg] == pregroups[gg]);
                    } else if gg > g {
                        assert(groups@[gg] == pregroups[gg - 1]);
                    }
                }
                wit = Seq::new(
                    (idx + 1) as nat,
                    |i: int|
                        if i == idx as int {
                            (g as int, 0int)
                        } else if prewit[i].0 >= g {
                            (prewit[i].0 + 1, prewit[i].1)
                        } else {
                            prewit[i]
                        },
                );
                assert forall|i: int|
                    0 <= i < idx + 1 implies 0 <= (#[trigger] wit[i]).0 < groups@.len() && 0
                    <= wit[i].1 < groups@[wit[i].0].members@.len() && groups@[wit[i].0].members@[
                wit[i].1] == i by {
                    if i < idx {
                        let w = prewit[i];
                        if w.0 >= g {
                            assert(wit[i] == (w.0 + 1, w.1));
                            assert(groups@[w.0 + 1] == pregroups[w.0]);
                        } else {
                            assert(wit[i] == w);
                            assert(groups@[w.0] == pregroups[w.0]);
                        }
                    } else {
                        assert(wit[i] == (g as int, 0int));
                        assert(groups@[g as int].members@[0] == idx as usize);
                    }
                }
            }
        }
        idx += 1;
    }
    proof {
        assert forall|i: int|
            0 <= i < functions@.len() implies (group_keys(groups@).contains(
                group_key(#[trigger] functions@[i]@),
            ) && exists|g: int, k: int|
                0 <= g < groups@.len() && 0 <= k < groups@[g].members@.len()
                    && #[trigger] groups@[g].members@[k] == i) by {
            let w = wit[i];
            assert(groups@[w.0].members@[w.1] == i);
            assert(group_key(functions@[i]@) == groups@[w.0].path@);
            assert(group_keys(groups@)[w.0] == groups@[w.0].path@);
        }
    }
    groups
}

/// The prefix of a group key cut after its first `t` segments.
pub open spec fn key_prefix(p: Seq<char>, t: int) -> Seq<char> {
    join_chars(split_chars(p, '/').take(t), '/')
}

/// Collects every segment-boundary prefix of every group key, sorted and
/// without duplicates.
pub fn all_category_paths(groups: &Vec<PathGroup>) -> (r: Vec<String>)
    ensures
        strictly_sorted(r.deep_view()),
        forall|x: Seq<char>|
            #[trigger] r.deep_view().contains(x) ==> exists|a: int, b: int|
                0 <= a < groups@.len() && 1 <= b <= split_chars(groups@[a].path@, '/').len() && x
                    == #[trigger] key_prefix(groups@[a].path@, b),
        forall|a: int, b: int|
            0 <= a < groups@.len() && 1 <= b <= split_chars(groups@[a].path@, '/').len()
                ==> r.deep_view().contains(#[trigger] key_prefix(groups@[a].path@, b)),
{
    let mut out: Vec<String> = Vec::new();
    let gn = groups.len();
    let mut gi: usize = 0;
    while gi < gn
        invariant
            gi <= gn,
            gn == groups@.len(),
            strictly_sorted(out.deep_view()),
            forall|x: Seq<char>|
                #[trigger] out.deep_view().contains(x) ==> exists|a: int, b: int|
                    0 <= a < groups@.len() && 1 <= b <= split_chars(groups@[a].path@, '/').len()
                        && x == #[trigger] key_prefix(groups@[a].path@, b),
            forall|a: int, b: int|
                0 <= a < gi && 1 <= b <= split_chars(groups@[a].path@, '/').len()
                    ==> out.deep_view().contains(#[trigger] key_prefix(groups@[a].path@, b)),
        decreases gn - gi,
    {
        let ghost keyv = groups@[gi as int].path@;
        let parts = split_str(groups[gi].path.as_str(), '/');
        proof {
            crate::text::lemma_split_sep_free(keyv, '/');
            assert(parts.deep_view().len() == split_chars(keyv, '/').len());
        }
        let mut acc = parts[0].clone();
        proof {
            assert(parts.deep_view()[0] == parts@[0]@);
            assert(split_chars(keyv, '/').take(1) =~= seq![split_chars(keyv, '/')[0]]);
            assert(key_prefix(keyv, 1) == split_chars(keyv, '/')[0]);
        }
        let mut t: usize = 1;
        while t < parts.len()
            invariant
                1 <= t <= parts@.len(),
                gi < gn,
                gn == groups@.len(),
                keyv == groups@[gi as int].path@,
                parts.deep_view() == split_chars(keyv, '/'),
                parts@.len() == split_chars(keyv, '/').len(),
                acc@ == key_prefix(keyv, t as int),
                strictly_sorted(out.deep_view()),
                forall|x: Seq<char>|
                    #[trigger] out.deep_view().contains(x) ==> exists|a: int, b: int|
                        0 <= a < groups@.len() && 1 <= b <= split_chars(
                            groups@[a].path@,
                            '/',
                        ).len() && x == #[trigger] key_prefix(groups@[a].path@, b),
                forall|a: int, b: int|
                    0 <= a < gi && 1 <= b <= split_chars(groups@[a].path@, '/').len()
                        ==> out.deep_view().contains(#[trigger] key_prefix(groups@[a].path@, b)),
                forall|b: int|
                    1 <= b < t ==> out.deep_view().contains(#[trigger] key_prefix(keyv, b)),
            decreases parts@.len() - t,
        {
            sorted_insert_unique(&mut out, acc.clone());
            proof {
                assert(out.deep_view().contains(key_prefix(keyv, t as int)));
            }
            let next = acc.concat("/").concat(parts[t].as_str());
            proof {
                reveal_strlit("/");
                let sp = split_chars(keyv, '/');
                crate::text::lemma_join_push(sp.take(t as int), sp[t as int], '/');
                assert(sp.take(t as int).push(sp[t as int]) =~= sp.take(t + 1));
                assert(parts.deep_view()[t as int] == parts@[t as int]@);
                assert("/"@ =~= seq!['/']);
                assert(next@ =~= key_prefix(keyv, t + 1));
            }
            acc = next;
            t += 1;
        }
        sorted_insert_unique(&mut out, acc.clone());
        proof {
            assert(out.deep_view().contains(key_prefix(keyv, parts@.len() as int)));
            assert forall|b: int|
                1 <= b <= split_chars(keyv, '/').len() implies out.deep_view().contains(
                #[trigger] key_prefix(keyv, b)) by {}
        }
        gi += 1;
    }
    out
}

/// One node of the derived category tree: its display name (the last
/// segment), its full path, its children (computed on demand by the
/// renderer, so left empty), how many functions its own group holds, and
/// whether a group bears exactly this path.
pub struct TreeNode {
    pub name: String,
    pub path: String,
    pub children: Vec<String>,
    pub function_count: usize,
    pub is_leaf: bool,
}

/// The node paths of a tree, in order.
pub open spec fn tree_paths(ns: Seq<TreeNode>) -> Seq<Seq<char>> {
    Seq::new(ns.len(), |i: int| ns[i].path@)
}

/// Builds the tree view of the grouped catalog: exactly one node per
/// segment-boundary prefix of a group key, sorted by path.
#[verifier::rlimit(100)]
#[verifier::spinoff_prover]
pub fn build_tree_structure(groups: &Vec<PathGroup>) -> (r: Vec<TreeNode>)
    requires
        strictly_sorted(group_keys(groups@)),
    ensures
        strictly_sorted(tree_paths(r@)),
        forall|i: int|
            0 <= i < r@.len() ==> {
                let node = #[trigger] r@[i];
                &&& node.name@ == file_name_spec(node.path@)
                &&& node.children@.len() == 0
                &&& node.is_leaf == group_keys(groups@).contains(node.path@)
                &&& (!group_keys(groups@).contains(node.path@) ==> node.function_count == 0)
            },
        forall|i: int, a: int|
            0 <= i < r@.len() && 0 <= a < groups@.len() && #[trigger] groups@[a].path@
                == #[trigger] r@[i].path@ ==> r@[i].function_count == groups@[a].members@.len(),
        forall|a: int, b: int|
            0 <= a < groups@.len() && 1 <= b <= split_chars(groups@[a].path@, '/').len()
                ==> tree_paths(r@).contains(#[trigger] key_prefix(groups@[a].path@, b)),
        forall|x: Seq<char>|
            #[trigger] tree_paths(r@).contains(x) ==> exists|a: int, b: int|
                0 <= a < groups@.len() && 1 <= b <= split_chars(groups@[a].path@, '/').len() && x
                    == #[trigger] key_prefix(groups@[a].path@, b),
{
    let cats = all_category_paths(groups);
    let mut nodes: Vec<TreeNode> = Vec::new();
    let cn = cats.len();
    let mut ci: usize = 0;
    while ci < cn
        invariant
            strictly_sorted(group_keys(groups@)),
            ci <= cn,
            cn == cats@.len(),
            nodes@.len() == ci,
            forall|i: int|
                0 <= i < nodes@.len() ==> #[trigger] nodes@[i].path@ == cats.deep_view()[i],
            strictly_sorted(cats.deep_view()),
            forall|x: Seq<char>|
                #[trigger] cats.deep_view().contains(x) ==> exists|a: int, b: int|
                    0 <= a < groups@.len() && 1 <= b <= split_chars(groups@[a].path@, '/').len()
                        && x == #[trigger] key_prefix(groups@[a].path@, b),
            forall|a: int, b: int|
                0 <= a < groups@.len() && 1 <= b <= split_chars(groups@[a].path@, '/').len()
                    ==> cats.deep_view().contains(#[trigger] key_prefix(groups@[a].path@, b)),
            forall|i: int|
                0 <= i < nodes@.len() ==> {
                    let node = #[trigger] nodes@[i];
                    &&& node.name@ == file_name_spec(node.path@)
                    &&& node.children@.len() == 0
                    &&& node.is_leaf == group_keys(groups@).contains(node.path@)
                    &&& (!group_keys(groups@).contains(node.path@) ==> node.function_count == 0)
                },
            forall|i: int, a: int|
                0 <= i < nodes@.len() && 0 <= a < groups@.len() && #[trigger] groups@[a].path@
                    == #[trigger] nodes@[i].path@ ==> nodes@[i].function_count
                    == groups@[a].members@.len(),
        decreases cn - ci,
    {
        let path = cats[ci].clone();
        let name = file_name_of(path.as_str());
        let mut found = false;
        let mut count: usize = 0;
        let mut a: usize = 0;
        while a < groups.len()
            invariant
                strictly_sorted(group_keys(groups@)),
                a <= groups@.len(),
                path@ == cats@[ci as int]@,
                !found ==> forall|t: int|
                    0 <= t < a ==> #[trigger] group_keys(groups@)[t] != path@,
                found ==> exists|t: int|
                    0 <= t < a && #[trigger] group_keys(groups@)[t] == path@,
                found ==> forall|t: int|
                    0 <= t < groups@.len() && #[trigger] groups@[t].path@ == path@ ==> count
                        == groups@[t].members@.len(),
                !found ==> count == 0,
            decreases groups@.len() - a,
        {
            if str_eq(groups[a].path.as_str(), path.as_str()) {
                found = true;
                count = groups[a].members.len();
                proof {
                    assert(group_keys(groups@)[a as int] == path@);
                    assert forall|t: int|
                        0 <= t < groups@.len() && #[trigger] groups@[t].path@ == path@ implies
                        groups@[a as int].members@.len() == groups@[t].members@.len() by {
                        if t != a {
                            assert(group_keys(groups@)[t] == groups@[t].path@);
                            assert(group_keys(groups@)[a as int] == groups@[a as int].path@);
                            if t < a {
                                assert(lex_lt(group_keys(groups@)[t], group_keys(groups@)[
                                a as int]));
                                crate::text::lemma_lex_trichotomy(
                                    group_keys(groups@)[t],
                                    group_keys(groups@)[a as int],
                                );
                            } else {
                                assert(lex_lt(group_keys(groups@)[a as int], group_keys(
                                    groups@,
                                )[t]));
                                crate::text::lemma_lex_trichotomy(
                                    group_keys(groups@)[a as int],
                                    group_keys(groups@)[t],
                                );
                            }
                            assert(false);
                        }
                    }
                }
            } else {
                proof {
                    assert(group_keys(groups@)[a as int] == groups@[a as int].path@);
                }
            }
            a += 1;
        }
        proof {
            if found {
                assert(group_keys(groups@).contains(path@));
            } else {
                if group_keys(groups@).contains(path@) {
                    let w = choose|w: int|
                        0 <= w < group_keys(groups@).len() && group_keys(groups@)[w] == path@;
                    assert(false);
                }
            }
            assert forall|aa: int|
                0 <= aa < groups@.len() && #[trigger] groups@[aa].path@ == path@ implies count
                == groups@[aa].members@.len() by {
                assert(group_keys(groups@)[aa] == groups@[aa].path@);
                assert(group_keys(groups@).contains(path@));
            }
        }
        nodes.push(TreeNode { name, path, children: Vec::new(), function_count: count, is_leaf: found });
        proof {
            assert(nodes@[ci as int].path@ == cats.deep_view()[ci as int]);
        }
        ci += 1;
    }
    proof {
        assert(tree_paths(nodes@) =~= cats.deep_view());
        assert(strictly_sorted(tree_paths(nodes@)));
        assert forall|a: int, b: int|
            0 <= a < groups@.len() && 1 <= b <= split_chars(groups@[a].path@, '/').len() implies
            tree_paths(nodes@).contains(#[trigger] key_prefix(groups@[a].path@, b)) by {
            assert(cats.deep_view().contains(key_prefix(groups@[a].path@, b)));
        }
        assert forall|x: Seq<char>|
            #[trigger] tree_paths(nodes@).contains(x) implies exists|a: int, b: int|
                0 <= a < groups@.len() && 1 <= b <= split_chars(groups@[a].path@, '/').len() && x
                    == #[trigger] key_prefix(groups@[a].path@, b) by {
            assert(cats.deep_view().contains(x));
        }
    }
    nodes
}

} // verus!
