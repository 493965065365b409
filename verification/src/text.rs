//! Character-sequence utilities: splitting, joining, trimming, substring
//! search and lexicographic comparison, with their specification functions.
use vstd::prelude::*;

verus! {

/// Index of the first occurrence of `c` in `s`, or `s.len()` if absent.
pub open spec fn first_idx(s: Seq<char>, c: char) -> nat
    decreases s.len(),
{
    if s.len() == 0 {
        0
    } else if s[0] == c {
        0
    } else {
        1 + first_idx(s.drop_first(), c)
    }
}

/// Basic facts about `first_idx`.
pub proof fn lemma_first_idx(s: Seq<char>, c: char)
    ensures
        first_idx(s, c) <= s.len(),
        forall|j: int| 0 <= j < first_idx(s, c) ==> s[j] != c,
        first_idx(s, c) < s.len() ==> s[first_idx(s, c) as int] == c,
    decreases s.len(),
{
    if s.len() > 0 && s[0] != c {
        lemma_first_idx(s.drop_first(), c);
        let r = first_idx(s, c);
        assert forall|j: int| 0 <= j < r implies s[j] != c by {
            if j > 0 {
                assert(s.drop_first()[j - 1] == s[j]);
            }
        }
        if r < s.len() {
            assert(s.drop_first()[r - 1] == s[r as int]);
        }
    }
}

/// `first_idx` is the unique index with these properties.
pub proof fn lemma_first_idx_is(s: Seq<char>, c: char, i: int)
    requires
        0 <= i <= s.len(),
        forall|j: int| 0 <= j < i ==> s[j] != c,
        i < s.len() ==> s[i] == c,
    ensures
        first_idx(s, c) == i,
    decreases s.len(),
{
    if s.len() > 0 && i > 0 {
        assert forall|j: int| 0 <= j < i - 1 implies s.drop_first()[j] != c by {
            assert(s.drop_first()[j] == s[j + 1]);
        }
        if i - 1 < s.len() - 1 {
            assert(s.drop_first()[i - 1] == s[i]);
        }
        lemma_first_idx_is(s.drop_first(), c, i - 1);
    }
}

/// Splitting `s` at every occurrence of `sep`; always at least one piece,
/// and none of the pieces contains `sep`.
pub open spec fn split_chars(s: Seq<char>, sep: char) -> Seq<Seq<char>>
    decreases s.len(),
{
    let i = first_idx(s, sep);
    if i >= s.len() {
        seq![s]
    } else {
        seq![s.subrange(0, i as int)] + split_chars(
            s.subrange(i as int + 1, s.len() as int),
            sep,
        )
    }
}

/// Joining pieces with a single `sep` between neighbours.
pub open spec fn join_chars(parts: Seq<Seq<char>>, sep: char) -> Seq<char>
    decreases parts.len(),
{
    if parts.len() == 0 {
        Seq::empty()
    } else if parts.len() == 1 {
        parts[0]
    } else {
        parts[0] + seq![sep] + join_chars(parts.drop_first(), sep)
    }
}

/// No piece that `split_chars` returns contains the separator.
pub proof fn lemma_split_sep_free(s: Seq<char>, sep: char)
    ensures
        split_chars(s, sep).len() > 0,
        forall|i: int, j: int|
            0 <= i < split_chars(s, sep).len() && 0 <= j < split_chars(s, sep)[i].len()
                ==> split_chars(s, sep)[i][j] != sep,
    decreases s.len(),
{
    lemma_first_idx(s, sep);
    let k = first_idx(s, sep);
    let r = split_chars(s, sep);
    if k >= s.len() {
        assert forall|i: int, j: int| 0 <= i < r.len() && 0 <= j < r[i].len() implies r[i][j]
            != sep by {
            assert(r[0] == s);
        }
    } else {
        let tail = s.subrange(k as int + 1, s.len() as int);
        lemma_split_sep_free(tail, sep);
        assert forall|i: int, j: int| 0 <= i < r.len() && 0 <= j < r[i].len() implies r[i][j]
            != sep by {
            if i == 0 {
                assert(r[0] == s.subrange(0, k as int));
                assert(s.subrange(0, k as int)[j] == s[j]);
            } else {
                assert(r[i] == split_chars(tail, sep)[i - 1]);
            }
        }
    }
}

/// Splitting a join of separator-free pieces recovers exactly the pieces.
pub proof fn lemma_split_join(parts: Seq<Seq<char>>, sep: char)
    requires
        parts.len() > 0,
        forall|i: int, j: int|
            0 <= i < parts.len() && 0 <= j < parts[i].len() ==> parts[i][j] != sep,
    ensures
        split_chars(join_chars(parts, sep), sep) == parts,
    decreases parts.len(),
{
    let s = join_chars(parts, sep);
    if parts.len() == 1 {
        assert(s == parts[0]);
        assert forall|j: int| 0 <= j < s.len() implies s[j] != sep by {
            assert(parts[0][j] != sep);
        }
        lemma_first_idx_is(s, sep, s.len() as int);
        assert(split_chars(s, sep) =~= parts);
    } else {
        let h = parts[0];
        let rest = join_chars(parts.drop_first(), sep);
        assert(s == h + seq![sep] + rest);
        assert forall|j: int| 0 <= j < h.len() implies s[j] != sep by {
            assert(s[j] == h[j]);
            assert(parts[0][j] != sep);
        }
        assert(s[h.len() as int] == sep);
        lemma_first_idx_is(s, sep, h.len() as int);
        assert(first_idx(s, sep) == h.len());
        assert(s.subrange(0, h.len() as int) =~= h);
        assert(s.subrange(h.len() as int + 1, s.len() as int) =~= rest);
        assert forall|i: int, j: int|
            0 <= i < parts.drop_first().len() && 0 <= j < parts.drop_first()[i].len() implies parts
            .drop_first()[i][j] != sep by {
            assert(parts.drop_first()[i] == parts[i + 1]);
        }
        lemma_split_join(parts.drop_first(), sep);
        assert(split_chars(s, sep) =~= parts);
    }
}

/// Joining one more piece appends a separator and the piece.
pub proof fn lemma_join_push(parts: Seq<Seq<char>>, x: Seq<char>, sep: char)
    ensures
        parts.len() == 0 ==> join_chars(parts.push(x), sep) == x,
        parts.len() > 0 ==> join_chars(parts.push(x), sep) == join_chars(parts, sep) + seq![sep]
            + x,
    decreases parts.len(),
{
    if parts.len() == 0 {
        assert(parts.push(x)[0] == x);
        assert(join_chars(parts.push(x), sep) == x);
    } else if parts.len() == 1 {
        assert(parts.push(x).drop_first() =~= seq![x]);
        assert(join_chars(seq![x], sep) == x);
        assert(join_chars(parts.push(x), sep) == parts.push(x)[0] + seq![sep] + join_chars(
            parts.push(x).drop_first(),
            sep,
        ));
        assert(join_chars(parts, sep) == parts[0]);
        assert(join_chars(parts.push(x), sep) =~= join_chars(parts, sep) + seq![sep] + x);
    } else {
        lemma_join_push(parts.drop_first(), x, sep);
        assert(parts.push(x).drop_first() =~= parts.drop_first().push(x));
        assert(join_chars(parts.push(x), sep) == parts[0] + seq![sep] + join_chars(
            parts.drop_first().push(x),
            sep,
        ));
        assert(join_chars(parts, sep) == parts[0] + seq![sep] + join_chars(
            parts.drop_first(),
            sep,
        ));
        assert(join_chars(parts.push(x), sep) =~= join_chars(parts, sep) + seq![sep] + x);
    }
}

/// The ASCII whitespace characters that trimming removes.
pub open spec fn is_ws(c: char) -> bool {
    c == ' ' || c == '\t' || c == '\r' || c == '\n'
}

/// Length of the leading whitespace run of `s`.
pub open spec fn ws_run(s: Seq<char>) -> nat
    decreases s.len(),
{
    if s.len() == 0 {
        0
    } else if is_ws(s[0]) {
        1 + ws_run(s.drop_first())
    } else {
        0
    }
}

/// `ws_run` is the unique boundary of the leading whitespace run.
pub proof fn lemma_ws_run_is(s: Seq<char>, i: int)
    requires
        0 <= i <= s.len(),
        forall|j: int| 0 <= j < i ==> is_ws(s[j]),
        i < s.len() ==> !is_ws(s[i]),
    ensures
        ws_run(s) == i,
    decreases s.len(),
{
    if s.len() > 0 && i > 0 {
        assert forall|j: int| 0 <= j < i - 1 implies is_ws(s.drop_first()[j]) by {
            assert(s.drop_first()[j] == s[j + 1]);
        }
        if i - 1 < s.len() - 1 {
            assert(s.drop_first()[i - 1] == s[i]);
        }
        lemma_ws_run_is(s.drop_first(), i - 1);
    }
}

/// Length of the trailing whitespace run of `s`.
pub open spec fn ws_run_end(s: Seq<char>) -> nat
    decreases s.len(),
{
    if s.len() == 0 {
        0
    } else if is_ws(s.last()) {
        1 + ws_run_end(s.drop_last())
    } else {
        0
    }
}

/// `ws_run_end` is the unique length of the trailing whitespace run.
pub proof fn lemma_ws_run_end_is(s: Seq<char>, k: int)
    requires
        0 <= k <= s.len(),
        forall|j: int| s.len() - k <= j < s.len() ==> is_ws(s[j]),
        k < s.len() ==> !is_ws(s[s.len() - k - 1]),
    ensures
        ws_run_end(s) == k,
    decreases s.len(),
{
    if s.len() > 0 {
        assert(s.last() == s[s.len() - 1]);
        if is_ws(s.last()) {
            assert(k >= 1);
            assert forall|j: int| s.len() - 1 - (k - 1) <= j < s.len() - 1 implies is_ws(
                s.drop_last()[j],
            ) by {
                assert(s.drop_last()[j] == s[j]);
            }
            if k - 1 < s.len() - 1 {
                assert(s.drop_last()[s.len() - 1 - (k - 1) - 1] == s[s.len() - k - 1]);
            }
            lemma_ws_run_end_is(s.drop_last(), k - 1);
        } else {
            assert(k == 0);
        }
    }
}

/// `s` with leading and trailing ASCII whitespace removed.
pub open spec fn trim_spec(s: Seq<char>) -> Seq<char> {
    let t = s.skip(ws_run(s) as int);
    t.take((t.len() - ws_run_end(t)) as int)
}

/// A string is blank when trimming leaves nothing.
pub open spec fn is_blank(s: Seq<char>) -> bool {
    trim_spec(s).len() == 0
}

/// Length of the trailing run of the character `c`.
pub open spec fn char_run_end(s: Seq<char>, c: char) -> nat
    decreases s.len(),
{
    if s.len() == 0 {
        0
    } else if s.last() == c {
        1 + char_run_end(s.drop_last(), c)
    } else {
        0
    }
}

/// `char_run_end` is the unique length of the trailing run of `c`.
pub proof fn lemma_char_run_end_is(s: Seq<char>, c: char, k: int)
    requires
        0 <= k <= s.len(),
        forall|j: int| s.len() - k <= j < s.len() ==> s[j] == c,
        k < s.len() ==> s[s.len() - k - 1] != c,
    ensures
        char_run_end(s, c) == k,
    decreases s.len(),
{
    if s.len() > 0 {
        assert(s.last() == s[s.len() - 1]);
        if s.last() == c {
            assert(k >= 1);
            assert forall|j: int| s.len() - 1 - (k - 1) <= j < s.len() - 1 implies s.drop_last()[j]
                == c by {
                assert(s.drop_last()[j] == s[j]);
            }
            if k - 1 < s.len() - 1 {
                assert(s.drop_last()[s.len() - 1 - (k - 1) - 1] == s[s.len() - k - 1]);
            }
            lemma_char_run_end_is(s.drop_last(), c, k - 1);
        } else {
            assert(k == 0);
        }
    }
}

/// `s` with every trailing occurrence of `c` removed.
pub open spec fn trim_trail_spec(s: Seq<char>, c: char) -> Seq<char> {
    s.take((s.len() - char_run_end(s, c)) as int)
}

/// Length of the leading run of the character `c`.
pub open spec fn char_run(s: Seq<char>, c: char) -> nat
    decreases s.len(),
{
    if s.len() == 0 {
        0
    } else if s[0] == c {
        1 + char_run(s.drop_first(), c)
    } else {
        0
    }
}

/// `char_run` is the unique boundary of the leading run of `c`.
pub proof fn lemma_char_run_is(s: Seq<char>, c: char, i: int)
    requires
        0 <= i <= s.len(),
        forall|j: int| 0 <= j < i ==> s[j] == c,
        i < s.len() ==> s[i] != c,
    ensures
        char_run(s, c) == i,
    decreases s.len(),
{
    if s.len() > 0 && i > 0 {
        assert forall|j: int| 0 <= j < i - 1 implies s.drop_first()[j] == c by {
            assert(s.drop_first()[j] == s[j + 1]);
        }
        if i - 1 < s.len() - 1 {
            assert(s.drop_first()[i - 1] == s[i]);
        }
        lemma_char_run_is(s.drop_first(), c, i - 1);
    }
}

/// `s` with every leading occurrence of `c` removed.
pub open spec fn trim_lead_spec(s: Seq<char>, c: char) -> Seq<char> {
    s.skip(char_run(s, c) as int)
}

/// `p` occurs somewhere in `s` as a contiguous subsequence.
pub open spec fn has_sub(s: Seq<char>, p: Seq<char>) -> bool {
    exists|i: int| 0 <= i <= s.len() - p.len() && #[trigger] s.subrange(i, i + p.len() as int)
        == p
}

/// Collects the characters of `s` into a vector.
pub fn chars_of(s: &str) -> (v: Vec<char>)
    ensures
        v@ == s@,
{
    let n = s.unicode_len();
    let mut v: Vec<char> = Vec::new();
    let mut i: usize = 0;
    while i < n
        invariant
            n == s@.len(),
            i <= n,
            v@ == s@.subrange(0, i as int),
        decreases n - i,
    {
        v.push(s.get_char(i));
        assert(v@ =~= s@.subrange(0, i + 1));
        i += 1;
    }
    assert(v@ =~= s@);
    v
}

/// Relies on `core::iter::Iterator::collect` via `FromIterator` for `String`:
/// collecting a sequence of characters yields the string of exactly those
/// characters, in order.
#[verifier::external_body]
pub fn string_from_chars(v: &Vec<char>) -> (s: String)
    ensures
        s@ == v@,
{
    v.iter().collect()
}

/// Copies the characters of `v` between `a` (inclusive) and `b` (exclusive).
pub fn subvec(v: &Vec<char>, a: usize, b: usize) -> (r: Vec<char>)
    requires
        a <= b <= v@.len(),
    ensures
        r@ == v@.subrange(a as int, b as int),
{
    let mut r: Vec<char> = Vec::new();
    let mut i: usize = a;
    while i < b
        invariant
            a <= i <= b <= v@.len(),
            r@ == v@.subrange(a as int, i as int),
        decreases b - i,
    {
        r.push(v[i]);
        assert(r@ =~= v@.subrange(a as int, i + 1));
        i += 1;
    }
    r
}

/// Splits `s` at every occurrence of `sep`.
pub fn split_str(s: &str, sep: char) -> (r: Vec<String>)
    ensures
        r.deep_view() == split_chars(s@, sep),
{
    let v = chars_of(s);
    let n = v.len();
    let mut out: Vec<String> = Vec::new();
    let mut start: usize = 0;
    assert(v@.subrange(0, n as int) =~= v@);
    loop
        invariant
            start <= n,
            n == v@.len(),
            v@ == s@,
            split_chars(s@, sep) =~= out.deep_view() + split_chars(
                v@.subrange(start as int, n as int),
                sep,
            ),
        decreases n + 1 - start,
    {
        let ghost rest = v@.subrange(start as int, n as int);
        let mut pos: usize = start;
        while pos < n && v[pos] != sep
            invariant
                start <= pos <= n,
                n == v@.len(),
                forall|j: int| start <= j < pos ==> v@[j] != sep,
            decreases n - pos,
        {
            pos += 1;
        }
        proof {
            assert forall|j: int| 0 <= j < pos - start implies rest[j] != sep by {
                assert(rest[j] == v@[start + j]);
            }
            if pos < n {
                assert(rest[pos - start] == v@[pos as int]);
            }
            lemma_first_idx_is(rest, sep, pos - start);
        }
        let piece = subvec(&v, start, pos);
        let pstr = string_from_chars(&piece);
        out.push(pstr);
        if pos == n {
            proof {
                assert(split_chars(rest, sep) =~= seq![rest]);
                assert(out.deep_view() =~= out.deep_view().drop_last().push(rest));
                assert(split_chars(s@, sep) =~= out.deep_view());
            }
            return out;
        }
        proof {
            let tail = v@.subrange(pos as int + 1, n as int);
            assert(rest.subrange(0, pos - start) =~= v@.subrange(start as int, pos as int));
            assert(rest.subrange(pos - start + 1, rest.len() as int) =~= tail);
            assert(split_chars(rest, sep) == seq![rest.subrange(0, pos - start)] + split_chars(
                tail,
                sep,
            ));
            assert(out.deep_view() =~= out.deep_view().drop_last().push(
                v@.subrange(start as int, pos as int),
            ));
            assert(split_chars(s@, sep) =~= out.deep_view() + split_chars(tail, sep));
        }
        start = pos + 1;
    }
}

/// Joins `parts` with a single `sep` between neighbours.
pub fn join_str(parts: &Vec<String>, sep: char) -> (r: String)
    ensures
        r@ == join_chars(parts.deep_view(), sep),
{
    if parts.len() == 0 {
        return String::new();
    }
    let mut acc: Vec<char> = chars_of(parts[0].as_str());
    assert(parts.deep_view().subrange(0, 1) =~= seq![parts.deep_view()[0]]);
    let mut i: usize = 1;
    while i < parts.len()
        invariant
            1 <= i <= parts@.len(),
            acc@ == join_chars(parts.deep_view().subrange(0, i as int), sep),
        decreases parts@.len() - i,
    {
        let ghost prefix = parts.deep_view().subrange(0, i as int);
        acc.push(sep);
        let mut piece = chars_of(parts[i].as_str());
        acc.append(&mut piece);
        proof {
            lemma_join_push(prefix, parts.deep_view()[i as int], sep);
            assert(prefix.push(parts.deep_view()[i as int]) =~= parts.deep_view().subrange(
                0,
                i + 1,
            ));
            assert(acc@ =~= join_chars(prefix, sep) + seq![sep] + parts.deep_view()[i as int]);
        }
        i += 1;
    }
    assert(parts.deep_view().subrange(0, parts@.len() as int) =~= parts.deep_view());
    string_from_chars(&acc)
}

/// Whether `c` is one of the ASCII whitespace characters trimming removes.
pub fn is_ws_char(c: char) -> (r: bool)
    ensures
        r == is_ws(c),
{
    c == ' ' || c == '\t' || c == '\r' || c == '\n'
}

/// Removes leading and trailing ASCII whitespace.
pub fn trim_str(s: &str) -> (r: String)
    ensures
        r@ == trim_spec(s@),
{
    let v = chars_of(s);
    let n = v.len();
    let mut i: usize = 0;
    while i < n && is_ws_char(v[i])
        invariant
            i <= n,
            n == v@.len(),
            forall|j: int| 0 <= j < i ==> is_ws(v@[j]),
        decreases n - i,
    {
        i += 1;
    }
    proof {
        lemma_ws_run_is(s@, i as int);
    }
    let mut j: usize = n;
    while j > i && is_ws_char(v[j - 1])
        invariant
            i <= j <= n,
            n == v@.len(),
            forall|k: int| j <= k < n ==> is_ws(v@[k]),
        decreases j,
    {
        j -= 1;
    }
    proof {
        let t = s@.skip(i as int);
        assert forall|k: int| t.len() - (n - j) <= k < t.len() implies is_ws(t[k]) by {
            assert(t[k] == s@[i + k]);
        }
        if n - j < t.len() {
            assert(t[t.len() - (n - j) - 1] == s@[j - 1]);
        }
        lemma_ws_run_end_is(t, n - j);
        assert(t.take(j - i) =~= s@.subrange(i as int, j as int));
    }
    let piece = subvec(&v, i, j);
    string_from_chars(&piece)
}

/// Whether `s` trims to the empty string.
pub fn is_blank_str(s: &str) -> (r: bool)
    ensures
        r == is_blank(s@),
{
    let t = trim_str(s);
    t.as_str().is_empty()
}

/// Removes every trailing occurrence of `c`.
pub fn trim_trail_char(s: &str, c: char) -> (r: String)
    ensures
        r@ == trim_trail_spec(s@, c),
{
    let v = chars_of(s);
    let n = v.len();
    let mut j: usize = n;
    while j > 0 && v[j - 1] == c
        invariant
            j <= n,
            n == v@.len(),
            forall|k: int| j <= k < n ==> v@[k] == c,
        decreases j,
    {
        j -= 1;
    }
    proof {
        if n - j < s@.len() {
            assert(s@[j - 1] != c);
        }
        lemma_char_run_end_is(s@, c, n - j);
    }
    let piece = subvec(&v, 0, j);
    string_from_chars(&piece)
}

/// Removes every leading occurrence of `c`.
pub fn trim_lead_char(s: &str, c: char) -> (r: String)
    ensures
        r@ == trim_lead_spec(s@, c),
{
    let v = chars_of(s);
    let n = v.len();
    let mut i: usize = 0;
    while i < n && v[i] == c
        invariant
            i <= n,
            n == v@.len(),
            forall|j: int| 0 <= j < i ==> v@[j] == c,
        decreases n - i,
    {
        i += 1;
    }
    proof {
        lemma_char_run_is(s@, c, i as int);
    }
    let piece = subvec(&v, i, n);
    string_from_chars(&piece)
}

/// Whether the window of `v` at `at` equals `p`.
fn window_eq(v: &Vec<char>, p: &Vec<char>, at: usize) -> (r: bool)
    requires
        at + p@.len() <= v@.len(),
    ensures
        r == (v@.subrange(at as int, at + p@.len()) == p@),
{
    let pn = p.len();
    let vn = v.len();
    let mut j: usize = 0;
    while j < pn
        invariant
            j <= pn,
            pn == p@.len(),
            vn == v@.len(),
            at + pn <= vn,
            forall|k: int| 0 <= k < j ==> v@[at + k] == p@[k],
        decreases pn - j,
    {
        if v[at + j] != p[j] {
            proof {
                assert(v@.subrange(at as int, at + p@.len())[j as int] == v@[at + j]);
            }
            return false;
        }
        j += 1;
    }
    proof {
        assert(v@.subrange(at as int, at + p@.len()) =~= p@);
    }
    true
}

/// Whether `p` occurs in `s` as a contiguous substring.
pub fn str_has_sub(s: &str, p: &str) -> (r: bool)
    ensures
        r == has_sub(s@, p@),
{
    let sv = chars_of(s);
    let pv = chars_of(p);
    let sn = sv.len();
    let pn = pv.len();
    if pn > sn {
        return false;
    }
    if pn == 0 {
        proof {
            assert(s@.subrange(0, 0 + p@.len() as int) =~= p@);
        }
        return true;
    }
    let mut i: usize = 0;
    while i <= sn - pn
        invariant
            1 <= pn <= sn,
            sn == sv@.len(),
            pn == pv@.len(),
            sv@ == s@,
            pv@ == p@,
            i <= sn - pn + 1,
            forall|k: int| 0 <= k < i ==> #[trigger] s@.subrange(k, k + p@.len() as int) != p@,
        decreases sn as int - pn as int + 1 - i as int,
    {
        if window_eq(&sv, &pv, i) {
            proof {
                assert(s@.subrange(i as int, i as int + p@.len() as int) == p@);
            }
            return true;
        }
        i += 1;
    }
    false
}

/// Whether two string slices hold the same characters.
pub fn str_eq(a: &str, b: &str) -> (r: bool)
    ensures
        r == (a@ == b@),
{
    let av = chars_of(a);
    let bv = chars_of(b);
    if av.len() != bv.len() {
        return false;
    }
    let r = window_eq(&av, &bv, 0);
    proof {
        assert(a@.subrange(0, b@.len() as int) =~= a@);
        if r {
            assert(a@ =~= b@);
        }
    }
    r
}

/// Whether `s` begins with `p`.
pub fn str_starts_with(s: &str, p: &str) -> (r: bool)
    ensures
        r == p@.is_prefix_of(s@),
{
    let sv = chars_of(s);
    let pv = chars_of(p);
    if pv.len() > sv.len() {
        return false;
    }
    let r = window_eq(&sv, &pv, 0);
    proof {
        if r {
            assert(p@ =~= s@.subrange(0, p@.len() as int));
        } else {
            assert(!(p@ =~= s@.subrange(0, p@.len() as int)));
        }
    }
    r
}

/// Strict lexicographic order on character sequences, by scalar value.
pub open spec fn lex_lt(a: Seq<char>, b: Seq<char>) -> bool
    decreases a.len(),
{
    if b.len() == 0 {
        false
    } else if a.len() == 0 {
        true
    } else if a[0] != b[0] {
        (a[0] as int) < (b[0] as int)
    } else {
        lex_lt(a.drop_first(), b.drop_first())
    }
}

/// `lex_lt` is a strict total order: exactly one of the three cases holds.
pub proof fn lemma_lex_trichotomy(a: Seq<char>, b: Seq<char>)
    ensures
        lex_lt(a, b) || lex_lt(b, a) || a == b,
        lex_lt(a, b) ==> !lex_lt(b, a) && a != b,
        lex_lt(b, a) ==> !lex_lt(a, b) && b != a,
    decreases a.len(),
{
    if a.len() > 0 && b.len() > 0 && a[0] == b[0] {
        lemma_lex_trichotomy(a.drop_first(), b.drop_first());
        if a.drop_first() == b.drop_first() {
            assert forall|i: int| 0 <= i < a.len() implies a[i] == b[i] by {
                if i > 0 {
                    assert(a.drop_first()[i - 1] == a[i]);
                    assert(b.drop_first()[i - 1] == b[i]);
                }
            }
            assert(a =~= b);
        }
    }
}

/// `lex_lt` is transitive.
pub proof fn lemma_lex_trans(a: Seq<char>, b: Seq<char>, c: Seq<char>)
    requires
        lex_lt(a, b),
        lex_lt(b, c),
    ensures
        lex_lt(a, c),
    decreases a.len(),
{
    assert(c.len() > 0);
    if a.len() == 0 {
    } else {
        assert(b.len() > 0);
        if a[0] == b[0] && b[0] == c[0] {
            lemma_lex_trans(a.drop_first(), b.drop_first(), c.drop_first());
        } else if a[0] == b[0] {
            assert((b[0] as int) < (c[0] as int));
            assert((a[0] as int) < (c[0] as int));
            assert(a[0] != c[0]);
        } else if b[0] == c[0] {
            assert((a[0] as int) < (b[0] as int));
            assert(a[0] != c[0]);
        } else {
            assert((a[0] as int) < (b[0] as int));
            assert((b[0] as int) < (c[0] as int));
            assert(a[0] != c[0]);
        }
    }
}

/// Whether `a` comes strictly before `b` in lexicographic order.
pub fn str_lt(a: &str, b: &str) -> (r: bool)
    ensures
        r == lex_lt(a@, b@),
{
    let av = chars_of(a);
    let bv = chars_of(b);
    let an = av.len();
    let bn = bv.len();
    let mut i: usize = 0;
    assert(a@.skip(0) =~= a@);
    assert(b@.skip(0) =~= b@);
    while i < an && i < bn
        invariant
            i <= an,
            i <= bn,
            an == a@.len(),
            bn == b@.len(),
            av@ == a@,
            bv@ == b@,
            lex_lt(a@, b@) == lex_lt(a@.skip(i as int), b@.skip(i as int)),
        decreases an - i,
    {
        let x = av[i];
        let y = bv[i];
        proof {
            assert(a@.skip(i as int)[0] == a@[i as int]);
            assert(b@.skip(i as int)[0] == b@[i as int]);
        }
        if x != y {
            let r = x < y;
            proof {
                assert(a@.skip(i as int).len() > 0);
                assert(b@.skip(i as int).len() > 0);
                assert(lex_lt(a@.skip(i as int), b@.skip(i as int)) == ((x as int) < (
                y as int)));
            }
            return r;
        }
        proof {
            assert(a@.skip(i as int).drop_first() =~= a@.skip(i + 1));
            assert(b@.skip(i as int).drop_first() =~= b@.skip(i + 1));
        }
        i += 1;
    }
    proof {
        assert(a@.skip(i as int).len() == an - i);
        assert(b@.skip(i as int).len() == bn - i);
        if i == an && i < bn {
            assert(lex_lt(a@.skip(i as int), b@.skip(i as int)));
        } else {
            assert(b@.skip(i as int).len() == 0);
            assert(!lex_lt(a@.skip(i as int), b@.skip(i as int)));
        }
    }
    i == an && i < bn
}

/// Every neighbouring pair (hence every pair) is strictly ordered.
pub open spec fn strictly_sorted(q: Seq<Seq<char>>) -> bool {
    forall|i: int, j: int| 0 <= i < j < q.len() ==> lex_lt(q[i], q[j])
}

/// Inserts `s` into the sorted vector `v` unless it is already present,
/// keeping the vector strictly sorted; the set of entries gains `s` and
/// nothing else.
pub fn sorted_insert_unique(v: &mut Vec<String>, s: String)
    requires
        strictly_sorted(old(v).deep_view()),
    ensures
        strictly_sorted(final(v).deep_view()),
        forall|x: Seq<char>|
            #[trigger] final(v).deep_view().contains(x) <==> (old(v).deep_view().contains(x) || x
                == s@),
{
    let ghost dv = v.deep_view();
    let mut idx: usize = 0;
    while idx < v.len() && str_lt(v[idx].as_str(), s.as_str())
        invariant
            idx <= v@.len(),
            dv == v.deep_view(),
            dv.len() == v@.len(),
            strictly_sorted(dv),
            forall|k: int| 0 <= k < idx ==> lex_lt(dv[k], s@),
        decreases v@.len() - idx,
    {
        idx += 1;
    }
    if idx < v.len() && !str_lt(s.as_str(), v[idx].as_str()) {
        proof {
            lemma_lex_trichotomy(dv[idx as int], s@);
            assert(dv[idx as int] == s@);
            assert(dv.contains(s@));
        }
        return ;
    }
    proof {
        if idx < dv.len() {
            lemma_lex_trichotomy(dv[idx as int], s@);
        }
    }
    v.insert(idx, s);
    proof {
        let dv2 = v.deep_view();
        assert(dv2 =~= dv.insert(idx as int, s@));
        assert forall|i: int, j: int| 0 <= i < j < dv2.len() implies lex_lt(dv2[i], dv2[j]) by {
            if i < idx && j == idx {
                assert(dv2[i] == dv[i]);
            } else if i == idx && j > idx {
                assert(dv2[j] == dv[j - 1]);
                if idx < dv.len() && j - 1 > idx {
                    lemma_lex_trans(s@, dv[idx as int], dv[j - 1]);
                }
            } else if i < idx && j > idx {
                assert(dv2[i] == dv[i]);
                assert(dv2[j] == dv[j - 1]);
                if j - 1 == i {
                    assert(false);
                }
            } else if j < idx {
                assert(dv2[i] == dv[i]);
                assert(dv2[j] == dv[j]);
            } else if i > idx {
                assert(dv2[i] == dv[i - 1]);
                assert(dv2[j] == dv[j - 1]);
            }
        }
        assert forall|x: Seq<char>| #[trigger] dv2.contains(x) implies (dv.contains(x) || x
            == s@) by {
            let w = choose|w: int| 0 <= w < dv2.len() && dv2[w] == x;
            if w < idx {
                assert(dv[w] == x);
            } else if w > idx {
                assert(dv[w - 1] == x);
            }
        }
        assert forall|x: Seq<char>| dv.contains(x) || x == s@ implies #[trigger] dv2.contains(
            x,
        ) by {
            if dv.contains(x) {
                let w = choose|w: int| 0 <= w < dv.len() && dv[w] == x;
                if w < idx {
                    assert(dv2[w] == x);
                } else {
                    assert(dv2[w + 1] == x);
                }
            } else {
                assert(dv2[idx as int] == s@);
            }
        }
    }
}

/// Index of the last occurrence of `c` in `s`, if any.
pub open spec fn last_idx(s: Seq<char>, c: char) -> Option<int>
    decreases s.len(),
{
    if s.len() == 0 {
        None
    } else if s.last() == c {
        Some(s.len() - 1)
    } else {
        last_idx(s.drop_last(), c)
    }
}

/// What `last_idx` returns, characterised without recursion.
pub proof fn lemma_last_idx(s: Seq<char>, c: char)
    ensures
        match last_idx(s, c) {
            Some(i) => 0 <= i < s.len() && s[i] == c && forall|j: int|
                i < j < s.len() ==> s[j] != c,
            None => forall|j: int| 0 <= j < s.len() ==> s[j] != c,
        },
    decreases s.len(),
{
    if s.len() > 0 {
        assert(s.last() == s[s.len() - 1]);
        if s.last() != c {
            lemma_last_idx(s.drop_last(), c);
            assert forall|j: int| 0 <= j < s.len() - 1 implies s.drop_last()[j] == s[j] by {}
        }
    }
}

/// Finds the index of the last occurrence of `c` in `s`, if any.
pub fn find_last_char(s: &str, c: char) -> (r: Option<usize>)
    ensures
        match r {
            Some(i) => last_idx(s@, c) == Some(i as int),
            None => last_idx(s@, c) is None,
        },
{
    let v = chars_of(s);
    let mut j: usize = v.len();
    while j > 0
        invariant
            j <= v@.len(),
            v@ == s@,
            forall|k: int| j <= k < v@.len() ==> v@[k] != c,
        decreases j,
    {
        if v[j - 1] == c {
            proof {
                lemma_last_idx_is_some(s@, c, j - 1);
            }
            return Some(j - 1);
        }
        j -= 1;
    }
    proof {
        lemma_last_idx_is_none(s@, c);
    }
    None
}

/// If `s[i] == c` and nothing later equals `c`, the last index is `i`.
pub proof fn lemma_last_idx_is_some(s: Seq<char>, c: char, i: int)
    requires
        0 <= i < s.len(),
        s[i] == c,
        forall|j: int| i < j < s.len() ==> s[j] != c,
    ensures
        last_idx(s, c) == Some(i),
    decreases s.len(),
{
    assert(s.last() == s[s.len() - 1]);
    if i < s.len() - 1 {
        assert forall|j: int| i < j < s.len() - 1 implies s.drop_last()[j] != c by {
            assert(s.drop_last()[j] == s[j]);
        }
        assert(s.drop_last()[i] == s[i]);
        lemma_last_idx_is_some(s.drop_last(), c, i);
    }
}

/// If `c` occurs nowhere in `s`, there is no last index.
pub proof fn lemma_last_idx_is_none(s: Seq<char>, c: char)
    requires
        forall|j: int| 0 <= j < s.len() ==> s[j] != c,
    ensures
        last_idx(s, c) is None,
    decreases s.len(),
{
    if s.len() > 0 {
        assert(s.last() == s[s.len() - 1]);
        assert forall|j: int| 0 <= j < s.len() - 1 implies s.drop_last()[j] != c by {
            assert(s.drop_last()[j] == s[j]);
        }
        lemma_last_idx_is_none(s.drop_last(), c);
    }
}

/// The view of an optional string: `None`, or the character sequence.
pub open spec fn opt_view(o: Option<String>) -> Option<Seq<char>> {
    match o {
        Some(s) => Some(s@),
        None => None,
    }
}

/// The part of a path after its last separator (the whole path if none).
pub open spec fn file_name_spec(p: Seq<char>) -> Seq<char> {
    match last_idx(p, '/') {
        Some(i) => p.skip(i + 1),
        None => p,
    }
}

/// Extracts the file-name part of a path.
pub fn file_name_of(s: &str) -> (r: String)
    ensures
        r@ == file_name_spec(s@),
{
    let v = chars_of(s);
    proof {
        lemma_last_idx(s@, '/');
    }
    match find_last_char(s, '/') {
        Some(i) => {
            let piece = subvec(&v, i + 1, v.len());
            assert(v@.subrange(i + 1, v@.len() as int) =~= s@.skip(i + 1));
            string_from_chars(&piece)
        },
        None => s.to_owned(),
    }
}

/// The extension of a path's file name: what follows the last dot, unless
/// the dot starts the name or there is none.
pub open spec fn ext_spec(p: Seq<char>) -> Option<Seq<char>> {
    let f = file_name_spec(p);
    match last_idx(f, '.') {
        Some(k) => if k > 0 {
            Some(f.skip(k + 1))
        } else {
            None
        },
        None => None,
    }
}

/// The file name of a path with its extension (and the dot) removed.
pub open spec fn stem_spec(p: Seq<char>) -> Seq<char> {
    let f = file_name_spec(p);
    match last_idx(f, '.') {
        Some(k) => if k > 0 {
            f.take(k)
        } else {
            f
        },
        None => f,
    }
}

/// Extracts the extension of a path's file name, if any.
pub fn ext_of(s: &str) -> (r: Option<String>)
    ensures
        opt_view(r) == ext_spec(s@),
{
    let f = file_name_of(s);
    let v = chars_of(f.as_str());
    proof {
        lemma_last_idx(f@, '.');
    }
    match find_last_char(f.as_str(), '.') {
        Some(k) => {
            if k > 0 {
                let piece = subvec(&v, k + 1, v.len());
                assert(v@.subrange(k + 1, v@.len() as int) =~= f@.skip(k + 1));
                Some(string_from_chars(&piece))
            } else {
                None
            }
        },
        None => None,
    }
}

/// Extracts the stem (file name without extension) of a path.
pub fn stem_of(s: &str) -> (r: String)
    ensures
        r@ == stem_spec(s@),
{
    let f = file_name_of(s);
    let v = chars_of(f.as_str());
    proof {
        lemma_last_idx(f@, '.');
    }
    match find_last_char(f.as_str(), '.') {
        Some(k) => {
            if k > 0 {
                let piece = subvec(&v, 0, k);
                assert(v@.subrange(0, k as int) =~= f@.take(k as int));
                string_from_chars(&piece)
            } else {
                f
            }
        },
        None => f,
    }
}

/// The first piece of a path split at the separator.
pub open spec fn first_seg(p: Seq<char>) -> Seq<char> {
    split_chars(p, '/')[0]
}

/// Extracts the first separator-delimited segment of `s`.
pub fn first_segment(s: &str) -> (r: String)
    ensures
        r@ == first_seg(s@),
{
    let v = chars_of(s);
    let n = v.len();
    let mut pos: usize = 0;
    while pos < n && v[pos] != '/'
        invariant
            pos <= n,
            n == v@.len(),
            forall|j: int| 0 <= j < pos ==> v@[j] != '/',
        decreases n - pos,
    {
        pos += 1;
    }
    proof {
        lemma_first_idx_is(s@, '/', pos as int);
        if pos == n {
            assert(s@.subrange(0, pos as int) =~= s@);
        }
    }
    let piece = subvec(&v, 0, pos);
    string_from_chars(&piece)
}

/// A nonempty separator-free string splits into just itself.
pub proof fn lemma_single_seg(s: Seq<char>)
    requires
        forall|i: int| 0 <= i < s.len() ==> s[i] != '/',
    ensures
        split_chars(s, '/') == seq![s],
        s.len() > 0 ==> is_clean_path(s),
        first_seg(s) == s,
{
    lemma_first_idx_is(s, '/', s.len() as int);
    assert(split_chars(s, '/') =~= seq![s]);
}

/// The pieces of `q` that are nonempty, in order.
pub open spec fn keep_nonempty(q: Seq<Seq<char>>) -> Seq<Seq<char>>
    decreases q.len(),
{
    if q.len() == 0 {
        Seq::empty()
    } else if q[0].len() > 0 {
        seq![q[0]] + keep_nonempty(q.drop_first())
    } else {
        keep_nonempty(q.drop_first())
    }
}

/// What `keep_nonempty` keeps is nonempty, and is free of `sep` whenever
/// every input piece is.
pub proof fn lemma_keep_nonempty(q: Seq<Seq<char>>, sep: char)
    requires
        forall|i: int, j: int| 0 <= i < q.len() && 0 <= j < q[i].len() ==> q[i][j] != sep,
    ensures
        forall|i: int| 0 <= i < keep_nonempty(q).len() ==> keep_nonempty(q)[i].len() > 0,
        forall|i: int, j: int|
            0 <= i < keep_nonempty(q).len() && 0 <= j < keep_nonempty(q)[i].len()
                ==> keep_nonempty(q)[i][j] != sep,
    decreases q.len(),
{
    if q.len() > 0 {
        assert forall|i: int, j: int|
            0 <= i < q.drop_first().len() && 0 <= j < q.drop_first()[i].len() implies q.drop_first(
        )[i][j] != sep by {
            assert(q.drop_first()[i] == q[i + 1]);
        }
        lemma_keep_nonempty(q.drop_first(), sep);
        let r = keep_nonempty(q);
        if q[0].len() > 0 {
            assert forall|i: int| 0 <= i < r.len() implies r[i].len() > 0 by {
                if i > 0 {
                    assert(r[i] == keep_nonempty(q.drop_first())[i - 1]);
                }
            }
            assert forall|i: int, j: int|
                0 <= i < r.len() && 0 <= j < r[i].len() implies r[i][j] != sep by {
                if i > 0 {
                    assert(r[i] == keep_nonempty(q.drop_first())[i - 1]);
                }
            }
        } else {
            assert forall|i: int| 0 <= i < r.len() implies r[i].len() > 0 by {
                assert(r[i] == keep_nonempty(q.drop_first())[i]);
            }
            assert forall|i: int, j: int|
                0 <= i < r.len() && 0 <= j < r[i].len() implies r[i][j] != sep by {
                assert(r[i] == keep_nonempty(q.drop_first())[i]);
            }
        }
    }
}

/// A path is clean when it is empty or none of its segments is empty.
pub open spec fn is_clean_path(p: Seq<char>) -> bool {
    p.len() == 0 || forall|i: int|
        0 <= i < split_chars(p, '/').len() ==> split_chars(p, '/')[i].len() > 0
}

/// A path rebuilt from only its nonempty segments.
pub open spec fn clean_path_spec(p: Seq<char>) -> Seq<char> {
    join_chars(keep_nonempty(split_chars(p, '/')), '/')
}

/// A cleaned path is clean, and its first segment is the first nonempty
/// segment of the original.
pub proof fn lemma_clean_path_props(p: Seq<char>)
    ensures
        is_clean_path(clean_path_spec(p)),
        clean_path_spec(p).len() > 0 ==> keep_nonempty(split_chars(p, '/')).len() > 0
            && first_seg(clean_path_spec(p)) == keep_nonempty(split_chars(p, '/'))[0],
        keep_nonempty(split_chars(p, '/')).len() > 0 ==> clean_path_spec(p).len() > 0,
{
    lemma_split_sep_free(p, '/');
    let segs = keep_nonempty(split_chars(p, '/'));
    lemma_keep_nonempty(split_chars(p, '/'), '/');
    let c = clean_path_spec(p);
    if segs.len() == 0 {
        assert(c.len() == 0);
    } else {
        lemma_split_join(segs, '/');
        assert(split_chars(c, '/') == segs);
        if segs.len() == 1 {
            assert(c == segs[0]);
        } else {
            assert(c == segs[0] + seq!['/'] + join_chars(segs.drop_first(), '/'));
        }
        assert(c.len() > 0);
        assert(first_seg(c) == segs[0]);
    }
}

/// Rebuilds `s` from only its nonempty separator-delimited segments.
pub fn clean_path_str(s: &str) -> (r: String)
    ensures
        r@ == clean_path_spec(s@),
{
    let kept = nonempty_segments(s);
    join_str(&kept, '/')
}

/// Collects the nonempty separator-delimited segments of `s`, in order.
pub fn nonempty_segments(s: &str) -> (r: Vec<String>)
    ensures
        r.deep_view() == keep_nonempty(split_chars(s@, '/')),
{
    let parts = split_str(s, '/');
    let ghost dv = parts.deep_view();
    let mut kept: Vec<String> = Vec::new();
    let mut i: usize = 0;
    assert(dv.skip(0) =~= dv);
    while i < parts.len()
        invariant
            i <= parts@.len(),
            dv == parts.deep_view(),
            dv.len() == parts@.len(),
            keep_nonempty(dv) =~= kept.deep_view() + keep_nonempty(dv.skip(i as int)),
        decreases parts@.len() - i,
    {
        proof {
            assert(dv.skip(i as int)[0] == dv[i as int]);
            assert(dv.skip(i as int).drop_first() =~= dv.skip(i + 1));
        }
        if !parts[i].as_str().is_empty() {
            kept.push(parts[i].clone());
            proof {
                assert(kept.deep_view() =~= kept.deep_view().drop_last().push(dv[i as int]));
            }
        }
        i += 1;
    }
    assert(dv.skip(parts@.len() as int) =~= Seq::<Seq<char>>::empty());
    assert(kept.deep_view() =~= keep_nonempty(split_chars(s@, '/')));
    kept
}

/// Number of occurrences of `c` in `s`.
pub open spec fn char_count(s: Seq<char>, c: char) -> nat
    decreases s.len(),
{
    if s.len() == 0 {
        0
    } else {
        (if s[0] == c {
            1 as nat
        } else {
            0 as nat
        }) + char_count(s.drop_first(), c)
    }
}

/// Counts the occurrences of `c` in `s`.
pub fn count_char_str(s: &str, c: char) -> (r: usize)
    ensures
        r == char_count(s@, c),
{
    let v = chars_of(s);
    let n = v.len();
    let mut cnt: usize = 0;
    let mut i: usize = 0;
    assert(s@.skip(0) =~= s@);
    while i < n
        invariant
            i <= n,
            n == v@.len(),
            v@ == s@,
            cnt <= i,
            cnt + char_count(s@.skip(i as int), c) == char_count(s@, c),
        decreases n - i,
    {
        proof {
            assert(s@.skip(i as int)[0] == s@[i as int]);
            assert(s@.skip(i as int).drop_first() =~= s@.skip(i + 1));
        }
        if v[i] == c {
            cnt += 1;
        }
        i += 1;
    }
    assert(s@.skip(n as int) =~= Seq::<char>::empty());
    cnt
}

} // verus!
