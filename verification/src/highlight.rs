//! Token colors for syntax-highlight captures and the insertion of diff
//! highlight spans into highlighted HTML.

use vstd::prelude::*;
use crate::text::{chars_of, has_prefix, find_from, find_char_from, lemma_find_from, push_char, push_chars, utf8_bytes};
use vstd::utf8::encode_scalar;
use crate::difft_json::ChangeSpan;
use vstd::utf8::is_char_boundary;
use vstd::string::StringSliceAdditionalSpecFns;

verus! {

/// Whether capture name `c` starts with `p`.
pub open spec fn cap_is(c: Seq<char>, p: &str) -> bool {
    p@.is_prefix_of(c)
}

/// The GitHub prettylights color of a tree-sitter capture name (matched by prefix,
/// first rule wins).
pub open spec fn capture_color(c: Seq<char>) -> Seq<char> {
    if cap_is(c, "comment") {
        "#556271"@
    } else if cap_is(c, "string") {
        "#002d72"@
    } else if cap_is(c, "constant") || cap_is(c, "number") || cap_is(c, "boolean") || cap_is(c, "float") {
        "#004fb3"@
    } else if cap_is(c, "keyword") || cap_is(c, "repeat") || cap_is(c, "conditional")
        || cap_is(c, "exception") || cap_is(c, "include") || cap_is(c, "storageclass") {
        "#db1522"@
    } else if cap_is(c, "constructor") {
        "#953800"@
    } else if cap_is(c, "type") {
        "#1f2328"@
    } else if cap_is(c, "function") || cap_is(c, "method") {
        "#6025cd"@
    } else if cap_is(c, "property") || cap_is(c, "field") {
        "#004fb3"@
    } else if cap_is(c, "variable") || cap_is(c, "parameter") {
        "#1f2328"@
    } else if cap_is(c, "operator") || cap_is(c, "punctuation") {
        "#1f2328"@
    } else if cap_is(c, "tag") {
        "#004fb3"@
    } else if cap_is(c, "attribute") {
        "#6025cd"@
    } else if cap_is(c, "label") || cap_is(c, "namespace") {
        "#953800"@
    } else {
        "#1f2328"@
    }
}

/// Map a tree-sitter capture name to a GitHub prettylights color.
/// Returns (color, italic); no capture is italic.
pub fn github_color_for_capture(capture: &str) -> (res: (&'static str, bool))
    ensures
        res.0@ == capture_color(capture@),
        !res.1,
{
    let c = chars_of(capture);
    let c = c.as_slice();
    if has_prefix(c, "comment") {
        return ("#556271", false);
    }
    if has_prefix(c, "string") {
        return ("#002d72", false);
    }
    if has_prefix(c, "constant") || has_prefix(c, "number") || has_prefix(c, "boolean") || has_prefix(c, "float") {
        return ("#004fb3", false);
    }
    if has_prefix(c, "keyword") || has_prefix(c, "repeat") || has_prefix(c, "conditional")
        || has_prefix(c, "exception") || has_prefix(c, "include") || has_prefix(c, "storageclass")
    {
        return ("#db1522", false);
    }
    if has_prefix(c, "constructor") {
        return ("#953800", false);
    }
    if has_prefix(c, "type") {
        return ("#1f2328", false);
    }
    if has_prefix(c, "function") || has_prefix(c, "method") {
        return ("#6025cd", false);
    }
    if has_prefix(c, "property") || has_prefix(c, "field") {
        return ("#004fb3", false);
    }
    if has_prefix(c, "variable") || has_prefix(c, "parameter") {
        return ("#1f2328", false);
    }
    if has_prefix(c, "operator") || has_prefix(c, "punctuation") {
        return ("#1f2328", false);
    }
    if has_prefix(c, "tag") {
        return ("#004fb3", false);
    }
    if has_prefix(c, "attribute") {
        return ("#6025cd", false);
    }
    if has_prefix(c, "label") || has_prefix(c, "namespace") {
        return ("#953800", false);
    }
    ("#1f2328", false)
}

/// Priority of a capture for overlapping spans (higher wins).
pub open spec fn capture_rank(c: Seq<char>) -> u8 {
    if cap_is(c, "comment") {
        10
    } else if cap_is(c, "string") {
        10
    } else if cap_is(c, "keyword") {
        9
    } else if cap_is(c, "function") || cap_is(c, "method") {
        8
    } else if cap_is(c, "constructor") {
        9
    } else if cap_is(c, "type") {
        8
    } else if cap_is(c, "constant") || cap_is(c, "number") || cap_is(c, "boolean") {
        7
    } else if cap_is(c, "tag") || cap_is(c, "attribute") {
        7
    } else if cap_is(c, "property") || cap_is(c, "field") {
        6
    } else if cap_is(c, "variable") || cap_is(c, "parameter") {
        5
    } else if cap_is(c, "operator") || cap_is(c, "punctuation") {
        3
    } else {
        1
    }
}

/// Priority for overlapping captures. Higher = wins.
/// Specific captures (function, type, keyword) beat generic ones (variable).
pub fn capture_priority(capture: &str) -> (res: u8)
    ensures
        res == capture_rank(capture@),
{
    let c = chars_of(capture);
    let c = c.as_slice();
    if has_prefix(c, "comment") { return 10; }
    if has_prefix(c, "string") { return 10; }
    if has_prefix(c, "keyword") { return 9; }
    if has_prefix(c, "function") || has_prefix(c, "method") { return 8; }
    if has_prefix(c, "constructor") { return 9; }
    if has_prefix(c, "type") { return 8; }
    if has_prefix(c, "constant") || has_prefix(c, "number") || has_prefix(c, "boolean") { return 7; }
    if has_prefix(c, "tag") || has_prefix(c, "attribute") { return 7; }
    if has_prefix(c, "property") || has_prefix(c, "field") { return 6; }
    if has_prefix(c, "variable") || has_prefix(c, "parameter") { return 5; }
    if has_prefix(c, "operator") || has_prefix(c, "punctuation") { return 3; }
    1
}


/// Length of the longest common prefix of two byte sequences.
pub open spec fn common_prefix(a: Seq<u8>, b: Seq<u8>) -> nat
    decreases a.len(),
{
    if a.len() == 0 || b.len() == 0 || a[0] != b[0] {
        0
    } else {
        1 + common_prefix(a.drop_first(), b.drop_first())
    }
}

/// Length of the longest common suffix of two byte sequences.
pub open spec fn common_suffix(a: Seq<u8>, b: Seq<u8>) -> nat
    decreases a.len(),
{
    if a.len() == 0 || b.len() == 0 || a.last() != b.last() {
        0
    } else {
        1 + common_suffix(a.drop_last(), b.drop_last())
    }
}

proof fn lemma_common_prefix(a: Seq<u8>, b: Seq<u8>, k: int)
    requires
        0 <= k <= a.len(),
        k <= b.len(),
        forall|q: int| 0 <= q < k ==> a[q] == b[q],
    ensures
        common_prefix(a, b) == k + common_prefix(a.skip(k), b.skip(k)),
    decreases k,
{
    if k > 0 {
        assert(a.skip(1).skip(k - 1) == a.skip(k));
        assert(b.skip(1).skip(k - 1) == b.skip(k));
        assert(a[0] == b[0]);
        assert forall|q: int| 0 <= q < k - 1 implies a.drop_first()[q] == b.drop_first()[q] by {
            assert(a[q + 1] == b[q + 1]);
        }
        lemma_common_prefix(a.drop_first(), b.drop_first(), k - 1);
    } else {
        assert(a.skip(0) =~= a);
        assert(b.skip(0) =~= b);
    }
}

/// The `q`-th bytes from the end agree.
pub open spec fn back_eq(a: Seq<u8>, b: Seq<u8>, q: int) -> bool {
    a[a.len() - q] == b[b.len() - q]
}

proof fn lemma_common_suffix(a: Seq<u8>, b: Seq<u8>, k: int)
    requires
        0 <= k <= a.len(),
        k <= b.len(),
        forall|q: int| 1 <= q <= k ==> #[trigger] back_eq(a, b, q),
    ensures
        common_suffix(a, b) == k + common_suffix(a.take(a.len() - k), b.take(b.len() - k)),
    decreases k,
{
    if k > 0 {
        assert(a.drop_last().take(a.len() - 1 - (k - 1)) == a.take(a.len() - k));
        assert(b.drop_last().take(b.len() - 1 - (k - 1)) == b.take(b.len() - k));
        assert forall|q: int| 1 <= q <= k - 1 implies #[trigger] back_eq(a.drop_last(), b.drop_last(), q) by {
            assert(back_eq(a, b, q + 1));
        }
        assert(back_eq(a, b, 1));
        lemma_common_suffix(a.drop_last(), b.drop_last(), k - 1);
    } else {
        assert(a.take(a.len() as int) =~= a);
        assert(b.take(b.len() as int) =~= b);
    }
}

proof fn lemma_common_prefix_max(a: Seq<u8>, b: Seq<u8>)
    ensures
        common_prefix(a, b) <= a.len(),
        common_prefix(a, b) <= b.len(),
        forall|q: int| 0 <= q < common_prefix(a, b) ==> a[q] == b[q],
        common_prefix(a, b) < a.len() && common_prefix(a, b) < b.len()
            ==> a[common_prefix(a, b) as int] != b[common_prefix(a, b) as int],
    decreases a.len(),
{
    if !(a.len() == 0 || b.len() == 0 || a[0] != b[0]) {
        lemma_common_prefix_max(a.drop_first(), b.drop_first());
        let c = common_prefix(a, b) as int;
        assert forall|q: int| 0 <= q < c implies a[q] == b[q] by {
            if q > 0 {
                assert(a[q] == a.drop_first()[q - 1]);
                assert(b[q] == b.drop_first()[q - 1]);
            }
        }
        if c < a.len() && c < b.len() {
            assert(a[c] == a.drop_first()[c - 1]);
            assert(b[c] == b.drop_first()[c - 1]);
        }
    }
}

proof fn lemma_common_suffix_max(a: Seq<u8>, b: Seq<u8>)
    ensures
        common_suffix(a, b) <= a.len(),
        common_suffix(a, b) <= b.len(),
        forall|q: int| 1 <= q <= common_suffix(a, b) ==> #[trigger] back_eq(a, b, q),
        common_suffix(a, b) < a.len() && common_suffix(a, b) < b.len()
            ==> back_eq(a, b, common_suffix(a, b) as int + 1) == false,
    decreases a.len(),
{
    if !(a.len() == 0 || b.len() == 0 || a.last() != b.last()) {
        lemma_common_suffix_max(a.drop_last(), b.drop_last());
        let c = common_suffix(a, b) as int;
        assert forall|q: int| 1 <= q <= c implies #[trigger] back_eq(a, b, q) by {
            if q > 1 {
                assert(back_eq(a.drop_last(), b.drop_last(), q - 1));
            }
        }
        if c < a.len() && c < b.len() {
            assert(back_eq(a.drop_last(), b.drop_last(), c) == back_eq(a, b, c + 1));
        }
    }
}

/// `change_bounds` trims as much as it can: the trimmed prefix and suffix
/// agree on both sides, and neither could grow by one more byte (the suffix
/// being taken from what the prefix leaves).
pub proof fn lemma_change_bounds_maximal(a: Seq<u8>, b: Seq<u8>)
    ensures
        ({
            let (os, oe, ns, ne) = change_bounds(a, b);
            &&& os == ns
            &&& 0 <= os <= oe <= a.len()
            &&& ns <= ne <= b.len()
            &&& a.take(os) == b.take(ns)
            &&& a.skip(oe) == b.skip(ne)
            &&& (os < a.len() && os < b.len() ==> a[os] != b[os])
            &&& (os < oe && ns < ne ==> a[oe - 1] != b[ne - 1])
        }),
{
    let p = common_prefix(a, b) as int;
    lemma_common_prefix_max(a, b);
    let x = a.skip(p);
    let y = b.skip(p);
    lemma_common_suffix_max(x, y);
    let s = common_suffix(x, y) as int;
    assert(a.take(p) =~= b.take(p));
    assert forall|q: int| 0 <= q < s implies #[trigger] a.skip(a.len() - s)[q] == b.skip(b.len() - s)[q] by {
        assert(back_eq(x, y, s - q));
    }
    assert(a.skip(a.len() - s) =~= b.skip(b.len() - s));
    if s < x.len() && s < y.len() {
        assert(back_eq(x, y, s + 1) == false);
    }
}

/// Merged spans stay apart only where an identifier character lies between
/// them: in each gap between consecutive merged spans (cut at the line's
/// end) some byte is a letter, digit or `_`.
pub open spec fn gaps_hold_ident(m: Seq<(usize, usize)>, line: Seq<u8>) -> bool {
    forall|k: int| 1 <= k < m.len() ==> gap_has_ident(line, m[k - 1].1 as int, cut_start(#[trigger] m[k], line))
}

/// A span's start, cut at the line's end.
pub open spec fn cut_start(x: (usize, usize), line: Seq<u8>) -> int {
    if (x.0 as int) < line.len() { x.0 as int } else { line.len() as int }
}

/// Some byte in `lo..hi` is a letter, digit or `_`.
pub open spec fn gap_has_ident(line: Seq<u8>, lo: int, hi: int) -> bool {
    exists|q: int| lo <= q < hi && is_ident_byte(#[trigger] line[q])
}

/// Every merged span starts where an input span starts, and merged spans
/// remain separate only across an identifier character.
pub proof fn lemma_merge_spans_gaps(s: Seq<(usize, usize)>, line: Seq<u8>)
    ensures
        merge_spans(s, line) matches Some(m) ==> {
            &&& gaps_hold_ident(m, line)
            &&& m.len() <= s.len()
            &&& forall|k: int| 0 <= k < m.len() ==> exists|j: int| 0 <= j < s.len() && #[trigger] m[k].0 == s[j].0
        },
    decreases s.len(),
{
    if s.len() > 0 {
        lemma_merge_spans_gaps(s.drop_last(), line);
        match merge_spans(s.drop_last(), line) {
            Some(m0) => {
                let x = s.last();
                assert forall|k: int| 0 <= k < m0.len() implies exists|j: int| 0 <= j < s.len() && #[trigger] m0[k].0 == s[j].0 by {
                    let j = choose|j: int| 0 <= j < s.drop_last().len() && m0[k].0 == s.drop_last()[j].0;
                    assert(s[j] == s.drop_last()[j]);
                }
                if m0.len() > 0 {
                    let lo = m0.last().1 as int;
                    let hi = if (x.0 as int) < line.len() { x.0 as int } else { line.len() as int };
                    if lo <= hi && !(forall|q: int| lo <= q < hi ==> !is_ident_byte(#[trigger] line[q])) {
                        let m = m0.push(x);
                        assert(merge_spans(s, line) == Some(m));
                        assert forall|k: int| 1 <= k < m.len() implies gap_has_ident(line, m[k - 1].1 as int, cut_start(#[trigger] m[k], line)) by {
                            if k < m.len() - 1 {
                                assert(m[k - 1] == m0[k - 1] && m[k] == m0[k]);
                            } else {
                                assert(m[k - 1] == m0.last());
                                let q = choose|q: int| lo <= q < hi && is_ident_byte(#[trigger] line[q]);
                                assert(is_ident_byte(line[q]));
                            }
                        }
                        assert(m[m.len() - 1].0 == s[s.len() - 1].0);
                    } else if lo <= hi {
                        let m = m0.update(m0.len() - 1, (m0.last().0, x.1));
                        assert(merge_spans(s, line) == Some(m));
                        assert forall|k: int| 1 <= k < m.len() implies gap_has_ident(line, m[k - 1].1 as int, cut_start(#[trigger] m[k], line)) by {
                            assert(m[k].0 == m0[k].0);
                            assert(m[k - 1] == m0[k - 1]);
                        }
                        assert forall|k: int| 0 <= k < m.len() implies exists|j: int| 0 <= j < s.len() && #[trigger] m[k].0 == s[j].0 by {
                            assert(m[k].0 == m0[k].0);
                        }
                    }
                } else {
                    assert(merge_spans(s, line) == Some(seq![x]));
                    assert(seq![x][0].0 == s[s.len() - 1].0);
                }
            },
            None => {},
        }
    }
}

/// The byte bounds `(old_start, old_end, new_start, new_end)` of the differing
/// middle of two lines, after trimming their common prefix and then the common
/// suffix of what remains.
pub open spec fn change_bounds(a: Seq<u8>, b: Seq<u8>) -> (int, int, int, int) {
    let p = common_prefix(a, b) as int;
    let s = common_suffix(a.skip(p), b.skip(p)) as int;
    (p, a.len() - s, p, b.len() - s)
}

/// Find the minimal differing region between two strings by trimming common prefix/suffix.
pub fn find_change_bounds(old: &str, new: &str) -> (res: (usize, usize, usize, usize))
    requires
        // the remainders after the common prefix are taken as string slices
        is_char_boundary(old.spec_bytes(), common_prefix(old.spec_bytes(), new.spec_bytes()) as int),
        is_char_boundary(new.spec_bytes(), common_prefix(old.spec_bytes(), new.spec_bytes()) as int),
    ensures
        (res.0 as int, res.1 as int, res.2 as int, res.3 as int) == change_bounds(old.spec_bytes(), new.spec_bytes()),
{
    let ob = old.as_bytes();
    let nb = new.as_bytes();
    let ghost a = ob@;
    let ghost b = nb@;
    let mut p: usize = 0;
    while p < ob.len() && p < nb.len() && ob[p] == nb[p]
        invariant
            p <= a.len(),
            p <= b.len(),
            a == ob@,
            b == nb@,
            forall|q: int| 0 <= q < p ==> a[q] == b[q],
        decreases a.len() - p,
    {
        p = p + 1;
    }
    proof {
        lemma_common_prefix(a, b, p as int);
        assert(common_prefix(a.skip(p as int), b.skip(p as int)) == 0);
    }
    let ghost ar = a.skip(p as int);
    let ghost br = b.skip(p as int);
    let mut s: usize = 0;
    while s < ob.len() - p && s < nb.len() - p && ob[ob.len() - 1 - s] == nb[nb.len() - 1 - s]
        invariant
            p <= a.len(),
            p <= b.len(),
            a == ob@,
            b == nb@,
            ar == a.skip(p as int),
            br == b.skip(p as int),
            s <= ar.len(),
            s <= br.len(),
            forall|q: int| 1 <= q <= s ==> #[trigger] back_eq(ar, br, q),
        decreases ar.len() - s,
    {
        assert(ar[ar.len() - (s + 1)] == a[a.len() - 1 - s]);
        assert(br[br.len() - (s + 1)] == b[b.len() - 1 - s]);
        assert(back_eq(ar, br, s + 1));
        s = s + 1;
    }
    proof {
        lemma_common_suffix(ar, br, s as int);
        let ar2 = ar.take(ar.len() - s);
        let br2 = br.take(br.len() - s);
        if ar2.len() > 0 && br2.len() > 0 {
            assert(ar2.last() == a[a.len() - 1 - s]);
            assert(br2.last() == b[b.len() - 1 - s]);
        }
        assert(common_suffix(ar2, br2) == 0);
    }
    (p, ob.len() - s, p, nb.len() - s)
}

/// Insert `x` into `sorted` after every element whose start is not greater.
pub open spec fn insert_by_start(sorted: Seq<(usize, usize)>, x: (usize, usize)) -> Seq<(usize, usize)>
    decreases sorted.len(),
{
    if sorted.len() == 0 {
        seq![x]
    } else if sorted.last().0 <= x.0 {
        sorted.push(x)
    } else {
        insert_by_start(sorted.drop_last(), x).push(sorted.last())
    }
}

/// Stable sort by start position.
pub open spec fn sort_by_start(s: Seq<(usize, usize)>) -> Seq<(usize, usize)>
    decreases s.len(),
{
    if s.len() == 0 {
        Seq::empty()
    } else {
        insert_by_start(sort_by_start(s.drop_last()), s.last())
    }
}

proof fn lemma_insert_len(sorted: Seq<(usize, usize)>, x: (usize, usize))
    ensures
        insert_by_start(sorted, x).len() == sorted.len() + 1,
    decreases sorted.len(),
{
    if sorted.len() > 0 && sorted.last().0 > x.0 {
        lemma_insert_len(sorted.drop_last(), x);
    }
}

/// Insert `x` into the start-sorted vector `v` (stable).
fn insert_sorted(v: &mut Vec<(usize, usize)>, x: (usize, usize))
    ensures
        final(v)@ == insert_by_start(old(v)@, x),
{
    let ghost orig = v@;
    let mut k = v.len();
    assert(orig.take(k as int) =~= orig);
    assert(orig.skip(k as int) =~= Seq::<(usize, usize)>::empty());
    // find the insertion point: after the last element with start <= x.0
    while k > 0 && v[k - 1].0 > x.0
        invariant
            k <= orig.len(),
            v@ == orig,
            insert_by_start(orig, x) == insert_by_start(orig.take(k as int), x) + orig.skip(k as int),
        decreases k,
    {
        proof {
            let t = orig.take(k as int);
            assert(t.last() == orig[k - 1]);
            assert(t.drop_last() == orig.take(k - 1));
            assert(insert_by_start(t, x) == insert_by_start(orig.take(k - 1), x).push(orig[k - 1]));
            assert(orig.skip(k - 1) == seq![orig[k - 1]] + orig.skip(k as int));
            assert(insert_by_start(orig.take(k - 1), x).push(orig[k - 1]) + orig.skip(k as int)
                =~= insert_by_start(orig.take(k - 1), x) + orig.skip(k - 1));
        }
        k = k - 1;
    }
    proof {
        let t = orig.take(k as int);
        if k > 0 {
            assert(t.last() == orig[k - 1]);
        }
        assert(insert_by_start(t, x) == t.push(x));
    }
    v.insert(k, x);
    assert(v@ =~= orig.take(k as int).push(x) + orig.skip(k as int));
}

/// One merge step: the previous range absorbs `(start, end)` when the bytes between
/// them hold no identifier character; `None` when that gap would be an invalid slice.
pub open spec fn merge_step(m: Seq<(usize, usize)>, x: (usize, usize), line: Seq<u8>) -> Option<Seq<(usize, usize)>> {
    if m.len() == 0 {
        Some(seq![x])
    } else {
        let lo = m.last().1 as int;
        let hi = if (x.0 as int) < line.len() { x.0 as int } else { line.len() as int };
        if lo > hi {
            None
        } else if forall|q: int| lo <= q < hi ==> !is_ident_byte(#[trigger] line[q]) {
            Some(m.update(m.len() - 1, (m.last().0, x.1)))
        } else {
            Some(m.push(x))
        }
    }
}

/// ASCII letters, digits and `_`.
pub open spec fn is_ident_byte(b: u8) -> bool {
    (48 <= b <= 57) || (65 <= b <= 90) || (97 <= b <= 122) || b == 95
}

/// Merging of start-sorted spans in order (`None` when a gap slice would be invalid).
pub open spec fn merge_spans(s: Seq<(usize, usize)>, line: Seq<u8>) -> Option<Seq<(usize, usize)>>
    decreases s.len(),
{
    if s.len() == 0 {
        Some(Seq::empty())
    } else {
        match merge_spans(s.drop_last(), line) {
            Some(m) => merge_step(m, s.last(), line),
            None => None,
        }
    }
}

/// The merged spans `m` of `s` are ranges in order and apart, and each span
/// of `s` lies within one of them.
pub open spec fn merged_cover(s: Seq<(usize, usize)>, m: Seq<(usize, usize)>) -> bool {
    &&& forall|k: int| 0 <= k < m.len() ==> (#[trigger] m[k]).0 <= m[k].1
    &&& forall|k: int| 1 <= k < m.len() ==> m[k - 1].1 <= (#[trigger] m[k]).0
    &&& forall|j: int| 0 <= j < s.len() ==> exists|k: int| 0 <= k < m.len()
        && #[trigger] m[k].0 <= (#[trigger] s[j]).0 && s[j].1 <= m[k].1
}

/// Merged spans are in order and apart, and each input span lies within one
/// of them (for spans that end no earlier than they start): merging only
/// joins spans across the bytes between them.
pub proof fn lemma_merge_spans_cover(s: Seq<(usize, usize)>, line: Seq<u8>)
    requires
        forall|j: int| 0 <= j < s.len() ==> (#[trigger] s[j]).0 <= s[j].1,
    ensures
        merge_spans(s, line) matches Some(m) ==> merged_cover(s, m),
    decreases s.len(),
{
    if s.len() > 0 {
        let s0 = s.drop_last();
        assert forall|j: int| 0 <= j < s0.len() implies (#[trigger] s0[j]).0 <= s0[j].1 by {
            assert(s0[j] == s[j]);
        }
        lemma_merge_spans_cover(s0, line);
        if let Some(m0) = merge_spans(s0, line) {
            let x = s.last();
            assert(x == s[s.len() - 1]);
            if m0.len() == 0 {
                let m = seq![x];
                assert(merge_spans(s, line) == Some(m));
                assert(m[0] == x);
                assert(m.len() == 1);
                assert forall|j: int| 0 <= j < s.len() implies exists|k: int| 0 <= k < m.len()
                    && #[trigger] m[k].0 <= (#[trigger] s[j]).0 && s[j].1 <= m[k].1 by {
                    if j < s0.len() {
                        assert(s0[j] == s[j]);
                        let k = choose|k: int| 0 <= k < m0.len() && #[trigger] m0[k].0 <= (#[trigger] s0[j]).0 && s0[j].1 <= m0[k].1;
                    } else {
                        assert(m[0].0 <= s[j].0 && s[j].1 <= m[0].1);
                    }
                }
            } else {
                let lo = m0.last().1 as int;
                let hi = if (x.0 as int) < line.len() { x.0 as int } else { line.len() as int };
                if lo <= hi {
                    if forall|q: int| lo <= q < hi ==> !is_ident_byte(#[trigger] line[q]) {
                        let m = m0.update(m0.len() - 1, (m0.last().0, x.1));
                        assert(merge_spans(s, line) == Some(m));
                        assert forall|k: int| 0 <= k < m.len() implies (#[trigger] m[k]).0 <= m[k].1 by {
                            if k < m.len() - 1 { assert(m[k] == m0[k]); } else { assert(m0[k].0 <= m0[k].1); }
                        }
                        assert forall|k: int| 1 <= k < m.len() implies m[k - 1].1 <= (#[trigger] m[k]).0 by {
                            assert(m[k - 1] == m0[k - 1]);
                            assert(m[k].0 == m0[k].0);
                        }
                        assert forall|j: int| 0 <= j < s.len() implies exists|k: int| 0 <= k < m.len()
                            && #[trigger] m[k].0 <= (#[trigger] s[j]).0 && s[j].1 <= m[k].1 by {
                            if j < s0.len() {
                                assert(s0[j] == s[j]);
                                let k = choose|k: int| 0 <= k < m0.len() && #[trigger] m0[k].0 <= (#[trigger] s0[j]).0 && s0[j].1 <= m0[k].1;
                                if k < m.len() - 1 {
                                    assert(m[k] == m0[k]);
                                } else {
                                    assert(m[k] == (m0.last().0, x.1));
                                    assert(m0[k] == m0.last());
                                }
                            } else {
                                let k = m.len() - 1;
                                assert(m[k] == (m0.last().0, x.1));
                                assert(m0[k].0 <= m0[k].1);
                            }
                        }
                    } else {
                        let m = m0.push(x);
                        assert(merge_spans(s, line) == Some(m));
                        assert forall|k: int| 0 <= k < m.len() implies (#[trigger] m[k]).0 <= m[k].1 by {
                            if k < m.len() - 1 { assert(m[k] == m0[k]); }
                        }
                        assert forall|k: int| 1 <= k < m.len() implies m[k - 1].1 <= (#[trigger] m[k]).0 by {
                            assert(m[k - 1] == m0[k - 1]);
                            if k < m.len() - 1 { assert(m[k] == m0[k]); }
                        }
                        assert forall|j: int| 0 <= j < s.len() implies exists|k: int| 0 <= k < m.len()
                            && #[trigger] m[k].0 <= (#[trigger] s[j]).0 && s[j].1 <= m[k].1 by {
                            if j < s0.len() {
                                assert(s0[j] == s[j]);
                                let k = choose|k: int| 0 <= k < m0.len() && #[trigger] m0[k].0 <= (#[trigger] s0[j]).0 && s0[j].1 <= m0[k].1;
                                assert(m[k] == m0[k]);
                            } else {
                                assert(m[m.len() - 1] == x);
                            }
                        }
                    }
                }
            }
        }
    }
}

/// The (start, end) pairs of change spans.
pub open spec fn span_pairs(changes: Seq<ChangeSpan>) -> Seq<(usize, usize)> {
    changes.map_values(|c: ChangeSpan| (c.start, c.end))
}

/// Merge adjacent difft change spans separated by whitespace or punctuation.
/// Returns start-sorted (start, end) byte ranges.
pub fn merge_whitespace_spans(changes: &[ChangeSpan], line: &str) -> (res: Vec<(usize, usize)>)
    requires
        merge_spans(sort_by_start(span_pairs(changes@)), line.spec_bytes()) is Some,
    ensures
        res@ == merge_spans(sort_by_start(span_pairs(changes@)), line.spec_bytes())->0,
{
    let ghost ps = span_pairs(changes@);
    let mut spans: Vec<(usize, usize)> = Vec::new();
    let mut i: usize = 0;
    while i < changes.len()
        invariant
            i <= changes@.len(),
            ps == span_pairs(changes@),
            spans@ == sort_by_start(ps.take(i as int)),
        decreases changes@.len() - i,
    {
        proof {
            assert(ps.take(i + 1).drop_last() == ps.take(i as int));
            assert(ps.take(i + 1).last() == (changes@[i as int].start, changes@[i as int].end));
        }
        insert_sorted(&mut spans, (changes[i].start, changes[i].end));
        i = i + 1;
    }
    proof { assert(ps.take(ps.len() as int) == ps); }
    let ghost sorted = spans@;
    let bytes = line.as_bytes();
    let ghost lb = bytes@;
    let mut merged: Vec<(usize, usize)> = Vec::new();
    let mut k: usize = 0;
    while k < spans.len()
        invariant
            k <= sorted.len(),
            spans@ == sorted,
            lb == bytes@,
            lb == line.spec_bytes(),
            merge_spans(sorted, lb) is Some,
            merge_spans(sorted.take(k as int), lb) == Some(merged@),
        decreases sorted.len() - k,
    {
        let (start, end) = spans[k];
        proof {
            assert(sorted.take(k + 1).drop_last() == sorted.take(k as int));
            assert(sorted.take(k + 1).last() == (start, end));
            lemma_merge_prefix(sorted, lb, k + 1);
        }
        if merged.len() > 0 {
            let last_idx = merged.len() - 1;
            let (ls, le) = merged[last_idx];
            let hi = if start < bytes.len() { start } else { bytes.len() };
            let mut q = le;
            let mut all_gap = true;
            while q < hi && all_gap
                invariant
                    le <= q <= hi,
                    hi <= lb.len(),
                    lb == bytes@,
                    all_gap == (forall|r: int| le <= r < q ==> !is_ident_byte(#[trigger] lb[r])),
                decreases hi - q,
            {
                let b = bytes[q];
                if (48 <= b && b <= 57) || (65 <= b && b <= 90) || (97 <= b && b <= 122) || b == 95 {
                    all_gap = false;
                }
                q = q + 1;
            }
            if all_gap {
                merged.set(last_idx, (ls, end));
            } else {
                merged.push((start, end));
            }
        } else {
            merged.push((start, end));
        }
        k = k + 1;
    }
    proof { assert(sorted.take(sorted.len() as int) == sorted); }
    merged
}

/// Whether the change spans of a line merge (no gap between them is an invalid slice).
pub fn spans_mergeable(changes: &[ChangeSpan], line: &str) -> (res: bool)
    ensures
        res == (merge_spans(sort_by_start(span_pairs(changes@)), line.spec_bytes()) is Some),
{
    let ghost ps = span_pairs(changes@);
    let mut spans: Vec<(usize, usize)> = Vec::new();
    let mut i: usize = 0;
    while i < changes.len()
        invariant
            i <= changes@.len(),
            ps == span_pairs(changes@),
            spans@ == sort_by_start(ps.take(i as int)),
        decreases changes@.len() - i,
    {
        proof {
            assert(ps.take(i + 1).drop_last() == ps.take(i as int));
            assert(ps.take(i + 1).last() == (changes@[i as int].start, changes@[i as int].end));
        }
        insert_sorted(&mut spans, (changes[i].start, changes[i].end));
        i = i + 1;
    }
    proof { assert(ps.take(ps.len() as int) == ps); }
    let ghost sorted = spans@;
    let bytes = line.as_bytes();
    let ghost lb = bytes@;
    let mut merged: Vec<(usize, usize)> = Vec::new();
    let mut k: usize = 0;
    while k < spans.len()
        invariant
            k <= sorted.len(),
            spans@ == sorted,
            lb == bytes@,
            lb == line.spec_bytes(),
            sorted == sort_by_start(span_pairs(changes@)),
            merge_spans(sorted.take(k as int), lb) == Some(merged@),
        decreases sorted.len() - k,
    {
        let (start, end) = spans[k];
        proof {
            assert(sorted.take(k + 1).drop_last() == sorted.take(k as int));
            assert(sorted.take(k + 1).last() == (start, end));
        }
        if merged.len() > 0 {
            let last_idx = merged.len() - 1;
            let (ls, le) = merged[last_idx];
            let hi = if start < bytes.len() { start } else { bytes.len() };
            if le > hi {
                proof {
                    assert(merged@.last() == (ls, le));
                    assert(merge_step(merged@, (start, end), lb) is None);
                    assert(merge_spans(sorted.take(k + 1), lb) is None);
                    lemma_merge_none_extends(sorted, lb, k + 1);
                }
                return false;
            }
            let mut q = le;
            let mut all_gap = true;
            while q < hi && all_gap
                invariant
                    le <= q <= hi,
                    hi <= lb.len(),
                    lb == bytes@,
                    all_gap == (forall|r: int| le <= r < q ==> !is_ident_byte(#[trigger] lb[r])),
                decreases hi - q,
            {
                let b = bytes[q];
                if (48 <= b && b <= 57) || (65 <= b && b <= 90) || (97 <= b && b <= 122) || b == 95 {
                    all_gap = false;
                }
                q = q + 1;
            }
            if all_gap {
                merged.set(last_idx, (ls, end));
            } else {
                merged.push((start, end));
            }
        } else {
            merged.push((start, end));
        }
        k = k + 1;
    }
    proof { assert(sorted.take(sorted.len() as int) == sorted); }
    true
}

/// Merging fails for the whole when it fails for a prefix.
proof fn lemma_merge_none_extends(s: Seq<(usize, usize)>, line: Seq<u8>, k: int)
    requires
        0 <= k <= s.len(),
        merge_spans(s.take(k), line) is None,
    ensures
        merge_spans(s, line) is None,
    decreases s.len() - k,
{
    if k < s.len() {
        assert(s.take(k + 1).drop_last() == s.take(k));
        lemma_merge_none_extends(s, line, k + 1);
    } else {
        assert(s.take(k) == s);
    }
}

/// The length of the common prefix of the bytes of two strings.
pub fn common_prefix_len(a: &str, b: &str) -> (res: usize)
    ensures
        res == common_prefix(a.spec_bytes(), b.spec_bytes()),
{
    let ab = a.as_bytes();
    let bb = b.as_bytes();
    let mut p: usize = 0;
    while p < ab.len() && p < bb.len() && ab[p] == bb[p]
        invariant
            p <= ab@.len(),
            p <= bb@.len(),
            forall|q: int| 0 <= q < p ==> ab@[q] == bb@[q],
        decreases ab@.len() - p,
    {
        p = p + 1;
    }
    proof {
        lemma_common_prefix(ab@, bb@, p as int);
        let x = ab@.skip(p as int);
        let y = bb@.skip(p as int);
        if x.len() > 0 && y.len() > 0 {
            assert(x[0] == ab@[p as int]);
            assert(y[0] == bb@[p as int]);
        }
        assert(common_prefix(x, y) == 0);
    }
    p
}

/// Merging a prefix succeeds whenever merging the whole succeeds.
proof fn lemma_merge_prefix(s: Seq<(usize, usize)>, line: Seq<u8>, k: int)
    requires
        0 <= k <= s.len(),
        merge_spans(s, line) is Some,
    ensures
        merge_spans(s.take(k), line) is Some,
    decreases s.len() - k,
{
    if k < s.len() {
        assert(s.take(k + 1).drop_last() == s.take(k));
        lemma_merge_prefix(s, line, k + 1);
        if k == s.len() - 1 {
            assert(s.take(k + 1) == s);
        }
    } else {
        assert(s.take(k) == s);
    }
}

/// Index of the first byte that is not a space or tab (0 when there is none).
pub open spec fn first_non_ws(b: Seq<u8>) -> int {
    if exists|i: int| 0 <= i < b.len() && b[i] != 32 && b[i] != 9 {
        choose|i: int| 0 <= i < b.len() && b[i] != 32 && b[i] != 9
            && forall|j: int| 0 <= j < i ==> b[j] == 32 || b[j] == 9
    } else {
        0
    }
}

/// One past the last byte that is not a space or tab (0 when there is none).
pub open spec fn end_non_ws(b: Seq<u8>) -> int {
    if exists|i: int| 0 <= i < b.len() && b[i] != 32 && b[i] != 9 {
        1 + choose|i: int| 0 <= i < b.len() && b[i] != 32 && b[i] != 9
            && forall|j: int| i < j < b.len() ==> b[j] == 32 || b[j] == 9
    } else {
        0
    }
}

/// Whether byte `i` lies in one of the spans.
pub open spec fn in_some_span(spans: Seq<(usize, usize)>, i: int) -> bool {
    exists|k: int| 0 <= k < spans.len() && spans[k].0 <= i < #[trigger] spans[k].1
}

/// Merged spans cover a line's whole content when every byte that is not a
/// space or tab, from the first such byte to the last, lies in one of them;
/// a blank line is covered by any spans, and no spans cover nothing.
/// Opaque so that row contracts do not unfold its quantifier; callers
/// `reveal(covers_full_line)` where they need it.
#[verifier::opaque]
pub open spec fn covers_full_line(spans: Seq<(usize, usize)>, b: Seq<u8>) -> bool {
    if spans.len() == 0 {
        false
    } else if first_non_ws(b) >= end_non_ws(b) {
        true
    } else {
        forall|i: int| first_non_ws(b) <= i < end_non_ws(b) && b[i] != 32 && b[i] != 9
            ==> #[trigger] in_some_span(spans, i)
    }
}

fn byte_in_spans(spans: &[(usize, usize)], i: usize) -> (res: bool)
    ensures
        res == in_some_span(spans@, i as int),
{
    let mut k: usize = 0;
    while k < spans.len()
        invariant
            k <= spans@.len(),
            forall|q: int| 0 <= q < k ==> !(spans@[q].0 <= i < #[trigger] spans@[q].1),
        decreases spans@.len() - k,
    {
        if spans[k].0 <= i && i < spans[k].1 {
            return true;
        }
        k = k + 1;
    }
    false
}

/// Check if merged spans cover the full content of a line (from first
/// non-whitespace character to the last non-whitespace character).
pub fn spans_cover_full_line(spans: &[(usize, usize)], line: &str) -> (res: bool)
    ensures
        res == covers_full_line(spans@, line.spec_bytes()),
{
    reveal(covers_full_line);
    if spans.len() == 0 {
        return false;
    }
    let b = line.as_bytes();
    let ghost bs = b@;
    let mut first: usize = 0;
    while first < b.len() && (b[first] == 32 || b[first] == 9)
        invariant
            first <= bs.len(),
            bs == b@,
            forall|j: int| 0 <= j < first ==> bs[j] == 32 || bs[j] == 9,
        decreases bs.len() - first,
    {
        first = first + 1;
    }
    let mut last: usize = b.len();
    while last > 0 && (b[last - 1] == 32 || b[last - 1] == 9)
        invariant
            last <= bs.len(),
            bs == b@,
            forall|j: int| last <= j < bs.len() ==> bs[j] == 32 || bs[j] == 9,
        decreases last,
    {
        last = last - 1;
    }
    let first_nws = if first < b.len() { first } else { 0 };
    let last_nws = last;
    proof {
        if first < bs.len() {
            assert(bs[first as int] != 32 && bs[first as int] != 9);
            let w = choose|i: int| 0 <= i < bs.len() && bs[i] != 32 && bs[i] != 9
                && forall|j: int| 0 <= j < i ==> bs[j] == 32 || bs[j] == 9;
            assert(w == first) by {
                if w < first { assert(bs[w] == 32 || bs[w] == 9); }
                if w > first { assert(bs[first as int] == 32 || bs[first as int] == 9); }
            }
            assert(last > 0);
            assert(bs[last - 1] != 32 && bs[last - 1] != 9);
            let z = choose|i: int| 0 <= i < bs.len() && bs[i] != 32 && bs[i] != 9
                && forall|j: int| i < j < bs.len() ==> bs[j] == 32 || bs[j] == 9;
            assert(z == last - 1) by {
                if z < last - 1 { assert(bs[last - 1] == 32 || bs[last - 1] == 9); }
                if z > last - 1 { assert(bs[z] == 32 || bs[z] == 9); }
            }
        } else {
            assert(!exists|i: int| 0 <= i < bs.len() && bs[i] != 32 && bs[i] != 9);
            if last > 0 {
                assert(bs[last - 1] == 32 || bs[last - 1] == 9);
            }
        }
    }
    if first_nws >= last_nws {
        return true;
    }
    non_blank_in_spans(spans, b, first_nws, last_nws)
}

fn non_blank_in_spans(spans: &[(usize, usize)], b: &[u8], a: usize, z: usize) -> (res: bool)
    requires
        a <= z <= b@.len(),
    ensures
        res == forall|j: int| a <= j < z && b@[j] != 32 && b@[j] != 9 ==> #[trigger] in_some_span(spans@, j),
{
    let mut i = a;
    while i < z
        invariant
            a <= i <= z <= b@.len(),
            forall|j: int| a <= j < i && b@[j] != 32 && b@[j] != 9 ==> #[trigger] in_some_span(spans@, j),
        decreases z - i,
    {
        if b[i] != 32 && b[i] != 9 && !byte_in_spans(spans, i) {
            return false;
        }
        i = i + 1;
    }
    true
}


/// The opening tag of a diff highlight span with class `cls`.
pub open spec fn open_tag(cls: Seq<char>) -> Seq<char> {
    "<span class=\""@ + cls + "\">"@
}

/// The closing tag of a span.
pub open spec fn close_tag() -> Seq<char> {
    "</span>"@
}

/// End (exclusive) of the HTML tag starting at `i`: just past the next `>`, or the end.
pub open spec fn tag_end(h: Seq<char>, i: int) -> int {
    match find_from(h, i, '>') {
        Some(j) => j + 1,
        None => h.len() as int,
    }
}

/// End (exclusive) of the entity starting at `i`: just past the next `;`, or `i + 1`.
pub open spec fn ent_end(h: Seq<char>, i: int) -> int {
    match find_from(h, i, ';') {
        Some(j) => j + 1,
        None => i + 1,
    }
}

/// An ordinary character of the single-span insertion, `w` bytes wide in the
/// text: open the span when `cs` falls within the character, emit the
/// character whole, and close once the position has reached `ce`.
pub open spec fn hl1_char(c: char, w: int, t: int, opened: bool, cs: int, ce: int, cls: Seq<char>) -> (Seq<char>, int, bool) {
    let o1 = !opened && t <= cs < t + w;
    let pre = if o1 { open_tag(cls) } else { Seq::empty() };
    let op = opened || o1;
    if op && t + w >= ce {
        (pre.push(c) + close_tag(), t + w, false)
    } else {
        (pre.push(c), t + w, op)
    }
}

/// An entity (one text position) of the single-span insertion.
pub open spec fn hl1_entity(ent: Seq<char>, t: int, opened: bool, cs: int, ce: int, cls: Seq<char>) -> (Seq<char>, int, bool) {
    let a1 = !opened && t >= cs && t < ce;
    let op1 = opened || a1;
    let s1 = if a1 { open_tag(cls) } else { Seq::empty() };
    let a2 = op1 && t >= ce;
    let op2 = op1 && !a2;
    let s2 = if a2 { s1 + close_tag() } else { s1 };
    let a3 = !op2 && t == cs;
    let op3 = op2 || a3;
    let s3 = if a3 { s2 + open_tag(cls) } else { s2 };
    if op3 && t + 1 >= ce {
        (s3 + ent + close_tag(), t + 1, false)
    } else {
        (s3 + ent, t + 1, op3)
    }
}

/// Output of the single-span insertion from char `i` of the HTML with text position
/// `t`: tags are copied, an entity counts as one text position, and every
/// other character is copied whole and counts one position per UTF-8 byte.
pub open spec fn hl1_from(h: Seq<char>, i: int, t: int, opened: bool, cs: int, ce: int, cls: Seq<char>) -> Seq<char>
    decreases h.len() - i,
{
    if i < 0 || i >= h.len() {
        if opened { close_tag() } else { Seq::empty() }
    } else if h[i] == '<' {
        let e = tag_end(h, i);
        if i < e <= h.len() { h.subrange(i, e) + hl1_from(h, e, t, opened, cs, ce, cls) } else { Seq::empty() }
    } else if h[i] == '&' {
        let e = ent_end(h, i);
        let r = hl1_entity(h.subrange(i, e), t, opened, cs, ce, cls);
        if i < e <= h.len() { r.0 + hl1_from(h, e, r.1, r.2, cs, ce, cls) } else { Seq::empty() }
    } else {
        let r = hl1_char(h[i], encode_scalar(h[i] as u32).len() as int, t, opened, cs, ce, cls);
        r.0 + hl1_from(h, i + 1, r.1, r.2, cs, ce, cls)
    }
}

/// The highlighted HTML with one diff highlight span around text positions `cs..ce`.
pub open spec fn insert_one(h: Seq<char>, cs: int, ce: int, cls: Seq<char>) -> Seq<char> {
    if cs >= ce { h } else { hl1_from(h, 0, 0, false, cs, ce, cls) }
}

proof fn lemma_tag_end(h: Seq<char>, i: int)
    requires
        0 <= i < h.len(),
    ensures
        i < tag_end(h, i) <= h.len(),
        i < ent_end(h, i) <= h.len(),
{
    lemma_find_from(h, i, '>');
    lemma_find_from(h, i, ';');
}

/// Appends the opening span tag.
fn push_open(out: &mut String, cls: &str)
    ensures
        final(out)@ == old(out)@ + open_tag(cls@),
{
    out.append("<span class=\"");
    out.append(cls);
    out.append("\">");
    assert(final(out)@ =~= old(out)@ + open_tag(cls@));
}

/// One entity step of the single-span insertion.
fn hl1_entity_exec(out: &mut String, h: &[char], i: usize, e: usize, t: &mut usize, opened: &mut bool,
    cs: usize, ce: usize, hl_class: &str)
    requires
        i < e <= h@.len(),
        *old(t) < usize::MAX,
    ensures
        final(out)@ == old(out)@ + hl1_entity(h@.subrange(i as int, e as int), *old(t) as int, *old(opened), cs as int, ce as int, hl_class@).0,
        *final(t) as int == hl1_entity(h@.subrange(i as int, e as int), *old(t) as int, *old(opened), cs as int, ce as int, hl_class@).1,
        *final(opened) == hl1_entity(h@.subrange(i as int, e as int), *old(t) as int, *old(opened), cs as int, ce as int, hl_class@).2,
{
    let ghost r = hl1_entity(h@.subrange(i as int, e as int), *t as int, *opened, cs as int, ce as int, hl_class@);
    let ghost before = out@;
    if !*opened && *t >= cs && *t < ce {
        push_open(out, hl_class);
        *opened = true;
    }
    if *opened && *t >= ce {
        out.append("</span>");
        *opened = false;
    }
    if !*opened && *t == cs {
        push_open(out, hl_class);
        *opened = true;
    }
    push_chars(out, h, i, e);
    *t = *t + 1;
    if *opened && *t >= ce {
        out.append("</span>");
        *opened = false;
    }
    assert(out@ =~= before + r.0);
}

/// One ordinary character of the single-span insertion.
fn hl1_char_exec(out: &mut String, c: char, t: &mut usize, opened: &mut bool, cs: usize, ce: usize, hl_class: &str)
    requires
        *old(t) <= usize::MAX - 4,
    ensures
        ({
            let r = hl1_char(c, encode_scalar(c as u32).len() as int, *old(t) as int, *old(opened), cs as int, ce as int, hl_class@);
            &&& final(out)@ == old(out)@ + r.0
            &&& *final(t) as int == r.1
            &&& *final(opened) == r.2
        }),
        *final(t) <= *old(t) + 4,
{
    let w = utf8_bytes(c).len();
    proof { vstd::utf8::char_is_scalar(c); }
    assert(w <= 4);
    let ghost r = hl1_char(c, w as int, *t as int, *opened, cs as int, ce as int, hl_class@);
    let ghost before = out@;
    if !*opened && *t <= cs && cs < *t + w {
        push_open(out, hl_class);
        *opened = true;
    }
    push_char(out, c);
    *t = *t + w;
    if *opened && *t >= ce {
        out.append("</span>");
        *opened = false;
    }
    assert(out@ =~= before + r.0);
}

/// Insert a diff highlight span into syntax-highlighted HTML at the given
/// text-character positions (byte offsets into the unhighlighted line).
/// Walks the HTML, tracking the text position, and injects opening/closing tags.
#[verifier::spinoff_prover]
#[verifier::rlimit(40)]
pub fn insert_diff_highlight(highlighted_html: &str, change_start: usize, change_end: usize, hl_class: &str) -> (res: String)
    requires
        highlighted_html@.len() <= usize::MAX / 4,
    ensures
        res@ == insert_one(highlighted_html@, change_start as int, change_end as int, hl_class@),
{
    if change_start >= change_end {
        return highlighted_html.to_owned();
    }
    let h = chars_of(highlighted_html);
    let ghost hv = h@;
    let ghost cs = change_start as int;
    let ghost ce = change_end as int;
    let ghost cls = hl_class@;
    let ghost total = hl1_from(hv, 0, 0, false, cs, ce, cls);
    let mut out = String::new();
    let mut t: usize = 0;
    let mut opened = false;
    let mut i: usize = 0;
    while i < h.len()
        invariant
            i <= hv.len(),
            hv == h@,
            hv == highlighted_html@,
            hv.len() <= usize::MAX / 4,
            t <= 4 * i,
            cs == change_start,
            ce == change_end,
            cls == hl_class@,
            total == out@ + hl1_from(hv, i as int, t as int, opened, cs, ce, cls),
        decreases hv.len() - i,
    {
        proof { lemma_tag_end(hv, i as int); }
        let ghost before = out@;
        if h[i] == '<' {
            let e = match find_char_from(h.as_slice(), i, '>') {
                Some(j) => j + 1,
                None => h.len(),
            };
            push_chars(&mut out, h.as_slice(), i, e);
            assert(out@ + hl1_from(hv, e as int, t as int, opened, cs, ce, cls)
                =~= before + hl1_from(hv, i as int, t as int, opened, cs, ce, cls));
            i = e;
        } else if h[i] == '&' {
            let e = match find_char_from(h.as_slice(), i, ';') {
                Some(j) => j + 1,
                None => i + 1,
            };
            let ghost t_old = t as int;
            let ghost op_old = opened;
            hl1_entity_exec(&mut out, h.as_slice(), i, e, &mut t, &mut opened, change_start, change_end, hl_class);
            assert(out@ + hl1_from(hv, e as int, t as int, opened, cs, ce, cls)
                =~= before + hl1_from(hv, i as int, t_old, op_old, cs, ce, cls));
            i = e;
        } else {
            let ghost t_old = t as int;
            let ghost op_old = opened;
            hl1_char_exec(&mut out, h[i], &mut t, &mut opened, change_start, change_end, hl_class);
            assert(out@ + hl1_from(hv, i + 1, t as int, opened, cs, ce, cls)
                =~= before + hl1_from(hv, i as int, t_old, op_old, cs, ce, cls));
            i = i + 1;
        }
    }
    if opened {
        out.append("</span>");
    }
    assert(out@ =~= total);
    out
}

/// Closing check of the multi-span insertion: close the open span once the text
/// position has reached the end of the span opened last.
pub open spec fn hlm_close(t: int, idx: int, opened: bool, spans: Seq<(usize, usize)>) -> (Seq<char>, bool) {
    if opened && 1 <= idx && idx - 1 < spans.len() && t >= spans[idx - 1].1 {
        (close_tag(), false)
    } else {
        (Seq::empty(), opened)
    }
}

/// One text unit (a character `w` bytes wide, or an entity of width 1) of the
/// multi-span insertion: close a finished span, open the next span when it
/// meets the unit's positions, emit the unit, advance, and close again if done.
pub open spec fn hlm_unit(content: Seq<char>, w: int, t: int, idx: int, opened: bool, spans: Seq<(usize, usize)>, cls: Seq<char>) -> (Seq<char>, int, int, bool) {
    let c1 = hlm_close(t, idx, opened, spans);
    let o = !c1.1 && 0 <= idx < spans.len() && spans[idx].0 < t + w && t < spans[idx].1;
    let s2 = if o { c1.0 + open_tag(cls) } else { c1.0 };
    let op2 = c1.1 || o;
    let idx2 = if o { idx + 1 } else { idx };
    let c3 = hlm_close(t + w, idx2, op2, spans);
    (s2 + content + c3.0, t + w, idx2, c3.1)
}

/// Output of the multi-span insertion from char `i` of the HTML.
pub open spec fn hlm_from(h: Seq<char>, i: int, t: int, idx: int, opened: bool, spans: Seq<(usize, usize)>, cls: Seq<char>) -> Seq<char>
    decreases h.len() - i,
{
    if i < 0 || i >= h.len() {
        if opened { close_tag() } else { Seq::empty() }
    } else if h[i] == '<' {
        let e = tag_end(h, i);
        if i < e <= h.len() { h.subrange(i, e) + hlm_from(h, e, t, idx, opened, spans, cls) } else { Seq::empty() }
    } else if h[i] == '&' {
        let e = ent_end(h, i);
        let r = hlm_unit(h.subrange(i, e), 1, t, idx, opened, spans, cls);
        if i < e <= h.len() { r.0 + hlm_from(h, e, r.1, r.2, r.3, spans, cls) } else { Seq::empty() }
    } else {
        let r = hlm_unit(seq![h[i]], encode_scalar(h[i] as u32).len() as int, t, idx, opened, spans, cls);
        r.0 + hlm_from(h, i + 1, r.1, r.2, r.3, spans, cls)
    }
}

/// The highlighted HTML with a diff highlight span around each of `spans`
/// (text positions, expected sorted and non-overlapping).
pub open spec fn insert_many(h: Seq<char>, spans: Seq<(usize, usize)>, cls: Seq<char>) -> Seq<char> {
    if spans.len() == 0 { h } else { hlm_from(h, 0, 0, 0, false, spans, cls) }
}

/// One text unit of the multi-span insertion.
fn hlm_unit_exec(out: &mut String, content: &[char], from: usize, to: usize, w: usize, t: &mut usize, idx: &mut usize, opened: &mut bool,
    spans: &[(usize, usize)], hl_class: &str)
    requires
        from <= to <= content@.len(),
        *old(t) + w <= usize::MAX,
        *old(idx) <= spans@.len(),
    ensures
        ({
            let r = hlm_unit(content@.subrange(from as int, to as int), w as int, *old(t) as int, *old(idx) as int, *old(opened), spans@, hl_class@);
            &&& final(out)@ == old(out)@ + r.0
            &&& *final(t) as int == r.1
            &&& *final(idx) as int == r.2
            &&& *final(opened) == r.3
        }),
        *final(idx) <= spans@.len(),
{
    let ghost r = hlm_unit(content@.subrange(from as int, to as int), w as int, *t as int, *idx as int, *opened, spans@, hl_class@);
    let ghost before = out@;
    if *opened && *idx >= 1 && *idx - 1 < spans.len() && *t >= spans[*idx - 1].1 {
        out.append("</span>");
        *opened = false;
    }
    if !*opened && *idx < spans.len() && spans[*idx].0 < *t + w && *t < spans[*idx].1 {
        push_open(out, hl_class);
        *opened = true;
        *idx = *idx + 1;
    }
    push_chars(out, content, from, to);
    *t = *t + w;
    if *opened && *idx >= 1 && *idx - 1 < spans.len() && *t >= spans[*idx - 1].1 {
        out.append("</span>");
        *opened = false;
    }
    assert(out@ =~= before + r.0);
}

/// One ordinary character of the multi-span insertion.
fn hlm_char_exec(out: &mut String, c: char, t: &mut usize, idx: &mut usize, opened: &mut bool, spans: &[(usize, usize)], hl_class: &str)
    requires
        *old(t) <= usize::MAX - 4,
        *old(idx) <= spans@.len(),
    ensures
        ({
            let r = hlm_unit(seq![c], encode_scalar(c as u32).len() as int, *old(t) as int, *old(idx) as int, *old(opened), spans@, hl_class@);
            &&& final(out)@ == old(out)@ + r.0
            &&& *final(t) as int == r.1
            &&& *final(idx) as int == r.2
            &&& *final(opened) == r.3
        }),
        *final(t) <= *old(t) + 4,
        *final(idx) <= spans@.len(),
{
    let w = utf8_bytes(c).len();
    proof { vstd::utf8::char_is_scalar(c); }
    assert(w <= 4);
    let unit = [c];
    assert(unit@.subrange(0, 1) =~= seq![c]);
    hlm_unit_exec(out, &unit, 0, 1, w, t, idx, opened, spans, hl_class);
}

/// Insert multiple non-overlapping diff highlight spans into syntax-highlighted HTML.
/// `spans` must be sorted by start position and non-overlapping.
#[verifier::spinoff_prover]
#[verifier::rlimit(40)]
pub fn insert_diff_highlights(highlighted_html: &str, spans: &[(usize, usize)], hl_class: &str) -> (res: String)
    requires
        highlighted_html@.len() <= usize::MAX / 4,
    ensures
        res@ == insert_many(highlighted_html@, spans@, hl_class@),
{
    if spans.len() == 0 {
        return highlighted_html.to_owned();
    }
    let h = chars_of(highlighted_html);
    let ghost hv = h@;
    let ghost sp = spans@;
    let ghost cls = hl_class@;
    let ghost total = hlm_from(hv, 0, 0, 0, false, sp, cls);
    let mut out = String::new();
    let mut t: usize = 0;
    let mut idx: usize = 0;
    let mut opened = false;
    let mut i: usize = 0;
    while i < h.len()
        invariant
            i <= hv.len(),
            hv == h@,
            hv == highlighted_html@,
            hv.len() <= usize::MAX / 4,
            t <= 4 * i,
            idx <= sp.len(),
            sp == spans@,
            cls == hl_class@,
            total == out@ + hlm_from(hv, i as int, t as int, idx as int, opened, sp, cls),
        decreases hv.len() - i,
    {
        proof { lemma_tag_end(hv, i as int); }
        let ghost before = out@;
        let ghost t_old = t as int;
        let ghost i_old = idx as int;
        let ghost op_old = opened;
        if h[i] == '<' {
            let e = match find_char_from(h.as_slice(), i, '>') {
                Some(j) => j + 1,
                None => h.len(),
            };
            push_chars(&mut out, h.as_slice(), i, e);
            assert(out@ + hlm_from(hv, e as int, t as int, idx as int, opened, sp, cls)
                =~= before + hlm_from(hv, i as int, t_old, i_old, op_old, sp, cls));
            i = e;
        } else if h[i] == '&' {
            let e = match find_char_from(h.as_slice(), i, ';') {
                Some(j) => j + 1,
                None => i + 1,
            };
            hlm_unit_exec(&mut out, h.as_slice(), i, e, 1, &mut t, &mut idx, &mut opened, spans, hl_class);
            assert(out@ + hlm_from(hv, e as int, t as int, idx as int, opened, sp, cls)
                =~= before + hlm_from(hv, i as int, t_old, i_old, op_old, sp, cls));
            i = e;
        } else {
            hlm_char_exec(&mut out, h[i], &mut t, &mut idx, &mut opened, spans, hl_class);
            assert(out@ + hlm_from(hv, i + 1, t as int, idx as int, opened, sp, cls)
                =~= before + hlm_from(hv, i as int, t_old, i_old, op_old, sp, cls));
            i = i + 1;
        }
    }
    if opened {
        out.append("</span>");
    }
    assert(out@ =~= total);
    out
}

/// The HTML with every tag removed: from each `<` up to and including the
/// next `>` (or to the end when there is none); all other characters stay.
pub open spec fn untag(h: Seq<char>) -> Seq<char>
    decreases h.len(),
{
    if h.len() == 0 {
        Seq::empty()
    } else if h[0] == '<' {
        let e = tag_end(h, 0);
        if 0 < e <= h.len() { untag(h.skip(e)) } else { Seq::empty() }
    } else {
        seq![h[0]] + untag(h.drop_first())
    }
}

/// No entity of the HTML (from a `&` up to its `;`) holds a `<`.
pub open spec fn entities_untagged(h: Seq<char>) -> bool {
    forall|i: int, j: int| 0 <= i < h.len() && h[i] == '&' && i < j < ent_end(h, i) ==> h[j] != '<'
}

/// A class name that cannot end a tag early.
pub open spec fn plain_class(cls: Seq<char>) -> bool {
    forall|k: int| 0 <= k < cls.len() ==> cls[k] != '>'
}

spec fn no_lt(s: Seq<char>) -> bool {
    forall|k: int| 0 <= k < s.len() ==> s[k] != '<'
}

spec fn is_tag(g: Seq<char>) -> bool {
    &&& g.len() >= 1
    &&& g[0] == '<'
    &&& g[g.len() - 1] == '>'
    &&& forall|k: int| 0 <= k < g.len() - 1 ==> g[k] != '>'
}

spec fn opt(b: bool, s: Seq<char>) -> Seq<char> {
    if b { s } else { Seq::empty() }
}

proof fn lemma_find_skip(x: Seq<char>, i: int, j: int, c: char)
    requires
        0 <= i <= j <= x.len(),
        forall|k: int| i <= k < j ==> x[k] != c,
    ensures
        find_from(x, i, c) == find_from(x, j, c),
    decreases j - i,
{
    if i < j {
        lemma_find_skip(x, i + 1, j, c);
    }
}

proof fn lemma_find_first(x: Seq<char>, i: int, c: char)
    requires
        0 <= i <= x.len(),
    ensures
        find_from(x, i, c) matches Some(j) ==> forall|k: int| i <= k < j ==> x[k] != c,
        find_from(x, i, c) is None ==> forall|k: int| i <= k < x.len() ==> x[k] != c,
    decreases x.len() - i,
{
    if i < x.len() && x[i] != c {
        lemma_find_first(x, i + 1, c);
    }
}

proof fn lemma_untag_plain(p: Seq<char>, r: Seq<char>)
    requires
        no_lt(p),
    ensures
        untag(p + r) == p + untag(r),
    decreases p.len(),
{
    if p.len() == 0 {
        assert(p + r =~= r);
        assert(p + untag(r) =~= untag(r));
    } else {
        let q = p + r;
        assert(q[0] == p[0]);
        assert(q.drop_first() =~= p.drop_first() + r);
        lemma_untag_plain(p.drop_first(), r);
        assert(p =~= seq![p[0]] + p.drop_first());
        assert(seq![p[0]] + (p.drop_first() + untag(r)) =~= p + untag(r));
    }
}

proof fn lemma_untag_tag(g: Seq<char>, r: Seq<char>)
    requires
        is_tag(g),
    ensures
        untag(g + r) == untag(r),
{
    let q = g + r;
    let n = g.len() as int;
    assert forall|k: int| 0 <= k < n - 1 implies q[k] != '>' by {
        assert(q[k] == g[k]);
    }
    lemma_find_skip(q, 0, n - 1, '>');
    assert(q[n - 1] == '>');
    assert(tag_end(q, 0) == n);
    assert(q.skip(n) =~= r);
}

proof fn lemma_untag_opt(b: bool, g: Seq<char>, r: Seq<char>)
    requires
        is_tag(g),
    ensures
        untag(opt(b, g) + r) == untag(r),
{
    if b {
        lemma_untag_tag(g, r);
    } else {
        assert(opt(b, g) + r =~= r);
    }
}

proof fn lemma_tags(cls: Seq<char>)
    requires
        plain_class(cls),
    ensures
        is_tag(open_tag(cls)),
        is_tag(close_tag()),
{
    reveal_strlit("<span class=\"");
    reveal_strlit("\">");
    reveal_strlit("</span>");
    let a = "<span class=\""@;
    let b = "\">"@;
    let g = open_tag(cls);
    assert(g == a + cls + b);
    assert forall|k: int| 0 <= k < g.len() - 1 implies g[k] != '>' by {
        if k < a.len() {
            assert(g[k] == a[k]);
        } else if k < a.len() + cls.len() {
            assert(g[k] == cls[k - a.len()]);
        } else {
            assert(g[k] == b[k - a.len() - cls.len()]);
        }
    }
    assert(g[0] == a[0]);
    assert(g[g.len() - 1] == b[1]);
}

/// A tag with no `>` runs to the end, through an optional closing tag.
proof fn lemma_untag_open_tail(g: Seq<char>, b: bool)
    requires
        g.len() >= 1,
        g[0] == '<',
        forall|k: int| 0 <= k < g.len() ==> g[k] != '>',
    ensures
        untag(g + opt(b, close_tag())) == Seq::<char>::empty(),
{
    reveal_strlit("</span>");
    let x = opt(b, close_tag());
    let q = g + x;
    let n = g.len() as int;
    assert forall|k: int| 0 <= k < n implies q[k] != '>' by {
        assert(q[k] == g[k]);
    }
    lemma_find_skip(q, 0, n, '>');
    if b {
        let c = close_tag();
        assert forall|k: int| n <= k < q.len() - 1 implies q[k] != '>' by {
            assert(q[k] == c[k - n]);
        }
        lemma_find_skip(q, n, q.len() - 1, '>');
        assert(q[q.len() - 1] == c[6]);
        assert(tag_end(q, 0) == q.len());
    } else {
        assert(q =~= g);
        assert(find_from(q, n, '>') is None);
    }
    assert(q[0] == '<');
    assert(tag_end(q, 0) == q.len());
    assert(q.skip(q.len() as int) =~= Seq::<char>::empty());
    assert(untag(Seq::<char>::empty()) == Seq::<char>::empty());
}

proof fn lemma_hl1_entity_text(ent: Seq<char>, t: int, opened: bool, cs: int, ce: int, cls: Seq<char>, r: Seq<char>)
    requires
        no_lt(ent),
        plain_class(cls),
    ensures
        untag(hl1_entity(ent, t, opened, cs, ce, cls).0 + r) == ent + untag(r),
{
    lemma_tags(cls);
    let o = open_tag(cls);
    let c = close_tag();
    let a1 = !opened && t >= cs && t < ce;
    let op1 = opened || a1;
    let a2 = op1 && t >= ce;
    let op2 = op1 && !a2;
    let a3 = !op2 && t == cs;
    let op3 = op2 || a3;
    let a4 = op3 && t + 1 >= ce;
    assert(hl1_entity(ent, t, opened, cs, ce, cls).0 + r
        =~= opt(a1, o) + (opt(a2, c) + (opt(a3, o) + (ent + (opt(a4, c) + r)))));
    lemma_untag_opt(a4, c, r);
    lemma_untag_plain(ent, opt(a4, c) + r);
    lemma_untag_opt(a3, o, ent + (opt(a4, c) + r));
    lemma_untag_opt(a2, c, opt(a3, o) + (ent + (opt(a4, c) + r)));
    lemma_untag_opt(a1, o, opt(a2, c) + (opt(a3, o) + (ent + (opt(a4, c) + r))));
}

proof fn lemma_hl1_char_text(ch: char, w: int, t: int, opened: bool, cs: int, ce: int, cls: Seq<char>, r: Seq<char>)
    requires
        ch != '<',
        plain_class(cls),
    ensures
        untag(hl1_char(ch, w, t, opened, cs, ce, cls).0 + r) == seq![ch] + untag(r),
{
    lemma_tags(cls);
    let o = open_tag(cls);
    let c = close_tag();
    let o1 = !opened && t <= cs < t + w;
    let op = opened || o1;
    let a = op && t + w >= ce;
    assert(hl1_char(ch, w, t, opened, cs, ce, cls).0 + r =~= opt(o1, o) + (seq![ch] + (opt(a, c) + r)));
    lemma_untag_opt(a, c, r);
    lemma_untag_plain(seq![ch], opt(a, c) + r);
    lemma_untag_opt(o1, o, seq![ch] + (opt(a, c) + r));
}

proof fn lemma_hlm_unit_text(content: Seq<char>, w: int, t: int, idx: int, opened: bool, spans: Seq<(usize, usize)>,
    cls: Seq<char>, r: Seq<char>)
    requires
        no_lt(content),
        plain_class(cls),
    ensures
        untag(hlm_unit(content, w, t, idx, opened, spans, cls).0 + r) == content + untag(r),
{
    lemma_tags(cls);
    let o = open_tag(cls);
    let c = close_tag();
    let c1 = hlm_close(t, idx, opened, spans);
    let b1 = c1.0.len() > 0;
    let ob = !c1.1 && 0 <= idx < spans.len() && spans[idx].0 < t + w && t < spans[idx].1;
    let op2 = c1.1 || ob;
    let idx2 = if ob { idx + 1 } else { idx };
    let c3 = hlm_close(t + w, idx2, op2, spans);
    let b3 = c3.0.len() > 0;
    reveal_strlit("</span>");
    assert(c1.0 == opt(b1, c));
    assert(c3.0 == opt(b3, c));
    assert(hlm_unit(content, w, t, idx, opened, spans, cls).0 + r
        =~= opt(b1, c) + (opt(ob, o) + (content + (opt(b3, c) + r))));
    lemma_untag_opt(b3, c, r);
    lemma_untag_plain(content, opt(b3, c) + r);
    lemma_untag_opt(ob, o, content + (opt(b3, c) + r));
    lemma_untag_opt(b1, c, opt(ob, o) + (content + (opt(b3, c) + r)));
}

/// The input side of the walk: what a tag, an entity or a character at `i`
/// leaves after removing tags.
proof fn lemma_untag_step(h: Seq<char>, i: int)
    requires
        0 <= i < h.len(),
        entities_untagged(h),
    ensures
        h[i] == '<' ==> (find_from(h, i, '>') is Some ==> untag(h.skip(i)) == untag(h.skip(tag_end(h, i)))),
        h[i] == '<' ==> (find_from(h, i, '>') is None ==> untag(h.skip(i)) == Seq::<char>::empty()),
        h[i] == '<' && find_from(h, i, '>') is Some ==> is_tag(h.subrange(i, tag_end(h, i))),
        h[i] == '<' && find_from(h, i, '>') is None ==> forall|k: int| i <= k < h.len() ==> h[k] != '>',
        h[i] == '&' ==> no_lt(h.subrange(i, ent_end(h, i))),
        h[i] == '&' ==> untag(h.skip(i)) == h.subrange(i, ent_end(h, i)) + untag(h.skip(ent_end(h, i))),
        h[i] != '<' && h[i] != '&' ==> untag(h.skip(i)) == seq![h[i]] + untag(h.skip(i + 1)),
{
    lemma_tag_end(h, i);
    lemma_find_from(h, i, '>');
    lemma_find_first(h, i, '>');
    if h[i] == '<' {
        let e = tag_end(h, i);
        if find_from(h, i, '>') is Some {
            let g = h.subrange(i, e);
            assert forall|k: int| 0 <= k < g.len() - 1 implies g[k] != '>' by {
                assert(g[k] == h[i + k]);
            }
            assert(g[g.len() - 1] == h[e - 1]);
            assert(h.skip(i) =~= g + h.skip(e));
            lemma_untag_tag(g, h.skip(e));
        } else {
            let g = h.skip(i);
            assert forall|k: int| 0 <= k < g.len() implies g[k] != '>' by {
                assert(g[k] == h[i + k]);
            }
            lemma_untag_open_tail(g, false);
            assert(g + opt(false, close_tag()) =~= g);
        }
    } else if h[i] == '&' {
        let e = ent_end(h, i);
        let p = h.subrange(i, e);
        assert forall|k: int| 0 <= k < p.len() implies p[k] != '<' by {
            assert(p[k] == h[i + k]);
        }
        assert(h.skip(i) =~= p + h.skip(e));
        lemma_untag_plain(p, h.skip(e));
    } else {
        assert(h.skip(i) =~= seq![h[i]] + h.skip(i + 1));
        lemma_untag_plain(seq![h[i]], h.skip(i + 1));
    }
}

proof fn lemma_hl1_from_text(h: Seq<char>, i: int, t: int, opened: bool, cs: int, ce: int, cls: Seq<char>)
    requires
        0 <= i <= h.len(),
        entities_untagged(h),
        plain_class(cls),
    ensures
        untag(hl1_from(h, i, t, opened, cs, ce, cls)) == untag(h.skip(i)),
    decreases h.len() - i,
{
    lemma_tags(cls);
    if i == h.len() {
        lemma_untag_opt(opened, close_tag(), Seq::empty());
        assert(opt(opened, close_tag()) + Seq::<char>::empty() =~= hl1_from(h, i, t, opened, cs, ce, cls));
        assert(h.skip(i) =~= Seq::<char>::empty());
    } else {
        lemma_untag_step(h, i);
        lemma_tag_end(h, i);
        if h[i] == '<' {
            let e = tag_end(h, i);
            if find_from(h, i, '>') is Some {
                lemma_hl1_from_text(h, e, t, opened, cs, ce, cls);
                lemma_untag_tag(h.subrange(i, e), hl1_from(h, e, t, opened, cs, ce, cls));
            } else {
                let g = h.subrange(i, e);
                assert(g =~= h.skip(i));
                assert(hl1_from(h, e, t, opened, cs, ce, cls) == opt(opened, close_tag()));
                lemma_untag_open_tail(g, opened);
            }
        } else if h[i] == '&' {
            let e = ent_end(h, i);
            let r = hl1_entity(h.subrange(i, e), t, opened, cs, ce, cls);
            lemma_hl1_from_text(h, e, r.1, r.2, cs, ce, cls);
            lemma_hl1_entity_text(h.subrange(i, e), t, opened, cs, ce, cls, hl1_from(h, e, r.1, r.2, cs, ce, cls));
        } else {
            let r = hl1_char(h[i], encode_scalar(h[i] as u32).len() as int, t, opened, cs, ce, cls);
            lemma_hl1_from_text(h, i + 1, r.1, r.2, cs, ce, cls);
            lemma_hl1_char_text(h[i], encode_scalar(h[i] as u32).len() as int, t, opened, cs, ce, cls,
                hl1_from(h, i + 1, r.1, r.2, cs, ce, cls));
        }
    }
}

proof fn lemma_hlm_from_text(h: Seq<char>, i: int, t: int, idx: int, opened: bool, spans: Seq<(usize, usize)>, cls: Seq<char>)
    requires
        0 <= i <= h.len(),
        entities_untagged(h),
        plain_class(cls),
    ensures
        untag(hlm_from(h, i, t, idx, opened, spans, cls)) == untag(h.skip(i)),
    decreases h.len() - i,
{
    lemma_tags(cls);
    if i == h.len() {
        lemma_untag_opt(opened, close_tag(), Seq::empty());
        assert(opt(opened, close_tag()) + Seq::<char>::empty() =~= hlm_from(h, i, t, idx, opened, spans, cls));
        assert(h.skip(i) =~= Seq::<char>::empty());
    } else {
        lemma_untag_step(h, i);
        lemma_tag_end(h, i);
        if h[i] == '<' {
            let e = tag_end(h, i);
            if find_from(h, i, '>') is Some {
                lemma_hlm_from_text(h, e, t, idx, opened, spans, cls);
                lemma_untag_tag(h.subrange(i, e), hlm_from(h, e, t, idx, opened, spans, cls));
            } else {
                let g = h.subrange(i, e);
                assert(g =~= h.skip(i));
                assert(hlm_from(h, e, t, idx, opened, spans, cls) == opt(opened, close_tag()));
                lemma_untag_open_tail(g, opened);
            }
        } else if h[i] == '&' {
            let e = ent_end(h, i);
            let r = hlm_unit(h.subrange(i, e), 1, t, idx, opened, spans, cls);
            lemma_hlm_from_text(h, e, r.1, r.2, r.3, spans, cls);
            lemma_hlm_unit_text(h.subrange(i, e), 1, t, idx, opened, spans, cls, hlm_from(h, e, r.1, r.2, r.3, spans, cls));
        } else {
            let w = encode_scalar(h[i] as u32).len() as int;
            let r = hlm_unit(seq![h[i]], w, t, idx, opened, spans, cls);
            lemma_hlm_from_text(h, i + 1, r.1, r.2, r.3, spans, cls);
            lemma_hlm_unit_text(seq![h[i]], w, t, idx, opened, spans, cls, hlm_from(h, i + 1, r.1, r.2, r.3, spans, cls));
        }
    }
}

/// Inserting a diff highlight span changes nothing but tags: removing every
/// tag from the result gives the same text as removing them from the input
/// (for HTML whose entities hold no `<`, and a class name without `>`).
pub proof fn lemma_insert_one_keeps_text(h: Seq<char>, cs: int, ce: int, cls: Seq<char>)
    requires
        entities_untagged(h),
        plain_class(cls),
    ensures
        untag(insert_one(h, cs, ce, cls)) == untag(h),
{
    if cs < ce {
        lemma_hl1_from_text(h, 0, 0, false, cs, ce, cls);
        assert(h.skip(0) =~= h);
    }
}

/// Inserting diff highlight spans changes nothing but tags: removing every
/// tag from the result gives the same text as removing them from the input
/// (for HTML whose entities hold no `<`, and a class name without `>`).
pub proof fn lemma_insert_many_keeps_text(h: Seq<char>, spans: Seq<(usize, usize)>, cls: Seq<char>)
    requires
        entities_untagged(h),
        plain_class(cls),
    ensures
        untag(insert_many(h, spans, cls)) == untag(h),
{
    if spans.len() > 0 {
        lemma_hlm_from_text(h, 0, 0, 0, false, spans, cls);
        assert(h.skip(0) =~= h);
    }
}

} // verus!
