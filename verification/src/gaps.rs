//! Lines that unified diff hunks mark as changed but that the structural diff
//! left out of a chunk, paired by content where they only moved.

use vstd::prelude::*;
use crate::difft_json::{DiffHunk, LineEntry};
use crate::html::{line_at, str_at};
use crate::text::{chars_of, trim, trim_chars, collapse_ws, collapse_whitespace, chars_eq};

verus! {

/// `x` is the (0-based) old line number of some entry of the chunk.
pub open spec fn in_lhs(chunk: Seq<LineEntry>, x: int) -> bool {
    exists|j: int| 0 <= j < chunk.len() && (#[trigger] chunk[j]).lhs is Some && (chunk[j].lhs->0.line_number as usize) == x
}

/// `x` is the (0-based) new line number of some entry of the chunk.
pub open spec fn in_rhs(chunk: Seq<LineEntry>, x: int) -> bool {
    exists|j: int| 0 <= j < chunk.len() && (#[trigger] chunk[j]).rhs is Some && (chunk[j].rhs->0.line_number as usize) == x
}

/// 0-based start of a hunk's old range.
pub open spec fn h_old_start(h: DiffHunk) -> int {
    let s = h.old_start as usize;
    if s == 0 { 0 } else { s - 1 }
}

/// 0-based start of a hunk's new range.
pub open spec fn h_new_start(h: DiffHunk) -> int {
    let s = h.new_start as usize;
    if s == 0 { 0 } else { s - 1 }
}

/// `x - 1`, or 0 for 0.
pub open spec fn sat_dec(x: int) -> int {
    if x <= 0 { 0 } else { x - 1 }
}

/// Whether a hunk touches the chunk's old or new line range (one line of slack).
pub open spec fn hunk_touches(h: DiffHunk, old_first: int, old_last: int, new_first: int, new_last: int) -> bool {
    let oe = h_old_start(h) + (h.old_count as usize);
    let ne = h_new_start(h) + (h.new_count as usize);
    (oe > sat_dec(old_first) && h_old_start(h) <= old_last + 1)
        || (ne > sat_dec(new_first) && h_new_start(h) <= new_last + 1)
}

/// The lines `lo..hi` that are not old lines of the chunk (`left`) / new lines.
pub open spec fn lines_not_in(chunk: Seq<LineEntry>, lo: int, hi: int, left: bool) -> Seq<usize>
    decreases hi - lo,
{
    if hi <= lo {
        Seq::empty()
    } else {
        let p = lines_not_in(chunk, lo, hi - 1, left);
        let present = if left { in_lhs(chunk, hi - 1) } else { in_rhs(chunk, hi - 1) };
        if present { p } else { p.push((hi - 1) as usize) }
    }
}

/// Old (`left`) or new lines inside the touching hunks that the chunk does not list.
pub open spec fn raw_gap(chunk: Seq<LineEntry>, hunks: Seq<DiffHunk>, old_first: int, old_last: int, new_first: int, new_last: int, left: bool) -> Seq<usize>
    decreases hunks.len(),
{
    if hunks.len() == 0 {
        Seq::empty()
    } else {
        let p = raw_gap(chunk, hunks.drop_last(), old_first, old_last, new_first, new_last, left);
        let h = hunks.last();
        if hunk_touches(h, old_first, old_last, new_first, new_last) {
            if left {
                p + lines_not_in(chunk, h_old_start(h), h_old_start(h) + (h.old_count as usize), true)
            } else {
                p + lines_not_in(chunk, h_new_start(h), h_new_start(h) + (h.new_count as usize), false)
            }
        } else {
            p
        }
    }
}

/// How two trimmed lines may match: 0 exact, 1 equal after collapsing white
/// space, 2 one a prefix of the other (the new one non-empty).
pub open spec fn lines_match(mode: int, old_c: Seq<char>, new_c: Seq<char>) -> bool {
    if mode == 0 {
        old_c == new_c
    } else if mode == 1 {
        collapse_ws(new_c) == collapse_ws(old_c)
    } else {
        new_c.len() > 0 && (new_c.is_prefix_of(old_c) || old_c.is_prefix_of(new_c))
    }
}

/// The first added line of `added` that is not in `used` and matches `old_c` in `mode`.
pub open spec fn first_match(added: Seq<usize>, used: Seq<usize>, new_lines: Seq<String>, old_c: Seq<char>, mode: int) -> Option<usize>
    decreases added.len(),
{
    if added.len() == 0 {
        None
    } else if !used.contains(added[0]) && lines_match(mode, old_c, trim(line_at(new_lines, added[0] as int))) {
        Some(added[0])
    } else {
        first_match(added.drop_first(), used, new_lines, old_c, mode)
    }
}

/// The partner chosen for a removed line with trimmed text `old_c`: the first
/// exact match, else the first white-space-insensitive match, else the first prefix match.
pub open spec fn pick_partner(added: Seq<usize>, used: Seq<usize>, new_lines: Seq<String>, old_c: Seq<char>) -> Option<usize> {
    match first_match(added, used, new_lines, old_c, 0) {
        Some(x) => Some(x),
        None => match first_match(added, used, new_lines, old_c, 1) {
            Some(x) => Some(x),
            None => first_match(added, used, new_lines, old_c, 2),
        },
    }
}

/// Pairing of removed gap lines, in order, with added gap lines by content:
/// (pairs, added lines used, removed lines left unmatched). A removed line with
/// blank text is never paired.
pub open spec fn pair_gaps(removed: Seq<usize>, added: Seq<usize>, old_lines: Seq<String>, new_lines: Seq<String>) -> (Seq<(usize, usize)>, Seq<usize>, Seq<usize>)
    decreases removed.len(),
{
    if removed.len() == 0 {
        (Seq::empty(), Seq::empty(), Seq::empty())
    } else {
        let p = pair_gaps(removed.drop_last(), added, old_lines, new_lines);
        let o = removed.last();
        let oc = trim(line_at(old_lines, o as int));
        if oc.len() == 0 {
            (p.0, p.1, p.2.push(o))
        } else {
            match pick_partner(added, p.1, new_lines, oc) {
                Some(n) => (p.0.push((o, n)), p.1.push(n), p.2),
                None => (p.0, p.1, p.2.push(o)),
            }
        }
    }
}

/// The added lines not in `used`, in order.
pub open spec fn unused(added: Seq<usize>, used: Seq<usize>) -> Seq<usize>
    decreases added.len(),
{
    if added.len() == 0 {
        Seq::empty()
    } else if used.contains(added.last()) {
        unused(added.drop_last(), used)
    } else {
        unused(added.drop_last(), used).push(added.last())
    }
}

/// The gap lines of a chunk: (paired (old, new), unmatched removed, unmatched added).
pub open spec fn gap_lines(chunk: Seq<LineEntry>, hunks: Seq<DiffHunk>, old_first: int, old_last: int, new_first: int, new_last: int,
    old_lines: Seq<String>, new_lines: Seq<String>) -> (Seq<(usize, usize)>, Seq<usize>, Seq<usize>)
{
    let removed = raw_gap(chunk, hunks, old_first, old_last, new_first, new_last, true);
    let added = raw_gap(chunk, hunks, old_first, old_last, new_first, new_last, false);
    let p = pair_gaps(removed, added, old_lines, new_lines);
    (p.0, p.2, unused(added, p.1))
}

/// The hunk ends stay within `usize`.
pub open spec fn hunks_fit(hunks: Seq<DiffHunk>) -> bool {
    forall|i: int| 0 <= i < hunks.len() ==>
        h_old_start(#[trigger] hunks[i]) + (hunks[i].old_count as usize) <= usize::MAX
        && h_new_start(hunks[i]) + (hunks[i].new_count as usize) <= usize::MAX
}

/// Whether `x` is an old (`left`) or new line number of the chunk.
fn chunk_has_line(chunk: &[LineEntry], x: usize, left: bool) -> (res: bool)
    ensures
        res == if left { in_lhs(chunk@, x as int) } else { in_rhs(chunk@, x as int) },
{
    let mut j: usize = 0;
    while j < chunk.len()
        invariant
            j <= chunk@.len(),
            left ==> forall|q: int| 0 <= q < j ==> !((#[trigger] chunk@[q]).lhs is Some && (chunk@[q].lhs->0.line_number as usize) == x),
            !left ==> forall|q: int| 0 <= q < j ==> !((#[trigger] chunk@[q]).rhs is Some && (chunk@[q].rhs->0.line_number as usize) == x),
        decreases chunk@.len() - j,
    {
        if left {
            if let Some(l) = &chunk[j].lhs {
                if l.line_number as usize == x {
                    return true;
                }
            }
        } else {
            if let Some(r) = &chunk[j].rhs {
                if r.line_number as usize == x {
                    return true;
                }
            }
        }
        j = j + 1;
    }
    false
}

/// Appends the lines of `lo..hi` not listed on the given side of the chunk.
fn push_lines_not_in(out: &mut Vec<usize>, chunk: &[LineEntry], lo: usize, hi: usize, left: bool)
    ensures
        final(out)@ == old(out)@ + lines_not_in(chunk@, lo as int, hi as int, left),
{
    let ghost base = out@;
    let mut x = lo;
    assert(lines_not_in(chunk@, lo as int, lo as int, left).len() == 0);
    while x < hi
        invariant
            lo <= x,
            x <= hi || lo >= hi,
            lo >= hi ==> x == lo,
            out@ == base + lines_not_in(chunk@, lo as int, x as int, left),
        decreases hi - x,
    {
        if !chunk_has_line(chunk, x, left) {
            out.push(x);
        }
        assert(out@ =~= base + lines_not_in(chunk@, lo as int, x + 1, left));
        x = x + 1;
    }
    if lo >= hi {
        assert(lines_not_in(chunk@, lo as int, hi as int, left).len() == 0);
    }
}

/// Whether `v` contains `x`.
fn vec_has(v: &Vec<usize>, x: usize) -> (res: bool)
    ensures
        res == v@.contains(x),
{
    let mut i: usize = 0;
    while i < v.len()
        invariant
            i <= v@.len(),
            forall|q: int| 0 <= q < i ==> v@[q] != x,
        decreases v@.len() - i,
    {
        if v[i] == x {
            return true;
        }
        i = i + 1;
    }
    false
}

/// Whether `a` is a prefix of `b`.
fn chars_prefix(a: &[char], b: &[char]) -> (res: bool)
    ensures
        res == a@.is_prefix_of(b@),
{
    if a.len() > b.len() {
        return false;
    }
    let mut i: usize = 0;
    while i < a.len()
        invariant
            i <= a@.len() <= b@.len(),
            forall|q: int| 0 <= q < i ==> a@[q] == b@[q],
        decreases a@.len() - i,
    {
        if a[i] != b[i] {
            return false;
        }
        i = i + 1;
    }
    true
}

/// The first unused added line matching `old_c` in `mode`.
fn find_match(added: &Vec<usize>, used: &Vec<usize>, new_lines: &[String], old_c: &[char], old_norm: &[char], mode: u8) -> (res: Option<usize>)
    requires
        old_norm@ == collapse_ws(old_c@),
        mode <= 2,
    ensures
        res == first_match(added@, used@, new_lines@, old_c@, mode as int),
{
    let mut i: usize = 0;
    assert(added@.skip(0) == added@);
    while i < added.len()
        invariant
            i <= added@.len(),
            old_norm@ == collapse_ws(old_c@),
            mode <= 2,
            first_match(added@, used@, new_lines@, old_c@, mode as int)
                == first_match(added@.skip(i as int), used@, new_lines@, old_c@, mode as int),
        decreases added@.len() - i,
    {
        let n = added[i];
        let ghost rest = added@.skip(i as int);
        assert(rest[0] == n);
        assert(rest.drop_first() == added@.skip(i + 1));
        if !vec_has(used, n) {
            let nc = trim_chars(chars_of(str_at(new_lines, n)).as_slice());
            let ok = if mode == 0 {
                chars_eq(old_c, nc.as_slice())
            } else if mode == 1 {
                let nn = collapse_whitespace(nc.as_slice());
                chars_eq(nn.as_slice(), old_norm)
            } else {
                nc.len() > 0 && (chars_prefix(nc.as_slice(), old_c) || chars_prefix(old_c, nc.as_slice()))
            };
            if ok {
                return Some(n);
            }
        }
        i = i + 1;
    }
    None
}

/// Find lines within unified diff hunks that overlap a chunk's range but are
/// not present in difft's structural matching output. Returns paired (old, new),
/// removed-only, and added-only lists (all 0-based indices).
///
/// Pairing uses content similarity (trimmed equality, then white-space-insensitive
/// equality, then a prefix relation) rather than positional matching.
pub fn hunk_gap_lines(
    chunk: &[LineEntry],
    hunks: &[DiffHunk],
    old_first: usize,
    old_last: usize,
    new_first: usize,
    new_last: usize,
    old_lines: &[String],
    new_lines: &[String],
) -> (res: (Vec<(usize, usize)>, Vec<usize>, Vec<usize>))
    requires
        hunks_fit(hunks@),
        old_last < usize::MAX,
        new_last < usize::MAX,
    ensures
        (res.0@, res.1@, res.2@) == gap_lines(chunk@, hunks@, old_first as int, old_last as int, new_first as int, new_last as int, old_lines@, new_lines@),
{
    let ghost of = old_first as int;
    let ghost ol = old_last as int;
    let ghost nf = new_first as int;
    let ghost nl = new_last as int;
    let mut raw_removed: Vec<usize> = Vec::new();
    let mut raw_added: Vec<usize> = Vec::new();
    let mut k: usize = 0;
    while k < hunks.len()
        invariant
            k <= hunks@.len(),
            hunks_fit(hunks@),
            old_last < usize::MAX,
            new_last < usize::MAX,
            of == old_first as int,
            ol == old_last as int,
            nf == new_first as int,
            nl == new_last as int,
            raw_removed@ == raw_gap(chunk@, hunks@.take(k as int), of, ol, nf, nl, true),
            raw_added@ == raw_gap(chunk@, hunks@.take(k as int), of, ol, nf, nl, false),
        decreases hunks@.len() - k,
    {
        let h = hunks[k];
        proof {
            assert(hunks@.take(k + 1).drop_last() == hunks@.take(k as int));
            assert(hunks@.take(k + 1).last() == h);
            assert(hunks@[k as int] == h);
        }
        let hos = (h.old_start as usize).saturating_sub(1);
        let hoe = hos + h.old_count as usize;
        let hns = (h.new_start as usize).saturating_sub(1);
        let hne = hns + h.new_count as usize;
        let of1 = if old_first == 0 { 0 } else { old_first - 1 };
        let nf1 = if new_first == 0 { 0 } else { new_first - 1 };
        let overlaps_old = hoe > of1 && hos <= old_last + 1;
        let overlaps_new = hne > nf1 && hns <= new_last + 1;
        let ghost t1 = hunks@.take(k + 1);
        assert(hos == h_old_start(h));
        assert(hns == h_new_start(h));
        assert(hoe == h_old_start(h) + (h.old_count as usize));
        assert(hne == h_new_start(h) + (h.new_count as usize));
        assert(of1 == sat_dec(of));
        assert(nf1 == sat_dec(nf));
        assert(overlaps_old == (h_old_start(h) + (h.old_count as usize) > sat_dec(of) && h_old_start(h) <= ol + 1));
        assert(hunk_touches(h, of, ol, nf, nl) == (overlaps_old || overlaps_new));
        if overlaps_old || overlaps_new {
            push_lines_not_in(&mut raw_removed, chunk, hos, hoe, true);
            push_lines_not_in(&mut raw_added, chunk, hns, hne, false);
            assert(raw_gap(chunk@, t1, of, ol, nf, nl, true)
                == raw_gap(chunk@, hunks@.take(k as int), of, ol, nf, nl, true) + lines_not_in(chunk@, h_old_start(h), h_old_start(h) + (h.old_count as usize), true));
            assert(raw_gap(chunk@, t1, of, ol, nf, nl, false)
                == raw_gap(chunk@, hunks@.take(k as int), of, ol, nf, nl, false) + lines_not_in(chunk@, h_new_start(h), h_new_start(h) + (h.new_count as usize), false));
        } else {
            assert(raw_gap(chunk@, t1, of, ol, nf, nl, true) == raw_gap(chunk@, hunks@.take(k as int), of, ol, nf, nl, true));
            assert(raw_gap(chunk@, t1, of, ol, nf, nl, false) == raw_gap(chunk@, hunks@.take(k as int), of, ol, nf, nl, false));
        }
        k = k + 1;
    }
    proof { assert(hunks@.take(hunks@.len() as int) == hunks@); }
    let ghost removed = raw_removed@;
    let ghost added = raw_added@;

    let mut paired: Vec<(usize, usize)> = Vec::new();
    let mut used_added: Vec<usize> = Vec::new();
    let mut unmatched_removed: Vec<usize> = Vec::new();
    let mut i: usize = 0;
    while i < raw_removed.len()
        invariant
            i <= removed.len(),
            removed == raw_removed@,
            added == raw_added@,
            (paired@, used_added@, unmatched_removed@) == pair_gaps(removed.take(i as int), added, old_lines@, new_lines@),
        decreases removed.len() - i,
    {
        let old_0 = raw_removed[i];
        proof {
            assert(removed.take(i + 1).drop_last() == removed.take(i as int));
            assert(removed.take(i + 1).last() == old_0);
        }
        let old_c = trim_chars(chars_of(str_at(old_lines, old_0)).as_slice());
        if old_c.len() == 0 {
            unmatched_removed.push(old_0);
        } else {
            let old_norm = collapse_whitespace(old_c.as_slice());
            let mut m = find_match(&raw_added, &used_added, new_lines, old_c.as_slice(), old_norm.as_slice(), 0);
            if m.is_none() {
                m = find_match(&raw_added, &used_added, new_lines, old_c.as_slice(), old_norm.as_slice(), 1);
            }
            if m.is_none() {
                m = find_match(&raw_added, &used_added, new_lines, old_c.as_slice(), old_norm.as_slice(), 2);
            }
            match m {
                Some(new_0) => {
                    paired.push((old_0, new_0));
                    used_added.push(new_0);
                },
                None => {
                    unmatched_removed.push(old_0);
                },
            }
        }
        i = i + 1;
    }
    proof { assert(removed.take(removed.len() as int) == removed); }

    let mut unmatched_added: Vec<usize> = Vec::new();
    let mut j: usize = 0;
    while j < raw_added.len()
        invariant
            j <= added.len(),
            added == raw_added@,
            unmatched_added@ == unused(added.take(j as int), used_added@),
        decreases added.len() - j,
    {
        let n = raw_added[j];
        proof {
            assert(added.take(j + 1).drop_last() == added.take(j as int));
            assert(added.take(j + 1).last() == n);
        }
        if !vec_has(&used_added, n) {
            unmatched_added.push(n);
        }
        j = j + 1;
    }
    proof { assert(added.take(added.len() as int) == added); }
    (paired, unmatched_removed, unmatched_added)
}

/// Every index is below `b`.
pub open spec fn all_below(s: Seq<usize>, b: int) -> bool {
    forall|i: int| 0 <= i < s.len() ==> (#[trigger] s[i]) < b
}

proof fn lemma_lines_not_in_below(chunk: Seq<LineEntry>, lo: int, hi: int, left: bool, b: int)
    requires
        0 <= lo,
        hi <= b <= usize::MAX,
    ensures
        all_below(lines_not_in(chunk, lo, hi, left), b),
    decreases hi - lo,
{
    if hi > lo {
        lemma_lines_not_in_below(chunk, lo, hi - 1, left, b);
        assert(((hi - 1) as usize) as int == hi - 1);
    }
}

proof fn lemma_raw_gap_below(chunk: Seq<LineEntry>, hunks: Seq<DiffHunk>, of: int, ol: int, nf: int, nl: int, left: bool, b: int)
    requires
        b <= usize::MAX,
        forall|i: int| 0 <= i < hunks.len() ==> {
            &&& h_old_start(#[trigger] hunks[i]) + (hunks[i].old_count as usize) <= b
            &&& h_new_start(hunks[i]) + (hunks[i].new_count as usize) <= b
        },
    ensures
        all_below(raw_gap(chunk, hunks, of, ol, nf, nl, left), b),
    decreases hunks.len(),
{
    if hunks.len() > 0 {
        let d = hunks.drop_last();
        assert forall|i: int| 0 <= i < d.len() implies {
            &&& h_old_start(#[trigger] d[i]) + (d[i].old_count as usize) <= b
            &&& h_new_start(d[i]) + (d[i].new_count as usize) <= b
        } by {
            assert(d[i] == hunks[i]);
        }
        lemma_raw_gap_below(chunk, d, of, ol, nf, nl, left, b);
        let h = hunks.last();
        assert(h == hunks[hunks.len() - 1]);
        let p = raw_gap(chunk, d, of, ol, nf, nl, left);
        if hunk_touches(h, of, ol, nf, nl) {
            let q = if left {
                lines_not_in(chunk, h_old_start(h), h_old_start(h) + (h.old_count as usize), true)
            } else {
                lines_not_in(chunk, h_new_start(h), h_new_start(h) + (h.new_count as usize), false)
            };
            if left {
                lemma_lines_not_in_below(chunk, h_old_start(h), h_old_start(h) + (h.old_count as usize), true, b);
            } else {
                lemma_lines_not_in_below(chunk, h_new_start(h), h_new_start(h) + (h.new_count as usize), false, b);
            }
            assert forall|i: int| 0 <= i < (p + q).len() implies (#[trigger] (p + q)[i]) < b by {
                if i < p.len() { assert((p + q)[i] == p[i]); } else { assert((p + q)[i] == q[i - p.len()]); }
            }
        }
    }
}

proof fn lemma_first_match_below(added: Seq<usize>, used: Seq<usize>, new_lines: Seq<String>, old_c: Seq<char>, mode: int, b: int)
    requires
        all_below(added, b),
    ensures
        first_match(added, used, new_lines, old_c, mode) matches Some(x) ==> x < b,
    decreases added.len(),
{
    if added.len() > 0 {
        let d = added.drop_first();
        assert forall|i: int| 0 <= i < d.len() implies (#[trigger] d[i]) < b by {
            assert(d[i] == added[i + 1]);
        }
        lemma_first_match_below(d, used, new_lines, old_c, mode, b);
    }
}

proof fn lemma_pair_gaps_below(removed: Seq<usize>, added: Seq<usize>, old_lines: Seq<String>, new_lines: Seq<String>, b: int)
    requires
        all_below(removed, b),
        all_below(added, b),
    ensures
        ({
            let p = pair_gaps(removed, added, old_lines, new_lines);
            &&& forall|i: int| 0 <= i < p.0.len() ==> (#[trigger] p.0[i]).0 < b && p.0[i].1 < b
            &&& all_below(p.2, b)
        }),
    decreases removed.len(),
{
    if removed.len() > 0 {
        let d = removed.drop_last();
        assert forall|i: int| 0 <= i < d.len() implies (#[trigger] d[i]) < b by {
            assert(d[i] == removed[i]);
        }
        lemma_pair_gaps_below(d, added, old_lines, new_lines, b);
        let p = pair_gaps(d, added, old_lines, new_lines);
        let o = removed.last();
        assert(o == removed[removed.len() - 1]);
        let oc = trim(line_at(old_lines, o as int));
        lemma_first_match_below(added, p.1, new_lines, oc, 0, b);
        lemma_first_match_below(added, p.1, new_lines, oc, 1, b);
        lemma_first_match_below(added, p.1, new_lines, oc, 2, b);
    }
}

proof fn lemma_unused_below(added: Seq<usize>, used: Seq<usize>, b: int)
    requires
        all_below(added, b),
    ensures
        all_below(unused(added, used), b),
    decreases added.len(),
{
    if added.len() > 0 {
        let d = added.drop_last();
        assert forall|i: int| 0 <= i < d.len() implies (#[trigger] d[i]) < b by {
            assert(d[i] == added[i]);
        }
        lemma_unused_below(d, used, b);
        assert(added.last() == added[added.len() - 1]);
    }
}

proof fn lemma_first_match(added: Seq<usize>, used: Seq<usize>, new_lines: Seq<String>, old_c: Seq<char>, mode: int)
    ensures
        first_match(added, used, new_lines, old_c, mode) matches Some(x) ==> {
            &&& added.contains(x)
            &&& !used.contains(x)
            &&& lines_match(mode, old_c, trim(line_at(new_lines, x as int)))
        },
    decreases added.len(),
{
    if added.len() > 0 {
        lemma_first_match(added.drop_first(), used, new_lines, old_c, mode);
        if let Some(x) = first_match(added, used, new_lines, old_c, mode) {
            if x != added[0] || used.contains(added[0]) || !lines_match(mode, old_c, trim(line_at(new_lines, added[0] as int))) {
                let j = choose|j: int| 0 <= j < added.drop_first().len() && added.drop_first()[j] == x;
                assert(added[j + 1] == x);
            } else {
                assert(added[0] == x);
            }
        }
    }
}

/// Whether a removed line and its partner match exactly, up to white space,
/// or as a prefix of one another.
pub open spec fn partners(old_c: Seq<char>, new_c: Seq<char>) -> bool {
    lines_match(0, old_c, new_c) || lines_match(1, old_c, new_c) || lines_match(2, old_c, new_c)
}

/// Pairing gap lines by content: each removed line is either paired or left
/// unmatched, each pair joins a non-blank removed line with an added line
/// whose text matches it, and no added line is paired twice (the used list
/// holds exactly the partners, in pair order).
pub proof fn lemma_pair_gaps(removed: Seq<usize>, added: Seq<usize>, old_lines: Seq<String>, new_lines: Seq<String>)
    ensures
        ({
            let p = pair_gaps(removed, added, old_lines, new_lines);
            &&& p.0.len() + p.2.len() == removed.len()
            &&& p.1.len() == p.0.len()
            &&& forall|k: int| 0 <= k < p.0.len() ==> {
                &&& (#[trigger] p.0[k]).1 == p.1[k]
                &&& removed.contains(p.0[k].0)
                &&& added.contains(p.0[k].1)
                &&& trim(line_at(old_lines, p.0[k].0 as int)).len() > 0
                &&& partners(trim(line_at(old_lines, p.0[k].0 as int)), trim(line_at(new_lines, p.0[k].1 as int)))
            }
            &&& forall|k: int, l: int| 0 <= k < l < p.1.len() ==> p.1[k] != p.1[l]
        }),
    decreases removed.len(),
{
    if removed.len() > 0 {
        let r0 = removed.drop_last();
        lemma_pair_gaps(r0, added, old_lines, new_lines);
        let p = pair_gaps(r0, added, old_lines, new_lines);
        let o = removed.last();
        let oc = trim(line_at(old_lines, o as int));
        assert forall|k: int| 0 <= k < p.0.len() implies removed.contains(#[trigger] p.0[k].0) by {
            let j = choose|j: int| 0 <= j < r0.len() && r0[j] == p.0[k].0;
            assert(removed[j] == r0[j]);
        }
        assert(removed.contains(o)) by { assert(removed[removed.len() - 1] == o); }
        if oc.len() > 0 {
            lemma_first_match(added, p.1, new_lines, oc, 0);
            lemma_first_match(added, p.1, new_lines, oc, 1);
            lemma_first_match(added, p.1, new_lines, oc, 2);
            match pick_partner(added, p.1, new_lines, oc) {
                Some(n) => {
                    let q0 = p.0.push((o, n));
                    let q1 = p.1.push(n);
                    assert(!p.1.contains(n));
                    assert forall|k: int, l: int| 0 <= k < l < q1.len() implies q1[k] != q1[l] by {
                        if l == q1.len() - 1 {
                            assert(q1[k] == p.1[k]);
                        } else {
                            assert(q1[k] == p.1[k] && q1[l] == p.1[l]);
                        }
                    }
                    assert forall|k: int| 0 <= k < q0.len() implies {
                        &&& (#[trigger] q0[k]).1 == q1[k]
                        &&& removed.contains(q0[k].0)
                        &&& added.contains(q0[k].1)
                        &&& trim(line_at(old_lines, q0[k].0 as int)).len() > 0
                        &&& partners(trim(line_at(old_lines, q0[k].0 as int)), trim(line_at(new_lines, q0[k].1 as int)))
                    } by {
                        if k < p.0.len() {
                            assert(q0[k] == p.0[k] && q1[k] == p.1[k]);
                        }
                    }
                },
                None => {},
            }
        }
    }
}

/// Whether line `x` is a chunk line of the given side.
pub open spec fn chunk_line(chunk: Seq<LineEntry>, x: int, left: bool) -> bool {
    if left { in_lhs(chunk, x) } else { in_rhs(chunk, x) }
}

/// The range of a hunk on the given side: (0-based start, end).
pub open spec fn hunk_side(h: DiffHunk, left: bool) -> (int, int) {
    if left {
        (h_old_start(h), h_old_start(h) + (h.old_count as usize))
    } else {
        (h_new_start(h), h_new_start(h) + (h.new_count as usize))
    }
}

proof fn lemma_lines_not_in(chunk: Seq<LineEntry>, lo: int, hi: int, left: bool, x: int)
    requires
        0 <= lo,
        hi <= usize::MAX + 1,
    ensures
        lines_not_in(chunk, lo, hi, left).contains(x as usize) && 0 <= x <= usize::MAX
            <==> lo <= x < hi && !chunk_line(chunk, x, left),
    decreases hi - lo,
{
    if hi > lo {
        lemma_lines_not_in(chunk, lo, hi - 1, left, x);
        let p = lines_not_in(chunk, lo, hi - 1, left);
        if !chunk_line(chunk, hi - 1, left) {
            let u = p.push((hi - 1) as usize);
            assert(lines_not_in(chunk, lo, hi, left) == u);
            if u.contains(x as usize) && 0 <= x <= usize::MAX {
                let i = choose|i: int| 0 <= i < u.len() && #[trigger] u[i] == x as usize;
                if i < p.len() {
                    assert(p[i] == x as usize);
                }
            }
            if lo <= x < hi && !chunk_line(chunk, x, left) && x == hi - 1 {
                assert(u[p.len() as int] == x as usize);
            }
            if lo <= x < hi - 1 && !chunk_line(chunk, x, left) {
                let i = choose|i: int| 0 <= i < p.len() && #[trigger] p[i] == x as usize;
                assert(u[i] == x as usize);
            }
        } else {
            assert(lines_not_in(chunk, lo, hi, left) == p);
        }
    } else {
        assert(lines_not_in(chunk, lo, hi, left) =~= Seq::<usize>::empty());
    }
}

/// Which lines are gap lines: a line is an old (`left`) or new gap line
/// exactly when some hunk that touches the chunk's range holds it on that
/// side and the chunk does not list it.
pub proof fn lemma_raw_gap_lines(chunk: Seq<LineEntry>, hunks: Seq<DiffHunk>, old_first: int, old_last: int,
    new_first: int, new_last: int, left: bool, x: int)
    requires
        hunks_fit(hunks),
        0 <= x <= usize::MAX,
    ensures
        raw_gap(chunk, hunks, old_first, old_last, new_first, new_last, left).contains(x as usize)
            <==> !chunk_line(chunk, x, left) && exists|k: int| 0 <= k < hunks.len()
                && hunk_touches(#[trigger] hunks[k], old_first, old_last, new_first, new_last)
                && hunk_side(hunks[k], left).0 <= x < hunk_side(hunks[k], left).1,
    decreases hunks.len(),
{
    if hunks.len() > 0 {
        let hs = hunks.drop_last();
        assert forall|i: int| 0 <= i < hs.len() implies
            h_old_start(#[trigger] hs[i]) + (hs[i].old_count as usize) <= usize::MAX
            && h_new_start(hs[i]) + (hs[i].new_count as usize) <= usize::MAX by {
            assert(hs[i] == hunks[i]);
        }
        lemma_raw_gap_lines(chunk, hs, old_first, old_last, new_first, new_last, left, x);
        let p = raw_gap(chunk, hs, old_first, old_last, new_first, new_last, left);
        let h = hunks.last();
        let n = hunks.len() - 1;
        assert(h == hunks[n]);
        let side = hunk_side(h, left);
        let extra = lines_not_in(chunk, side.0, side.1, left);
        lemma_lines_not_in(chunk, side.0, side.1, left, x);
        if hunk_touches(h, old_first, old_last, new_first, new_last) {
            assert(raw_gap(chunk, hunks, old_first, old_last, new_first, new_last, left) == p + extra);
            assert((p + extra).contains(x as usize) <==> p.contains(x as usize) || extra.contains(x as usize)) by {
                if (p + extra).contains(x as usize) {
                    let i = choose|i: int| 0 <= i < (p + extra).len() && (p + extra)[i] == x as usize;
                    if i < p.len() { assert(p[i] == x as usize); } else { assert(extra[i - p.len()] == x as usize); }
                }
                if p.contains(x as usize) {
                    let i = choose|i: int| 0 <= i < p.len() && p[i] == x as usize;
                    assert((p + extra)[i] == x as usize);
                }
                if extra.contains(x as usize) {
                    let i = choose|i: int| 0 <= i < extra.len() && extra[i] == x as usize;
                    assert((p + extra)[p.len() + i] == x as usize);
                }
            }
        } else {
            assert(raw_gap(chunk, hunks, old_first, old_last, new_first, new_last, left) == p);
        }
        if exists|k: int| 0 <= k < hunks.len() && hunk_touches(#[trigger] hunks[k], old_first, old_last, new_first, new_last)
            && hunk_side(hunks[k], left).0 <= x < hunk_side(hunks[k], left).1 {
            let k = choose|k: int| 0 <= k < hunks.len() && hunk_touches(#[trigger] hunks[k], old_first, old_last, new_first, new_last)
                && hunk_side(hunks[k], left).0 <= x < hunk_side(hunks[k], left).1;
            if k < n {
                assert(hs[k] == hunks[k]);
            }
        }
        if exists|k: int| 0 <= k < hs.len() && hunk_touches(#[trigger] hs[k], old_first, old_last, new_first, new_last)
            && hunk_side(hs[k], left).0 <= x < hunk_side(hs[k], left).1 {
            let k = choose|k: int| 0 <= k < hs.len() && hunk_touches(#[trigger] hs[k], old_first, old_last, new_first, new_last)
                && hunk_side(hs[k], left).0 <= x < hunk_side(hs[k], left).1;
            assert(hs[k] == hunks[k]);
        }
    }
}

/// The unmatched added lines are the added gap lines that no pair uses, in order.
pub proof fn lemma_unused(added: Seq<usize>, used: Seq<usize>, x: usize)
    ensures
        unused(added, used).contains(x) <==> added.contains(x) && !used.contains(x),
    decreases added.len(),
{
    if added.len() > 0 {
        let a0 = added.drop_last();
        lemma_unused(a0, used, x);
        let u0 = unused(a0, used);
        if added.contains(x) {
            let i = choose|i: int| 0 <= i < added.len() && added[i] == x;
            if i < a0.len() { assert(a0[i] == x); }
        }
        if a0.contains(x) {
            let i = choose|i: int| 0 <= i < a0.len() && a0[i] == x;
            assert(added[i] == x);
        }
        if !used.contains(added.last()) {
            let u = u0.push(added.last());
            if u.contains(x) {
                let i = choose|i: int| 0 <= i < u.len() && u[i] == x;
                if i < u0.len() { assert(u0[i] == x); }
            }
            if u0.contains(x) {
                let i = choose|i: int| 0 <= i < u0.len() && u0[i] == x;
                assert(u[i] == x);
            }
            if x == added.last() {
                assert(u[u0.len() as int] == x);
                assert(added[added.len() - 1] == x);
            }
        }
    } else {
        assert(unused(added, used) =~= Seq::<usize>::empty());
    }
}

/// Gap lines lie inside the hunks: where every hunk ends at or before `b` on
/// both sides, every gap line is below `b`.
pub proof fn lemma_gap_lines_below(chunk: Seq<LineEntry>, hunks: Seq<DiffHunk>, of: int, ol: int, nf: int, nl: int,
    old_lines: Seq<String>, new_lines: Seq<String>, b: int)
    requires
        b <= usize::MAX,
        forall|i: int| 0 <= i < hunks.len() ==> {
            &&& h_old_start(#[trigger] hunks[i]) + (hunks[i].old_count as usize) <= b
            &&& h_new_start(hunks[i]) + (hunks[i].new_count as usize) <= b
        },
    ensures
        ({
            let g = gap_lines(chunk, hunks, of, ol, nf, nl, old_lines, new_lines);
            &&& forall|i: int| 0 <= i < g.0.len() ==> (#[trigger] g.0[i]).0 < b && g.0[i].1 < b
            &&& all_below(g.1, b)
            &&& all_below(g.2, b)
        }),
{
    lemma_raw_gap_below(chunk, hunks, of, ol, nf, nl, true, b);
    lemma_raw_gap_below(chunk, hunks, of, ol, nf, nl, false, b);
    let removed = raw_gap(chunk, hunks, of, ol, nf, nl, true);
    let added = raw_gap(chunk, hunks, of, ol, nf, nl, false);
    lemma_pair_gaps_below(removed, added, old_lines, new_lines, b);
    lemma_unused_below(added, pair_gaps(removed, added, old_lines, new_lines).1, b);
}

} // verus!
