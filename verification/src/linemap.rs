//! Line ranges of chunks and the mapping between old-file and new-file line
//! numbers given by unified diff hunks.

use vstd::prelude::*;
use crate::difft_json::{DiffHunk, LineEntry};

verus! {

/// The 0-based line number of the lhs (`left`) or rhs side of an entry, if present.
pub open spec fn side_line(e: LineEntry, left: bool) -> Option<u64> {
    if left {
        match e.lhs {
            Some(s) => Some(s.line_number),
            None => None,
        }
    } else {
        match e.rhs {
            Some(s) => Some(s.line_number),
            None => None,
        }
    }
}

/// `r` is the (min, max) of the line numbers present on one side of `chunk`,
/// or `None` when that side has no entry at all.
pub open spec fn is_side_range(chunk: Seq<LineEntry>, left: bool, r: Option<(u64, u64)>) -> bool {
    match r {
        None => forall|i: int| 0 <= i < chunk.len() ==> side_line(#[trigger] chunk[i], left) is None,
        Some((lo, hi)) => {
            &&& exists|i: int| 0 <= i < chunk.len() && side_line(#[trigger] chunk[i], left) == Some(lo)
            &&& exists|i: int| 0 <= i < chunk.len() && side_line(#[trigger] chunk[i], left) == Some(hi)
            &&& forall|i: int| 0 <= i < chunk.len() && side_line(#[trigger] chunk[i], left) is Some
                ==> lo <= side_line(chunk[i], left)->0 <= hi
        },
    }
}

/// Get the min/max 0-based line numbers referenced in a chunk, for each side.
pub fn chunk_line_range(chunk: &[LineEntry]) -> (res: (Option<(u64, u64)>, Option<(u64, u64)>))
    ensures
        is_side_range(chunk@, true, res.0),
        is_side_range(chunk@, false, res.1),
{
    let mut lhs: Option<(u64, u64)> = None;
    let mut rhs: Option<(u64, u64)> = None;
    let mut i: usize = 0;
    while i < chunk.len()
        invariant
            i <= chunk@.len(),
            is_side_range(chunk@.take(i as int), true, lhs),
            is_side_range(chunk@.take(i as int), false, rhs),
        decreases chunk@.len() - i,
    {
        let ghost prev = chunk@.take(i as int);
        let ghost next = chunk@.take(i + 1);
        assert(next == prev.push(chunk@[i as int]));
        let entry = &chunk[i];
        if let Some(l) = &entry.lhs {
            let ln = l.line_number;
            lhs = match lhs {
                None => Some((ln, ln)),
                Some((a, b)) => Some((if ln < a { ln } else { a }, if ln > b { ln } else { b })),
            };
        }
        if let Some(r) = &entry.rhs {
            let ln = r.line_number;
            rhs = match rhs {
                None => Some((ln, ln)),
                Some((a, b)) => Some((if ln < a { ln } else { a }, if ln > b { ln } else { b })),
            };
        }
        proof {
            assert(next[i as int] == chunk@[i as int]);
            assert forall|k: int| 0 <= k < i implies next[k] == prev[k] by {}
        }
        i = i + 1;
    }
    assert(chunk@.take(chunk@.len() as int) == chunk@);
    (lhs, rhs)
}

/// The larger of an integer and 1.
pub open spec fn at_least_one(x: int) -> int {
    if x < 1 { 1 } else { x }
}

/// Whether 1-based line `x` comes before a hunk side that starts at `start`
/// with `count` lines: below its start, or at its start where the side is
/// empty (git numbers an empty side by the line it follows).
pub open spec fn before_side(x: int, start: u64, count: u64) -> bool {
    x < start || (count == 0 && x == start)
}

/// Whether 1-based line `x` comes after a hunk side.
pub open spec fn after_side(x: int, start: u64, count: u64) -> bool {
    !before_side(x, start, count) && x >= start + count
}

/// Maps a 1-based new-file line to a 1-based old-file line. `offset` is the
/// accumulated `new_count - old_count` of the hunks already passed. Between
/// hunks lines are unchanged and advance 1:1 (a line at the start of an
/// empty new side precedes that hunk); inside a hunk the result is the
/// hunk's old start.
pub open spec fn new_to_old_from(n: int, hunks: Seq<DiffHunk>, offset: int) -> int
    decreases hunks.len(),
{
    if hunks.len() == 0 {
        at_least_one(n - offset)
    } else if before_side(n, hunks[0].new_start, hunks[0].new_count) {
        at_least_one(n - offset)
    } else if n < hunks[0].new_start + hunks[0].new_count {
        hunks[0].old_start as int
    } else {
        new_to_old_from(n, hunks.drop_first(), offset + hunks[0].new_count - hunks[0].old_count)
    }
}

/// Maps a 1-based old-file line to a 1-based new-file line (the mirror of
/// [`new_to_old_from`]).
pub open spec fn old_to_new_from(o: int, hunks: Seq<DiffHunk>, offset: int) -> int
    decreases hunks.len(),
{
    if hunks.len() == 0 {
        at_least_one(o + offset)
    } else if before_side(o, hunks[0].old_start, hunks[0].old_count) {
        at_least_one(o + offset)
    } else if o < hunks[0].old_start + hunks[0].old_count {
        hunks[0].new_start as int
    } else {
        old_to_new_from(o, hunks.drop_first(), offset + hunks[0].new_count - hunks[0].old_count)
    }
}

/// The sum of `new_count - old_count` over the first `k` hunks.
pub open spec fn hunk_offset(hunks: Seq<DiffHunk>, k: int) -> int
    decreases k,
{
    if k <= 0 || hunks.len() == 0 {
        0
    } else {
        hunk_offset(hunks, k - 1) + hunks[k - 1].new_count - hunks[k - 1].old_count
    }
}

/// The arithmetic of the line mapping stays within machine integers: counts and
/// the line fit in `i64`, hunk ends fit in `u64`, and every running offset and
/// `line - offset` / `line + offset` fits in `i64`.
pub open spec fn mapping_fits(line: u64, hunks: Seq<DiffHunk>) -> bool {
    &&& line <= i64::MAX
    &&& forall|i: int| 0 <= i < hunks.len() ==> {
        &&& (#[trigger] hunks[i]).new_count <= i64::MAX
        &&& hunks[i].old_count <= i64::MAX
        &&& hunks[i].new_start + hunks[i].new_count <= u64::MAX
        &&& hunks[i].old_start + hunks[i].old_count <= u64::MAX
    }
    &&& forall|k: int| 0 <= k <= hunks.len() ==> {
        &&& i64::MIN <= #[trigger] hunk_offset(hunks, k) <= i64::MAX
        &&& i64::MIN <= line - hunk_offset(hunks, k) <= i64::MAX
        &&& i64::MIN <= line + hunk_offset(hunks, k) <= i64::MAX
    }
}

proof fn lemma_new_to_old_step(n: int, hunks: Seq<DiffHunk>, k: int)
    requires
        0 <= k < hunks.len(),
        after_side(n, hunks[k].new_start, hunks[k].new_count),
    ensures
        new_to_old_from(n, hunks.subrange(k, hunks.len() as int), hunk_offset(hunks, k))
            == new_to_old_from(n, hunks.subrange(k + 1, hunks.len() as int), hunk_offset(hunks, k + 1)),
{
    assert(hunks.subrange(k, hunks.len() as int).drop_first() == hunks.subrange(k + 1, hunks.len() as int));
}

proof fn lemma_old_to_new_step(o: int, hunks: Seq<DiffHunk>, k: int)
    requires
        0 <= k < hunks.len(),
        after_side(o, hunks[k].old_start, hunks[k].old_count),
    ensures
        old_to_new_from(o, hunks.subrange(k, hunks.len() as int), hunk_offset(hunks, k))
            == old_to_new_from(o, hunks.subrange(k + 1, hunks.len() as int), hunk_offset(hunks, k + 1)),
{
    assert(hunks.subrange(k, hunks.len() as int).drop_first() == hunks.subrange(k + 1, hunks.len() as int));
}

/// Map a new-file line (1-based) to an old-file line (1-based) using unified diff hunks.
/// Between hunks the lines are unchanged and advance 1:1 (see
/// [`lemma_new_outside_hunks`]); within a hunk we clamp to the hunk's old
/// range boundary.
pub fn new_to_old_line(new_line_1: u64, hunks: &[DiffHunk]) -> (res: u64)
    requires
        mapping_fits(new_line_1, hunks@),
    ensures
        res as int == new_to_old_from(new_line_1 as int, hunks@, 0),
{
    let mut offset: i64 = 0;
    let mut i: usize = 0;
    assert(hunks@.subrange(0, hunks@.len() as int) == hunks@);
    while i < hunks.len()
        invariant
            i <= hunks@.len(),
            mapping_fits(new_line_1, hunks@),
            offset as int == hunk_offset(hunks@, i as int),
            new_to_old_from(new_line_1 as int, hunks@, 0)
                == new_to_old_from(new_line_1 as int, hunks@.subrange(i as int, hunks@.len() as int), offset as int),
        decreases hunks@.len() - i,
    {
        let h = hunks[i];
        assert(hunks@[i as int] == h);
        assert(hunks@.subrange(i as int, hunks@.len() as int)[0] == h);
        let h_new_end = h.new_start + h.new_count;
        assert(0 <= i <= hunks@.len());
        assert(i64::MIN <= new_line_1 - hunk_offset(hunks@, i as int) <= i64::MAX);
        if new_line_1 < h.new_start || (h.new_count == 0 && new_line_1 == h.new_start) {
            let v: i64 = new_line_1 as i64 - offset;
            return if v < 1 { 1 } else { v as u64 };
        }
        if new_line_1 < h_new_end {
            return h.old_start;
        }
        proof {
            lemma_new_to_old_step(new_line_1 as int, hunks@, i as int);
            assert(0 <= i + 1 <= hunks@.len());
            assert(i64::MIN <= hunk_offset(hunks@, i + 1) <= i64::MAX);
        }
        offset = offset + (h.new_count as i64 - h.old_count as i64);
        i = i + 1;
    }
    assert(i64::MIN <= new_line_1 - hunk_offset(hunks@, i as int) <= i64::MAX);
    let v: i64 = new_line_1 as i64 - offset;
    if v < 1 { 1 } else { v as u64 }
}

/// Map an old-file line (1-based) to a new-file line (1-based) using unified diff hunks.
pub fn old_to_new_line(old_line_1: u64, hunks: &[DiffHunk]) -> (res: u64)
    requires
        mapping_fits(old_line_1, hunks@),
    ensures
        res as int == old_to_new_from(old_line_1 as int, hunks@, 0),
{
    let mut offset: i64 = 0;
    let mut i: usize = 0;
    assert(hunks@.subrange(0, hunks@.len() as int) == hunks@);
    while i < hunks.len()
        invariant
            i <= hunks@.len(),
            mapping_fits(old_line_1, hunks@),
            offset as int == hunk_offset(hunks@, i as int),
            old_to_new_from(old_line_1 as int, hunks@, 0)
                == old_to_new_from(old_line_1 as int, hunks@.subrange(i as int, hunks@.len() as int), offset as int),
        decreases hunks@.len() - i,
    {
        let h = hunks[i];
        assert(hunks@[i as int] == h);
        assert(hunks@.subrange(i as int, hunks@.len() as int)[0] == h);
        let h_old_end = h.old_start + h.old_count;
        assert(0 <= i <= hunks@.len());
        assert(i64::MIN <= old_line_1 + hunk_offset(hunks@, i as int) <= i64::MAX);
        if old_line_1 < h.old_start || (h.old_count == 0 && old_line_1 == h.old_start) {
            let v: i64 = old_line_1 as i64 + offset;
            return if v < 1 { 1 } else { v as u64 };
        }
        if old_line_1 < h_old_end {
            return h.new_start;
        }
        proof {
            lemma_old_to_new_step(old_line_1 as int, hunks@, i as int);
            assert(0 <= i + 1 <= hunks@.len());
            assert(i64::MIN <= hunk_offset(hunks@, i + 1) <= i64::MAX);
        }
        offset = offset + (h.new_count as i64 - h.old_count as i64);
        i = i + 1;
    }
    assert(i64::MIN <= old_line_1 + hunk_offset(hunks@, i as int) <= i64::MAX);
    let v: i64 = old_line_1 as i64 + offset;
    if v < 1 { 1 } else { v as u64 }
}

/// Convert a 1-based line number from hunk mapping to 0-based index
/// (0 stays 0).
pub fn to_0based(line_1: u64) -> (res: usize)
    ensures
        res as int == if (line_1 as usize) == 0 { 0 } else { (line_1 as usize) - 1 },
{
    (line_1 as usize).saturating_sub(1)
}

/// The (min, max) line numbers on one side of the entries, or `None`.
pub open spec fn side_range_of(chunk: Seq<LineEntry>, left: bool) -> Option<(u64, u64)>
    decreases chunk.len(),
{
    if chunk.len() == 0 {
        None
    } else {
        let r = side_range_of(chunk.drop_last(), left);
        match side_line(chunk.last(), left) {
            None => r,
            Some(x) => match r {
                None => Some((x, x)),
                Some(p) => Some((if x < p.0 { x } else { p.0 }, if x > p.1 { x } else { p.1 })),
            },
        }
    }
}

/// The fold over a side gives its range.
pub proof fn lemma_side_range_of_is(chunk: Seq<LineEntry>, left: bool)
    ensures
        is_side_range(chunk, left, side_range_of(chunk, left)),
    decreases chunk.len(),
{
    if chunk.len() > 0 {
        let d = chunk.drop_last();
        lemma_side_range_of_is(d, left);
        let r = side_range_of(d, left);
        let last = chunk.len() - 1;
        assert(chunk[last] == chunk.last());
        assert forall|i: int| 0 <= i < d.len() implies chunk[i] == #[trigger] d[i] by {}
        match side_range_of(chunk, left) {
            None => {
                assert forall|i: int| 0 <= i < chunk.len() implies side_line(#[trigger] chunk[i], left) is None by {
                    if i < d.len() { assert(chunk[i] == d[i]); }
                }
            },
            Some(p) => {
                match r {
                    None => {
                        assert(side_line(chunk[last], left) == Some(p.0));
                    },
                    Some(q) => {
                        let wl = choose|i: int| 0 <= i < d.len() && side_line(#[trigger] d[i], left) == Some(q.0);
                        let wh = choose|i: int| 0 <= i < d.len() && side_line(#[trigger] d[i], left) == Some(q.1);
                        assert(chunk[wl] == d[wl]);
                        assert(chunk[wh] == d[wh]);
                    },
                }
                assert forall|i: int| 0 <= i < chunk.len() && side_line(#[trigger] chunk[i], left) is Some
                    implies p.0 <= side_line(chunk[i], left)->0 <= p.1 by {
                    if i < d.len() { assert(chunk[i] == d[i]); }
                }
            },
        }
    }
}

/// The range that [`chunk_line_range`] reports is the min and max of the side.
pub proof fn lemma_side_range_unique(chunk: Seq<LineEntry>, left: bool, r: Option<(u64, u64)>)
    requires
        is_side_range(chunk, left, r),
    ensures
        r == side_range_of(chunk, left),
{
    lemma_side_range_of_is(chunk, left);
    let s = side_range_of(chunk, left);
    match r {
        None => {
            match s {
                None => {},
                Some(p) => {
                    let w = choose|i: int| 0 <= i < chunk.len() && side_line(#[trigger] chunk[i], left) == Some(p.0);
                },
            }
        },
        Some(a) => {
            let w = choose|i: int| 0 <= i < chunk.len() && side_line(#[trigger] chunk[i], left) == Some(a.0);
            match s {
                None => {},
                Some(b) => {
                    let w1 = choose|i: int| 0 <= i < chunk.len() && side_line(#[trigger] chunk[i], left) == Some(b.0);
                    let w2 = choose|i: int| 0 <= i < chunk.len() && side_line(#[trigger] chunk[i], left) == Some(a.1);
                    let w3 = choose|i: int| 0 <= i < chunk.len() && side_line(#[trigger] chunk[i], left) == Some(b.1);
                },
            }
        },
    }
}

proof fn lemma_offset_drop_first(hs: Seq<DiffHunk>, j: int)
    requires
        0 <= j < hs.len(),
    ensures
        hunk_offset(hs.drop_first(), j) == hunk_offset(hs, j + 1) - hunk_offset(hs, 1),
    decreases j,
{
    if j > 0 {
        lemma_offset_drop_first(hs, j - 1);
        assert(hs.drop_first()[j - 1] == hs[j]);
    }
}

/// Where hunk starts and running offsets stay below `l` in size, mapping a
/// new line `n >= 0` gives an old line in `0..=n + l`.
pub proof fn lemma_new_to_old_bounded(n: int, hs: Seq<DiffHunk>, off: int, l: int)
    requires
        0 <= n,
        forall|i: int| 0 <= i < hs.len() ==> (#[trigger] hs[i]).old_start < l,
        forall|j: int| 0 <= j <= hs.len() ==> -l < off + #[trigger] hunk_offset(hs, j) < l,
    ensures
        0 <= new_to_old_from(n, hs, off) <= n + l,
    decreases hs.len(),
{
    assert(hunk_offset(hs, 0) == 0);
    if hs.len() > 0 && after_side(n, hs[0].new_start, hs[0].new_count) {
        let t = hs.drop_first();
        let off2 = off + hs[0].new_count - hs[0].old_count;
        assert(hunk_offset(hs, 1) == hs[0].new_count - hs[0].old_count);
        assert forall|j: int| 0 <= j <= t.len() implies -l < off2 + #[trigger] hunk_offset(t, j) < l by {
            lemma_offset_drop_first(hs, j);
            assert(-l < off + hunk_offset(hs, j + 1) < l);
        }
        assert forall|i: int| 0 <= i < t.len() implies (#[trigger] t[i]).old_start < l by {
            assert(t[i] == hs[i + 1]);
        }
        lemma_new_to_old_bounded(n, t, off2, l);
    }
}

/// Where hunk starts and running offsets stay below `l` in size, mapping an
/// old line `o >= 0` gives a new line in `0..=o + l`.
pub proof fn lemma_old_to_new_bounded(o: int, hs: Seq<DiffHunk>, off: int, l: int)
    requires
        0 <= o,
        forall|i: int| 0 <= i < hs.len() ==> (#[trigger] hs[i]).new_start < l,
        forall|j: int| 0 <= j <= hs.len() ==> -l < off + #[trigger] hunk_offset(hs, j) < l,
    ensures
        0 <= old_to_new_from(o, hs, off) <= o + l,
    decreases hs.len(),
{
    assert(hunk_offset(hs, 0) == 0);
    if hs.len() > 0 && after_side(o, hs[0].old_start, hs[0].old_count) {
        let t = hs.drop_first();
        let off2 = off + hs[0].new_count - hs[0].old_count;
        assert(hunk_offset(hs, 1) == hs[0].new_count - hs[0].old_count);
        assert forall|j: int| 0 <= j <= t.len() implies -l < off2 + #[trigger] hunk_offset(t, j) < l by {
            lemma_offset_drop_first(hs, j);
            assert(-l < off + hunk_offset(hs, j + 1) < l);
        }
        assert forall|i: int| 0 <= i < t.len() implies (#[trigger] t[i]).new_start < l by {
            assert(t[i] == hs[i + 1]);
        }
        lemma_old_to_new_bounded(o, t, off2, l);
    }
}


proof fn lemma_new_outside_from(n: int, hs: Seq<DiffHunk>, off: int, k: int)
    requires
        0 <= k <= hs.len(),
        forall|j: int| 0 <= j < k ==> after_side(n, (#[trigger] hs[j]).new_start, hs[j].new_count),
        k == hs.len() || before_side(n, hs[k].new_start, hs[k].new_count),
    ensures
        new_to_old_from(n, hs, off) == at_least_one(n - (off + hunk_offset(hs, k))),
    decreases hs.len(),
{
    assert(hunk_offset(hs, 0) == 0);
    if k > 0 {
        let t = hs.drop_first();
        assert(after_side(n, hs[0].new_start, hs[0].new_count));
        assert(hunk_offset(hs, 1) == hs[0].new_count - hs[0].old_count);
        lemma_offset_drop_first(hs, k - 1);
        assert forall|j: int| 0 <= j < k - 1 implies after_side(n, (#[trigger] t[j]).new_start, t[j].new_count) by {
            assert(t[j] == hs[j + 1]);
        }
        if k < hs.len() {
            assert(t[k - 1] == hs[k]);
        }
        lemma_new_outside_from(n, t, off + hs[0].new_count - hs[0].old_count, k - 1);
    }
}

proof fn lemma_old_outside_from(o: int, hs: Seq<DiffHunk>, off: int, k: int)
    requires
        0 <= k <= hs.len(),
        forall|j: int| 0 <= j < k ==> after_side(o, (#[trigger] hs[j]).old_start, hs[j].old_count),
        k == hs.len() || before_side(o, hs[k].old_start, hs[k].old_count),
    ensures
        old_to_new_from(o, hs, off) == at_least_one(o + (off + hunk_offset(hs, k))),
    decreases hs.len(),
{
    assert(hunk_offset(hs, 0) == 0);
    if k > 0 {
        let t = hs.drop_first();
        assert(after_side(o, hs[0].old_start, hs[0].old_count));
        assert(hunk_offset(hs, 1) == hs[0].new_count - hs[0].old_count);
        lemma_offset_drop_first(hs, k - 1);
        assert forall|j: int| 0 <= j < k - 1 implies after_side(o, (#[trigger] t[j]).old_start, t[j].old_count) by {
            assert(t[j] == hs[j + 1]);
        }
        if k < hs.len() {
            assert(t[k - 1] == hs[k]);
        }
        lemma_old_outside_from(o, t, off + hs[0].new_count - hs[0].old_count, k - 1);
    }
}

/// Lines outside the hunks are unchanged and correspond one to one: a new
/// line after the first `k` hunks and before the next one (or past them
/// all) maps to the old line that the running offset of those `k` hunks
/// gives. A line at the start of an empty side precedes its hunk.
pub proof fn lemma_new_outside_hunks(n: int, hs: Seq<DiffHunk>, k: int)
    requires
        0 <= k <= hs.len(),
        forall|j: int| 0 <= j < k ==> after_side(n, (#[trigger] hs[j]).new_start, hs[j].new_count),
        k == hs.len() || before_side(n, hs[k].new_start, hs[k].new_count),
    ensures
        new_to_old_from(n, hs, 0) == at_least_one(n - hunk_offset(hs, k)),
{
    lemma_new_outside_from(n, hs, 0, k);
}

/// The mirror of [`lemma_new_outside_hunks`]: an old line outside the hunks
/// maps to the new line that the running offset gives.
pub proof fn lemma_old_outside_hunks(o: int, hs: Seq<DiffHunk>, k: int)
    requires
        0 <= k <= hs.len(),
        forall|j: int| 0 <= j < k ==> after_side(o, (#[trigger] hs[j]).old_start, hs[j].old_count),
        k == hs.len() || before_side(o, hs[k].old_start, hs[k].old_count),
    ensures
        old_to_new_from(o, hs, 0) == at_least_one(o + hunk_offset(hs, k)),
{
    lemma_old_outside_from(o, hs, 0, k);
}

/// Lines between hunks map back and forth: a new line outside the hunks whose
/// old counterpart (by the running offset) also lies outside the hunks, in
/// the same gap, maps to that old line and back to itself.
pub proof fn lemma_round_trip_outside_hunks(n: int, hs: Seq<DiffHunk>, k: int)
    requires
        0 <= k <= hs.len(),
        n - hunk_offset(hs, k) >= 1,
        forall|j: int| 0 <= j < k ==> after_side(n, (#[trigger] hs[j]).new_start, hs[j].new_count),
        k == hs.len() || before_side(n, hs[k].new_start, hs[k].new_count),
        forall|j: int| 0 <= j < k ==> after_side(n - hunk_offset(hs, k), (#[trigger] hs[j]).old_start, hs[j].old_count),
        k == hs.len() || before_side(n - hunk_offset(hs, k), hs[k].old_start, hs[k].old_count),
    ensures
        new_to_old_from(n, hs, 0) == n - hunk_offset(hs, k),
        old_to_new_from(new_to_old_from(n, hs, 0), hs, 0) == n,
{
    lemma_new_outside_hunks(n, hs, k);
    lemma_old_outside_hunks(n - hunk_offset(hs, k), hs, k);
}

/// The first line (1-based) of a hunk side: its start, or the line after
/// it when the side is empty (an empty side sits after line `start`).
pub open spec fn side_lo(start: u64, count: u64) -> int {
    if count == 0 { start + 1 } else { start as int }
}

/// Hunks as a unified diff gives them: in order on the old side, and each
/// hunk's new side starting where its old side starts, shifted by the
/// running offset of the hunks before it.
pub open spec fn hunks_consistent(hs: Seq<DiffHunk>) -> bool {
    &&& forall|k: int| 0 <= k < hs.len() ==>
        side_lo((#[trigger] hs[k]).new_start, hs[k].new_count) == side_lo(hs[k].old_start, hs[k].old_count) + hunk_offset(hs, k)
    &&& forall|k: int| 1 <= k < hs.len() ==>
        side_lo((#[trigger] hs[k]).old_start, hs[k].old_count) >= side_lo(hs[k - 1].old_start, hs[k - 1].old_count) + hs[k - 1].old_count
}

proof fn lemma_new_end_chain(hs: Seq<DiffHunk>, j: int, m: int)
    requires
        hunks_consistent(hs),
        0 <= j <= m < hs.len(),
    ensures
        side_lo(hs[j].new_start, hs[j].new_count) + hs[j].new_count <= side_lo(hs[m].new_start, hs[m].new_count) + hs[m].new_count,
    decreases m - j,
{
    if j < m {
        lemma_new_end_chain(hs, j, m - 1);
        assert(hunk_offset(hs, m) == hunk_offset(hs, m - 1) + hs[m - 1].new_count - hs[m - 1].old_count);
        assert(side_lo(hs[m].old_start, hs[m].old_count) >= side_lo(hs[m - 1].old_start, hs[m - 1].old_count) + hs[m - 1].old_count);
    }
}

/// Old line to new line and back is the identity for lines outside the
/// hunks: where the hunks are consistent, an old line between hunks maps to
/// the new line that the running offset gives, and that line maps back.
pub proof fn lemma_old_round_trip(o: int, hs: Seq<DiffHunk>, k: int)
    requires
        hunks_consistent(hs),
        0 <= k <= hs.len(),
        o >= 1,
        o + hunk_offset(hs, k) >= 1,
        forall|j: int| 0 <= j < k ==> after_side(o, (#[trigger] hs[j]).old_start, hs[j].old_count),
        k == hs.len() || before_side(o, hs[k].old_start, hs[k].old_count),
    ensures
        old_to_new_from(o, hs, 0) == o + hunk_offset(hs, k),
        new_to_old_from(old_to_new_from(o, hs, 0), hs, 0) == o,
{
    let n = o + hunk_offset(hs, k);
    lemma_old_outside_hunks(o, hs, k);
    if k > 0 {
        assert(after_side(o, hs[k - 1].old_start, hs[k - 1].old_count));
        assert(hunk_offset(hs, k) == hunk_offset(hs, k - 1) + hs[k - 1].new_count - hs[k - 1].old_count);
        assert(side_lo(hs[k - 1].new_start, hs[k - 1].new_count) == side_lo(hs[k - 1].old_start, hs[k - 1].old_count) + hunk_offset(hs, k - 1));
    }
    assert forall|j: int| 0 <= j < k implies after_side(n, (#[trigger] hs[j]).new_start, hs[j].new_count) by {
        lemma_new_end_chain(hs, j, k - 1);
    }
    if k < hs.len() {
        assert(side_lo(hs[k].new_start, hs[k].new_count) == side_lo(hs[k].old_start, hs[k].old_count) + hunk_offset(hs, k));
    }
    lemma_new_outside_hunks(n, hs, k);
}

} // verus!
