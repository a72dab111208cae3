//! Size limits under which the renderers' line arithmetic stays within
//! machine integers.

use vstd::prelude::*;
use crate::context::{bracket_count, brk_sum, chars_sum, total_brackets};
use crate::difft_json::{DiffHunk, LineEntry};
use crate::syntax::join_lines;
use crate::difft_json::DifftOutput;
use crate::gaps::{h_new_start, h_old_start, hunks_fit};
use crate::linemap::{hunk_offset, mapping_fits};
use crate::rows::entries_below;

verus! {

/// Line numbers, line counts and hunk positions stay below this bound
/// (2^28 lines).
pub const LINE_LIMIT: u64 = 0x1000_0000;

/// The file data is within the limits that the renderers' arithmetic needs:
/// files, chunks, line numbers, hunk positions and the running hunk offsets
/// stay below [`LINE_LIMIT`], and the new file's brackets fit in `i32`.
pub open spec fn difft_fits(d: DifftOutput) -> bool {
    &&& d.old_lines@.len() < LINE_LIMIT
    &&& d.new_lines@.len() < LINE_LIMIT
    &&& total_brackets(d.new_lines@) <= i32::MAX
    &&& forall|c: int| 0 <= c < d.chunks@.len() ==> {
        &&& (#[trigger] d.chunks@[c])@.len() < LINE_LIMIT
        &&& entries_below(d.chunks@[c]@, LINE_LIMIT as int)
    }
    &&& forall|i: int| 0 <= i < d.hunks@.len() ==> {
        &&& (#[trigger] d.hunks@[i]).old_start < LINE_LIMIT
        &&& d.hunks@[i].old_count < LINE_LIMIT
        &&& d.hunks@[i].new_start < LINE_LIMIT
        &&& d.hunks@[i].new_count < LINE_LIMIT
    }
    &&& forall|j: int| 0 <= j <= d.hunks@.len() ==> -(LINE_LIMIT as int) < #[trigger] hunk_offset(d.hunks@, j) < LINE_LIMIT
}

/// Within the limits, the hunks' ends fit in `usize` and each ends before
/// twice the limit.
pub proof fn lemma_fits_hunks(d: DifftOutput)
    requires
        difft_fits(d),
    ensures
        hunks_fit(d.hunks@),
        forall|i: int| 0 <= i < d.hunks@.len() ==> {
            &&& h_old_start(#[trigger] d.hunks@[i]) + (d.hunks@[i].old_count as usize) <= 2 * LINE_LIMIT
            &&& h_new_start(d.hunks@[i]) + (d.hunks@[i].new_count as usize) <= 2 * LINE_LIMIT
        },
{
    assert forall|i: int| 0 <= i < d.hunks@.len() implies {
        &&& h_old_start(#[trigger] d.hunks@[i]) + (d.hunks@[i].old_count as usize) <= 2 * LINE_LIMIT
        &&& h_new_start(d.hunks@[i]) + (d.hunks@[i].new_count as usize) <= 2 * LINE_LIMIT
    } by {
        let h = d.hunks@[i];
        assert((h.old_start as usize) as int == h.old_start);
        assert((h.old_count as usize) as int == h.old_count);
        assert((h.new_start as usize) as int == h.new_start);
        assert((h.new_count as usize) as int == h.new_count);
    }
}

/// Within the limits, mapping a line below four times the limit stays within `i64`.
pub proof fn lemma_fits_mapping(d: DifftOutput, line: u64)
    requires
        difft_fits(d),
        line < 4 * LINE_LIMIT,
    ensures
        mapping_fits(line, d.hunks@),
{
}


/// The file data can be rendered: it is within [`difft_fits`], and each
/// side's text is shorter than a quarter of the address space.
pub open spec fn renderable(d: DifftOutput) -> bool {
    &&& difft_fits(d)
    &&& 4 * join_lines(d.old_lines@).len() < usize::MAX
    &&& 4 * join_lines(d.new_lines@).len() < usize::MAX
}

/// The joined text of non-empty lines has one newline between each two.
pub proof fn lemma_join_len(ls: Seq<String>, n: int)
    requires
        1 <= n <= ls.len(),
    ensures
        join_lines(ls.take(n)).len() == chars_sum(ls, 0, n) + n - 1,
    decreases n,
{
    let t = ls.take(n);
    if n > 1 {
        lemma_join_len(ls, n - 1);
        assert(t.drop_last() == ls.take(n - 1));
        assert(t.last() == ls[n - 1]);
        assert(join_lines(t) == join_lines(t.drop_last()) + seq!['\n'] + t.last()@);
        assert(chars_sum(ls, 0, n) == chars_sum(ls, 0, n - 1) + ls[n - 1]@.len());
    } else {
        assert(t[0] == ls[0]);
        assert(chars_sum(ls, 0, 0) == 0);
        assert(chars_sum(ls, 0, 1) == chars_sum(ls, 0, 0) + ls[0]@.len());
        assert(join_lines(t) == t[0]@);
    }
}

/// The characters of the lines, as `chars_sum`.
fn chars_total(ls: &Vec<String>) -> (res: u128)
    ensures
        res as int == chars_sum(ls@, 0, ls@.len() as int),
        res <= ls@.len() * 0x1_0000_0000_0000_0000,
{
    let mut acc: u128 = 0;
    let mut i: usize = 0;
    while i < ls.len()
        invariant
            i <= ls@.len(),
            acc as int == chars_sum(ls@, 0, i as int),
            acc <= i * 0x1_0000_0000_0000_0000,
        decreases ls@.len() - i,
    {
        let n = ls[i].as_str().unicode_len();
        acc = acc + n as u128;
        i = i + 1;
    }
    acc
}

/// The bracket characters of the lines, as `brk_sum`.
fn brackets_total(ls: &Vec<String>) -> (res: u128)
    ensures
        res as int == brk_sum(ls@, 0, ls@.len() as int),
{
    let mut acc: u128 = 0;
    let mut i: usize = 0;
    while i < ls.len()
        invariant
            i <= ls@.len(),
            acc as int == brk_sum(ls@, 0, i as int),
            acc <= i * 0x1_0000_0000_0000_0000,
        decreases ls@.len() - i,
    {
        let n = bracket_count(ls[i].as_str());
        acc = acc + n as u128;
        i = i + 1;
    }
    acc
}

/// The length of the joined lines.
pub(crate) fn joined_len(ls: &Vec<String>) -> (res: u128)
    ensures
        res as int == join_lines(ls@).len(),
{
    let t = chars_total(ls);
    if ls.len() == 0 {
        return 0;
    }
    proof {
        lemma_join_len(ls@, ls@.len() as int);
        assert(ls@.take(ls@.len() as int) == ls@);
    }
    t + ls.len() as u128 - 1
}

fn entries_within(es: &Vec<LineEntry>) -> (res: bool)
    ensures
        res == entries_below(es@, LINE_LIMIT as int),
{
    let mut i: usize = 0;
    while i < es.len()
        invariant
            i <= es@.len(),
            entries_below(es@.take(i as int), LINE_LIMIT as int),
        decreases es@.len() - i,
    {
        let e = &es[i];
        let lok = match &e.lhs { Some(s) => s.line_number < LINE_LIMIT, None => true };
        let rok = match &e.rhs { Some(s) => s.line_number < LINE_LIMIT, None => true };
        if !(lok && rok) {
            proof { assert(es@[i as int] == e); }
            return false;
        }
        proof {
            assert forall|j: int| 0 <= j < i + 1 implies {
                &&& ((#[trigger] es@.take(i + 1)[j]).lhs matches Some(s) ==> s.line_number < LINE_LIMIT)
                &&& (es@.take(i + 1)[j].rhs matches Some(s) ==> s.line_number < LINE_LIMIT)
            } by {
                if j < i {
                    assert(es@.take(i + 1)[j] == es@.take(i as int)[j]);
                }
            }
        }
        i = i + 1;
    }
    proof { assert(es@.take(es@.len() as int) == es@); }
    true
}

fn hunks_within(hs: &Vec<DiffHunk>) -> (res: bool)
    ensures
        res == ({
            &&& forall|i: int| 0 <= i < hs@.len() ==> {
                &&& (#[trigger] hs@[i]).old_start < LINE_LIMIT
                &&& hs@[i].old_count < LINE_LIMIT
                &&& hs@[i].new_start < LINE_LIMIT
                &&& hs@[i].new_count < LINE_LIMIT
            }
            &&& forall|j: int| 0 <= j <= hs@.len() ==> -(LINE_LIMIT as int) < #[trigger] hunk_offset(hs@, j) < LINE_LIMIT
        }),
{
    let mut off: i64 = 0;
    let mut i: usize = 0;
    while i < hs.len()
        invariant
            i <= hs@.len(),
            off as int == hunk_offset(hs@, i as int),
            forall|k: int| 0 <= k < i ==> {
                &&& (#[trigger] hs@[k]).old_start < LINE_LIMIT
                &&& hs@[k].old_count < LINE_LIMIT
                &&& hs@[k].new_start < LINE_LIMIT
                &&& hs@[k].new_count < LINE_LIMIT
            },
            forall|j: int| 0 <= j <= i ==> -(LINE_LIMIT as int) < #[trigger] hunk_offset(hs@, j) < LINE_LIMIT,
        decreases hs@.len() - i,
    {
        let h = hs[i];
        if !(h.old_start < LINE_LIMIT && h.old_count < LINE_LIMIT && h.new_start < LINE_LIMIT && h.new_count < LINE_LIMIT) {
            return false;
        }
        let next = off + h.new_count as i64 - h.old_count as i64;
        proof { assert(hunk_offset(hs@, i + 1) == hunk_offset(hs@, i as int) + h.new_count - h.old_count); }
        if !(-(LINE_LIMIT as i64) < next && next < LINE_LIMIT as i64) {
            return false;
        }
        off = next;
        i = i + 1;
    }
    true
}

/// Whether the file data is within [`difft_fits`].
pub fn check_fits(d: &DifftOutput) -> (res: bool)
    ensures
        res == difft_fits(*d),
{
    if !(d.old_lines.len() < LINE_LIMIT as usize && d.new_lines.len() < LINE_LIMIT as usize) {
        return false;
    }
    let tc = brackets_total(&d.new_lines);
    if tc > i32::MAX as u128 {
        return false;
    }
    let mut c: usize = 0;
    while c < d.chunks.len()
        invariant
            c <= d.chunks@.len(),
            forall|k: int| 0 <= k < c ==> {
                &&& (#[trigger] d.chunks@[k])@.len() < LINE_LIMIT
                &&& entries_below(d.chunks@[k]@, LINE_LIMIT as int)
            },
        decreases d.chunks@.len() - c,
    {
        if !(d.chunks[c].len() < LINE_LIMIT as usize && entries_within(&d.chunks[c])) {
            return false;
        }
        c = c + 1;
    }
    hunks_within(&d.hunks)
}

/// Whether the file data can be rendered ([`renderable`]).
pub fn check_renderable(d: &DifftOutput) -> (res: bool)
    ensures
        res == renderable(*d),
{
    if !check_fits(d) {
        return false;
    }
    let lo = joined_len(&d.old_lines);
    let ln = joined_len(&d.new_lines);
    lo < usize::MAX as u128 && 4 * lo < usize::MAX as u128 && ln < usize::MAX as u128 && 4 * ln < usize::MAX as u128
}

} // verus!
