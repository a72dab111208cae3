//! Turning unified diff hunks into chunks of line entries: runs of removed
//! lines are paired positionally with the added lines that follow them, and
//! unchanged lines split chunks so that no chunk skips a line.

use vstd::prelude::*;
use crate::difft_json::{LineEntry, LineSide};
use crate::parse::{is_digit, lines_of, parse_u64, parse_uint, split_chars, split_on, text_lines};
use crate::refs::has_at;
use crate::text::{chars_of, dec, is_whitespace, is_ws, push_char, string_of_chars};

verus! {

/// A parsed unified-diff hunk: header positions plus the body's +/-/' ' lines.
pub struct ParsedHunk {
    pub old_start: u64,
    pub old_count: u64,
    pub new_start: u64,
    pub new_count: u64,
    /// Body lines, each tagged with its prefix: '-', '+', or ' '.
    pub body: Vec<(char, String)>,
}

/// The line numbers of an entry's sides.
pub type EntryNums = (Option<u64>, Option<u64>);

/// The line numbers of an entry's sides.
pub open spec fn entry_nums(e: LineEntry) -> EntryNums {
    (
        match e.lhs { Some(s) => Some(s.line_number), None => None },
        match e.rhs { Some(s) => Some(s.line_number), None => None },
    )
}

/// An entry whose sides carry no change spans.
pub open spec fn entry_plain(e: LineEntry) -> bool {
    &&& e.lhs matches Some(s) ==> s.changes@.len() == 0
    &&& e.rhs matches Some(s) ==> s.changes@.len() == 0
}

/// Removed and added lines of a run: the first `min` of each paired, then the
/// remaining removed lines alone, then the remaining added lines alone.
pub open spec fn flush_run(removed: Seq<u64>, added: Seq<u64>) -> Seq<EntryNums> {
    let p = if removed.len() <= added.len() { removed.len() } else { added.len() };
    Seq::new(p, |i: int| (Some(removed[i]), Some(added[i])))
        + Seq::new((removed.len() - p) as nat, |i: int| (Some(removed[p + i]), None))
        + Seq::new((added.len() - p) as nat, |i: int| (None, Some(added[p + i])))
}

/// State while walking a hunk body: (old line, new line, removed run, added run,
/// chunks closed so far).
pub type WalkState = (u64, u64, Seq<u64>, Seq<u64>, Seq<Seq<EntryNums>>);

/// Add a chunk to the closed ones if it holds entries.
pub open spec fn close_chunk(entries: Seq<EntryNums>, chunks: Seq<Seq<EntryNums>>) -> Seq<Seq<EntryNums>> {
    if entries.len() > 0 { chunks.push(entries) } else { chunks }
}

/// One body line: `-` records a removed line, `+` an added line, ` ` flushes
/// the run into a chunk of its own and advances both sides; other prefixes
/// are ignored.
pub open spec fn walk_step(st: WalkState, prefix: char) -> WalkState {
    let (o, n, rem, add, chunks) = st;
    if prefix == '-' {
        ((o + 1) as u64, n, rem.push(o), add, chunks)
    } else if prefix == '+' {
        (o, (n + 1) as u64, rem, add.push(n), chunks)
    } else if prefix == ' ' {
        ((o + 1) as u64, (n + 1) as u64, Seq::empty(), Seq::empty(),
            close_chunk(flush_run(rem, add), chunks))
    } else {
        st
    }
}

/// Walk the body prefixes in order.
pub open spec fn walk(st: WalkState, body: Seq<char>) -> WalkState
    decreases body.len(),
{
    if body.len() == 0 {
        st
    } else {
        walk_step(walk(st, body.drop_last()), body.last())
    }
}

/// `x - 1`, or 0 for 0.
pub open spec fn start0(x: u64) -> u64 {
    if x > 0 { (x - 1) as u64 } else { 0 }
}

/// The chunks of one hunk with body prefixes `body`.
pub open spec fn hunk_chunks(old_start: u64, new_start: u64, body: Seq<char>) -> Seq<Seq<EntryNums>> {
    let st = walk((start0(old_start), start0(new_start), Seq::empty(), Seq::empty(), Seq::empty()), body);
    close_chunk(flush_run(st.2, st.3), st.4)
}

/// The body prefixes of a hunk.
pub open spec fn prefixes(h: ParsedHunk) -> Seq<char> {
    h.body@.map_values(|l: (char, String)| l.0)
}

/// The chunks of all hunks, in order.
pub open spec fn chunks_of_hunks(hunks: Seq<ParsedHunk>) -> Seq<Seq<EntryNums>>
    decreases hunks.len(),
{
    if hunks.len() == 0 {
        Seq::empty()
    } else {
        chunks_of_hunks(hunks.drop_last()) + hunk_chunks(hunks.last().old_start, hunks.last().new_start, prefixes(hunks.last()))
    }
}

/// The walk never runs a line counter past `u64::MAX`.
pub open spec fn hunks_fit(hunks: Seq<ParsedHunk>) -> bool {
    forall|i: int| 0 <= i < hunks.len() ==>
        (#[trigger] hunks[i]).old_start + hunks[i].body@.len() < u64::MAX
        && hunks[i].new_start + hunks[i].body@.len() < u64::MAX
}

/// Entries with the given numbers and no change spans.
pub open spec fn entries_match(es: Seq<LineEntry>, nums: Seq<EntryNums>) -> bool {
    &&& es.len() == nums.len()
    &&& forall|j: int| 0 <= j < es.len() ==> entry_nums(#[trigger] es[j]) == nums[j] && entry_plain(es[j])
}

/// Chunks with the given numbers and no change spans.
pub open spec fn chunks_match(cs: Seq<Vec<LineEntry>>, nums: Seq<Seq<EntryNums>>) -> bool {
    &&& cs.len() == nums.len()
    &&& forall|k: int| 0 <= k < cs.len() ==> entries_match((#[trigger] cs[k])@, nums[k])
}

/// The line numbers on one side of a chunk's entries, in order.
pub open spec fn side_nums(es: Seq<EntryNums>, old_side: bool) -> Seq<u64>
    decreases es.len(),
{
    if es.len() == 0 {
        Seq::empty()
    } else {
        let rest = side_nums(es.drop_last(), old_side);
        let v = if old_side { es.last().0 } else { es.last().1 };
        match v {
            Some(x) => rest.push(x),
            None => rest,
        }
    }
}

/// Each number is one more than the one before it.
pub open spec fn consecutive(s: Seq<u64>) -> bool {
    forall|i: int, j: int| 0 <= i <= j < s.len() ==> #[trigger] s[j] == #[trigger] s[i] + (j - i)
}

/// Neither side of the chunk skips a line.
pub open spec fn no_gaps(es: Seq<EntryNums>) -> bool {
    consecutive(side_nums(es, true)) && consecutive(side_nums(es, false))
}

proof fn lemma_side_nums_concat(a: Seq<EntryNums>, b: Seq<EntryNums>, old_side: bool)
    ensures
        side_nums(a + b, old_side) == side_nums(a, old_side) + side_nums(b, old_side),
    decreases b.len(),
{
    if b.len() == 0 {
        assert(a + b == a);
        assert(side_nums(a, old_side) + side_nums(b, old_side) == side_nums(a, old_side));
    } else {
        lemma_side_nums_concat(a, b.drop_last(), old_side);
        assert((a + b).drop_last() == a + b.drop_last());
        assert((a + b).last() == b.last());
    }
}

/// Where every entry has the side, the side's numbers are those of the entries.
proof fn lemma_side_nums_all(es: Seq<EntryNums>, old_side: bool)
    requires
        forall|i: int| 0 <= i < es.len() ==> (if old_side { (#[trigger] es[i]).0 } else { es[i].1 }) is Some,
    ensures
        side_nums(es, old_side) == Seq::new(es.len(), |i: int| if old_side { es[i].0->0 } else { es[i].1->0 }),
    decreases es.len(),
{
    if es.len() > 0 {
        let d = es.drop_last();
        assert forall|i: int| 0 <= i < d.len() implies (if old_side { (#[trigger] d[i]).0 } else { d[i].1 }) is Some by {
            assert(d[i] == es[i]);
        }
        lemma_side_nums_all(d, old_side);
        assert(side_nums(es, old_side) =~= Seq::new(es.len(), |i: int| if old_side { es[i].0->0 } else { es[i].1->0 }));
    }
}

/// Where no entry has the side, the side has no numbers.
proof fn lemma_side_nums_none(es: Seq<EntryNums>, old_side: bool)
    requires
        forall|i: int| 0 <= i < es.len() ==> (if old_side { (#[trigger] es[i]).0 } else { es[i].1 }) is None,
    ensures
        side_nums(es, old_side) == Seq::<u64>::empty(),
    decreases es.len(),
{
    if es.len() > 0 {
        let d = es.drop_last();
        assert forall|i: int| 0 <= i < d.len() implies (if old_side { (#[trigger] d[i]).0 } else { d[i].1 }) is None by {
            assert(d[i] == es[i]);
        }
        lemma_side_nums_none(d, old_side);
    }
}

/// A flushed run lists the removed lines on the old side and the added lines
/// on the new side, each in order.
proof fn lemma_flush_run_sides(removed: Seq<u64>, added: Seq<u64>)
    ensures
        side_nums(flush_run(removed, added), true) == removed,
        side_nums(flush_run(removed, added), false) == added,
{
    let p = if removed.len() <= added.len() { removed.len() } else { added.len() };
    let a = Seq::new(p, |i: int| (Some(removed[i]), Some(added[i])));
    let b = Seq::new((removed.len() - p) as nat, |i: int| (Some(removed[p + i]), None::<u64>));
    let c = Seq::new((added.len() - p) as nat, |i: int| (None::<u64>, Some(added[p + i])));
    assert(flush_run(removed, added) == a + b + c);
    lemma_side_nums_concat(a + b, c, true);
    lemma_side_nums_concat(a + b, c, false);
    lemma_side_nums_concat(a, b, true);
    lemma_side_nums_concat(a, b, false);
    lemma_side_nums_all(a, true);
    lemma_side_nums_all(a, false);
    lemma_side_nums_all(b, true);
    lemma_side_nums_none(b, false);
    lemma_side_nums_none(c, true);
    lemma_side_nums_all(c, false);
    assert(side_nums(a, true) + side_nums(b, true) + side_nums(c, true) =~= removed);
    assert(side_nums(a, false) + side_nums(b, false) + side_nums(c, false) =~= added);
}

/// A run of lines that ends just before `next`.
spec fn run_to(r: Seq<u64>, next: u64) -> bool {
    consecutive(r) && (r.len() > 0 ==> r.last() + 1 == next)
}

proof fn lemma_walk_no_gaps(o: u64, n: u64, body: Seq<char>)
    requires
        o + body.len() < u64::MAX,
        n + body.len() < u64::MAX,
    ensures
        ({
            let st = walk((o, n, Seq::empty(), Seq::empty(), Seq::empty()), body);
            &&& o <= st.0 <= o + body.len()
            &&& n <= st.1 <= n + body.len()
            &&& run_to(st.2, st.0)
            &&& run_to(st.3, st.1)
            &&& forall|c: int| 0 <= c < st.4.len() ==> no_gaps(#[trigger] st.4[c])
        }),
    decreases body.len(),
{
    if body.len() > 0 {
        lemma_walk_no_gaps(o, n, body.drop_last());
        let prev = walk((o, n, Seq::empty(), Seq::empty(), Seq::empty()), body.drop_last());
        lemma_flush_run_sides(prev.2, prev.3);
        let st = walk((o, n, Seq::empty(), Seq::empty(), Seq::empty()), body);
        assert(st == walk_step(prev, body.last()));
        if body.last() == '-' {
            assert forall|i: int, j: int| 0 <= i <= j < st.2.len() implies #[trigger] st.2[j] == #[trigger] st.2[i] + (j - i) by {
                if j == st.2.len() - 1 && i < j {
                    assert(prev.2[i] + (prev.2.len() - 1 - i) == prev.2.last());
                }
            }
        } else if body.last() == '+' {
            assert forall|i: int, j: int| 0 <= i <= j < st.3.len() implies #[trigger] st.3[j] == #[trigger] st.3[i] + (j - i) by {
                if j == st.3.len() - 1 && i < j {
                    assert(prev.3[i] + (prev.3.len() - 1 - i) == prev.3.last());
                }
            }
        } else if body.last() == ' ' {
            assert(no_gaps(flush_run(prev.2, prev.3)));
            assert forall|c: int| 0 <= c < st.4.len() implies no_gaps(#[trigger] st.4[c]) by {
                if c < prev.4.len() {
                    assert(st.4[c] == prev.4[c]);
                }
            }
        }
    }
}

/// Within every chunk that unified diff hunks give, the old-side line numbers
/// follow one another without a gap, and so do the new-side ones: no line of
/// either version is skipped inside a chunk.
pub proof fn lemma_chunks_have_no_gaps(hunks: Seq<ParsedHunk>)
    requires
        hunks_fit(hunks),
    ensures
        forall|c: int| 0 <= c < chunks_of_hunks(hunks).len() ==> no_gaps(#[trigger] chunks_of_hunks(hunks)[c]),
    decreases hunks.len(),
{
    if hunks.len() > 0 {
        let d = hunks.drop_last();
        assert forall|i: int| 0 <= i < d.len() implies
            (#[trigger] d[i]).old_start + d[i].body@.len() < u64::MAX
            && d[i].new_start + d[i].body@.len() < u64::MAX by {
            assert(d[i] == hunks[i]);
        }
        lemma_chunks_have_no_gaps(d);
        let h = hunks.last();
        assert(h == hunks[hunks.len() - 1]);
        let pre = prefixes(h);
        lemma_walk_no_gaps(start0(h.old_start), start0(h.new_start), pre);
        let st = walk((start0(h.old_start), start0(h.new_start), Seq::empty(), Seq::empty(), Seq::empty()), pre);
        lemma_flush_run_sides(st.2, st.3);
        let hc = hunk_chunks(h.old_start, h.new_start, pre);
        assert forall|c: int| 0 <= c < hc.len() implies no_gaps(#[trigger] hc[c]) by {
            if c < st.4.len() {
                assert(hc[c] == st.4[c]);
            }
        }
        let all = chunks_of_hunks(hunks);
        assert forall|c: int| 0 <= c < all.len() implies no_gaps(#[trigger] all[c]) by {
            if c < chunks_of_hunks(d).len() {
                assert(all[c] == chunks_of_hunks(d)[c]);
            } else {
                assert(all[c] == hc[c - chunks_of_hunks(d).len()]);
            }
        }
    }
}

fn plain_side(n: u64) -> (res: LineSide)
    ensures
        res.line_number == n,
        res.changes@.len() == 0,
{
    LineSide { line_number: n, changes: Vec::new() }
}

/// Emit the entries of a run into an empty chunk and empty the run.
fn flush(removed: &mut Vec<u64>, added: &mut Vec<u64>, entries: &mut Vec<LineEntry>)
    requires
        old(entries)@.len() == 0,
    ensures
        final(removed)@.len() == 0,
        final(added)@.len() == 0,
        entries_match(final(entries)@, flush_run(old(removed)@, old(added)@)),
{
    let ghost fr = flush_run(removed@, added@);
    let paired = if removed.len() <= added.len() { removed.len() } else { added.len() };
    let mut i: usize = 0;
    while i < removed.len()
        invariant
            i <= removed@.len(),
            paired == if removed@.len() <= added@.len() { removed@.len() } else { added@.len() },
            fr == flush_run(removed@, added@),
            entries_match(entries@, fr.take(i as int)),
        decreases removed@.len() - i,
    {
        let ghost before = entries@;
        if i < paired {
            entries.push(LineEntry { lhs: Some(plain_side(removed[i])), rhs: Some(plain_side(added[i])) });
        } else {
            entries.push(LineEntry { lhs: Some(plain_side(removed[i])), rhs: None });
        }
        proof {
            assert(fr.take(i + 1) == fr.take(i as int).push(fr[i as int]));
            assert forall|j: int| 0 <= j < entries@.len() implies entry_nums(#[trigger] entries@[j]) == fr.take(i + 1)[j] && entry_plain(entries@[j]) by {
                if j < before.len() {
                    assert(entries@[j] == before[j]);
                }
            }
        }
        i = i + 1;
    }
    let mut j: usize = paired;
    while j < added.len()
        invariant
            paired <= j <= added@.len(),
            paired == if removed@.len() <= added@.len() { removed@.len() } else { added@.len() },
            fr == flush_run(removed@, added@),
            entries_match(entries@, fr.take(removed@.len() + j - paired)),
        decreases added@.len() - j,
    {
        let ghost before = entries@;
        entries.push(LineEntry { lhs: None, rhs: Some(plain_side(added[j])) });
        proof {
            let c = removed@.len() + j - paired;
            assert(fr.take(c + 1) == fr.take(c).push(fr[c]));
            assert forall|q: int| 0 <= q < entries@.len() implies entry_nums(#[trigger] entries@[q]) == fr.take(c + 1)[q] && entry_plain(entries@[q]) by {
                if q < before.len() {
                    assert(entries@[q] == before[q]);
                }
            }
        }
        j = j + 1;
    }
    proof { assert(fr.take(fr.len() as int) == fr); }
    removed.clear();
    added.clear();
}

/// Generate chunks by walking each hunk body. Within a hunk, runs of `-` lines
/// are positionally paired with the immediately following run of `+` lines;
/// any unpaired remainder is recorded as removed-only or added-only. Context
/// lines (' ') end the current chunk, so a chunk's entries never skip a line.
pub fn generate_chunks_from_hunks(hunks: &[ParsedHunk]) -> (chunks: Vec<Vec<LineEntry>>)
    requires
        hunks_fit(hunks@),
    ensures
        chunks_match(chunks@, chunks_of_hunks(hunks@)),
{
    let mut chunks: Vec<Vec<LineEntry>> = Vec::new();
    let mut k: usize = 0;
    while k < hunks.len()
        invariant
            k <= hunks@.len(),
            hunks_fit(hunks@),
            chunks_match(chunks@, chunks_of_hunks(hunks@.take(k as int))),
        decreases hunks@.len() - k,
    {
        let hunk = &hunks[k];
        proof {
            assert(hunks@.take(k + 1).drop_last() == hunks@.take(k as int));
            assert(hunks@.take(k + 1).last() == *hunk);
        }
        let ghost pre = prefixes(*hunk);
        let ghost init: WalkState = (start0(hunk.old_start), start0(hunk.new_start), Seq::empty(), Seq::empty(), Seq::empty());
        let ghost base = chunks@;
        let ghost prior = chunks_of_hunks(hunks@.take(k as int));
        let mut old_line: u64 = if hunk.old_start > 0 { hunk.old_start - 1 } else { 0 };
        let mut new_line: u64 = if hunk.new_start > 0 { hunk.new_start - 1 } else { 0 };
        let mut entries: Vec<LineEntry> = Vec::new();
        let mut removed: Vec<u64> = Vec::new();
        let mut added: Vec<u64> = Vec::new();
        let mut b: usize = 0;
        while b < hunk.body.len()
            invariant
                b <= hunk.body@.len(),
                hunks_fit(hunks@),
                k < hunks@.len(),
                hunks@[k as int] == *hunk,
                pre == prefixes(*hunk),
                init == (start0(hunk.old_start), start0(hunk.new_start), Seq::<u64>::empty(), Seq::<u64>::empty(), Seq::<Seq<EntryNums>>::empty()),
                chunks_match(base, prior),
                entries@.len() == 0,
                ({
                    let st = walk(init, pre.take(b as int));
                    &&& old_line == st.0
                    &&& new_line == st.1
                    &&& removed@ == st.2
                    &&& added@ == st.3
                    &&& chunks@.len() == base.len() + st.4.len()
                    &&& forall|r: int| 0 <= r < base.len() ==> (#[trigger] chunks@[r]) == base[r]
                    &&& forall|r: int| 0 <= r < st.4.len() ==> entries_match((#[trigger] chunks@[base.len() + r])@, st.4[r])
                }),
                old_line <= hunk.old_start + b,
                new_line <= hunk.new_start + b,
            decreases hunk.body@.len() - b,
        {
            let prefix = hunk.body[b].0;
            proof {
                assert(pre.take(b + 1).drop_last() == pre.take(b as int));
                assert(pre.take(b + 1).last() == prefix);
                assert(hunks[k as int].old_start + hunks[k as int].body@.len() < u64::MAX);
            }
            if prefix == '-' {
                removed.push(old_line);
                old_line = old_line + 1;
            } else if prefix == '+' {
                added.push(new_line);
                new_line = new_line + 1;
            } else if prefix == ' ' {
                let ghost st = walk(init, pre.take(b as int));
                flush(&mut removed, &mut added, &mut entries);
                if entries.len() > 0 {
                    let ghost bc = chunks@;
                    let mut done: Vec<LineEntry> = Vec::new();
                    std::mem::swap(&mut done, &mut entries);
                    chunks.push(done);
                    proof {
                        assert forall|r: int| 0 <= r < base.len() implies (#[trigger] chunks@[r]) == base[r] by {
                            assert(chunks@[r] == bc[r]);
                        }
                        assert forall|r: int| 0 <= r < st.4.len() + 1 implies entries_match((#[trigger] chunks@[base.len() + r])@, st.4.push(flush_run(st.2, st.3))[r]) by {
                            if r < st.4.len() {
                                assert(chunks@[base.len() + r] == bc[base.len() + r]);
                            }
                        }
                    }
                }
                old_line = old_line + 1;
                new_line = new_line + 1;
            }
            b = b + 1;
        }
        proof {
            assert(pre.take(hunk.body@.len() as int) == pre);
        }
        let ghost st = walk(init, pre);
        flush(&mut removed, &mut added, &mut entries);
        let ghost bc = chunks@;
        if entries.len() > 0 {
            chunks.push(entries);
        }
        proof {
            let hc = hunk_chunks(hunk.old_start, hunk.new_start, pre);
            assert(chunks_of_hunks(hunks@.take(k + 1)) == prior + hc);
            assert(chunks@.len() == base.len() + hc.len());
            assert forall|r: int| 0 <= r < chunks@.len() implies entries_match((#[trigger] chunks@[r])@, (prior + hc)[r]) by {
                if r < base.len() {
                    assert(chunks@[r] == base[r]);
                } else if r < bc.len() {
                    assert(chunks@[r] == bc[r]);
                    assert(chunks@[base.len() + (r - base.len())] == chunks@[r]);
                } else {
                    assert(hc[r - base.len()] == flush_run(st.2, st.3));
                }
            }
        }
        k = k + 1;
    }
    proof { assert(hunks@.take(hunks@.len() as int) == hunks@); }
    chunks
}

/// The number of ASCII digits from `i` on.
pub open spec fn digit_run(s: Seq<char>, i: int) -> int
    decreases s.len() - i,
{
    if 0 <= i < s.len() && is_digit(s[i]) { 1 + digit_run(s, i + 1) } else { 0 }
}

/// An optional `,DIGITS` at `p`: the digits' range, and where parsing goes on.
pub open spec fn opt_count(s: Seq<char>, p: int) -> (Option<(int, int)>, int) {
    if 0 <= p < s.len() && s[p] == ',' && digit_run(s, p + 1) > 0 {
        (Some((p + 1, p + 1 + digit_run(s, p + 1))), p + 1 + digit_run(s, p + 1))
    } else {
        (None, p)
    }
}

/// The digit groups of `@@ -OLD[,COUNT] +NEW[,COUNT] @@` at the start of a line.
pub open spec fn header_groups(s: Seq<char>) -> Option<((int, int), Option<(int, int)>, (int, int), Option<(int, int)>)> {
    if !has_at(s, 0, "@@ -"@) {
        None
    } else {
        let d1 = digit_run(s, 4);
        let c1 = opt_count(s, 4 + d1);
        let p = c1.1;
        let d3 = digit_run(s, p + 2);
        let c2 = opt_count(s, p + 2 + d3);
        if d1 == 0 || !has_at(s, p, " +"@) || d3 == 0 || !has_at(s, c2.1, " @@"@) {
            None
        } else {
            Some(((4, 4 + d1), c1.0, (p + 2, p + 2 + d3), c2.0))
        }
    }
}

/// A count group's value: 1 when absent or when it does not fit `u64`.
pub open spec fn count_of(s: Seq<char>, g: Option<(int, int)>) -> u64 {
    match g {
        None => 1,
        Some(r) => match parse_uint(s.subrange(r.0, r.1), u64::MAX as int) {
            Some(v) => v as u64,
            None => 1,
        },
    }
}

/// The four numbers of a unified-diff hunk header line; `None` when the line
/// is not one or a start does not fit `u64`.
pub open spec fn hunk_header(s: Seq<char>) -> Option<(u64, u64, u64, u64)> {
    match header_groups(s) {
        None => None,
        Some(g) => match (parse_uint(s.subrange(g.0.0, g.0.1), u64::MAX as int), parse_uint(s.subrange(g.2.0, g.2.1), u64::MAX as int)) {
            (Some(a), Some(c)) => Some((a as u64, count_of(s, g.1), c as u64, count_of(s, g.3))),
            _ => None,
        },
    }
}

proof fn lemma_digit_run_len(s: Seq<char>, i: int, n: int)
    requires
        0 <= i,
        0 <= n,
        i + n <= s.len(),
        forall|k: int| i <= k < i + n ==> is_digit(#[trigger] s[k]),
        i + n == s.len() || !is_digit(s[i + n]),
    ensures
        digit_run(s, i) == n,
    decreases n,
{
    if n > 0 {
        lemma_digit_run_len(s, i + 1, n - 1);
    }
}

/// The digits of `dec(v)` placed at `i` in `s` and followed by a non-digit:
/// they form the digit run at `i`, and read back as `v`.
proof fn lemma_number_at(s: Seq<char>, i: int, v: u64)
    requires
        0 <= i,
        i + dec(v as nat).len() < s.len(),
        s.subrange(i, i + dec(v as nat).len()) == dec(v as nat),
        !is_digit(s[i + dec(v as nat).len()]),
    ensures
        digit_run(s, i) == dec(v as nat).len(),
        parse_uint(s.subrange(i, i + dec(v as nat).len()), u64::MAX as int) == Some(v as int),
{
    let t = dec(v as nat);
    crate::parse::lemma_dec_digits(v as nat);
    assert forall|k: int| i <= k < i + t.len() implies is_digit(#[trigger] s[k]) by {
        assert(s[k] == s.subrange(i, i + t.len())[k - i]);
        assert(is_digit(t[k - i]));
    }
    lemma_digit_run_len(s, i, t.len() as int);
    assert(is_digit(t[0]));
}

/// A hunk header gives the line counts that it names: `@@ -A +C @@` (each
/// count omitted, as git writes a one-line side) gives starts `A` and `C`
/// with one line on each side, and `@@ -A,B +C,D @@` gives exactly `A`, `B`,
/// `C`, `D`, whatever follows the header.
pub proof fn lemma_hunk_header_counts(a: u64, b: u64, c: u64, d: u64, rest: Seq<char>)
    ensures
        hunk_header("@@ -"@ + dec(a as nat) + " +"@ + dec(c as nat) + " @@"@ + rest) == Some((a, 1u64, c, 1u64)),
        hunk_header("@@ -"@ + dec(a as nat) + ","@ + dec(b as nat) + " +"@ + dec(c as nat) + ","@ + dec(d as nat) + " @@"@ + rest)
            == Some((a, b, c, d)),
{
    lemma_header_without_counts(a, c, rest);
    lemma_header_with_counts(a, b, c, d, rest);
}

#[verifier::spinoff_prover]
#[verifier::rlimit(30)]
proof fn lemma_header_without_counts(a: u64, c: u64, rest: Seq<char>)
    ensures
        hunk_header("@@ -"@ + dec(a as nat) + " +"@ + dec(c as nat) + " @@"@ + rest) == Some((a, 1u64, c, 1u64)),
{
    reveal_strlit("@@ -");
    reveal_strlit(" +");
    reveal_strlit(" @@");
    let da = dec(a as nat);
    let dc = dec(c as nat);
    crate::parse::lemma_dec_digits(a as nat);
    crate::parse::lemma_dec_digits(c as nat);
    // without counts
    let s = "@@ -"@ + da + " +"@ + dc + " @@"@ + rest;
    let la = da.len() as int;
    let lc = dc.len() as int;
    assert(s.subrange(0, 4) =~= "@@ -"@);
    assert(s.subrange(4, 4 + la) =~= da);
    assert(s[4 + la] == ' ');
    lemma_number_at(s, 4, a);
    assert(opt_count(s, 4 + la) == (None::<(int, int)>, 4 + la));
    assert(s.subrange(4 + la, 4 + la + 2) =~= " +"@);
    assert(s.subrange(6 + la, 6 + la + lc) =~= dc);
    assert(s[6 + la + lc] == ' ');
    lemma_number_at(s, 6 + la, c);
    assert(opt_count(s, 6 + la + lc) == (None::<(int, int)>, 6 + la + lc));
    assert(s.subrange(6 + la + lc, 6 + la + lc + 3) =~= " @@"@);
    assert(header_groups(s) == Some(((4int, 4 + la), None::<(int, int)>, (6 + la, 6 + la + lc), None::<(int, int)>)));
}

#[verifier::spinoff_prover]
#[verifier::rlimit(30)]
proof fn lemma_header_with_counts(a: u64, b: u64, c: u64, d: u64, rest: Seq<char>)
    ensures
        hunk_header("@@ -"@ + dec(a as nat) + ","@ + dec(b as nat) + " +"@ + dec(c as nat) + ","@ + dec(d as nat) + " @@"@ + rest)
            == Some((a, b, c, d)),
{
    reveal_strlit("@@ -");
    reveal_strlit(" +");
    reveal_strlit(" @@");
    reveal_strlit(",");
    let da = dec(a as nat);
    let db = dec(b as nat);
    let dc = dec(c as nat);
    let dd = dec(d as nat);
    crate::parse::lemma_dec_digits(a as nat);
    crate::parse::lemma_dec_digits(b as nat);
    crate::parse::lemma_dec_digits(c as nat);
    crate::parse::lemma_dec_digits(d as nat);
    let la = da.len() as int;
    let lc = dc.len() as int;
    // with counts
    let t = "@@ -"@ + da + ","@ + db + " +"@ + dc + ","@ + dd + " @@"@ + rest;
    let lb = db.len() as int;
    let ld = dd.len() as int;
    assert(t.subrange(0, 4) =~= "@@ -"@);
    assert(t.subrange(4, 4 + la) =~= da);
    assert(t[4 + la] == ',');
    lemma_number_at(t, 4, a);
    assert(t.subrange(5 + la, 5 + la + lb) =~= db);
    assert(t[5 + la + lb] == ' ');
    lemma_number_at(t, 5 + la, b);
    assert(opt_count(t, 4 + la) == (Some((5 + la, 5 + la + lb)), 5 + la + lb));
    let p = 5 + la + lb;
    assert(t.subrange(p, p + 2) =~= " +"@);
    assert(t.subrange(p + 2, p + 2 + lc) =~= dc);
    assert(t[p + 2 + lc] == ',');
    lemma_number_at(t, p + 2, c);
    assert(t.subrange(p + 3 + lc, p + 3 + lc + ld) =~= dd);
    assert(t[p + 3 + lc + ld] == ' ');
    lemma_number_at(t, p + 3 + lc, d);
    assert(opt_count(t, p + 2 + lc) == (Some((p + 3 + lc, p + 3 + lc + ld)), p + 3 + lc + ld));
    assert(t.subrange(p + 3 + lc + ld, p + 3 + lc + ld + 3) =~= " @@"@);
    assert(header_groups(t) == Some(((4int, 4 + la), Some((5 + la, 5 + la + lb)), (p + 2, p + 2 + lc), Some((p + 3 + lc, p + 3 + lc + ld)))));
}

fn digit_len(s: &[char], i: usize) -> (n: usize)
    requires
        i <= s@.len(),
    ensures
        n as int == digit_run(s@, i as int),
        i + n <= s@.len(),
{
    let mut k = i;
    while k < s.len() && '0' <= s[k] && s[k] <= '9'
        invariant
            i <= k <= s@.len(),
            digit_run(s@, i as int) == (k - i) + digit_run(s@, k as int),
        decreases s@.len() - k,
    {
        k = k + 1;
    }
    k - i
}

fn lit_at(s: &[char], i: usize, lit: &str) -> (res: bool)
    ensures
        res == has_at(s@, i as int, lit@),
{
    let l = chars_of(lit);
    let n = s.len();
    if i > n || l.len() > n - i {
        return false;
    }
    let mut k: usize = 0;
    while k < l.len()
        invariant
            k <= l@.len(),
            l@ == lit@,
            n == s@.len(),
            i + l@.len() <= s@.len(),
            forall|q: int| 0 <= q < k ==> s@[i + q] == l@[q],
        decreases l@.len() - k,
    {
        if s[i + k] != l[k] {
            assert(s@.subrange(i as int, i + l@.len())[k as int] != l@[k as int]);
            return false;
        }
        k = k + 1;
    }
    assert(s@.subrange(i as int, i + l@.len()) =~= l@);
    true
}

fn sub_chars(s: &[char], from: usize, to: usize) -> (res: Vec<char>)
    requires
        from <= to <= s@.len(),
    ensures
        res@ == s@.subrange(from as int, to as int),
{
    let mut v: Vec<char> = Vec::new();
    let mut k = from;
    while k < to
        invariant
            from <= k <= to <= s@.len(),
            v@ == s@.subrange(from as int, k as int),
        decreases to - k,
    {
        v.push(s[k]);
        proof { assert(v@ =~= s@.subrange(from as int, k + 1)); }
        k = k + 1;
    }
    v
}

fn opt_count_exec(s: &[char], p: usize) -> (res: (Option<(usize, usize)>, usize))
    requires
        p <= s@.len(),
    ensures
        opt_count(s@, p as int) == (match res.0 { Some(r) => Some((r.0 as int, r.1 as int)), None => None }, res.1 as int),
        res.1 <= s@.len(),
        res.0 matches Some(r) ==> r.0 <= r.1 <= s@.len(),
{
    if p < s.len() && s[p] == ',' {
        let d = digit_len(s, p + 1);
        if d > 0 {
            return (Some((p + 1, p + 1 + d)), p + 1 + d);
        }
    }
    (None, p)
}

fn count_exec(s: &[char], g: Option<(usize, usize)>) -> (res: u64)
    requires
        g matches Some(r) ==> r.0 <= r.1 <= s@.len(),
    ensures
        res == count_of(s@, match g { Some(r) => Some((r.0 as int, r.1 as int)), None => None }),
{
    match g {
        None => 1,
        Some((a, b)) => {
            let v = sub_chars(s, a, b);
            match parse_u64(v.as_slice()) {
                Some(x) => x,
                None => 1,
            }
        },
    }
}

/// Parse a unified-diff hunk header line (`@@ -OLD[,COUNT] +NEW[,COUNT] @@`)
/// into the four numbers; an absent count is 1.
pub fn parse_hunk_header(line: &str) -> (res: Option<(u64, u64, u64, u64)>)
    ensures
        res == hunk_header(line@),
{
    let s = chars_of(line);
    let sl = s.as_slice();
    let _n = sl.len();
    if !lit_at(sl, 0, "@@ -") {
        return None;
    }
    proof { reveal_strlit("@@ -"); }
    let d1 = digit_len(sl, 4);
    let c1 = opt_count_exec(sl, 4 + d1);
    let p = c1.1;
    if d1 == 0 || !lit_at(sl, p, " +") {
        return None;
    }
    proof { reveal_strlit(" +"); }
    let d3 = digit_len(sl, p + 2);
    let c2 = opt_count_exec(sl, p + 2 + d3);
    if d3 == 0 || !lit_at(sl, c2.1, " @@") {
        return None;
    }
    let a = parse_u64(sub_chars(sl, 4, 4 + d1).as_slice());
    let c = parse_u64(sub_chars(sl, p + 2, p + 2 + d3).as_slice());
    match (a, c) {
        (Some(x), Some(y)) => Some((x, count_exec(sl, c1.0), y, count_exec(sl, c2.0))),
        _ => None,
    }
}

/// A hunk as values: header numbers and body lines (prefix, text).
pub type HunkV = (u64, u64, u64, u64, Seq<(char, Seq<char>)>);

/// The view of a parsed hunk.
pub open spec fn hunk_view(h: ParsedHunk) -> HunkV {
    (h.old_start, h.old_count, h.new_start, h.new_count, h.body@.map_values(|l: (char, String)| (l.0, l.1@)))
}

/// State while reading a diff: hunks so far, and whether body lines are being read.
pub type DiffState = (Seq<HunkV>, bool);

/// One line of `git diff` output: a hunk header starts a hunk (an unreadable
/// one ends the body); inside a body, a `-`, `+` or ` ` line joins the last
/// hunk and any other line ends the body.
pub open spec fn diff_step(st: DiffState, line: Seq<char>) -> DiffState {
    let (hs, in_body) = st;
    if has_at(line, 0, "@@"@) {
        match hunk_header(line) {
            Some(h) => (hs.push((h.0, h.1, h.2, h.3, Seq::empty())), true),
            None => (hs, false),
        }
    } else if !in_body {
        st
    } else {
        let prefix = if line.len() > 0 { line[0] } else { '?' };
        if prefix == '-' || prefix == '+' || prefix == ' ' {
            if hs.len() > 0 {
                let l = hs.last();
                (hs.update(hs.len() - 1, (l.0, l.1, l.2, l.3, l.4.push((prefix, line.drop_first())))), true)
            } else {
                st
            }
        } else {
            (hs, false)
        }
    }
}

/// The state after reading `lines`.
pub open spec fn diff_walk(lines: Seq<Seq<char>>) -> DiffState
    decreases lines.len(),
{
    if lines.len() == 0 {
        (Seq::empty(), false)
    } else {
        diff_step(diff_walk(lines.drop_last()), lines.last())
    }
}

/// The hunks of `git diff -U0` output.
pub open spec fn diff_hunks(text: Seq<char>) -> Seq<HunkV> {
    diff_walk(lines_of(text)).0
}

/// A body line of a hunk: a `-`, `+` or ` ` followed by the line's text.
pub open spec fn body_line(l: Seq<char>) -> bool {
    l.len() > 0 && (l[0] == '-' || l[0] == '+' || l[0] == ' ')
}

/// Reading a hunk: after any earlier lines, a readable header line followed
/// by body lines adds one hunk carrying the header's four numbers and, in
/// order, each body line split into its sign and its text; reading goes on
/// inside that hunk's body.
pub proof fn lemma_diff_walk_hunk(pre: Seq<Seq<char>>, header: Seq<char>, body: Seq<Seq<char>>)
    requires
        hunk_header(header) is Some,
        forall|k: int| 0 <= k < body.len() ==> body_line(#[trigger] body[k]),
    ensures
        ({
            let h = hunk_header(header)->0;
            diff_walk(pre + seq![header] + body)
                == (diff_walk(pre).0.push((h.0, h.1, h.2, h.3, Seq::new(body.len(), |k: int| (body[k][0], body[k].drop_first())))), true)
        }),
    decreases body.len(),
{
    let h = hunk_header(header)->0;
    reveal_strlit("@@ -");
    reveal_strlit("@@");
    assert(header_groups(header) is Some);
    assert(has_at(header, 0, "@@ -"@));
    let p4 = header.subrange(0, 4);
    assert(p4[0] == '@' && p4[1] == '@');
    assert(header.subrange(0, 2) =~= "@@"@);
    assert(has_at(header, 0, "@@"@));
    let all = pre + seq![header] + body;
    if body.len() == 0 {
        assert(all =~= pre + seq![header]);
        assert((pre + seq![header]).drop_last() =~= pre);
        assert(Seq::new(0, |k: int| (body[k][0], body[k].drop_first())) =~= Seq::<(char, Seq<char>)>::empty());
    } else {
        let b0 = body.drop_last();
        assert forall|k: int| 0 <= k < b0.len() implies body_line(#[trigger] b0[k]) by {
            assert(b0[k] == body[k]);
        }
        lemma_diff_walk_hunk(pre, header, b0);
        assert(all.drop_last() =~= pre + seq![header] + b0);
        assert(all.last() == body.last());
        let l = body.last();
        assert(body_line(body[body.len() - 1]));
        assert(!has_at(l, 0, "@@"@)) by {
            if has_at(l, 0, "@@"@) { assert(l.subrange(0, 2)[0] == l[0]); }
        }
        let hs0 = diff_walk(pre).0;
        let nb = Seq::new(b0.len(), |k: int| (b0[k][0], b0[k].drop_first()));
        let hs1 = hs0.push((h.0, h.1, h.2, h.3, nb));
        let nbody = Seq::new(body.len(), |k: int| (body[k][0], body[k].drop_first()));
        assert forall|k: int| 0 <= k < body.len() implies #[trigger] nb.push((l[0], l.drop_first()))[k] == nbody[k] by {
            if k < b0.len() { assert(b0[k] == body[k]); }
        }
        assert(nb.push((l[0], l.drop_first())) =~= nbody);
        assert(hs1.update(hs1.len() - 1, (h.0, h.1, h.2, h.3, nb.push((l[0], l.drop_first()))))
            =~= hs0.push((h.0, h.1, h.2, h.3, Seq::new(body.len(), |k: int| (body[k][0], body[k].drop_first())))));
    }
}

proof fn lemma_diff_walk_body(lines: Seq<Seq<char>>)
    ensures
        diff_walk(lines).1 ==> diff_walk(lines).0.len() > 0,
    decreases lines.len(),
{
    if lines.len() > 0 {
        lemma_diff_walk_body(lines.drop_last());
    }
}

/// Parse the hunks (header and body lines) of `git diff -U0` output for one
/// file. Body lines start with `-`, `+` or ` `; any other line (such as
/// "\ No newline at end of file") ends the body.
pub fn parse_diff_hunks(diff: &str) -> (res: Vec<ParsedHunk>)
    ensures
        res@.map_values(|h: ParsedHunk| hunk_view(h)) == diff_hunks(diff@),
{
    let lines = text_lines(diff);
    let ghost ls = lines_of(diff@);
    let mut done: Vec<ParsedHunk> = Vec::new();
    let mut cur: Option<ParsedHunk> = None;
    let mut in_body = false;
    let mut i: usize = 0;
    while i < lines.len()
        invariant
            i <= lines@.len() == ls.len(),
            forall|k: int| 0 <= k < lines@.len() ==> (#[trigger] lines@[k])@ == ls[k],
            ({
                let st = diff_walk(ls.take(i as int));
                &&& in_body == st.1
                &&& match cur {
                    None => done@.map_values(|h: ParsedHunk| hunk_view(h)) == st.0,
                    Some(c) => done@.map_values(|h: ParsedHunk| hunk_view(h)).push(hunk_view(c)) == st.0,
                }
                &&& in_body ==> cur is Some
            }),
        decreases lines@.len() - i,
    {
        let line = &lines[i];
        let ghost st = diff_walk(ls.take(i as int));
        proof {
            assert(ls.take(i + 1).drop_last() == ls.take(i as int));
            assert(ls.take(i + 1).last() == line@);
        }
        let ls_ = line.as_slice();
        if lit_at(ls_, 0, "@@") {
            proof { reveal_strlit("@@"); }
            let text = string_of_chars(ls_);
            match parse_hunk_header(text.as_str()) {
                Some((os, oc, ns, nc)) => {
                    let ghost before = done@;
                    match cur {
                        Some(c) => {
                            done.push(c);
                            proof {
                                assert(done@.map_values(|h: ParsedHunk| hunk_view(h)) =~= before.map_values(|h: ParsedHunk| hunk_view(h)).push(hunk_view(c)));
                            }
                        },
                        None => {},
                    }
                    let nh = ParsedHunk { old_start: os, old_count: oc, new_start: ns, new_count: nc, body: Vec::new() };
                    proof {
                        assert(nh.body@.map_values(|l: (char, String)| (l.0, l.1@)) =~= Seq::<(char, Seq<char>)>::empty());
                    }
                    cur = Some(nh);
                    in_body = true;
                },
                None => {
                    in_body = false;
                },
            }
        } else if in_body {
            let prefix = if line.len() > 0 { line[0] } else { '?' };
            if prefix == '-' || prefix == '+' || prefix == ' ' {
                let mut rest: Vec<char> = Vec::new();
                let mut j: usize = 1;
                while j < line.len()
                    invariant
                        1 <= j <= line@.len(),
                        rest@ == line@.subrange(1, j as int),
                    decreases line@.len() - j,
                {
                    rest.push(line[j]);
                    proof { assert(rest@ =~= line@.subrange(1, j + 1)); }
                    j = j + 1;
                }
                proof { assert(line@.subrange(1, line@.len() as int) == line@.drop_first()); }
                let text = string_of_chars(rest.as_slice());
                match cur {
                    Some(mut c) => {
                        let ghost old_body = c.body@;
                        c.body.push((prefix, text));
                        proof {
                            assert(c.body@.map_values(|l: (char, String)| (l.0, l.1@)) =~=
                                old_body.map_values(|l: (char, String)| (l.0, l.1@)).push((prefix, line@.drop_first())));
                        }
                        cur = Some(c);
                    },
                    None => {},
                }
            } else {
                in_body = false;
            }
        }
        i = i + 1;
    }
    proof { assert(ls.take(ls.len() as int) == ls); }
    match cur {
        Some(c) => {
            let ghost before = done@;
            done.push(c);
            proof {
                assert(done@.map_values(|h: ParsedHunk| hunk_view(h)) =~= before.map_values(|h: ParsedHunk| hunk_view(h)).push(hunk_view(c)));
            }
        },
        None => {},
    }
    done
}

/// A `git diff --name-status` line read as (status, path): two tab-separated
/// fields, or three for a rename (status starting with `R`), whose new path
/// is taken; `None` otherwise.
pub open spec fn name_status_line(l: Seq<char>) -> Option<(Seq<char>, Seq<char>)> {
    let parts = split_on(l, '\t');
    if parts.len() == 2 {
        Some((parts[0], parts[1]))
    } else if parts.len() == 3 && parts[0].len() > 0 && parts[0][0] == 'R' {
        Some((parts[0], parts[2]))
    } else {
        None
    }
}

/// The non-empty lines of `--name-status` output: the readable ones as
/// (status, path), and the unreadable ones.
pub open spec fn name_status(lines: Seq<Seq<char>>) -> (Seq<(Seq<char>, Seq<char>)>, Seq<Seq<char>>)
    decreases lines.len(),
{
    if lines.len() == 0 {
        (Seq::empty(), Seq::empty())
    } else {
        let p = name_status(lines.drop_last());
        let l = lines.last();
        if l.len() == 0 {
            p
        } else {
            match name_status_line(l) {
                Some(x) => (p.0.push(x), p.1),
                None => (p.0, p.1.push(l)),
            }
        }
    }
}

/// Read `git diff --name-status` output into (status, path) pairs, and the
/// lines that could not be read.
pub fn parse_name_status(out: &str) -> (res: (Vec<(String, String)>, Vec<String>))
    ensures
        res.0@.map_values(|x: (String, String)| (x.0@, x.1@)) == name_status(lines_of(out@)).0,
        res.1@.map_values(|x: String| x@) == name_status(lines_of(out@)).1,
{
    let lines = text_lines(out);
    let ghost ls = lines_of(out@);
    let mut files: Vec<(String, String)> = Vec::new();
    let mut bad: Vec<String> = Vec::new();
    let mut i: usize = 0;
    while i < lines.len()
        invariant
            i <= lines@.len() == ls.len(),
            forall|k: int| 0 <= k < lines@.len() ==> (#[trigger] lines@[k])@ == ls[k],
            files@.map_values(|x: (String, String)| (x.0@, x.1@)) == name_status(ls.take(i as int)).0,
            bad@.map_values(|x: String| x@) == name_status(ls.take(i as int)).1,
        decreases lines@.len() - i,
    {
        let l = &lines[i];
        proof {
            assert(ls.take(i + 1).drop_last() == ls.take(i as int));
            assert(ls.take(i + 1).last() == l@);
        }
        if l.len() > 0 {
            let parts = split_chars(l.as_slice(), '\t');
            let ghost fb = files@;
            let ghost bb = bad@;
            if parts.len() == 2 {
                files.push((string_of_chars(parts[0].as_slice()), string_of_chars(parts[1].as_slice())));
                proof {
                    assert(files@.map_values(|x: (String, String)| (x.0@, x.1@)) =~= fb.map_values(|x: (String, String)| (x.0@, x.1@)).push((split_on(l@, '\t')[0], split_on(l@, '\t')[1])));
                }
            } else if parts.len() == 3 && parts[0].len() > 0 && parts[0][0] == 'R' {
                files.push((string_of_chars(parts[0].as_slice()), string_of_chars(parts[2].as_slice())));
                proof {
                    assert(files@.map_values(|x: (String, String)| (x.0@, x.1@)) =~= fb.map_values(|x: (String, String)| (x.0@, x.1@)).push((split_on(l@, '\t')[0], split_on(l@, '\t')[2])));
                }
            } else {
                bad.push(string_of_chars(l.as_slice()));
                proof {
                    assert(bad@.map_values(|x: String| x@) =~= bb.map_values(|x: String| x@).push(l@));
                }
            }
        }
        i = i + 1;
    }
    proof { assert(ls.take(ls.len() as int) == ls); }
    (files, bad)
}

/// The word for a name-status letter: A added, D deleted, M changed,
/// R renamed, and changed for anything else.
pub open spec fn status_word(status: Seq<char>) -> Seq<char> {
    if status.len() > 0 && status[0] == 'A' {
        "added"@
    } else if status.len() > 0 && status[0] == 'D' {
        "deleted"@
    } else if status.len() > 0 && status[0] == 'R' {
        "renamed"@
    } else {
        "changed"@
    }
}

/// The file status recorded for a `--name-status` status.
pub fn diff_status(status: &str) -> (res: &'static str)
    ensures
        res@ == status_word(status@),
{
    let s = chars_of(status);
    if s.len() > 0 && s[0] == 'A' {
        "added"
    } else if s.len() > 0 && s[0] == 'D' {
        "deleted"
    } else if s.len() > 0 && s[0] == 'R' {
        "renamed"
    } else {
        "changed"
    }
}

/// The words of a text: maximal runs of non-white-space characters.
pub open spec fn words_of(s: Seq<char>) -> Seq<Seq<char>>
    decreases s.len(),
{
    if s.len() == 0 {
        Seq::empty()
    } else {
        let w = words_of(s.drop_last());
        let c = s.last();
        if is_ws(c) {
            w
        } else if s.len() >= 2 && !is_ws(s[s.len() - 2]) && w.len() > 0 {
            w.update(w.len() - 1, w.last().push(c))
        } else {
            w.push(seq![c])
        }
    }
}

/// The words of a text.
fn words(s: &[char]) -> (res: Vec<Vec<char>>)
    ensures
        res@.len() == words_of(s@).len(),
        forall|k: int| 0 <= k < res@.len() ==> (#[trigger] res@[k])@ == words_of(s@)[k],
{
    let mut res: Vec<Vec<char>> = Vec::new();
    let mut cur: Vec<char> = Vec::new();
    let mut in_word = false;
    let mut i: usize = 0;
    while i < s.len()
        invariant
            i <= s@.len(),
            in_word == (i > 0 && !is_ws(s@[i - 1])),
            ({
                let w = words_of(s@.take(i as int));
                &&& in_word ==> w.len() == res@.len() + 1 && cur@ == w.last()
                &&& !in_word ==> w.len() == res@.len()
                &&& forall|k: int| 0 <= k < res@.len() ==> (#[trigger] res@[k])@ == w[k]
            }),
        decreases s@.len() - i,
    {
        let c = s[i];
        proof {
            assert(s@.take(i + 1).drop_last() == s@.take(i as int));
            assert(s@.take(i + 1).last() == c);
            if i >= 1 { assert(s@.take(i + 1)[i - 1] == s@[i - 1]); }
        }
        if is_whitespace(c) {
            if in_word {
                let mut done: Vec<char> = Vec::new();
                std::mem::swap(&mut done, &mut cur);
                let ghost before = res@;
                res.push(done);
                proof {
                    assert forall|k: int| 0 <= k < res@.len() implies (#[trigger] res@[k])@ == words_of(s@.take(i + 1))[k] by {
                        if k < before.len() { assert(res@[k] == before[k]); }
                    }
                }
            }
            in_word = false;
        } else {
            if !in_word {
                cur = Vec::new();
            }
            cur.push(c);
            proof {
                if !in_word {
                    assert(cur@ =~= seq![c]);
                }
            }
            in_word = true;
        }
        i = i + 1;
    }
    proof { assert(s@.take(s@.len() as int) == s@); }
    if in_word {
        res.push(cur);
    }
    res
}

/// The old and new blob ids of the first line of `git diff --raw` output
/// (`:old_mode new_mode old_sha new_sha status<TAB>path`): the third and
/// fourth words before the first tab; `None` without a line or with fewer
/// than five words.
pub open spec fn raw_blobs(raw: Seq<char>) -> Option<(Seq<char>, Seq<char>)> {
    let ls = lines_of(raw);
    if ls.len() == 0 {
        None
    } else {
        let parts = words_of(split_on(ls[0], '\t')[0]);
        if parts.len() < 5 { None } else { Some((parts[2], parts[3])) }
    }
}

/// The old and new blob ids named by `git diff --raw` output.
pub fn parse_raw_blobs(raw: &str) -> (res: Option<(String, String)>)
    ensures
        match raw_blobs(raw@) {
            Some(p) => res matches Some(r) && r.0@ == p.0 && r.1@ == p.1,
            None => res is None,
        },
{
    let lines = text_lines(raw);
    if lines.len() == 0 {
        return None;
    }
    let fields = split_chars(lines[0].as_slice(), '\t');
    proof { crate::parse::lemma_split_nonempty(lines@[0]@, '\t'); }
    let parts = words(fields[0].as_slice());
    if parts.len() < 5 {
        return None;
    }
    Some((string_of_chars(parts[2].as_slice()), string_of_chars(parts[3].as_slice())))
}

/// Whether a blob id is all zeros (no blob: the file is absent on that side,
/// or the new side is the working tree).
pub fn is_null_sha(sha: &str) -> (res: bool)
    ensures
        res == forall|i: int| 0 <= i < sha@.len() ==> sha@[i] == '0',
{
    let s = chars_of(sha);
    let mut i: usize = 0;
    while i < s.len()
        invariant
            i <= s@.len(),
            s@ == sha@,
            forall|k: int| 0 <= k < i ==> s@[k] == '0',
        decreases s@.len() - i,
    {
        if s[i] != '0' {
            return false;
        }
        i = i + 1;
    }
    true
}

/// The name of a file's JSON data: its path with each `/` written as `__`.
pub open spec fn safe_name(path: Seq<char>) -> Seq<char>
    decreases path.len(),
{
    if path.len() == 0 {
        Seq::empty()
    } else {
        safe_name(path.drop_last()) + if path.last() == '/' { seq!['_', '_'] } else { seq![path.last()] }
    }
}

/// The path with each `/` written as `__`.
pub fn safe_file_name(path: &str) -> (res: String)
    ensures
        res@ == safe_name(path@),
{
    let s = chars_of(path);
    let mut out = String::new();
    let mut i: usize = 0;
    while i < s.len()
        invariant
            i <= s@.len(),
            s@ == path@,
            out@ == safe_name(s@.take(i as int)),
        decreases s@.len() - i,
    {
        proof {
            assert(s@.take(i + 1).drop_last() == s@.take(i as int));
            assert(s@.take(i + 1).last() == s@[i as int]);
        }
        if s[i] == '/' {
            push_char(&mut out, '_');
            push_char(&mut out, '_');
        } else {
            push_char(&mut out, s[i]);
        }
        i = i + 1;
    }
    proof { assert(s@.take(s@.len() as int) == s@); }
    out
}

/// Why a changed file is left out of the collected data.
#[derive(Debug, Clone, Copy, PartialEq, Eq, Structural)]
pub enum SkipReason {
    /// No hunks and no content on either side.
    NoChanges,
    /// Only white space changed (with white space ignored, a modified file has no hunks).
    WhitespaceOnly,
}

/// Whether to leave a changed file out: with no hunks and no lines on either
/// side; or, when white space is ignored, a modified file (`M...`) with no hunks.
pub fn file_skip_reason(status: &str, n_hunks: usize, n_old: usize, n_new: usize, ignore_whitespace: bool) -> (res: Option<SkipReason>)
    ensures
        res == (if n_hunks == 0 && n_old == 0 && n_new == 0 {
            Some(SkipReason::NoChanges)
        } else if ignore_whitespace && n_hunks == 0 && status@.len() > 0 && status@[0] == 'M' {
            Some(SkipReason::WhitespaceOnly)
        } else {
            None
        }),
{
    if n_hunks == 0 && n_old == 0 && n_new == 0 {
        return Some(SkipReason::NoChanges);
    }
    let s = chars_of(status);
    if ignore_whitespace && n_hunks == 0 && s.len() > 0 && s[0] == 'M' {
        Some(SkipReason::WhitespaceOnly)
    } else {
        None
    }
}

/// Whether `s` holds `..` at `i`.
pub open spec fn dots_at(s: Seq<char>, i: int) -> bool {
    0 <= i < s.len() - 1 && s[i] == '.' && s[i + 1] == '.'
}

/// Whether `s` holds `..`.
pub open spec fn has_dots(s: Seq<char>) -> bool {
    exists|j: int| #[trigger] dots_at(s, j)
}

/// The two sides of the first diff argument that holds `..` (split at its
/// first `..`), which name the compared revisions.
pub fn diff_range_sides(args: &Vec<String>) -> (res: Option<(String, String)>)
    ensures
        res matches Some(r) ==> exists|k: int, i: int| 0 <= k < args@.len() && #[trigger] dots_at(args@[k]@, i) && {
            let a = args@[k]@;
            &&& forall|j: int| 0 <= j < i ==> !dots_at(a, j)
            &&& forall|q: int| 0 <= q < k ==> !has_dots(#[trigger] args@[q]@)
            &&& r.0@ == a.take(i) && r.1@ == a.skip(i + 2)
        },
        res is None ==> forall|k: int| 0 <= k < args@.len() ==> !has_dots(#[trigger] args@[k]@),
{
    let mut k: usize = 0;
    while k < args.len()
        invariant
            k <= args@.len(),
            forall|q: int| 0 <= q < k ==> !has_dots(#[trigger] args@[q]@),
        decreases args@.len() - k,
    {
        let a = chars_of(args[k].as_str());
        let mut i: usize = 0;
        while i < a.len()
            invariant
                i <= a@.len(),
                k < args@.len(),
                a@ == args@[k as int]@,
                forall|q: int| 0 <= q < k ==> !has_dots(#[trigger] args@[q]@),
                forall|j: int| 0 <= j < i ==> !dots_at(a@, j),
            decreases a@.len() - i,
        {
            if i + 1 < a.len() && a[i] == '.' && a[i + 1] == '.' {
                let left = string_of_chars(sub_chars(a.as_slice(), 0, i).as_slice());
                let right = string_of_chars(sub_chars(a.as_slice(), i + 2, a.len()).as_slice());
                proof {
                    assert(a@.subrange(0, i as int) == a@.take(i as int));
                    assert(a@.subrange(i + 2, a@.len() as int) == a@.skip(i + 2));
                    assert(dots_at(args@[k as int]@, i as int));
                }
                return Some((left, right));
            }
            i = i + 1;
        }
        proof {
            assert forall|j: int| !dots_at(a@, j) by {
                if 0 <= j < i {} else if dots_at(a@, j) { assert(j + 1 < a@.len()); }
            }
            assert(!has_dots(args@[k as int]@));
        }
        k = k + 1;
    }
    None
}

} // verus!
