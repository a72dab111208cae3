//! The unified-diff-style text rendering of selected chunks: the same chunk
//! processing as the HTML view (context lines, hunk gap filling,
//! consolidation), written as ` `/`-`/`+` lines numbered relative to the first
//! changed new line.

use vstd::prelude::*;
use crate::context::{expand_context_for_expressions, expand_trivial, expanded_after, expanded_before};
use crate::difft_json::{DiffHunk, DifftOutput, LineEntry};
use crate::fits::{difft_fits, lemma_fits_hunks, lemma_fits_mapping, LINE_LIMIT};
use crate::gaps::{all_below, gap_lines, hunk_gap_lines, lemma_gap_lines_below};
use crate::html::{line_at, str_at};
use crate::items::{
    extents, filter_by_lines, filter_items, has_new_line, has_old_line, item_old, items_extents,
    items_have_new, items_have_old, items_ok, keep_old_order, keep_ordered, max_u, min_u, nearest,
    nearest_key, nearest_row_key, row_nums_of, rows_nums, sort_items, sort_keyed, Item, Keyed,
    RowNums, KEY_SPACE,
};
use crate::linemap::{
    chunk_line_range, lemma_new_to_old_bounded, lemma_old_to_new_bounded, lemma_side_range_unique,
    new_to_old_from, new_to_old_line, old_to_new_from, old_to_new_line, side_line, side_range_of,
    to_0based,
};
use crate::rows::{
    consolidate, consolidate_chunk, entries_below, fix_reorders, fix_rows, lemma_consolidate_bounded,
    lemma_fix_rows_bounded, rows_below, rows_view, RowV,
};
use crate::text::{dec, push_char, push_dec_usize};

verus! {

/// A 1-based line from the hunk mapping, as a 0-based index.
pub open spec fn zb(v: int) -> usize {
    let u = (v as u64) as usize;
    if u == 0 { 0 } else { (u - 1) as usize }
}

/// The 0-based old line for 1-based new line `n1`.
pub open spec fn n2o0(n1: int, hunks: Seq<DiffHunk>) -> usize {
    zb(new_to_old_from(n1, hunks, 0))
}

/// The 0-based new line for 1-based old line `o1`.
pub open spec fn o2n0(o1: int, hunks: Seq<DiffHunk>) -> usize {
    zb(old_to_new_from(o1, hunks, 0))
}

/// The first and last old and new lines of a chunk; a side without entries is
/// mapped from the other side through the hunks.
#[verifier::opaque]
pub open spec fn chunk_firsts(chunk: Seq<LineEntry>, hunks: Seq<DiffHunk>) -> (usize, usize, usize, usize) {
    let lr = side_range_of(chunk, true);
    let rr = side_range_of(chunk, false);
    let (of, ol) = match lr {
        Some(r) => (r.0 as usize, r.1 as usize),
        None => {
            let r = match rr { Some(x) => x, None => (0u64, 0u64) };
            (n2o0(r.0 + 1, hunks), n2o0(r.1 + 1, hunks))
        },
    };
    let (nf, nl) = match rr {
        Some(r) => (r.0 as usize, r.1 as usize),
        None => {
            let r = match lr { Some(x) => x, None => (0u64, 0u64) };
            (o2n0(r.0 + 1, hunks), o2n0(r.1 + 1, hunks))
        },
    };
    (of, ol, nf, nl)
}

/// `a - b`, or 0 below 0.
pub open spec fn sat_sub(a: int, b: int) -> int {
    if a >= b { a - b } else { 0 }
}

/// `min(a, b)`.
pub open spec fn min_i(a: int, b: int) -> int {
    if a <= b { a } else { b }
}

/// The context bounds after expansion for a cut-off expression.
pub open spec fn expand_pair(lines: Seq<String>, cb: int, f: int, l: int, ca: int) -> (int, int) {
    if expand_trivial(lines.len() as int, f, l, ca) {
        (cb, ca)
    } else {
        (expanded_before(lines, cb, f, ca), expanded_after(lines, cb, l, ca))
    }
}

/// (old start, new start, old end, new end) of the context around a chunk:
/// three lines on each side, widened on the new side to a cut-off expression,
/// and on the old side by as much.
#[verifier::opaque]
pub open spec fn chunk_ctx(d: DifftOutput, f: (usize, usize, usize, usize)) -> (int, int, int, int) {
    let old_len = d.old_lines@.len() as int;
    let new_len = d.new_lines@.len() as int;
    let ocb = sat_sub(f.0 as int, 3);
    let ncb = sat_sub(f.2 as int, 3);
    let oca = min_i(f.1 + 4, old_len);
    let nca = min_i(f.3 + 4, new_len);
    let e = expand_pair(d.new_lines@, ncb, f.2 as int, f.3 as int, nca);
    (sat_sub(ocb, ncb - e.0), e.0, min_i(oca + (e.1 - nca), old_len), e.1)
}

/// Where context starts given the last line already rendered.
pub open spec fn ctx_start(last: Option<usize>, before: int) -> int {
    match last {
        Some(l) => if l + 1 > before { l + 1 } else { before },
        None => before,
    }
}

/// Whether lines are skipped between the previous chunk and this one.
pub open spec fn has_gap_before(lo: Option<usize>, ln: Option<usize>, ob: int, nb: int) -> bool {
    match lo {
        Some(l) => l + 1 < ob,
        None => match ln {
            Some(l) => l + 1 < nb,
            None => true,
        },
    }
}

/// The separator between chunks that are not adjacent.
pub open spec fn sep_line() -> Seq<char> {
    seq![' ', ' ', '.', '.', '.', '\n']
}

/// A decimal number right-aligned in four columns.
pub open spec fn pad4(d: Seq<char>) -> Seq<char> {
    if d.len() < 4 { Seq::new((4 - d.len()) as nat, |i: int| ' ') + d } else { d }
}

/// One text line: the number relative to `base` (1-based) right-aligned in four
/// columns and a space, or five spaces for a line before `base`; then the
/// prefix, the content and a newline.
pub open spec fn fmt_line(prefix: char, new0: int, content: Seq<char>, base: int) -> Seq<char> {
    if new0 >= base {
        pad4(dec((new0 - base + 1) as nat)) + seq![' ', prefix] + content + seq!['\n']
    } else {
        seq![' ', ' ', ' ', ' ', ' ', prefix] + content + seq!['\n']
    }
}

/// Context lines `nf - pc .. nf` of the new file.
pub open spec fn pre_text(d: DifftOutput, nf: int, pc: int, k: int, base: int) -> Seq<char>
    decreases k,
{
    if k <= 0 {
        Seq::empty()
    } else {
        let idx = nf - pc + k - 1;
        pre_text(d, nf, pc, k - 1, base) + fmt_line(' ', idx, line_at(d.new_lines@, idx), base)
    }
}

/// Appends one text line.
fn push_line(out: &mut String, prefix: char, new0: usize, content: &str, base: usize)
    requires
        new0 < usize::MAX,
    ensures
        final(out)@ == old(out)@ + fmt_line(prefix, new0 as int, content@, base as int),
{
    let ghost start = out@;
    if new0 >= base {
        let rel = new0 - base + 1;
        let mut num = String::new();
        push_dec_usize(&mut num, rel);
        let mut k: usize = num.as_str().unicode_len();
        while k < 4
            invariant
                num@ == dec(rel as nat),
                k <= 4 || k == num@.len(),
                num@.len() <= k,
                out@ == start + Seq::new((k - num@.len()) as nat, |i: int| ' '),
            decreases 4 - k,
        {
            push_char(out, ' ');
            proof {
                assert(Seq::new((k + 1 - num@.len()) as nat, |i: int| ' ') =~= Seq::new((k - num@.len()) as nat, |i: int| ' ').push(' '));
            }
            k = k + 1;
        }
        proof {
            if num@.len() >= 4 {
                assert(Seq::new((k - num@.len()) as nat, |i: int| ' ') =~= Seq::<char>::empty());
            }
            assert(out@ + num@ == start + pad4(dec(rel as nat)));
        }
        out.append(num.as_str());
        push_char(out, ' ');
    } else {
        let mut k: usize = 0;
        while k < 5
            invariant
                k <= 5,
                out@ == start + Seq::new(k as nat, |i: int| ' '),
            decreases 5 - k,
        {
            push_char(out, ' ');
            proof {
                assert(Seq::new((k + 1) as nat, |i: int| ' ') =~= Seq::new(k as nat, |i: int| ' ').push(' '));
            }
            k = k + 1;
        }
    }
    push_char(out, prefix);
    out.append(content);
    push_char(out, '\n');
    proof {
        if new0 >= base {
            assert(out@ =~= start + fmt_line(prefix, new0 as int, content@, base as int));
        } else {
            assert(Seq::new(5, |i: int| ' ').push(prefix) =~= seq![' ', ' ', ' ', ' ', ' ', prefix]);
            assert(out@ =~= start + fmt_line(prefix, new0 as int, content@, base as int));
        }
    }
}

/// Appends context lines `nf - pc .. nf` of the new file.
fn push_pre(out: &mut String, d: &DifftOutput, nf: usize, pc: usize, base: usize)
    requires
        pc <= nf < usize::MAX,
    ensures
        final(out)@ == old(out)@ + pre_text(*d, nf as int, pc as int, pc as int, base as int),
{
    let ghost start = out@;
    let mut i: usize = 0;
    while i < pc
        invariant
            i <= pc <= nf < usize::MAX,
            out@ == start + pre_text(*d, nf as int, pc as int, i as int, base as int),
        decreases pc - i,
    {
        let idx = nf - pc + i;
        push_line(out, ' ', idx, str_at(d.new_lines.as_slice(), idx), base);
        proof {
            assert(out@ =~= start + pre_text(*d, nf as int, pc as int, i + 1, base as int));
        }
        i = i + 1;
    }
}

/// The first and last lines of a chunk, below twice the line limit.
pub(crate) fn chunk_firsts_exec(d: &DifftOutput, chunk: &Vec<LineEntry>) -> (res: (usize, usize, usize, usize))
    requires
        difft_fits(*d),
        entries_below(chunk@, LINE_LIMIT as int),
    ensures
        res == chunk_firsts(chunk@, d.hunks@),
        res.0 <= 2 * LINE_LIMIT,
        res.1 <= 2 * LINE_LIMIT,
        res.2 <= 2 * LINE_LIMIT,
        res.3 <= 2 * LINE_LIMIT,
{
    let (lr, rr) = chunk_line_range(chunk.as_slice());
    proof {
        reveal(chunk_firsts);
        lemma_side_range_unique(chunk@, true, lr);
        lemma_side_range_unique(chunk@, false, rr);
        lemma_fits_hunks(*d);
        if lr is Some {
            let lp = lr->0;
            let w = choose|i: int| 0 <= i < chunk@.len() && side_line(#[trigger] chunk@[i], true) == Some(lp.1);
            let w2 = choose|i: int| 0 <= i < chunk@.len() && side_line(#[trigger] chunk@[i], true) == Some(lp.0);
        }
        if rr is Some {
            let rp = rr->0;
            let w = choose|i: int| 0 <= i < chunk@.len() && side_line(#[trigger] chunk@[i], false) == Some(rp.1);
            let w2 = choose|i: int| 0 <= i < chunk@.len() && side_line(#[trigger] chunk@[i], false) == Some(rp.0);
        }
    }
    let hunks = d.hunks.as_slice();
    let (of, ol) = match lr {
        Some((mn, mx)) => (mn as usize, mx as usize),
        None => {
            let (a, b) = match rr { Some(x) => x, None => (0u64, 0u64) };
            proof {
                lemma_fits_mapping(*d, (a + 1) as u64);
                lemma_fits_mapping(*d, (b + 1) as u64);
                lemma_new_to_old_bounded(a + 1, d.hunks@, 0, LINE_LIMIT as int);
                lemma_new_to_old_bounded(b + 1, d.hunks@, 0, LINE_LIMIT as int);
            }
            (to_0based(new_to_old_line(a + 1, hunks)), to_0based(new_to_old_line(b + 1, hunks)))
        },
    };
    let (nf, nl) = match rr {
        Some((mn, mx)) => (mn as usize, mx as usize),
        None => {
            let (a, b) = match lr { Some(x) => x, None => (0u64, 0u64) };
            proof {
                lemma_fits_mapping(*d, (a + 1) as u64);
                lemma_fits_mapping(*d, (b + 1) as u64);
                lemma_old_to_new_bounded(a + 1, d.hunks@, 0, LINE_LIMIT as int);
                lemma_old_to_new_bounded(b + 1, d.hunks@, 0, LINE_LIMIT as int);
            }
            (to_0based(old_to_new_line(a + 1, hunks)), to_0based(old_to_new_line(b + 1, hunks)))
        },
    };
    (of, ol, nf, nl)
}

/// The context bounds around a chunk.
pub(crate) fn chunk_ctx_exec(d: &DifftOutput, f: (usize, usize, usize, usize)) -> (res: (usize, usize, usize, usize))
    requires
        difft_fits(*d),
        f.0 <= 4 * LINE_LIMIT,
        f.1 <= 4 * LINE_LIMIT,
        f.2 <= 4 * LINE_LIMIT,
        f.3 <= 4 * LINE_LIMIT,
    ensures
        (res.0 as int, res.1 as int, res.2 as int, res.3 as int) == chunk_ctx(*d, f),
        res.0 <= f.0,
        res.1 <= f.2,
        res.2 <= d.old_lines@.len(),
        res.3 <= f.3 + 4 + 8,
{
    proof { reveal(chunk_ctx); }
    let old_len = d.old_lines.len();
    let new_len = d.new_lines.len();
    let ocb = f.0.saturating_sub(3);
    let ncb = f.2.saturating_sub(3);
    let oca = if f.1 + 4 < old_len { f.1 + 4 } else { old_len };
    let nca = if f.3 + 4 < new_len { f.3 + 4 } else { new_len };
    let (eb, ea) = expand_context_for_expressions(d.new_lines.as_slice(), ncb, f.2, f.3, nca);
    let before_delta = ncb - eb;
    let after_delta = ea - nca;
    let ocb2 = ocb.saturating_sub(before_delta);
    let oca2 = if oca + after_delta < old_len { oca + after_delta } else { old_len };
    (ocb2, eb, oca2, ea)
}

/// The rows of a chunk: consolidated, then with reordered lines re-paired.
pub open spec fn chunk_rows(d: DifftOutput, chunk: Seq<LineEntry>) -> Seq<RowV> {
    fix_rows(consolidate(chunk, 0), 0, d.old_lines@, d.new_lines@)
}

/// Every line number of the rows is below `b`.
pub open spec fn nums_below(rn: Seq<RowNums>, b: int) -> bool {
    forall|i: int| 0 <= i < rn.len() ==> {
        &&& ((#[trigger] rn[i]).0 matches Some(x) ==> x < b)
        &&& (rn[i].1 matches Some(x) ==> x < b)
    }
}

/// (last new line seen, removed rows since) before row `i`.
pub open spec fn tk_state(rn: Seq<RowNums>, i: int) -> (Option<u64>, int)
    decreases i,
{
    if i <= 0 {
        (None, 0)
    } else {
        let st = tk_state(rn, i - 1);
        match rn[i - 1].1 {
            Some(r) => (Some(r), 0),
            None => (st.0, st.1 + 1),
        }
    }
}

/// The text view's sort key of row `i`: three times its new line, or for a
/// removed row the last new line's key plus the rows removed since.
pub open spec fn text_key(rn: Seq<RowNums>, i: int) -> u64 {
    let st = tk_state(rn, i);
    match rn[i].1 {
        Some(r) => (r * 3) as u64,
        None => match st.0 {
            Some(p) => (p * 3 + st.1 + 1) as u64,
            None => (st.1 + 1) as u64,
        },
    }
}

/// The keyed row items of the text view.
pub open spec fn text_row_items(rn: Seq<RowNums>) -> Seq<Keyed> {
    Seq::new(rn.len(), |i: int| (text_key(rn, i), Item::Row(i as usize)))
}

/// Gap-paired items, keyed by their new line.
pub open spec fn gp_items(gp: Seq<(usize, usize)>) -> Seq<Keyed> {
    Seq::new(gp.len(), |i: int| (((gp[i].1 as int) * KEY_SPACE) as u64, Item::GapPaired(gp[i].0, gp[i].1)))
}

/// Gap-removed items, keyed like the row nearest to them in old lines.
pub open spec fn gr_items(rn: Seq<RowNums>, base: Seq<Keyed>, gr: Seq<usize>) -> Seq<Keyed> {
    Seq::new(gr.len(), |i: int| (nearest_key(rn, base, gr[i] as int), Item::GapRemoved(gr[i])))
}

/// Gap-added items, keyed just before the next new line.
pub open spec fn ga_items(ga: Seq<usize>) -> Seq<Keyed> {
    Seq::new(ga.len(), |i: int| (((ga[i] as int) * KEY_SPACE + KEY_SPACE - 1) as u64, Item::GapAdded(ga[i])))
}

/// The gap items of a chunk with extents `f`, given its row items `base`.
pub open spec fn gap_items(d: DifftOutput, chunk: Seq<LineEntry>, f: (usize, usize, usize, usize), rn: Seq<RowNums>, base: Seq<Keyed>) -> Seq<Keyed> {
    let g = gap_lines(chunk, d.hunks@, f.0 as int, f.1 as int, f.2 as int, f.3 as int, d.old_lines@, d.new_lines@);
    gp_items(g.0) + gr_items(rn, base, g.1) + ga_items(g.2)
}

/// Extents widened by those of other items.
pub open spec fn widen(f: (usize, usize, usize, usize), e: (usize, usize, usize, usize)) -> (usize, usize, usize, usize) {
    (min_u(f.0, e.0), max_u(f.1, e.1), min_u(f.2, e.2), max_u(f.3, e.3))
}

/// The items of a chunk for the text view, sorted and with out-of-order gap
/// lines dropped, and the chunk's extents widened by the gap lines.
#[verifier::opaque]
pub open spec fn text_items(d: DifftOutput, chunk: Seq<LineEntry>, f: (usize, usize, usize, usize))
    -> (Seq<RowNums>, Seq<Keyed>, (usize, usize, usize, usize))
{
    let rn = rows_nums(chunk_rows(d, chunk));
    let base = text_row_items(rn);
    let gaps = gap_items(d, chunk, f, rn, base);
    (rn, keep_ordered(rn, sort_keyed(rn, base + gaps), None), widen(f, extents(rn, gaps)))
}

/// The rows of a chunk and their line numbers, below the line limit.
pub(crate) fn chunk_row_nums<'a>(d: &DifftOutput, chunk: &'a Vec<LineEntry>) -> (res: (Vec<crate::rows::DiffRow<'a>>, Vec<RowNums>))
    requires
        chunk@.len() < LINE_LIMIT,
        entries_below(chunk@, LINE_LIMIT as int),
    ensures
        rows_view(res.0@) == chunk_rows(*d, chunk@),
        res.1@ == rows_nums(chunk_rows(*d, chunk@)),
        res.1@.len() <= 2 * LINE_LIMIT,
        nums_below(res.1@, LINE_LIMIT as int),
{
    let rows0 = consolidate_chunk(chunk.as_slice());
    let rows = fix_reorders(rows0, d.old_lines.as_slice(), d.new_lines.as_slice());
    let rn = row_nums_of(&rows);
    proof {
        lemma_consolidate_bounded(chunk@, 0, LINE_LIMIT as int);
        let c = consolidate(chunk@, 0);
        lemma_fix_rows_bounded(c, 0, d.old_lines@, d.new_lines@, LINE_LIMIT as int);
        let rs = chunk_rows(*d, chunk@);
        assert forall|i: int| 0 <= i < rn@.len() implies {
            &&& ((#[trigger] rn@[i]).0 matches Some(x) ==> x < LINE_LIMIT)
            &&& (rn@[i].1 matches Some(x) ==> x < LINE_LIMIT)
        } by {
            assert(rn@[i] == crate::items::row_nums(rs[i]));
        }
    }
    (rows, rn)
}

/// The keyed row items of the text view.
fn text_row_items_exec(rn: &Vec<RowNums>) -> (items: Vec<Keyed>)
    requires
        rn@.len() <= 2 * LINE_LIMIT,
        nums_below(rn@, LINE_LIMIT as int),
    ensures
        items@ == text_row_items(rn@),
        items_ok(rn@.len(), items@),
{
    let mut items: Vec<Keyed> = Vec::new();
    let mut prev: Option<u64> = None;
    let mut removed_seq: u64 = 0;
    let mut i: usize = 0;
    while i < rn.len()
        invariant
            i <= rn@.len() <= 2 * LINE_LIMIT,
            nums_below(rn@, LINE_LIMIT as int),
            (prev, removed_seq as int) == tk_state(rn@, i as int),
            removed_seq <= i,
            prev matches Some(p) ==> p < LINE_LIMIT,
            items@ == text_row_items(rn@).take(i as int),
        decreases rn@.len() - i,
    {
        let key = match rn[i].1 {
            Some(r) => {
                prev = Some(r);
                removed_seq = 0;
                r * 3
            },
            None => {
                removed_seq = removed_seq + 1;
                match prev {
                    Some(p) => p * 3 + removed_seq,
                    None => removed_seq,
                }
            },
        };
        items.push((key, Item::Row(i)));
        proof {
            assert(items@ =~= text_row_items(rn@).take(i + 1));
        }
        i = i + 1;
    }
    proof { assert(text_row_items(rn@).take(rn@.len() as int) == text_row_items(rn@)); }
    items
}

/// The hunk gap lines of a chunk with extents `f`.
pub(crate) fn gap_lines_exec(d: &DifftOutput, chunk: &Vec<LineEntry>, f: (usize, usize, usize, usize))
    -> (g: (Vec<(usize, usize)>, Vec<usize>, Vec<usize>))
    requires
        difft_fits(*d),
        f.1 <= 2 * LINE_LIMIT,
        f.3 <= 2 * LINE_LIMIT,
    ensures
        (g.0@, g.1@, g.2@) == gap_lines(chunk@, d.hunks@, f.0 as int, f.1 as int, f.2 as int, f.3 as int, d.old_lines@, d.new_lines@),
        forall|q: int| 0 <= q < g.0@.len() ==> (#[trigger] g.0@[q]).0 < 2 * LINE_LIMIT && g.0@[q].1 < 2 * LINE_LIMIT,
        all_below(g.1@, 2 * LINE_LIMIT),
        all_below(g.2@, 2 * LINE_LIMIT),
{
    proof { lemma_fits_hunks(*d); }
    let g = hunk_gap_lines(chunk.as_slice(), d.hunks.as_slice(), f.0, f.1, f.2, f.3,
        d.old_lines.as_slice(), d.new_lines.as_slice());
    proof {
        lemma_gap_lines_below(chunk@, d.hunks@, f.0 as int, f.1 as int, f.2 as int, f.3 as int,
            d.old_lines@, d.new_lines@, 2 * LINE_LIMIT);
        let gl = gap_lines(chunk@, d.hunks@, f.0 as int, f.1 as int, f.2 as int, f.3 as int, d.old_lines@, d.new_lines@);
        assert(g.0@ == gl.0 && g.1@ == gl.1 && g.2@ == gl.2);
    }
    g
}

/// The gap items of a chunk: paired, then removed, then added lines.
fn gap_items_exec(d: &DifftOutput, chunk: &Vec<LineEntry>, f: (usize, usize, usize, usize), rn: &Vec<RowNums>, base: &Vec<Keyed>) -> (gaps: Vec<Keyed>)
    requires
        difft_fits(*d),
        f.1 <= 2 * LINE_LIMIT,
        f.3 <= 2 * LINE_LIMIT,
        items_ok(rn@.len(), base@),
        nums_below(rn@, LINE_LIMIT as int),
    ensures
        gaps@ == gap_items(*d, chunk@, f, rn@, base@),
        items_ok(rn@.len(), gaps@),
{
    let (gp, gr, ga) = gap_lines_exec(d, chunk, f);
    gap_items_of(&gp, &gr, &ga, rn, base)
}

/// The keyed items of gap lines: paired, then removed, then added lines.
pub(crate) fn gap_items_of(gp: &Vec<(usize, usize)>, gr: &Vec<usize>, ga: &Vec<usize>, rn: &Vec<RowNums>, base: &Vec<Keyed>) -> (gaps: Vec<Keyed>)
    requires
        forall|q: int| 0 <= q < gp@.len() ==> (#[trigger] gp@[q]).0 < 2 * LINE_LIMIT && gp@[q].1 < 2 * LINE_LIMIT,
        all_below(gr@, 2 * LINE_LIMIT),
        all_below(ga@, 2 * LINE_LIMIT),
        items_ok(rn@.len(), base@),
        nums_below(rn@, LINE_LIMIT as int),
    ensures
        gaps@ == gp_items(gp@) + gr_items(rn@, base@, gr@) + ga_items(ga@),
        items_ok(rn@.len(), gaps@),
{
    let ghost g = (gp@, gr@, ga@);
    let mut gaps: Vec<Keyed> = Vec::new();
    let mut i: usize = 0;
    while i < gp.len()
        invariant
            i <= gp@.len(),
            gp@ == g.0,
            forall|q: int| 0 <= q < g.0.len() ==> (#[trigger] g.0[q]).0 < 2 * LINE_LIMIT && g.0[q].1 < 2 * LINE_LIMIT,
            gaps@ == gp_items(g.0).take(i as int),
            items_ok(rn@.len(), gaps@),
        decreases gp@.len() - i,
    {
        let (o, n) = gp[i];
        assert(g.0[i as int] == (o, n));
        gaps.push(((n as u64) * KEY_SPACE, Item::GapPaired(o, n)));
        proof {
            assert(gaps@ =~= gp_items(g.0).take(i + 1));
        }
        i = i + 1;
    }
    proof { assert(gp_items(g.0).take(g.0.len() as int) == gp_items(g.0)); }
    let ghost after_p = gaps@;
    let mut j: usize = 0;
    while j < gr.len()
        invariant
            j <= gr@.len(),
            gr@ == g.1,
            all_below(g.1, 2 * LINE_LIMIT),
            items_ok(rn@.len(), base@),
            nums_below(rn@, LINE_LIMIT as int),
            gaps@ == after_p + gr_items(rn@, base@, g.1).take(j as int),
            items_ok(rn@.len(), gaps@),
        decreases gr@.len() - j,
    {
        let o = gr[j];
        assert(g.1[j as int] == o);
        let key = nearest_row_key(rn, base, o);
        gaps.push((key, Item::GapRemoved(o)));
        proof {
            assert(gr_items(rn@, base@, g.1).take(j + 1) =~= gr_items(rn@, base@, g.1).take(j as int).push((key, Item::GapRemoved(o))));
        }
        j = j + 1;
    }
    proof { assert(gr_items(rn@, base@, g.1).take(g.1.len() as int) == gr_items(rn@, base@, g.1)); }
    let ghost after_r = gaps@;
    let mut k: usize = 0;
    while k < ga.len()
        invariant
            k <= ga@.len(),
            ga@ == g.2,
            all_below(g.2, 2 * LINE_LIMIT),
            gaps@ == after_r + ga_items(g.2).take(k as int),
            items_ok(rn@.len(), gaps@),
        decreases ga@.len() - k,
    {
        let n = ga[k];
        assert(g.2[k as int] == n);
        gaps.push(((n as u64) * KEY_SPACE + KEY_SPACE - 1, Item::GapAdded(n)));
        proof {
            assert(ga_items(g.2).take(k + 1) =~= ga_items(g.2).take(k as int).push((((n as int) * KEY_SPACE + KEY_SPACE - 1) as u64, Item::GapAdded(n))));
        }
        k = k + 1;
    }
    proof {
        assert(ga_items(g.2).take(g.2.len() as int) == ga_items(g.2));
    }
    gaps
}

/// The items of a chunk for the text view, with the widened extents.
#[verifier::rlimit(30)]
fn text_items_exec<'a>(d: &DifftOutput, chunk: &'a Vec<LineEntry>, f: (usize, usize, usize, usize)) -> (res: (Vec<RowNums>, Vec<Keyed>, (usize, usize, usize, usize)))
    requires
        difft_fits(*d),
        chunk@.len() < LINE_LIMIT,
        entries_below(chunk@, LINE_LIMIT as int),
        f.0 <= 2 * LINE_LIMIT,
        f.1 <= 2 * LINE_LIMIT,
        f.2 <= 2 * LINE_LIMIT,
        f.3 <= 2 * LINE_LIMIT,
    ensures
        (res.0@, res.1@, res.2) == text_items(*d, chunk@, f),
        items_ok(res.0@.len(), res.1@),
        nums_below(res.0@, LINE_LIMIT as int),
        res.2.1 <= 2 * LINE_LIMIT,
        res.2.3 <= 2 * LINE_LIMIT,
{
    proof { reveal(text_items); }
    let (_rows, rn) = chunk_row_nums(d, chunk);
    let mut items = text_row_items_exec(&rn);
    let gaps = gap_items_exec(d, chunk, f, &rn, &items);
    let ghost base = items@;
    let ge = items_extents(&rn, &gaps);
    let mut i: usize = 0;
    while i < gaps.len()
        invariant
            i <= gaps@.len(),
            items_ok(rn@.len(), gaps@),
            items_ok(rn@.len(), items@),
            items@ == base + gaps@.take(i as int),
        decreases gaps@.len() - i,
    {
        items.push(gaps[i]);
        proof {
            assert(gaps@.take(i + 1) == gaps@.take(i as int).push(gaps@[i as int]));
        }
        i = i + 1;
    }
    proof { assert(gaps@.take(gaps@.len() as int) == gaps@); }
    let sorted = sort_items(&rn, &items);
    let kept = keep_old_order(&rn, &sorted);
    let e = (
        if ge.0 < f.0 { ge.0 } else { f.0 },
        if ge.1 > f.1 { ge.1 } else { f.1 },
        if ge.2 < f.2 { ge.2 } else { f.2 },
        if ge.3 > f.3 { ge.3 } else { f.3 },
    );
    proof {
        lemma_extents_bounded(rn@, gaps@);
    }
    (rn, kept, e)
}

/// The last lines of items stay below the gap limit and the line limit.
pub(crate) proof fn lemma_extents_bounded(rn: Seq<RowNums>, s: Seq<Keyed>)
    requires
        items_ok(rn.len(), s),
        nums_below(rn, LINE_LIMIT as int),
    ensures
        extents(rn, s).1 < 2 * LINE_LIMIT,
        extents(rn, s).3 < 2 * LINE_LIMIT,
    decreases s.len(),
{
    if s.len() > 0 {
        let t = s.drop_last();
        assert forall|i: int| 0 <= i < t.len() implies crate::items::item_ok(rn.len(), (#[trigger] t[i]).1) by {
            assert(t[i] == s[i]);
        }
        lemma_extents_bounded(rn, t);
        assert(crate::items::item_ok(rn.len(), s[s.len() - 1].1));
        assert(s.last() == s[s.len() - 1]);
        match s.last().1 {
            Item::Row(r) => {
                assert(rn[r as int].0 matches Some(x) ==> x < LINE_LIMIT);
                assert(rn[r as int].1 matches Some(x) ==> x < LINE_LIMIT);
                match rn[r as int].0 { Some(x) => { assert((x as usize) as int == x); }, None => {} }
                match rn[r as int].1 { Some(x) => { assert((x as usize) as int == x); }, None => {} }
            },
            _ => {},
        }
    }
}

/// The items that a line filter keeps and their extents, a side without items
/// mapped from the other; `None` when the filter keeps no item.
#[verifier::opaque]
pub open spec fn filtered(d: DifftOutput, rn: Seq<RowNums>, kept: Seq<Keyed>, e: (usize, usize, usize, usize),
    filter: Option<(usize, usize)>) -> Option<(Seq<Keyed>, (usize, usize, usize, usize))>
{
    match filter {
        None => Some((kept, e)),
        Some(fr) => {
            let fi = filter_items(rn, kept, fr.0, fr.1);
            if fi.len() == 0 {
                None
            } else {
                let x = extents(rn, fi);
                let x2 = if x.0 == usize::MAX && x.2 != usize::MAX {
                    (n2o0(x.2 + 1, d.hunks@), n2o0(x.3 + 1, d.hunks@), x.2, x.3)
                } else if x.2 == usize::MAX && x.0 != usize::MAX {
                    (x.0, x.1, o2n0(x.0 + 1, d.hunks@), o2n0(x.1 + 1, d.hunks@))
                } else {
                    x
                };
                Some((fi, x2))
            }
        },
    }
}

/// The filtered items and extents.
pub(crate) fn filtered_exec(d: &DifftOutput, rn: &Vec<RowNums>, kept: &Vec<Keyed>, e: (usize, usize, usize, usize),
    filter: Option<(usize, usize)>) -> (res: Option<(Vec<Keyed>, (usize, usize, usize, usize))>)
    requires
        difft_fits(*d),
        items_ok(rn@.len(), kept@),
        nums_below(rn@, LINE_LIMIT as int),
        e.1 <= 2 * LINE_LIMIT,
        e.3 <= 2 * LINE_LIMIT,
    ensures
        match res {
            None => filtered(*d, rn@, kept@, e, filter) is None,
            Some(r) => filtered(*d, rn@, kept@, e, filter) == Some((r.0@, r.1))
                && items_ok(rn@.len(), r.0@) && r.1.1 <= 4 * LINE_LIMIT && r.1.3 <= 4 * LINE_LIMIT
                && (e.0 <= 2 * LINE_LIMIT && e.2 <= 2 * LINE_LIMIT ==> r.1.0 <= 4 * LINE_LIMIT && r.1.2 <= 4 * LINE_LIMIT),
        },
{
    proof { reveal(filtered); }
    match filter {
        None => {
            let mut c: Vec<Keyed> = Vec::new();
            let mut i: usize = 0;
            while i < kept.len()
                invariant
                    i <= kept@.len(),
                    items_ok(rn@.len(), kept@),
                    c@ == kept@.take(i as int),
                decreases kept@.len() - i,
            {
                c.push(kept[i]);
                proof { assert(kept@.take(i + 1) == kept@.take(i as int).push(kept@[i as int])); }
                i = i + 1;
            }
            proof { assert(kept@.take(kept@.len() as int) == kept@); }
            Some((c, e))
        },
        Some((fs, fe)) => {
            let fi = filter_by_lines(rn, kept, fs, fe);
            if fi.len() == 0 {
                return None;
            }
            let x = items_extents(rn, &fi);
            proof { lemma_extents_bounded(rn@, fi@); }
            let hunks = d.hunks.as_slice();
            let x2 = if x.0 == usize::MAX && x.2 != usize::MAX {
                proof {
                    lemma_extents_first_bounded(rn@, fi@);
                    lemma_fits_mapping(*d, (x.2 + 1) as u64);
                    lemma_fits_mapping(*d, (x.3 + 1) as u64);
                    lemma_new_to_old_bounded(x.2 + 1, d.hunks@, 0, LINE_LIMIT as int);
                    lemma_new_to_old_bounded(x.3 + 1, d.hunks@, 0, LINE_LIMIT as int);
                }
                (to_0based(new_to_old_line(x.2 as u64 + 1, hunks)), to_0based(new_to_old_line(x.3 as u64 + 1, hunks)), x.2, x.3)
            } else if x.2 == usize::MAX && x.0 != usize::MAX {
                proof {
                    lemma_extents_first_bounded(rn@, fi@);
                    lemma_fits_mapping(*d, (x.0 + 1) as u64);
                    lemma_fits_mapping(*d, (x.1 + 1) as u64);
                    lemma_old_to_new_bounded(x.0 + 1, d.hunks@, 0, LINE_LIMIT as int);
                    lemma_old_to_new_bounded(x.1 + 1, d.hunks@, 0, LINE_LIMIT as int);
                }
                (x.0, x.1, to_0based(old_to_new_line(x.0 as u64 + 1, hunks)), to_0based(old_to_new_line(x.1 as u64 + 1, hunks)))
            } else {
                proof {
                    lemma_extents_first_bounded(rn@, fi@);
                    lemma_filter_passes(rn@, kept@, fs, fe);
                    assert(crate::items::in_filter(rn@, fi@[0].1, fs, fe));
                    lemma_extents_sides(rn@, fi@, 0);
                }
                x
            };
            Some((fi, x2))
        },
    }
}

/// Every item that the line filter keeps passes it.
proof fn lemma_filter_passes(rn: Seq<RowNums>, s: Seq<Keyed>, a: usize, b: usize)
    ensures
        forall|i: int| 0 <= i < filter_items(rn, s, a, b).len()
            ==> crate::items::in_filter(rn, (#[trigger] filter_items(rn, s, a, b)[i]).1, a, b),
    decreases s.len(),
{
    if s.len() > 0 {
        lemma_filter_passes(rn, s.drop_last(), a, b);
        let r = filter_items(rn, s.drop_last(), a, b);
        if crate::items::in_filter(rn, s.last().1, a, b) {
            assert forall|i: int| 0 <= i < filter_items(rn, s, a, b).len()
                implies crate::items::in_filter(rn, (#[trigger] filter_items(rn, s, a, b)[i]).1, a, b) by {
                if i < r.len() {
                    assert(filter_items(rn, s, a, b)[i] == r[i]);
                }
            }
        }
    }
}

/// An item with an old (new) line makes the items' first old (new) line a line.
proof fn lemma_extents_sides(rn: Seq<RowNums>, s: Seq<Keyed>, i: int)
    requires
        items_ok(rn.len(), s),
        nums_below(rn, LINE_LIMIT as int),
        0 <= i < s.len(),
    ensures
        crate::items::item_old_idx(rn, s[i].1) is Some ==> extents(rn, s).0 < 2 * LINE_LIMIT,
        crate::items::item_new_idx(rn, s[i].1) is Some ==> extents(rn, s).2 < 2 * LINE_LIMIT,
    decreases s.len(),
{
    let t = s.drop_last();
    assert forall|q: int| 0 <= q < t.len() implies crate::items::item_ok(rn.len(), (#[trigger] t[q]).1) by {
        assert(t[q] == s[q]);
    }
    assert(crate::items::item_ok(rn.len(), s[s.len() - 1].1));
    assert(s.last() == s[s.len() - 1]);
    match s.last().1 {
        Item::Row(r) => {
            assert(rn[r as int].0 matches Some(x) ==> x < LINE_LIMIT);
            assert(rn[r as int].1 matches Some(x) ==> x < LINE_LIMIT);
            match rn[r as int].0 { Some(x) => { assert((x as usize) as int == x); }, None => {} }
            match rn[r as int].1 { Some(x) => { assert((x as usize) as int == x); }, None => {} }
        },
        _ => {},
    }
    if i < s.len() - 1 {
        assert(t[i] == s[i]);
        lemma_extents_sides(rn, t, i);
    }
}

/// Where some item has a side, its first line on that side is below the gap
/// limit and not above its last.
pub(crate) proof fn lemma_extents_first_bounded(rn: Seq<RowNums>, s: Seq<Keyed>)
    requires
        items_ok(rn.len(), s),
        nums_below(rn, LINE_LIMIT as int),
    ensures
        extents(rn, s).0 != usize::MAX ==> extents(rn, s).0 <= extents(rn, s).1 < 2 * LINE_LIMIT,
        extents(rn, s).2 != usize::MAX ==> extents(rn, s).2 <= extents(rn, s).3 < 2 * LINE_LIMIT,
    decreases s.len(),
{
    if s.len() > 0 {
        let t = s.drop_last();
        assert forall|i: int| 0 <= i < t.len() implies crate::items::item_ok(rn.len(), (#[trigger] t[i]).1) by {
            assert(t[i] == s[i]);
        }
        lemma_extents_first_bounded(rn, t);
        lemma_extents_bounded(rn, t);
        assert(crate::items::item_ok(rn.len(), s[s.len() - 1].1));
        assert(s.last() == s[s.len() - 1]);
        match s.last().1 {
            Item::Row(r) => {
                assert(rn[r as int].0 matches Some(x) ==> x < LINE_LIMIT);
                assert(rn[r as int].1 matches Some(x) ==> x < LINE_LIMIT);
                match rn[r as int].0 { Some(x) => { assert((x as usize) as int == x); }, None => {} }
                match rn[r as int].1 { Some(x) => { assert((x as usize) as int == x); }, None => {} }
            },
            _ => {},
        }
    }
}

/// The text lines of one item.
pub open spec fn item_text(d: DifftOutput, rn: Seq<RowNums>, it: Item, base: int) -> Seq<char> {
    let old = d.old_lines@;
    let new = d.new_lines@;
    match it {
        Item::Row(i) => match (rn[i as int].0, rn[i as int].1) {
            (Some(l), Some(r)) => {
                let n = r as usize;
                let ot = line_at(old, (l as usize) as int);
                let nt = line_at(new, n as int);
                if ot == nt {
                    fmt_line(' ', n as int, nt, base)
                } else {
                    fmt_line('-', n as int, ot, base) + fmt_line('+', n as int, nt, base)
                }
            },
            (Some(l), None) => fmt_line('-', o2n0(l + 1, d.hunks@) as int, line_at(old, (l as usize) as int), base),
            (None, Some(r)) => fmt_line('+', (r as usize) as int, line_at(new, (r as usize) as int), base),
            (None, None) => Seq::empty(),
        },
        Item::GapRemoved(o) => fmt_line('-', o2n0(o + 1, d.hunks@) as int, line_at(old, o as int), base),
        Item::GapAdded(n) => fmt_line('+', n as int, line_at(new, n as int), base),
        Item::GapPaired(_, n) => fmt_line(' ', n as int, line_at(new, n as int), base),
    }
}

/// A column of digits and spaces (a line's number column).
pub open spec fn num_col(c: Seq<char>) -> bool {
    forall|k: int| 0 <= k < c.len() ==> c[k] == ' ' || crate::parse::is_digit(#[trigger] c[k])
}

/// `t` is one text line: a number column, the sign `sign`, `content`, and a newline.
pub open spec fn signed_line(t: Seq<char>, sign: char, content: Seq<char>) -> bool {
    exists|c: Seq<char>| num_col(c) && t == c + seq![sign] + content + seq!['\n']
}

/// `k` spaces.
pub open spec fn spaces(k: nat) -> Seq<char> {
    Seq::new(k, |i: int| ' ')
}

/// The number column of a line for new line `new0` (0-based) counted from
/// `base`: the 1-based relative number right-aligned (after spaces) and a
/// space, or five spaces for a line before `base`.
pub open spec fn number_col(c: Seq<char>, new0: int, base: int) -> bool {
    if new0 >= base {
        exists|k: nat| c == #[trigger] spaces(k) + dec((new0 - base + 1) as nat) + seq![' ']
    } else {
        c == seq![' ', ' ', ' ', ' ', ' ']
    }
}

/// `t` is one text line for new line `new0`: its number column, the sign, `content`, a newline.
pub open spec fn numbered_line(t: Seq<char>, sign: char, new0: int, content: Seq<char>, base: int) -> bool {
    exists|c: Seq<char>| number_col(c, new0, base) && t == c + seq![sign] + content + seq!['\n']
}

proof fn lemma_fmt_line_signed(prefix: char, new0: int, content: Seq<char>, base: int)
    ensures
        signed_line(fmt_line(prefix, new0, content, base), prefix, content),
        numbered_line(fmt_line(prefix, new0, content, base), prefix, new0, content, base),
{
    if new0 >= base {
        let d = dec((new0 - base + 1) as nat);
        crate::parse::lemma_dec_digits((new0 - base + 1) as nat);
        let col = pad4(d) + seq![' '];
        assert forall|k: int| 0 <= k < col.len() implies col[k] == ' ' || crate::parse::is_digit(#[trigger] col[k]) by {
            if d.len() < 4 {
                let sp = Seq::new((4 - d.len()) as nat, |i: int| ' ');
                assert(pad4(d) == sp + d);
                if k < sp.len() {
                    assert(col[k] == sp[k]);
                } else if k < sp.len() + d.len() {
                    assert(col[k] == d[k - sp.len()]);
                }
            } else {
                if k < d.len() { assert(col[k] == d[k]); }
            }
        }
        assert(fmt_line(prefix, new0, content, base) =~= col + seq![prefix] + content + seq!['\n']);
        assert(num_col(col));
        let k: nat = if d.len() < 4 { (4 - d.len()) as nat } else { 0 };
        assert(col =~= spaces(k) + d + seq![' ']);
        assert(number_col(col, new0, base));
    } else {
        let col = seq![' ', ' ', ' ', ' ', ' '];
        assert(num_col(col));
        assert(number_col(col, new0, base));
        assert(fmt_line(prefix, new0, content, base) =~= col + seq![prefix] + content + seq!['\n']);
    }
}

/// The signs of the text lines: a removed line (a row with only an old side,
/// or a removed gap line) is written with `-` and the old line's text; an
/// added line with `+` and the new line's text; a changed pair as a `-` line
/// of the old text followed by a `+` line of the new text; an unchanged pair
/// (or paired gap line) as a ` ` line of the new text. Each line's number is
/// the new line it stands at (a removed line: where its old line maps to in
/// the new file), counted from `base`.
pub proof fn lemma_item_text_signs(d: DifftOutput, rn: Seq<RowNums>, it: Item, base: int)
    ensures
        ({
            let old = d.old_lines@;
            let new = d.new_lines@;
            let t = item_text(d, rn, it, base);
            match it {
                Item::Row(i) => match (rn[i as int].0, rn[i as int].1) {
                    (Some(l), None) => signed_line(t, '-', line_at(old, (l as usize) as int))
                        && numbered_line(t, '-', o2n0(l + 1, d.hunks@) as int, line_at(old, (l as usize) as int), base),
                    (None, Some(r)) => signed_line(t, '+', line_at(new, (r as usize) as int))
                        && numbered_line(t, '+', (r as usize) as int, line_at(new, (r as usize) as int), base),
                    (Some(l), Some(r)) => {
                        let ot = line_at(old, (l as usize) as int);
                        let nt = line_at(new, (r as usize) as int);
                        &&& ot == nt ==> signed_line(t, ' ', nt) && numbered_line(t, ' ', (r as usize) as int, nt, base)
                        &&& ot != nt ==> exists|t1: Seq<char>, t2: Seq<char>|
                            t == t1 + t2 && signed_line(t1, '-', ot) && signed_line(t2, '+', nt)
                            && numbered_line(t1, '-', (r as usize) as int, ot, base)
                            && numbered_line(t2, '+', (r as usize) as int, nt, base)
                    },
                    (None, None) => t.len() == 0,
                },
                Item::GapRemoved(o) => signed_line(t, '-', line_at(old, o as int))
                    && numbered_line(t, '-', o2n0(o + 1, d.hunks@) as int, line_at(old, o as int), base),
                Item::GapAdded(n) => signed_line(t, '+', line_at(new, n as int))
                    && numbered_line(t, '+', n as int, line_at(new, n as int), base),
                Item::GapPaired(_, n) => signed_line(t, ' ', line_at(new, n as int))
                    && numbered_line(t, ' ', n as int, line_at(new, n as int), base),
            }
        }),
{
    let old = d.old_lines@;
    let new = d.new_lines@;
    match it {
        Item::Row(i) => match (rn[i as int].0, rn[i as int].1) {
            (Some(l), None) => {
                lemma_fmt_line_signed('-', o2n0(l + 1, d.hunks@) as int, line_at(old, (l as usize) as int), base);
            },
            (None, Some(r)) => {
                lemma_fmt_line_signed('+', (r as usize) as int, line_at(new, (r as usize) as int), base);
            },
            (Some(l), Some(r)) => {
                let n = r as usize;
                let ot = line_at(old, (l as usize) as int);
                let nt = line_at(new, n as int);
                lemma_fmt_line_signed(' ', n as int, nt, base);
                lemma_fmt_line_signed('-', n as int, ot, base);
                lemma_fmt_line_signed('+', n as int, nt, base);
                if ot != nt {
                    let t1 = fmt_line('-', n as int, ot, base);
                    let t2 = fmt_line('+', n as int, nt, base);
                    assert(item_text(d, rn, it, base) == t1 + t2);
                }
            },
            (None, None) => {},
        },
        Item::GapRemoved(o) => { lemma_fmt_line_signed('-', o2n0(o + 1, d.hunks@) as int, line_at(old, o as int), base); },
        Item::GapAdded(n) => { lemma_fmt_line_signed('+', n as int, line_at(new, n as int), base); },
        Item::GapPaired(_, n) => { lemma_fmt_line_signed(' ', n as int, line_at(new, n as int), base); },
    }
}

/// The text lines of items, in order.
pub open spec fn items_text(d: DifftOutput, rn: Seq<RowNums>, s: Seq<Keyed>, base: int) -> Seq<char>
    decreases s.len(),
{
    if s.len() == 0 {
        Seq::empty()
    } else {
        items_text(d, rn, s.drop_last(), base) + item_text(d, rn, s.last().1, base)
    }
}

/// Appends the text lines of one item.
fn push_item(out: &mut String, d: &DifftOutput, rn: &Vec<RowNums>, it: Item, base: usize)
    requires
        difft_fits(*d),
        crate::items::item_ok(rn@.len(), it),
        nums_below(rn@, LINE_LIMIT as int),
    ensures
        final(out)@ == old(out)@ + item_text(*d, rn@, it, base as int),
{
    let old_lines = d.old_lines.as_slice();
    let new_lines = d.new_lines.as_slice();
    let hunks = d.hunks.as_slice();
    match it {
        Item::Row(i) => {
            assert(nums_below(rn@, LINE_LIMIT as int) ==> (rn@[i as int].0 matches Some(x) ==> x < LINE_LIMIT));
            match (rn[i].0, rn[i].1) {
                (Some(l), Some(r)) => {
                    let n = r as usize;
                    let ot = str_at(old_lines, l as usize);
                    let nt = str_at(new_lines, n);
                    if crate::text::str_eq(ot, nt) {
                        push_line(out, ' ', n, nt, base);
                    } else {
                        push_line(out, '-', n, ot, base);
                        push_line(out, '+', n, nt, base);
                    }
                },
                (Some(l), None) => {
                    proof {
                        lemma_fits_mapping(*d, (l + 1) as u64);
                        lemma_old_to_new_bounded(l + 1, d.hunks@, 0, LINE_LIMIT as int);
                    }
                    let n = to_0based(old_to_new_line(l + 1, hunks));
                    push_line(out, '-', n, str_at(old_lines, l as usize), base);
                },
                (None, Some(r)) => {
                    push_line(out, '+', r as usize, str_at(new_lines, r as usize), base);
                },
                (None, None) => {},
            }
        },
        Item::GapRemoved(o) => {
            proof {
                lemma_fits_mapping(*d, (o + 1) as u64);
                lemma_old_to_new_bounded(o + 1, d.hunks@, 0, LINE_LIMIT as int);
            }
            let n = to_0based(old_to_new_line(o as u64 + 1, hunks));
            push_line(out, '-', n, str_at(old_lines, o), base);
        },
        Item::GapAdded(n) => {
            push_line(out, '+', n, str_at(new_lines, n), base);
        },
        Item::GapPaired(_, n) => {
            push_line(out, ' ', n, str_at(new_lines, n), base);
        },
    }
}

/// Appends the text lines of items.
fn push_items(out: &mut String, d: &DifftOutput, rn: &Vec<RowNums>, items: &Vec<Keyed>, base: usize)
    requires
        difft_fits(*d),
        items_ok(rn@.len(), items@),
        nums_below(rn@, LINE_LIMIT as int),
    ensures
        final(out)@ == old(out)@ + items_text(*d, rn@, items@, base as int),
{
    let ghost start = out@;
    let mut i: usize = 0;
    while i < items.len()
        invariant
            i <= items@.len(),
            difft_fits(*d),
            items_ok(rn@.len(), items@),
            nums_below(rn@, LINE_LIMIT as int),
            out@ == start + items_text(*d, rn@, items@.take(i as int), base as int),
        decreases items@.len() - i,
    {
        proof {
            assert(items@.take(i + 1).drop_last() == items@.take(i as int));
            assert(items@.take(i + 1).last() == items@[i as int]);
        }
        push_item(out, d, rn, items[i].1, base);
        proof {
            assert(out@ =~= start + items_text(*d, rn@, items@.take(i + 1), base as int));
        }
        i = i + 1;
    }
    proof { assert(items@.take(items@.len() as int) == items@); }
}

/// Context lines after a chunk: old and new lines from `ops` and `nps` on,
/// `k` of them, skipping those that are lines of the chunk's items.
pub open spec fn post_text(d: DifftOutput, rn: Seq<RowNums>, kept: Seq<Keyed>, ops: int, nps: int, k: int, base: int) -> Seq<char>
    decreases k,
{
    if k <= 0 {
        Seq::empty()
    } else {
        let i = k - 1;
        let rest = post_text(d, rn, kept, ops, nps, k - 1, base);
        if !has_old_line(rn, kept, (ops + i) as usize) && !has_new_line(rn, kept, (nps + i) as usize) {
            rest + fmt_line(' ', nps + i, line_at(d.new_lines@, nps + i), base)
        } else {
            rest
        }
    }
}

/// Appends the context lines after a chunk.
fn push_post(out: &mut String, d: &DifftOutput, rn: &Vec<RowNums>, kept: &Vec<Keyed>, ops: usize, nps: usize, pc: usize, base: usize)
    requires
        items_ok(rn@.len(), kept@),
        ops + pc <= usize::MAX,
        nps + pc < usize::MAX,
    ensures
        final(out)@ == old(out)@ + post_text(*d, rn@, kept@, ops as int, nps as int, pc as int, base as int),
{
    let ghost start = out@;
    let mut i: usize = 0;
    while i < pc
        invariant
            i <= pc,
            ops + pc <= usize::MAX,
            nps + pc < usize::MAX,
            items_ok(rn@.len(), kept@),
            out@ == start + post_text(*d, rn@, kept@, ops as int, nps as int, i as int, base as int),
        decreases pc - i,
    {
        let o = ops + i;
        let n = nps + i;
        if !items_have_old(rn, kept, o) && !items_have_new(rn, kept, n) {
            push_line(out, ' ', n, str_at(d.new_lines.as_slice(), n), base);
        }
        proof {
            assert(out@ =~= start + post_text(*d, rn@, kept@, ops as int, nps as int, i + 1, base as int));
        }
        i = i + 1;
    }
}

/// The rendering state between chunks: text so far, last old and new lines
/// rendered, and whether no chunk has been rendered yet.
pub type TextState = (Seq<char>, Option<usize>, Option<usize>, bool);

/// Renders one chunk after the state `st`.
pub open spec fn text_chunk(d: DifftOutput, chunk: Seq<LineEntry>, filter: Option<(usize, usize)>, base: int, st: TextState) -> TextState {
    let f = chunk_firsts(chunk, d.hunks@);
    let c = chunk_ctx(d, f);
    let ocs = ctx_start(st.1, c.0);
    let ncs = ctx_start(st.2, c.1);
    let sep = if !st.3 && has_gap_before(st.1, st.2, c.0, c.1) { sep_line() } else { Seq::empty() };
    let pc = min_i(sat_sub(f.0 as int, ocs), sat_sub(f.2 as int, ncs));
    let out1 = st.0 + sep + pre_text(d, f.2 as int, pc, pc, base);
    let t = text_items(d, chunk, f);
    match filtered(d, t.0, t.1, t.2, filter) {
        None => (out1, st.1, st.2, false),
        Some(r) => {
            let x = r.1;
            let out2 = out1 + items_text(d, t.0, r.0, base);
            let ops = x.1 + 1;
            let nps = x.3 + 1;
            let pc2 = min_i(sat_sub(c.2, ops), sat_sub(c.3, nps));
            let out3 = out2 + post_text(d, t.0, t.1, ops, nps, pc2, base);
            if pc2 > 0 {
                (out3, Some((ops + pc2 - 1) as usize), Some((nps + pc2 - 1) as usize), false)
            } else {
                (out3, Some(x.1), Some(x.3), false)
            }
        },
    }
}

/// The smallest new line of the entries, starting from `m`.
pub open spec fn rhs_min(es: Seq<LineEntry>, m: usize) -> usize
    decreases es.len(),
{
    if es.len() == 0 {
        m
    } else {
        let p = rhs_min(es.drop_last(), m);
        match es.last().rhs {
            Some(s) => min_u(p, s.line_number as usize),
            None => p,
        }
    }
}

/// The smallest new line over the selected chunks, or `usize::MAX`.
pub open spec fn base_raw(d: DifftOutput, idx: Seq<usize>) -> usize
    decreases idx.len(),
{
    if idx.len() == 0 {
        usize::MAX
    } else {
        let p = base_raw(d, idx.drop_last());
        if idx.last() < d.chunks@.len() { rhs_min(d.chunks@[idx.last() as int]@, p) } else { p }
    }
}

/// The new line (0-based) that relative numbering starts from: the smallest
/// new line of the selected chunks, or 0 when they have none.
pub open spec fn text_base(d: DifftOutput, idx: Seq<usize>) -> usize {
    let b = base_raw(d, idx);
    if b == usize::MAX { 0 } else { b }
}

/// Renders the selected chunks in order; indices past the chunks are skipped.
pub open spec fn text_fold(d: DifftOutput, idx: Seq<usize>, filter: Option<(usize, usize)>, base: int) -> TextState
    decreases idx.len(),
{
    if idx.len() == 0 {
        (Seq::empty(), None, None, true)
    } else {
        let st = text_fold(d, idx.drop_last(), filter, base);
        if idx.last() < d.chunks@.len() {
            text_chunk(d, d.chunks@[idx.last() as int]@, filter, base, st)
        } else {
            st
        }
    }
}

/// The selected indices that name a chunk, in order.
pub open spec fn chunk_ids(d: DifftOutput, idx: Seq<usize>) -> Seq<usize> {
    idx.filter(|i: usize| i < d.chunks@.len())
}

/// Indices past the chunks are ignored: the text of the selected chunks, and
/// where their relative numbering starts, are those of the indices that name
/// a chunk; in particular no such index gives the empty text.
pub proof fn lemma_text_ignores_missing_chunks(d: DifftOutput, idx: Seq<usize>, filter: Option<(usize, usize)>, base: int)
    ensures
        text_fold(d, idx, filter, base) == text_fold(d, chunk_ids(d, idx), filter, base),
        base_raw(d, idx) == base_raw(d, chunk_ids(d, idx)),
        text_base(d, idx) == text_base(d, chunk_ids(d, idx)),
        chunk_ids(d, idx).len() == 0 ==> text_fold(d, idx, filter, base).0 == Seq::<char>::empty(),
    decreases idx.len(),
{
    let p = |i: usize| i < d.chunks@.len();
    reveal(Seq::filter);
    if idx.len() > 0 {
        lemma_text_ignores_missing_chunks(d, idx.drop_last(), filter, base);
        let f0 = idx.drop_last().filter(p);
        assert(chunk_ids(d, idx.drop_last()) == f0);
        if idx.last() < d.chunks@.len() {
            assert(chunk_ids(d, idx) == f0.push(idx.last()));
            assert(f0.push(idx.last()).drop_last() =~= f0);
            assert(f0.push(idx.last()).last() == idx.last());
        } else {
            assert(chunk_ids(d, idx) == f0);
        }
    } else {
        assert(chunk_ids(d, idx) =~= idx);
    }
}

/// Renders one chunk after the given state.
#[verifier::rlimit(60)]
fn text_chunk_exec(d: &DifftOutput, chunk: &Vec<LineEntry>, filter: Option<(usize, usize)>, base: usize,
    out: String, lo: Option<usize>, ln: Option<usize>, first: bool) -> (res: (String, Option<usize>, Option<usize>, bool))
    requires
        difft_fits(*d),
        chunk@.len() < LINE_LIMIT,
        entries_below(chunk@, LINE_LIMIT as int),
        lo matches Some(l) ==> l <= 8 * LINE_LIMIT,
        ln matches Some(l) ==> l <= 8 * LINE_LIMIT,
    ensures
        (res.0@, res.1, res.2, res.3) == text_chunk(*d, chunk@, filter, base as int, (out@, lo, ln, first)),
        res.1 matches Some(l) ==> l <= 8 * LINE_LIMIT,
        res.2 matches Some(l) ==> l <= 8 * LINE_LIMIT,
{
    let mut out = out;
    let f = chunk_firsts_exec(d, chunk);
    let c = chunk_ctx_exec(d, f);
    let ocs = match lo { Some(l) => if l + 1 > c.0 { l + 1 } else { c.0 }, None => c.0 };
    let ncs = match ln { Some(l) => if l + 1 > c.1 { l + 1 } else { c.1 }, None => c.1 };
    if !first {
        let has_gap = match lo {
            Some(l) => l + 1 < c.0,
            None => match ln {
                Some(l) => l + 1 < c.1,
                None => true,
            },
        };
        if has_gap {
            push_char(&mut out, ' ');
            push_char(&mut out, ' ');
            push_char(&mut out, '.');
            push_char(&mut out, '.');
            push_char(&mut out, '.');
            push_char(&mut out, '\n');
        }
    }
    let ghost after_sep = out@;
    let opc = f.0.saturating_sub(ocs);
    let npc = f.2.saturating_sub(ncs);
    let pc = if opc < npc { opc } else { npc };
    push_pre(&mut out, d, f.2, pc, base);
    let (rn, kept, e) = text_items_exec(d, chunk, f);
    let ghost out1 = out@;
    match filtered_exec(d, &rn, &kept, e, filter) {
        None => {
            (out, lo, ln, false)
        },
        Some((fi, x)) => {
            push_items(&mut out, d, &rn, &fi, base);
            let ops = x.1 + 1;
            let nps = x.3 + 1;
            let op = c.2.saturating_sub(ops);
            let np = c.3.saturating_sub(nps);
            let pc2 = if op < np { op } else { np };
            push_post(&mut out, d, &rn, &kept, ops, nps, pc2, base);
            if pc2 > 0 {
                (out, Some(ops + pc2 - 1), Some(nps + pc2 - 1), false)
            } else {
                (out, Some(x.1), Some(x.3), false)
            }
        },
    }
}

/// Produce a unified-diff-style text representation of selected chunks.
/// Uses the same chunk processing as the HTML rendering (context lines, hunk
/// gap filling, consolidation) but outputs plain text with ` `/`-`/`+`
/// prefixes and line numbers relative to the first changed new line.
/// `line_filter` is an optional 0-based range of new-file lines, inclusive.
pub fn render_chunks_text(difft: &DifftOutput, chunk_indices: &[usize], line_filter: Option<(usize, usize)>) -> (res: String)
    requires
        difft_fits(*difft),
    ensures
        res@ == text_fold(*difft, chunk_indices@, line_filter, text_base(*difft, chunk_indices@) as int).0,
{
    let mut base_new: usize = usize::MAX;
    let mut k: usize = 0;
    while k < chunk_indices.len()
        invariant
            k <= chunk_indices@.len(),
            base_new == base_raw(*difft, chunk_indices@.take(k as int)),
        decreases chunk_indices@.len() - k,
    {
        let idx = chunk_indices[k];
        proof {
            assert(chunk_indices@.take(k + 1).drop_last() == chunk_indices@.take(k as int));
            assert(chunk_indices@.take(k + 1).last() == idx);
        }
        if idx < difft.chunks.len() {
            let chunk = &difft.chunks[idx];
            let ghost m0 = base_new;
            let mut j: usize = 0;
            while j < chunk.len()
                invariant
                    j <= chunk@.len(),
                    base_new == rhs_min(chunk@.take(j as int), m0),
                decreases chunk@.len() - j,
            {
                proof {
                    assert(chunk@.take(j + 1).drop_last() == chunk@.take(j as int));
                    assert(chunk@.take(j + 1).last() == chunk@[j as int]);
                }
                match &chunk[j].rhs {
                    Some(r) => {
                        let v = r.line_number as usize;
                        if v < base_new { base_new = v; }
                    },
                    None => {},
                }
                j = j + 1;
            }
            proof { assert(chunk@.take(chunk@.len() as int) == chunk@); }
        }
        k = k + 1;
    }
    proof { assert(chunk_indices@.take(chunk_indices@.len() as int) == chunk_indices@); }
    if base_new == usize::MAX {
        base_new = 0;
    }
    let ghost base = base_new as int;
    let mut out = String::new();
    let mut lo: Option<usize> = None;
    let mut ln: Option<usize> = None;
    let mut first = true;
    let mut i: usize = 0;
    proof { assert(out@ =~= Seq::<char>::empty()); }
    while i < chunk_indices.len()
        invariant
            i <= chunk_indices@.len(),
            difft_fits(*difft),
            base == base_new as int,
            (out@, lo, ln, first) == text_fold(*difft, chunk_indices@.take(i as int), line_filter, base),
            lo matches Some(l) ==> l <= 8 * LINE_LIMIT,
            ln matches Some(l) ==> l <= 8 * LINE_LIMIT,
        decreases chunk_indices@.len() - i,
    {
        let idx = chunk_indices[i];
        proof {
            assert(chunk_indices@.take(i + 1).drop_last() == chunk_indices@.take(i as int));
            assert(chunk_indices@.take(i + 1).last() == idx);
        }
        if idx < difft.chunks.len() {
            let chunk = &difft.chunks[idx];
            proof {
                assert(difft.chunks@[idx as int] == *chunk);
            }
            let r = text_chunk_exec(difft, chunk, line_filter, base_new, out, lo, ln, first);
            out = r.0;
            lo = r.1;
            ln = r.2;
            first = r.3;
        }
        i = i + 1;
    }
    proof { assert(chunk_indices@.take(chunk_indices@.len() as int) == chunk_indices@); }
    out
}

} // verus!
