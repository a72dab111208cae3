//! The HTML diff block of selected chunks: a side-by-side (or single-column)
//! table with syntax-highlighted lines, visible and expandable context around
//! each chunk, hunk gap lines filled in, and lines that several chunks share
//! shown once.

use vstd::prelude::*;
use crate::html::{
    context_row_expandable_html, context_row_html, single_context_row_expandable_html,
    single_context_row_html, render_context_row, render_context_row_expandable,
    render_single_context_row, render_single_context_row_expandable, DiffLayout,
};
use crate::html::{
    diff_row_html, diff_row_ok, empty_lhs_cells, empty_rhs_cells, lhs_cells, line_at, push_lhs_cells,
    push_rhs_cells, push_tr_open, render_diff_row, render_single_diff_row, rhs_cells, single_added_html,
    single_diff_row_html, single_removed_html, str_at, tr,
};
use crate::difft_json::{ChangeSpan, DiffHunk, DifftOutput};
use crate::fits::LINE_LIMIT;
use crate::gaps::{h_new_start, h_old_start};
use crate::items::{
    has_new_line, has_old_line, item_new_idx, item_old_idx, items_have_new, items_have_old, items_ok,
    max_u, new_idx_of, old_idx_of, Item, Keyed, RowNums, GAP_LIMIT,
};
use crate::rows::{line_str, line_text, row_view, rows_view, DiffRow, RowV};
use crate::text::{chars_of, dec, push_dec_usize, str_eq, string_of_chars, trim, trim_chars};
use crate::textdiff::{
    chunk_ctx, chunk_ctx_exec, ctx_start, filtered, filtered_exec, has_gap_before, chunk_firsts, chunk_firsts_exec, chunk_row_nums, chunk_rows, gap_items, gap_items_of, gap_lines_exec,
    lemma_extents_bounded, min_i, nums_below, sat_sub, widen,
};
use crate::gaps::{all_below, gap_lines};
use crate::items::{extents, items_extents, keep_old_order, keep_ordered, rows_nums, sort_items, sort_keyed, KEY_SPACE};
use crate::difft_json::LineEntry;
use crate::fits::{difft_fits, lemma_fits_hunks};
use crate::rows::entries_below;
use crate::html::{detect_diff_layout, hl_fit, layout_of, lemma_row_renders, row_spans_ok, row_spans_renderable};
use crate::tables::{split_into_two_tables, split_tables};
use crate::syntax::{detect_language, detected_language, join_lines, syntax_highlight_lines, syntax_lines, SyntaxHighlighter};
use crate::text::{escape_html, find_char_from, find_from, html_escape, lemma_find_from, push_char, push_chars};
use vstd::utf8::encode_utf8;

verus! {

/// The rendered text and the old and new lines rendered so far.
pub type RenderState = (Seq<char>, Seq<usize>, Seq<usize>);

/// The largest line in `s`, or 0 when it is empty.
pub open spec fn seq_max(s: Seq<usize>) -> usize
    decreases s.len(),
{
    if s.len() == 0 { 0 } else { max_u(seq_max(s.drop_last()), s.last()) }
}

/// An optional string by its view.
pub open spec fn opt_str(e: Option<&str>) -> Option<Seq<char>> {
    match e {
        Some(s) => Some(s@),
        None => None,
    }
}

/// A single-column context row, hidden under the expander `eid` when there is one.
pub open spec fn single_row(idx: usize, hl: Seq<String>, eid: Option<Seq<char>>) -> Seq<char> {
    match eid {
        Some(e) => single_context_row_expandable_html(idx as nat, hl, e),
        None => single_context_row_html(idx as nat, hl),
    }
}

/// A two-sided context row, hidden under the expander `eid` when there is one.
pub open spec fn pair_row(o: usize, n: usize, old_hl: Seq<String>, new_hl: Seq<String>, eid: Option<Seq<char>>) -> Seq<char> {
    match eid {
        Some(e) => context_row_expandable_html(o as nat, n as nat, old_hl, new_hl, e),
        None => context_row_html(o as nat, n as nat, old_hl, new_hl),
    }
}

/// One context line around a chunk (old line `o`, new line `n`). A line that is
/// one of the chunk's items, or that was rendered already, is skipped; in a
/// single-column block only the block's side counts.
pub open spec fn ctx_line(single: bool, layout: DiffLayout, rn: Seq<RowNums>, kept: Seq<Keyed>,
    old_hl: Seq<String>, new_hl: Seq<String>, o: usize, n: usize, eid: Option<Seq<char>>, st: RenderState) -> RenderState
{
    if single {
        if layout == DiffLayout::AddOnly {
            if !has_new_line(rn, kept, n) && !st.2.contains(n) {
                (st.0 + single_row(n, new_hl, eid), st.1, st.2.push(n))
            } else {
                st
            }
        } else if layout == DiffLayout::RemoveOnly {
            if !has_old_line(rn, kept, o) && !st.1.contains(o) {
                (st.0 + single_row(o, old_hl, eid), st.1.push(o), st.2)
            } else {
                st
            }
        } else {
            st
        }
    } else if !has_old_line(rn, kept, o) && !has_new_line(rn, kept, n) && !st.1.contains(o) && !st.2.contains(n) {
        (st.0 + pair_row(o, n, old_hl, new_hl, eid), st.1.push(o), st.2.push(n))
    } else {
        st
    }
}

/// Context lines `ob + i` (old) and `nb + i` (new) for `lo <= i < k`, in order.
pub open spec fn ctx_run(single: bool, layout: DiffLayout, rn: Seq<RowNums>, kept: Seq<Keyed>,
    old_hl: Seq<String>, new_hl: Seq<String>, ob: int, nb: int, lo: int, k: int, eid: Option<Seq<char>>, st: RenderState) -> RenderState
    decreases k - lo,
{
    if k <= lo {
        st
    } else {
        ctx_line(single, layout, rn, kept, old_hl, new_hl, (ob + k - 1) as usize, (nb + k - 1) as usize, eid,
            ctx_run(single, layout, rn, kept, old_hl, new_hl, ob, nb, lo, k - 1, eid, st))
    }
}

/// The row with an expander button for `step` hidden lines, pointing up
/// (before a chunk) or down (after it).
pub open spec fn expand_row(eid: Seq<char>, colspan: nat, step: nat, up: bool) -> Seq<char> {
    "<tr class=\"expand-summary\" data-expand-id=\""@ + eid
        + (if up { "\" data-dir=\"up\">"@ } else { "\" data-dir=\"down\">"@ })
        + "<td class=\"expand-btn\" colspan=\""@ + dec(colspan) + "\">"@
        + (if up { "\u{2191}"@ } else { "\u{2193}"@ })
        + " Show "@ + dec(step) + " more "@ + (if step == 1 { "line"@ } else { "lines"@ }) + "</td></tr>"@
}

/// The separator row between chunks that are not adjacent.
pub open spec fn sep_row(colspan: nat) -> Seq<char> {
    "<tr class=\"chunk-sep\"><td colspan=\""@ + dec(colspan) + "\"></td></tr>"@
}

/// The rendered text and lines, kept with the largest old line rendered.
struct Rendered {
    out: String,
    old: Vec<usize>,
    new: Vec<usize>,
    max_old: usize,
}

spec fn rs_of(r: Rendered) -> RenderState {
    (r.out@, r.old@, r.new@)
}

spec fn rendered_ok(r: Rendered) -> bool {
    r.max_old == seq_max(r.old@)
}

fn vec_has(v: &Vec<usize>, x: usize) -> (res: bool)
    ensures
        res == v@.contains(x),
{
    let mut i: usize = 0;
    while i < v.len()
        invariant
            i <= v@.len(),
            forall|q: int| 0 <= q < i ==> v@[q] != x,
        decreases v@.len() - i,
    {
        if v[i] == x {
            assert(v@[i as int] == x);
            return true;
        }
        i = i + 1;
    }
    false
}

fn push_old(acc: &mut Rendered, o: usize)
    requires
        rendered_ok(*old(acc)),
    ensures
        final(acc).out@ == old(acc).out@,
        final(acc).old@ == old(acc).old@.push(o),
        final(acc).new@ == old(acc).new@,
        rendered_ok(*final(acc)),
{
    let ghost s = acc.old@;
    acc.old.push(o);
    if o > acc.max_old {
        acc.max_old = o;
    }
    proof {
        assert(acc.old@.drop_last() == s);
    }
}

fn push_one_row(acc: &mut Rendered, row: String)
    ensures
        final(acc).out@ == old(acc).out@ + row@,
        final(acc).old@ == old(acc).old@,
        final(acc).new@ == old(acc).new@,
        final(acc).max_old == old(acc).max_old,
{
    acc.out.append(row.as_str());
}

fn push_ctx_line(acc: &mut Rendered, single: bool, layout: DiffLayout, rn: &Vec<RowNums>, kept: &Vec<Keyed>,
    old_hl: &[String], new_hl: &[String], o: usize, n: usize, eid: Option<&str>)
    requires
        items_ok(rn@.len(), kept@),
        o < usize::MAX,
        n < usize::MAX,
        rendered_ok(*old(acc)),
    ensures
        rs_of(*final(acc)) == ctx_line(single, layout, rn@, kept@, old_hl@, new_hl@, o, n, opt_str(eid), rs_of(*old(acc))),
        rendered_ok(*final(acc)),
{
    if single {
        if layout == DiffLayout::AddOnly {
            if !items_have_new(rn, kept, n) && !vec_has(&acc.new, n) {
                let row = match eid {
                    Some(e) => render_single_context_row_expandable(n, new_hl, e),
                    None => render_single_context_row(n, new_hl),
                };
                push_one_row(acc, row);
                acc.new.push(n);
            }
        } else if layout == DiffLayout::RemoveOnly {
            if !items_have_old(rn, kept, o) && !vec_has(&acc.old, o) {
                let row = match eid {
                    Some(e) => render_single_context_row_expandable(o, old_hl, e),
                    None => render_single_context_row(o, old_hl),
                };
                push_one_row(acc, row);
                push_old(acc, o);
            }
        }
    } else if !items_have_old(rn, kept, o) && !items_have_new(rn, kept, n) && !vec_has(&acc.old, o) && !vec_has(&acc.new, n) {
        let row = match eid {
            Some(e) => render_context_row_expandable(o, n, old_hl, new_hl, e),
            None => render_context_row(o, n, old_hl, new_hl),
        };
        push_one_row(acc, row);
        push_old(acc, o);
        acc.new.push(n);
    }
}

fn push_ctx_run(acc: &mut Rendered, single: bool, layout: DiffLayout, rn: &Vec<RowNums>, kept: &Vec<Keyed>,
    old_hl: &[String], new_hl: &[String], ob: usize, nb: usize, lo: usize, k: usize, eid: Option<&str>)
    requires
        items_ok(rn@.len(), kept@),
        ob + k < usize::MAX,
        nb + k < usize::MAX,
        rendered_ok(*old(acc)),
    ensures
        rs_of(*final(acc)) == ctx_run(single, layout, rn@, kept@, old_hl@, new_hl@, ob as int, nb as int, lo as int, k as int, opt_str(eid), rs_of(*old(acc))),
        rendered_ok(*final(acc)),
{
    let ghost st0 = rs_of(*acc);
    let mut i: usize = lo;
    if k <= lo {
        return;
    }
    while i < k
        invariant
            lo <= i <= k,
            items_ok(rn@.len(), kept@),
            ob + k < usize::MAX,
            nb + k < usize::MAX,
            rendered_ok(*acc),
            rs_of(*acc) == ctx_run(single, layout, rn@, kept@, old_hl@, new_hl@, ob as int, nb as int, lo as int, i as int, opt_str(eid), st0),
        decreases k - i,
    {
        push_ctx_line(acc, single, layout, rn, kept, old_hl, new_hl, ob + i, nb + i, eid);
        i = i + 1;
    }
}

/// The text of line `ln`, if the file has it.
pub open spec fn opt_line(lines: Seq<String>, ln: u64) -> Option<Seq<char>> {
    if (ln as usize) < lines.len() { Some(lines[(ln as usize) as int]@) } else { None }
}

/// The length in bytes (as `str::len` reports it) of a line without leading
/// and trailing white space (0 for a missing line).
pub open spec fn trimmed_len(l: Option<Seq<char>>) -> int {
    match l {
        Some(s) => (encode_utf8(trim(s)).len() as usize) as int,
        None => 0,
    }
}

/// The total length of the change spans (a span ending before it starts counts 0).
pub open spec fn changed_sum(cs: Seq<ChangeSpan>) -> int
    decreases cs.len(),
{
    if cs.len() == 0 {
        0
    } else {
        changed_sum(cs.drop_last()) + sat_sub(cs.last().end as int, cs.last().start as int)
    }
}

/// More than 70 percent (as an integer percentage) of `t` bytes changed.
pub open spec fn pct_over(c: int, t: int) -> bool {
    t > 0 && (c * 100) / t > 70
}

/// A row that pairs an old and a new line of different text where more than
/// 70 percent of each line changed: its pairing is positional, not a match.
pub open spec fn low_sim(row: RowV, old: Seq<String>, new: Seq<String>) -> bool {
    match (row.0, row.1) {
        (Some(l), Some(r)) => {
            let ol = opt_line(old, l.line_number);
            let nl = opt_line(new, r.line_number);
            ol != nl && pct_over(changed_sum(l.changes@), trimmed_len(ol))
                && pct_over(changed_sum(r.changes@), trimmed_len(nl))
        },
        _ => false,
    }
}

/// A low-similarity pair, shown as a full-line removal beside a full-line addition.
pub open spec fn full_pair_html(l: u64, r: u64, old_hl: Seq<String>, new_hl: Seq<String>) -> Seq<char> {
    tr("line-paired-full"@, lhs_cells((l + 1) as nat, line_text(old_hl, l)) + rhs_cells((r + 1) as nat, line_text(new_hl, r)))
}

/// The HTML of one item of a chunk.
pub open spec fn item_html(single: bool, layout: DiffLayout, rv: Seq<RowV>, d: DifftOutput,
    old_hl: Seq<String>, new_hl: Seq<String>, it: Item) -> Seq<char>
{
    if single {
        match it {
            Item::Row(i) => single_diff_row_html(rv[i as int], layout, old_hl, new_hl),
            Item::GapRemoved(o) => single_removed_html((o + 1) as nat, line_at(old_hl, o as int)),
            Item::GapAdded(n) => single_added_html((n + 1) as nat, line_at(new_hl, n as int)),
            Item::GapPaired(o, n) => if layout == DiffLayout::AddOnly {
                single_context_row_html(n as nat, new_hl)
            } else {
                single_context_row_html(o as nat, old_hl)
            },
        }
    } else {
        match it {
            Item::Row(i) => if low_sim(rv[i as int], d.old_lines@, d.new_lines@) {
                full_pair_html(rv[i as int].0->0.line_number, rv[i as int].1->0.line_number, old_hl, new_hl)
            } else {
                diff_row_html(rv[i as int], d.old_lines@, d.new_lines@, old_hl, new_hl)
            },
            Item::GapRemoved(o) => tr("line-removed"@, lhs_cells((o + 1) as nat, line_at(old_hl, o as int)) + empty_rhs_cells()),
            Item::GapAdded(n) => tr("line-added"@, empty_lhs_cells() + rhs_cells((n + 1) as nat, line_at(new_hl, n as int))),
            Item::GapPaired(o, n) => context_row_html(o as nat, n as nat, old_hl, new_hl),
        }
    }
}

/// Whether a hunk marks old line `o` or new line `n` (0-based) as changed.
pub open spec fn hunk_has(h: DiffHunk, o: int, n: int) -> bool {
    (h.old_count > 0 && h_old_start(h) <= o && o < h_old_start(h) + (h.old_count as usize))
        || (h.new_count > 0 && h_new_start(h) <= n && n < h_new_start(h) + (h.new_count as usize))
}

/// Whether some hunk marks old line `o` or new line `n` as changed.
pub open spec fn in_hunk(hunks: Seq<DiffHunk>, o: int, n: int) -> bool {
    exists|k: int| 0 <= k < hunks.len() && hunk_has(#[trigger] hunks[k], o, n)
}

/// One unchanged line between two items: shown when no hunk covers it, it
/// comes after every old line rendered, the new file has it, and it is neither
/// rendered nor an item line.
pub open spec fn fill_line(single: bool, layout: DiffLayout, rn: Seq<RowNums>, kept: Seq<Keyed>, d: DifftOutput,
    old_hl: Seq<String>, new_hl: Seq<String>, o: usize, n: usize, st: RenderState) -> RenderState
{
    if !in_hunk(d.hunks@, o as int, n as int) && o > seq_max(st.1) && n < d.new_lines@.len()
        && !st.1.contains(o) && !st.2.contains(n) && !has_old_line(rn, kept, o) && !has_new_line(rn, kept, n)
    {
        let row = if single {
            if layout == DiffLayout::AddOnly {
                single_context_row_html(n as nat, new_hl)
            } else {
                single_context_row_html(o as nat, old_hl)
            }
        } else {
            context_row_html(o as nat, n as nat, old_hl, new_hl)
        };
        (st.0 + row, st.1.push(o), st.2.push(n))
    } else {
        st
    }
}

/// Unchanged lines `ogs + g` (old) and `ngs + g` (new) for `g < k`, in order.
pub open spec fn fill_run(single: bool, layout: DiffLayout, rn: Seq<RowNums>, kept: Seq<Keyed>, d: DifftOutput,
    old_hl: Seq<String>, new_hl: Seq<String>, ogs: int, ngs: int, k: int, st: RenderState) -> RenderState
    decreases k,
{
    if k <= 0 {
        st
    } else {
        fill_line(single, layout, rn, kept, d, old_hl, new_hl, (ogs + k - 1) as usize, (ngs + k - 1) as usize,
            fill_run(single, layout, rn, kept, d, old_hl, new_hl, ogs, ngs, k - 1, st))
    }
}

/// The unchanged lines between the previous item (old `prev.0`, new `prev.1`)
/// and the next (`co`, `cn`): filled when both sides move forward past a gap.
pub open spec fn gap_fill(single: bool, layout: DiffLayout, rn: Seq<RowNums>, kept: Seq<Keyed>, d: DifftOutput,
    old_hl: Seq<String>, new_hl: Seq<String>, prev: (Option<usize>, Option<usize>), co: Option<usize>, cn: Option<usize>,
    st: RenderState) -> RenderState
{
    match (prev.0, prev.1) {
        (Some(po), Some(pn)) => {
            let c_o: int = match co { Some(x) => x as int, None => usize::MAX as int };
            let c_n: int = match cn { Some(x) => x as int, None => usize::MAX as int };
            let new_ok = c_n == usize::MAX || c_n > pn + 1;
            if c_o > po + 1 && c_o != usize::MAX && new_ok {
                fill_run(single, layout, rn, kept, d, old_hl, new_hl, po + 1, pn + 1,
                    min_i(c_o - (po + 1), c_n - (pn + 1)), st)
            } else {
                st
            }
        },
        _ => st,
    }
}

/// A line added to the rendered lines, if there is one.
pub open spec fn opt_push(s: Seq<usize>, x: Option<usize>) -> Seq<usize> {
    match x {
        Some(v) => s.push(v),
        None => s,
    }
}

/// The rendering state within a chunk's items, with the last old and new
/// lines of the items rendered.
pub type ItemsState = (RenderState, Option<usize>, Option<usize>);

/// Renders one item: skipped when a line of it was rendered already,
/// otherwise after the unchanged lines that separate it from the previous item.
pub open spec fn item_step(single: bool, layout: DiffLayout, rn: Seq<RowNums>, kept: Seq<Keyed>, rv: Seq<RowV>,
    d: DifftOutput, old_hl: Seq<String>, new_hl: Seq<String>, it: Item, st: ItemsState) -> ItemsState
{
    let co = item_old_idx(rn, it);
    let cn = item_new_idx(rn, it);
    let rs = st.0;
    if (co matches Some(o) && rs.1.contains(o)) || (cn matches Some(n) && rs.2.contains(n)) {
        st
    } else {
        let r1 = gap_fill(single, layout, rn, kept, d, old_hl, new_hl, (st.1, st.2), co, cn, rs);
        let r2 = (r1.0 + item_html(single, layout, rv, d, old_hl, new_hl, it), opt_push(r1.1, co), opt_push(r1.2, cn));
        (r2, if co is Some { co } else { st.1 }, if cn is Some { cn } else { st.2 })
    }
}

/// Renders the items in order.
pub open spec fn items_run(single: bool, layout: DiffLayout, rn: Seq<RowNums>, kept: Seq<Keyed>, rv: Seq<RowV>,
    d: DifftOutput, old_hl: Seq<String>, new_hl: Seq<String>, s: Seq<Keyed>, st: ItemsState) -> ItemsState
    decreases s.len(),
{
    if s.len() == 0 {
        st
    } else {
        item_step(single, layout, rn, kept, rv, d, old_hl, new_hl, s.last().1,
            items_run(single, layout, rn, kept, rv, d, old_hl, new_hl, s.drop_last(), st))
    }
}

/// Whether the spans that rendering item `it` merges are in order: a row of
/// a side-by-side table that is not shown as a low-similarity pair is drawn
/// by the row renderer, which merges its spans (see [`row_spans_ok`]); no
/// other item merges any.
pub open spec fn item_row_ok(single: bool, rv: Seq<RowV>, d: DifftOutput, it: Item) -> bool {
    match it {
        Item::Row(i) => single || low_sim(rv[i as int], d.old_lines@, d.new_lines@)
            || row_spans_ok(rv[i as int], d.old_lines@, d.new_lines@),
        _ => true,
    }
}

/// Whether item `it` is drawn at state `st` (none of its lines was drawn).
pub open spec fn item_shown(rn: Seq<RowNums>, it: Item, st: ItemsState) -> bool {
    let co = item_old_idx(rn, it);
    let cn = item_new_idx(rn, it);
    !((co matches Some(o) && st.0.1.contains(o)) || (cn matches Some(n) && st.0.2.contains(n)))
}

/// Whether every item of `s` that is drawn has the spans it merges in order.
pub open spec fn items_merge_ok(single: bool, layout: DiffLayout, rn: Seq<RowNums>, kept: Seq<Keyed>, rv: Seq<RowV>,
    d: DifftOutput, old_hl: Seq<String>, new_hl: Seq<String>, s: Seq<Keyed>, st: ItemsState) -> bool
    decreases s.len(),
{
    if s.len() == 0 {
        true
    } else {
        &&& items_merge_ok(single, layout, rn, kept, rv, d, old_hl, new_hl, s.drop_last(), st)
        &&& (item_shown(rn, s.last().1, items_run(single, layout, rn, kept, rv, d, old_hl, new_hl, s.drop_last(), st))
            ==> item_row_ok(single, rv, d, s.last().1))
    }
}

proof fn lemma_items_merge_prefix(single: bool, layout: DiffLayout, rn: Seq<RowNums>, kept: Seq<Keyed>, rv: Seq<RowV>,
    d: DifftOutput, old_hl: Seq<String>, new_hl: Seq<String>, s: Seq<Keyed>, st: ItemsState, j: int)
    requires
        0 <= j <= s.len(),
        items_merge_ok(single, layout, rn, kept, rv, d, old_hl, new_hl, s, st),
    ensures
        items_merge_ok(single, layout, rn, kept, rv, d, old_hl, new_hl, s.take(j), st),
    decreases s.len() - j,
{
    if j == s.len() {
        assert(s.take(j) =~= s);
    } else {
        lemma_items_merge_prefix(single, layout, rn, kept, rv, d, old_hl, new_hl, s, st, j + 1);
        assert(s.take(j + 1).drop_last() =~= s.take(j));
    }
}

/// The hunks' ranges end within twice the line limit.
pub open spec fn hunks_bounded(hunks: Seq<DiffHunk>) -> bool {
    forall|i: int| 0 <= i < hunks.len() ==> {
        &&& h_old_start(#[trigger] hunks[i]) + (hunks[i].old_count as usize) <= 2 * LINE_LIMIT
        &&& h_new_start(hunks[i]) + (hunks[i].new_count as usize) <= 2 * LINE_LIMIT
    }
}

fn in_any_hunk(hunks: &[DiffHunk], o: usize, n: usize) -> (res: bool)
    requires
        hunks_bounded(hunks@),
    ensures
        res == in_hunk(hunks@, o as int, n as int),
{
    let mut k: usize = 0;
    while k < hunks.len()
        invariant
            k <= hunks@.len(),
            hunks_bounded(hunks@),
            forall|q: int| 0 <= q < k ==> !hunk_has(#[trigger] hunks@[q], o as int, n as int),
        decreases hunks@.len() - k,
    {
        let h = hunks[k];
        assert(hunks@[k as int] == h);
        let ho = (h.old_start as usize).saturating_sub(1);
        let hn = (h.new_start as usize).saturating_sub(1);
        if (h.old_count > 0 && o >= ho && o < ho + h.old_count as usize)
            || (h.new_count > 0 && n >= hn && n < hn + h.new_count as usize)
        {
            return true;
        }
        k = k + 1;
    }
    false
}

fn push_fill_run(acc: &mut Rendered, single: bool, layout: DiffLayout, rn: &Vec<RowNums>, kept: &Vec<Keyed>,
    d: &DifftOutput, old_hl: &[String], new_hl: &[String], ogs: usize, ngs: usize, k: usize)
    requires
        items_ok(rn@.len(), kept@),
        hunks_bounded(d.hunks@),
        ogs + k < usize::MAX,
        ngs + k < usize::MAX,
        rendered_ok(*old(acc)),
    ensures
        rs_of(*final(acc)) == fill_run(single, layout, rn@, kept@, *d, old_hl@, new_hl@, ogs as int, ngs as int, k as int, rs_of(*old(acc))),
        rendered_ok(*final(acc)),
{
    let ghost st0 = rs_of(*acc);
    let mut g: usize = 0;
    while g < k
        invariant
            g <= k,
            items_ok(rn@.len(), kept@),
            hunks_bounded(d.hunks@),
            ogs + k < usize::MAX,
            ngs + k < usize::MAX,
            rendered_ok(*acc),
            rs_of(*acc) == fill_run(single, layout, rn@, kept@, *d, old_hl@, new_hl@, ogs as int, ngs as int, g as int, st0),
        decreases k - g,
    {
        let o = ogs + g;
        let n = ngs + g;
        if !in_any_hunk(d.hunks.as_slice(), o, n) && o > acc.max_old && n < d.new_lines.len()
            && !vec_has(&acc.old, o) && !vec_has(&acc.new, n) && !items_have_old(rn, kept, o) && !items_have_new(rn, kept, n)
        {
            let row = if single {
                if layout == DiffLayout::AddOnly {
                    render_single_context_row(n, new_hl)
                } else {
                    render_single_context_row(o, old_hl)
                }
            } else {
                render_context_row(o, n, old_hl, new_hl)
            };
            push_one_row(acc, row);
            push_old(acc, o);
            acc.new.push(n);
        }
        g = g + 1;
    }
}

/// The gap fill between the previous item and the next.
fn push_gap_fill(acc: &mut Rendered, single: bool, layout: DiffLayout, rn: &Vec<RowNums>, kept: &Vec<Keyed>,
    d: &DifftOutput, old_hl: &[String], new_hl: &[String], prev_old: Option<usize>, prev_new: Option<usize>,
    co: Option<usize>, cn: Option<usize>)
    requires
        items_ok(rn@.len(), kept@),
        hunks_bounded(d.hunks@),
        prev_old matches Some(p) ==> p < GAP_LIMIT,
        prev_new matches Some(p) ==> p < GAP_LIMIT,
        co matches Some(p) ==> p < GAP_LIMIT,
        cn matches Some(p) ==> p < GAP_LIMIT,
        rendered_ok(*old(acc)),
    ensures
        rs_of(*final(acc)) == gap_fill(single, layout, rn@, kept@, *d, old_hl@, new_hl@, (prev_old, prev_new), co, cn, rs_of(*old(acc))),
        rendered_ok(*final(acc)),
{
    match (prev_old, prev_new) {
        (Some(po), Some(pn)) => {
            let c_o = match co { Some(x) => x, None => usize::MAX };
            let c_n = match cn { Some(x) => x, None => usize::MAX };
            let new_ok = c_n == usize::MAX || c_n > pn + 1;
            if c_o > po + 1 && c_o != usize::MAX && new_ok {
                let ogc = c_o - (po + 1);
                let ngc = c_n - (pn + 1);
                let k = if ogc < ngc { ogc } else { ngc };
                push_fill_run(acc, single, layout, rn, kept, d, old_hl, new_hl, po + 1, pn + 1, k);
            }
        },
        _ => {},
    }
}

fn changed_total(cs: &Vec<ChangeSpan>) -> (res: u128)
    ensures
        res as int == changed_sum(cs@),
{
    let mut total: u128 = 0;
    let mut i: usize = 0;
    while i < cs.len()
        invariant
            i <= cs@.len(),
            total as int == changed_sum(cs@.take(i as int)),
            total as int <= i as int * 0xFFFF_FFFF_FFFF_FFFF,
        decreases cs@.len() - i,
    {
        proof {
            assert(cs@.take(i + 1).drop_last() == cs@.take(i as int));
            assert(cs@.take(i + 1).last() == cs@[i as int]);
        }
        let c = &cs[i];
        let d: usize = c.end.saturating_sub(c.start);
        total = total + d as u128;
        i = i + 1;
    }
    proof { assert(cs@.take(cs@.len() as int) == cs@); }
    total
}

fn trimmed_bytes(lines: &Vec<String>, ln: u64) -> (res: usize)
    ensures
        res as int == trimmed_len(opt_line(lines@, ln)),
{
    let idx = ln as usize;
    if idx < lines.len() {
        let cs = chars_of(lines[idx].as_str());
        let t = trim_chars(cs.as_slice());
        let s = string_of_chars(t.as_slice());
        s.as_str().len()
    } else {
        0
    }
}

proof fn lemma_pct(c: int, t: int)
    requires
        t > 0,
        c >= 0,
    ensures
        ((c * 100) / t > 70) == (c * 100 >= 71 * t),
{
    let q = (c * 100) / t;
    let r = (c * 100) % t;
    vstd::arithmetic::div_mod::lemma_fundamental_div_mod(c * 100, t);
    vstd::arithmetic::div_mod::lemma_mod_pos_bound(c * 100, t);
    assert(c * 100 == t * q + r);
    if q > 70 {
        assert(t * q >= 71 * t) by (nonlinear_arith)
            requires
                q >= 71,
                t > 0,
        ;
    } else {
        assert(t * q <= 70 * t) by (nonlinear_arith)
            requires
                q <= 70,
                t > 0,
        ;
    }
}

fn pct_over_exec(c: u128, t: usize) -> (res: bool)
    ensures
        res == pct_over(c as int, t as int),
{
    if t == 0 {
        return false;
    }
    proof { lemma_pct(c as int, t as int); }
    if c >= t as u128 {
        true
    } else {
        c * 100 >= 71 * (t as u128)
    }
}

fn opt_line_eq(old: &Vec<String>, lo: u64, new: &Vec<String>, ln: u64) -> (res: bool)
    ensures
        res == (opt_line(old@, lo) == opt_line(new@, ln)),
{
    let a = lo as usize;
    let b = ln as usize;
    if a < old.len() && b < new.len() {
        str_eq(old[a].as_str(), new[b].as_str())
    } else {
        !(a < old.len()) && !(b < new.len())
    }
}

fn is_low_sim(row: &DiffRow, old: &Vec<String>, new: &Vec<String>) -> (res: bool)
    ensures
        res == low_sim(row_view(*row), old@, new@),
{
    match (row.lhs, row.rhs) {
        (Some(l), Some(r)) => {
            if opt_line_eq(old, l.line_number, new, r.line_number) {
                return false;
            }
            let ot = trimmed_bytes(old, l.line_number);
            let nt = trimmed_bytes(new, r.line_number);
            let oc = changed_total(&l.changes);
            let nc = changed_total(&r.changes);
            pct_over_exec(oc, ot) && pct_over_exec(nc, nt)
        },
        _ => false,
    }
}

fn push_item_html(acc: &mut Rendered, single: bool, layout: DiffLayout, rows: &Vec<DiffRow>, rn: &Vec<RowNums>,
    d: &DifftOutput, old_hl: &[String], new_hl: &[String], it: Item)
    requires
        rn@.len() == rows@.len(),
        crate::items::item_ok(rn@.len(), it),
        nums_below(rn@, LINE_LIMIT as int),
        rn@ == crate::items::rows_nums(rows_view(rows@)),
        hl_fit(old_hl@),
        hl_fit(new_hl@),
        item_row_ok(single, rows_view(rows@), *d, it),
    ensures
        final(acc).out@ == old(acc).out@ + item_html(single, layout, rows_view(rows@), *d, old_hl@, new_hl@, it),
        final(acc).old@ == old(acc).old@,
        final(acc).new@ == old(acc).new@,
        final(acc).max_old == old(acc).max_old,
{
    let ghost rv = rows_view(rows@);
    if single {
        match it {
            Item::Row(i) => {
                proof {
                    assert(rn@[i as int] == crate::items::row_nums(rv[i as int]));
                    assert(rv[i as int] == row_view(rows@[i as int]));
                    assert(rn@[i as int].0 matches Some(x) ==> x < LINE_LIMIT);
                    assert(rn@[i as int].1 matches Some(x) ==> x < LINE_LIMIT);
                }
                let row = render_single_diff_row(&rows[i], layout, old_hl, new_hl);
                push_one_row(acc, row);
            },
            Item::GapRemoved(o) => {
                acc.out.append("<tr class=\"line-removed\"><td class=\"ln ln-lhs\">");
                push_dec_usize(&mut acc.out, o + 1);
                acc.out.append("</td><td class=\"sign sign-lhs\">\u{2212}</td><td class=\"code-lhs\">");
                acc.out.append(str_at(old_hl, o));
                acc.out.append("</td></tr>");
            },
            Item::GapAdded(n) => {
                acc.out.append("<tr class=\"line-added\"><td class=\"ln ln-rhs\">");
                push_dec_usize(&mut acc.out, n + 1);
                acc.out.append("</td><td class=\"sign sign-rhs\">+</td><td class=\"code-rhs\">");
                acc.out.append(str_at(new_hl, n));
                acc.out.append("</td></tr>");
            },
            Item::GapPaired(o, n) => {
                let row = if layout == DiffLayout::AddOnly {
                    render_single_context_row(n, new_hl)
                } else {
                    render_single_context_row(o, old_hl)
                };
                push_one_row(acc, row);
            },
        }
    } else {
        match it {
            Item::Row(i) => {
                proof {
                    assert(rn@[i as int] == crate::items::row_nums(rv[i as int]));
                    assert(rv[i as int] == row_view(rows@[i as int]));
                }
                let row = &rows[i];
                if is_low_sim(row, &d.old_lines, &d.new_lines) {
                    match (row.lhs, row.rhs) {
                        (Some(l), Some(r)) => {
                            push_tr_open(&mut acc.out, "line-paired-full");
                            push_lhs_cells(&mut acc.out, l.line_number + 1, line_str(old_hl, l.line_number));
                            push_rhs_cells(&mut acc.out, r.line_number + 1, line_str(new_hl, r.line_number));
                            acc.out.append("</tr>");
                        },
                        _ => {},
                    }
                } else {
                    proof {
                        assert(rn@[i as int].0 matches Some(x) ==> x < LINE_LIMIT);
                        assert(rn@[i as int].1 matches Some(x) ==> x < LINE_LIMIT);
                        lemma_row_renders(rv[i as int], d.old_lines@, d.new_lines@, old_hl@, new_hl@);
                    }
                    let h = render_diff_row(row, d.old_lines.as_slice(), d.new_lines.as_slice(), old_hl, new_hl);
                    push_one_row(acc, h);
                }
            },
            Item::GapRemoved(o) => {
                push_tr_open(&mut acc.out, "line-removed");
                push_lhs_cells(&mut acc.out, o as u64 + 1, str_at(old_hl, o));
                acc.out.append("<td class=\"ln ln-rhs\"></td><td class=\"sign sign-rhs\"></td><td class=\"code-rhs\"></td>");
                acc.out.append("</tr>");
            },
            Item::GapAdded(n) => {
                push_tr_open(&mut acc.out, "line-added");
                acc.out.append("<td class=\"ln ln-lhs\"></td><td class=\"sign sign-lhs\"></td><td class=\"code-lhs\"></td>");
                push_rhs_cells(&mut acc.out, n as u64 + 1, str_at(new_hl, n));
                acc.out.append("</tr>");
            },
            Item::GapPaired(o, n) => {
                let row = render_context_row(o, n, old_hl, new_hl);
                push_one_row(acc, row);
            },
        }
    }
    proof {
        assert(acc.out@ =~= old(acc).out@ + item_html(single, layout, rv, *d, old_hl@, new_hl@, it));
    }
}

proof fn lemma_item_lines_below(rn: Seq<RowNums>, it: Item)
    requires
        crate::items::item_ok(rn.len(), it),
        nums_below(rn, LINE_LIMIT as int),
    ensures
        item_old_idx(rn, it) matches Some(x) ==> x < GAP_LIMIT,
        item_new_idx(rn, it) matches Some(x) ==> x < GAP_LIMIT,
{
    match it {
        Item::Row(i) => {
            assert(rn[i as int].0 matches Some(x) ==> x < LINE_LIMIT);
            assert(rn[i as int].1 matches Some(x) ==> x < LINE_LIMIT);
        },
        _ => {},
    }
}

fn push_items_run(acc: &mut Rendered, single: bool, layout: DiffLayout, rows: &Vec<DiffRow>, rn: &Vec<RowNums>,
    kept: &Vec<Keyed>, d: &DifftOutput, old_hl: &[String], new_hl: &[String], items: &Vec<Keyed>) -> (ok: bool)
    requires
        rn@.len() == rows@.len(),
        items_ok(rn@.len(), items@),
        items_ok(rn@.len(), kept@),
        nums_below(rn@, LINE_LIMIT as int),
        rn@ == crate::items::rows_nums(rows_view(rows@)),
        hl_fit(old_hl@),
        hl_fit(new_hl@),
        hunks_bounded(d.hunks@),
        rendered_ok(*old(acc)),
    ensures
        ok == items_merge_ok(single, layout, rn@, kept@, rows_view(rows@), *d, old_hl@, new_hl@, items@,
            (rs_of(*old(acc)), None, None)),
        ok ==> rs_of(*final(acc)) == items_run(single, layout, rn@, kept@, rows_view(rows@), *d, old_hl@, new_hl@, items@,
            (rs_of(*old(acc)), None, None)).0,
        rendered_ok(*final(acc)),
{
    let ghost st0: ItemsState = (rs_of(*acc), None, None);
    let ghost rv = rows_view(rows@);
    let mut po: Option<usize> = None;
    let mut pn: Option<usize> = None;
    let mut i: usize = 0;
    while i < items.len()
        invariant
            i <= items@.len(),
            rn@.len() == rows@.len(),
            items_ok(rn@.len(), items@),
            items_ok(rn@.len(), kept@),
            nums_below(rn@, LINE_LIMIT as int),
            rn@ == crate::items::rows_nums(rows_view(rows@)),
            rv == rows_view(rows@),
            hl_fit(old_hl@),
            hl_fit(new_hl@),
            hunks_bounded(d.hunks@),
            rendered_ok(*acc),
            (rs_of(*acc), po, pn) == items_run(single, layout, rn@, kept@, rv, *d, old_hl@, new_hl@, items@.take(i as int), st0),
            items_merge_ok(single, layout, rn@, kept@, rv, *d, old_hl@, new_hl@, items@.take(i as int), st0),
            st0 == (rs_of(*old(acc)), None::<usize>, None::<usize>),
            po matches Some(p) ==> p < GAP_LIMIT,
            pn matches Some(p) ==> p < GAP_LIMIT,
        decreases items@.len() - i,
    {
        let it = items[i].1;
        proof {
            assert(items@.take(i + 1).drop_last() == items@.take(i as int));
            assert(items@.take(i + 1).last() == items@[i as int]);
            assert(crate::items::item_ok(rn@.len(), items@[i as int].1));
            lemma_item_lines_below(rn@, it);
        }
        let co = old_idx_of(rn, it);
        let cn = new_idx_of(rn, it);
        let dom_old = match co { Some(o) => vec_has(&acc.old, o), None => false };
        let dom_new = match cn { Some(n) => vec_has(&acc.new, n), None => false };
        if !(dom_old || dom_new) {
            let row_ok = match it {
                Item::Row(r) => {
                    proof { assert(rv[r as int] == row_view(rows@[r as int])); }
                    single || is_low_sim(&rows[r], &d.old_lines, &d.new_lines)
                        || row_spans_renderable(&rows[r], d.old_lines.as_slice(), d.new_lines.as_slice())
                },
                _ => true,
            };
            assert(row_ok == item_row_ok(single, rv, *d, it));
            if !row_ok {
                proof {
                    assert(!items_merge_ok(single, layout, rn@, kept@, rv, *d, old_hl@, new_hl@, items@.take(i + 1), st0));
                    if items_merge_ok(single, layout, rn@, kept@, rv, *d, old_hl@, new_hl@, items@, st0) {
                        lemma_items_merge_prefix(single, layout, rn@, kept@, rv, *d, old_hl@, new_hl@, items@, st0, i + 1);
                    }
                    assert(!items_merge_ok(single, layout, rn@, kept@, rv, *d, old_hl@, new_hl@, items@, st0));
                }
                return false;
            }
            push_gap_fill(acc, single, layout, rn, kept, d, old_hl, new_hl, po, pn, co, cn);
            push_item_html(acc, single, layout, rows, rn, d, old_hl, new_hl, it);
            match co {
                Some(o) => { push_old(acc, o); po = Some(o); },
                None => {},
            }
            match cn {
                Some(n) => { acc.new.push(n); pn = Some(n); },
                None => {},
            }
        }
        i = i + 1;
    }
    proof {
        assert(items@.take(items@.len() as int) == items@);
        assert(items_merge_ok(single, layout, rn@, kept@, rv, *d, old_hl@, new_hl@, items@, st0));
    }
    true
}

/// (last new line of a row with both sides, rows without a new line since)
/// before row `i`.
pub open spec fn hk_state(rn: Seq<RowNums>, i: int) -> (Option<u64>, int)
    decreases i,
{
    if i <= 0 {
        (None, 0)
    } else {
        let st = hk_state(rn, i - 1);
        match rn[i - 1].1 {
            Some(r) => (if rn[i - 1].0 is Some { Some(r) } else { st.0 }, 0),
            None => (st.0, st.1 + 1),
        }
    }
}

/// Whether a hunk's old range holds the 1-based old line `o1`.
pub open spec fn hunk_holds_old(h: DiffHunk, o1: int) -> bool {
    h.old_count > 0 && o1 >= h.old_start && o1 < h.old_start + h.old_count
}

/// The first hunk from the `k`-th on whose old range holds 1-based old line `o1`.
pub open spec fn containing_from(hunks: Seq<DiffHunk>, o1: int, k: int) -> Option<DiffHunk>
    decreases hunks.len() - k,
{
    if k < 0 || k >= hunks.len() {
        None
    } else if hunk_holds_old(hunks[k], o1) {
        Some(hunks[k])
    } else {
        containing_from(hunks, o1, k + 1)
    }
}

/// Among the gap-paired lines whose old line lies in `[lo, hi)` and before
/// `o`, the one with the largest old line (the last such).
pub open spec fn best_gp(gp: Seq<(usize, usize)>, o: int, lo: int, hi: int) -> Option<(usize, usize)>
    decreases gp.len(),
{
    if gp.len() == 0 {
        None
    } else {
        let b = best_gp(gp.drop_last(), o, lo, hi);
        let x = gp.last();
        if x.0 < o && x.0 >= lo && x.0 < hi {
            match b {
                None => Some(x),
                Some(y) => if x.0 >= y.0 { Some(x) } else { b },
            }
        } else {
            b
        }
    }
}

/// The HTML view's sort key of row `i`: its new line times [`KEY_SPACE`]; for a
/// removed row, just after the last row with both sides; failing that, just
/// after the gap-paired line before it in its hunk; failing that, the count of
/// removed rows since the last row with a new line.
pub open spec fn html_key(rn: Seq<RowNums>, hunks: Seq<DiffHunk>, gp: Seq<(usize, usize)>, i: int) -> u64 {
    let st = hk_state(rn, i);
    let sq = st.1 + 1;
    match rn[i].1 {
        Some(r) => (r * KEY_SPACE) as u64,
        None => match st.0 {
            Some(p) => (p * KEY_SPACE + sq) as u64,
            None => match rn[i].0 {
                Some(l) => match containing_from(hunks, l + 1, 0) {
                    Some(h) => match best_gp(gp, (l as usize) as int, h_old_start(h), h_old_start(h) + (h.old_count as usize)) {
                        Some(g) => (g.1 * KEY_SPACE + KEY_SPACE / 2 + sq) as u64,
                        None => sq as u64,
                    },
                    None => sq as u64,
                },
                None => sq as u64,
            },
        },
    }
}

/// The keyed row items of the HTML view.
pub open spec fn html_row_items(rn: Seq<RowNums>, hunks: Seq<DiffHunk>, gp: Seq<(usize, usize)>) -> Seq<Keyed> {
    Seq::new(rn.len(), |i: int| (html_key(rn, hunks, gp, i), Item::Row(i as usize)))
}

/// The items of a chunk for the HTML view, sorted and with out-of-order gap
/// lines dropped, and the chunk's extents widened by the gap lines.
#[verifier::opaque]
pub open spec fn html_items(d: DifftOutput, chunk: Seq<LineEntry>, f: (usize, usize, usize, usize))
    -> (Seq<RowNums>, Seq<Keyed>, (usize, usize, usize, usize))
{
    let rn = rows_nums(chunk_rows(d, chunk));
    let g = gap_lines(chunk, d.hunks@, f.0 as int, f.1 as int, f.2 as int, f.3 as int, d.old_lines@, d.new_lines@);
    let base = html_row_items(rn, d.hunks@, g.0);
    let gaps = gap_items(d, chunk, f, rn, base);
    (rn, keep_ordered(rn, sort_keyed(rn, base + gaps), None), widen(f, extents(rn, gaps)))
}

fn containing_hunk(hunks: &[DiffHunk], o1: u64) -> (res: Option<DiffHunk>)
    requires
        forall|i: int| 0 <= i < hunks@.len() ==> (#[trigger] hunks@[i]).old_start < LINE_LIMIT && hunks@[i].old_count < LINE_LIMIT,
    ensures
        res == containing_from(hunks@, o1 as int, 0),
        res matches Some(h) ==> h.old_start < LINE_LIMIT && h.old_count < LINE_LIMIT,
{
    let mut k: usize = 0;
    while k < hunks.len()
        invariant
            k <= hunks@.len(),
            forall|i: int| 0 <= i < hunks@.len() ==> (#[trigger] hunks@[i]).old_start < LINE_LIMIT && hunks@[i].old_count < LINE_LIMIT,
            containing_from(hunks@, o1 as int, 0) == containing_from(hunks@, o1 as int, k as int),
        decreases hunks@.len() - k,
    {
        let h = hunks[k];
        assert(hunks@[k as int] == h);
        if h.old_count > 0 && o1 >= h.old_start && o1 < h.old_start + h.old_count {
            return Some(h);
        }
        k = k + 1;
    }
    None
}

fn best_gap_pair(gp: &Vec<(usize, usize)>, o: usize, lo: usize, hi: usize) -> (res: Option<(usize, usize)>)
    ensures
        res == best_gp(gp@, o as int, lo as int, hi as int),
{
    let mut best: Option<(usize, usize)> = None;
    let mut i: usize = 0;
    while i < gp.len()
        invariant
            i <= gp@.len(),
            best == best_gp(gp@.take(i as int), o as int, lo as int, hi as int),
        decreases gp@.len() - i,
    {
        let x = gp[i];
        proof {
            assert(gp@.take(i + 1).drop_last() == gp@.take(i as int));
            assert(gp@.take(i + 1).last() == x);
        }
        if x.0 < o && x.0 >= lo && x.0 < hi {
            match best {
                None => { best = Some(x); },
                Some(y) => { if x.0 >= y.0 { best = Some(x); } },
            }
        }
        i = i + 1;
    }
    proof { assert(gp@.take(gp@.len() as int) == gp@); }
    best
}

fn html_row_items_exec(rn: &Vec<RowNums>, hunks: &[DiffHunk], gp: &Vec<(usize, usize)>) -> (items: Vec<Keyed>)
    requires
        rn@.len() <= 2 * LINE_LIMIT,
        nums_below(rn@, LINE_LIMIT as int),
        forall|i: int| 0 <= i < hunks@.len() ==> (#[trigger] hunks@[i]).old_start < LINE_LIMIT && hunks@[i].old_count < LINE_LIMIT,
        forall|q: int| 0 <= q < gp@.len() ==> (#[trigger] gp@[q]).0 < 2 * LINE_LIMIT && gp@[q].1 < 2 * LINE_LIMIT,
    ensures
        items@ == html_row_items(rn@, hunks@, gp@),
        items_ok(rn@.len(), items@),
{
    let mut items: Vec<Keyed> = Vec::new();
    let mut prev: Option<u64> = None;
    let mut removed_seq: u64 = 0;
    let mut i: usize = 0;
    while i < rn.len()
        invariant
            i <= rn@.len() <= 2 * LINE_LIMIT,
            nums_below(rn@, LINE_LIMIT as int),
            forall|j: int| 0 <= j < hunks@.len() ==> (#[trigger] hunks@[j]).old_start < LINE_LIMIT && hunks@[j].old_count < LINE_LIMIT,
            forall|q: int| 0 <= q < gp@.len() ==> (#[trigger] gp@[q]).0 < 2 * LINE_LIMIT && gp@[q].1 < 2 * LINE_LIMIT,
            (prev, removed_seq as int) == hk_state(rn@, i as int),
            removed_seq <= i,
            prev matches Some(p) ==> p < LINE_LIMIT,
            items@ == html_row_items(rn@, hunks@, gp@).take(i as int),
        decreases rn@.len() - i,
    {
        let (lo, ro) = rn[i];
        let key: u64 = match ro {
            Some(r) => {
                if lo.is_some() {
                    prev = Some(r);
                }
                removed_seq = 0;
                r * KEY_SPACE
            },
            None => {
                removed_seq = removed_seq + 1;
                match prev {
                    Some(p) => p * KEY_SPACE + removed_seq,
                    None => match lo {
                        Some(l) => match containing_hunk(hunks, l + 1) {
                            Some(h) => {
                                let hs = (h.old_start as usize).saturating_sub(1);
                                let he = hs + h.old_count as usize;
                                match best_gap_pair(gp, l as usize, hs, he) {
                                    Some(g) => {
                                        proof {
                                            if best_gp(gp@, (l as usize) as int, hs as int, he as int) is Some {
                                                lemma_best_gp_in(gp@, (l as usize) as int, hs as int, he as int);
                                            }
                                        }
                                        (g.1 as u64) * KEY_SPACE + KEY_SPACE / 2 + removed_seq
                                    },
                                    None => removed_seq,
                                }
                            },
                            None => removed_seq,
                        },
                        None => removed_seq,
                    },
                }
            },
        };
        items.push((key, Item::Row(i)));
        proof {
            assert(items@ =~= html_row_items(rn@, hunks@, gp@).take(i + 1));
        }
        i = i + 1;
    }
    proof { assert(html_row_items(rn@, hunks@, gp@).take(rn@.len() as int) == html_row_items(rn@, hunks@, gp@)); }
    items
}

proof fn lemma_best_gp_in(gp: Seq<(usize, usize)>, o: int, lo: int, hi: int)
    requires
        best_gp(gp, o, lo, hi) is Some,
    ensures
        exists|q: int| 0 <= q < gp.len() && gp[q] == best_gp(gp, o, lo, hi)->0,
    decreases gp.len(),
{
    let b = best_gp(gp.drop_last(), o, lo, hi);
    if b is Some {
        lemma_best_gp_in(gp.drop_last(), o, lo, hi);
        let q = choose|q: int| 0 <= q < gp.drop_last().len() && gp.drop_last()[q] == b->0;
        assert(gp[q] == b->0);
    }
    assert(gp[gp.len() - 1] == gp.last());
}

/// The rows, row numbers, items and extents of a chunk for the HTML view, and
/// whether it has gap-paired lines.
fn html_items_exec<'a>(d: &DifftOutput, chunk: &'a Vec<LineEntry>, f: (usize, usize, usize, usize))
    -> (res: (Vec<DiffRow<'a>>, Vec<RowNums>, Vec<Keyed>, (usize, usize, usize, usize), bool))
    requires
        difft_fits(*d),
        chunk@.len() < LINE_LIMIT,
        entries_below(chunk@, LINE_LIMIT as int),
        f.0 <= 2 * LINE_LIMIT,
        f.1 <= 2 * LINE_LIMIT,
        f.2 <= 2 * LINE_LIMIT,
        f.3 <= 2 * LINE_LIMIT,
    ensures
        (res.1@, res.2@, res.3) == html_items(*d, chunk@, f),
        rows_view(res.0@) == chunk_rows(*d, chunk@),
        res.1@ == rows_nums(rows_view(res.0@)),
        res.1@.len() == res.0@.len(),
        res.4 == (gap_lines(chunk@, d.hunks@, f.0 as int, f.1 as int, f.2 as int, f.3 as int, d.old_lines@, d.new_lines@).0.len() > 0),
        items_ok(res.1@.len(), res.2@),
        nums_below(res.1@, LINE_LIMIT as int),
        res.3.0 <= 2 * LINE_LIMIT,
        res.3.1 <= 2 * LINE_LIMIT,
        res.3.2 <= 2 * LINE_LIMIT,
        res.3.3 <= 2 * LINE_LIMIT,
{
    proof { reveal(html_items); }
    let (rows, rn) = chunk_row_nums(d, chunk);
    let (gp, gr, ga) = gap_lines_exec(d, chunk, f);
    let mut items = html_row_items_exec(&rn, d.hunks.as_slice(), &gp);
    let gaps = gap_items_of(&gp, &gr, &ga, &rn, &items);
    let ghost base = items@;
    let ge = items_extents(&rn, &gaps);
    let mut i: usize = 0;
    while i < gaps.len()
        invariant
            i <= gaps@.len(),
            items_ok(rn@.len(), gaps@),
            items_ok(rn@.len(), items@),
            items@ == base + gaps@.take(i as int),
        decreases gaps@.len() - i,
    {
        items.push(gaps[i]);
        proof {
            assert(gaps@.take(i + 1) == gaps@.take(i as int).push(gaps@[i as int]));
        }
        i = i + 1;
    }
    proof { assert(gaps@.take(gaps@.len() as int) == gaps@); }
    let sorted = sort_items(&rn, &items);
    let kept = keep_old_order(&rn, &sorted);
    let e = (
        if ge.0 < f.0 { ge.0 } else { f.0 },
        if ge.1 > f.1 { ge.1 } else { f.1 },
        if ge.2 < f.2 { ge.2 } else { f.2 },
        if ge.3 > f.3 { ge.3 } else { f.3 },
    );
    proof {
        lemma_extents_bounded(rn@, gaps@);
        let gl = gap_lines(chunk@, d.hunks@, f.0 as int, f.1 as int, f.2 as int, f.3 as int, d.old_lines@, d.new_lines@);
        assert(gaps@ == gap_items(*d, chunk@, f, rn@, base));
    }
    let has_gp = gp.len() > 0;
    (rows, rn, kept, e, has_gp)
}

/// The count of lines a layout uses: the new side's in an add-only block, the
/// old side's in a remove-only block, the smaller otherwise.
pub open spec fn by_layout(layout: DiffLayout, o: int, n: int) -> int {
    match layout {
        DiffLayout::AddOnly => n,
        DiffLayout::RemoveOnly => o,
        DiffLayout::SideBySide => min_i(o, n),
    }
}

/// `max(a, b)`.
pub open spec fn max_i(a: int, b: int) -> int {
    if a >= b { a } else { b }
}

/// Whether some row has an old (`left`) or a new side.
pub open spec fn has_side(rv: Seq<RowV>, left: bool) -> bool {
    exists|i: int| 0 <= i < rv.len() && (if left { (#[trigger] rv[i]).0 is Some } else { rv[i].1 is Some })
}

/// The id of the expander before (`pre`) or after chunk number `order`.
pub open spec fn expand_id(pre: bool, order: nat) -> Seq<char> {
    (if pre { "expand-pre-"@ } else { "expand-post-"@ }) + dec(order)
}

/// The rendering state between chunks: text and rendered lines, the last old
/// and new lines of context rendered, and whether no chunk was rendered yet.
pub type HtmlState = (RenderState, Option<usize>, Option<usize>, bool);

/// The bounds of the expandable context around a chunk with extents `x`:
/// 40 lines before and after, the end stopping three lines before the
/// next selected chunk's first line.
pub open spec fn ctx_bounds(d: DifftOutput, x: (usize, usize, usize, usize), bounds: Seq<(usize, usize)>, order: nat) -> (int, int, int, int) {
    let oca0 = min_i(x.1 + 41, d.old_lines@.len() as int);
    let nca0 = min_i(x.3 + 41, d.new_lines@.len() as int);
    let oca = if order + 1 < bounds.len() { min_i(oca0, sat_sub(bounds[(order + 1) as int].0 as int, 3)) } else { oca0 };
    let nca = if order + 1 < bounds.len() { min_i(nca0, sat_sub(bounds[(order + 1) as int].1 as int, 3)) } else { nca0 };
    (sat_sub(x.0 as int, 40), sat_sub(x.2 as int, 40), oca, nca)
}

/// The context rows before a chunk with extents `x`, visible bounds `c`,
/// context starting at old line `ocs` and new line `ncs`.
pub open spec fn pre_rows(single: bool, layout: DiffLayout, rn: Seq<RowNums>, kept: Seq<Keyed>,
    old_hl: Seq<String>, new_hl: Seq<String>, x: (usize, usize, usize, usize), c: (int, int, int, int),
    ocs: int, ncs: int, order: nat, rs: RenderState) -> RenderState
{
    let colspan: nat = if single { 3 } else { 6 };
    let pc = by_layout(layout, sat_sub(x.0 as int, ocs), sat_sub(x.2 as int, ncs));
    let vpc = by_layout(layout, sat_sub(x.0 as int, max_i(c.0, ocs)), sat_sub(x.2 as int, max_i(c.1, ncs)));
    let hpc = sat_sub(pc, vpc);
    let ob = sat_sub(x.0 as int, pc);
    let nb = sat_sub(x.2 as int, pc);
    let epre = expand_id(true, order);
    let rs1 = ctx_run(single, layout, rn, kept, old_hl, new_hl, ob, nb, 0, hpc, Some(epre), rs);
    let rs2 = (rs1.0 + (if hpc > 0 { expand_row(epre, colspan, min_i(hpc, 8) as nat, true) } else { Seq::empty() }), rs1.1, rs1.2);
    ctx_run(single, layout, rn, kept, old_hl, new_hl, ob, nb, hpc, pc, None, rs2)
}

/// The separator and the context before a chunk with extents `x`: visible
/// bounds `c`, expandable bounds `b`, after the state `st`.
pub open spec fn pre_context(single: bool, layout: DiffLayout, rn: Seq<RowNums>, kept: Seq<Keyed>,
    old_hl: Seq<String>, new_hl: Seq<String>, x: (usize, usize, usize, usize), c: (int, int, int, int),
    b: (int, int, int, int), order: nat, st: HtmlState) -> RenderState
{
    let colspan: nat = if single { 3 } else { 6 };
    let sep = if !st.3 && has_gap_before(st.1, st.2, b.0, b.1) { sep_row(colspan) } else { Seq::empty() };
    pre_rows(single, layout, rn, kept, old_hl, new_hl, x, c, ctx_start(st.1, b.0), ctx_start(st.2, b.1), order,
        (st.0.0 + sep, st.0.1, st.0.2))
}

/// The context after a chunk with extents `x`, and the last old and new lines
/// rendered.
pub open spec fn post_context(single: bool, layout: DiffLayout, rn: Seq<RowNums>, kept: Seq<Keyed>,
    old_hl: Seq<String>, new_hl: Seq<String>, x: (usize, usize, usize, usize), c: (int, int, int, int),
    b: (int, int, int, int), order: nat, rs: RenderState) -> (RenderState, Option<usize>, Option<usize>)
{
    let colspan: nat = if single { 3 } else { 6 };
    let ops = x.1 + 1;
    let nps = x.3 + 1;
    let ppc = by_layout(layout, sat_sub(b.2, ops), sat_sub(b.3, nps));
    let vpp = min_i(by_layout(layout, sat_sub(c.2, ops), sat_sub(c.3, nps)), ppc);
    let hpp = sat_sub(ppc, vpp);
    let epost = expand_id(false, order);
    let rs5 = ctx_run(single, layout, rn, kept, old_hl, new_hl, ops, nps, 0, vpp, None, rs);
    let rs6 = (rs5.0 + (if hpp > 0 { expand_row(epost, colspan, min_i(hpp, 8) as nat, false) } else { Seq::empty() }), rs5.1, rs5.2);
    let rs7 = ctx_run(single, layout, rn, kept, old_hl, new_hl, ops, nps, vpp, ppc, Some(epost), rs6);
    if ppc > 0 {
        (rs7, Some((ops + ppc - 1) as usize), Some((nps + ppc - 1) as usize))
    } else {
        (rs7, Some(x.1), Some(x.3))
    }
}

/// Whether a single-column block shows this chunk side by side: it has
/// gap-paired lines and its rows have both sides.
pub open spec fn goes_side_by_side(d: DifftOutput, chunk: Seq<LineEntry>, single0: bool) -> bool {
    let f = chunk_firsts(chunk, d.hunks@);
    let rv = chunk_rows(d, chunk);
    let gp = gap_lines(chunk, d.hunks@, f.0 as int, f.1 as int, f.2 as int, f.3 as int, d.old_lines@, d.new_lines@).0;
    single0 && gp.len() > 0 && has_side(rv, true) && has_side(rv, false)
}

/// Renders chunk number `order` after the state `st`.
///
/// - A chunk whose items the line filter all drops renders nothing.
/// - A single-column block shows this chunk side by side when it has
///   gap-paired lines and its rows have both sides.
/// - A separator row comes first when lines were skipped since the previous
///   chunk; then up to 40 lines of context before the chunk (those beyond the
///   visible three, widened to a cut-off expression, hidden behind an
///   expander), the items, and the same after the chunk, stopping three lines
///   before the next selected chunk.
pub open spec fn html_chunk(d: DifftOutput, old_hl: Seq<String>, new_hl: Seq<String>, chunk: Seq<LineEntry>,
    filter: Option<(usize, usize)>, single0: bool, layout0: DiffLayout, bounds: Seq<(usize, usize)>, order: nat,
    st: HtmlState) -> HtmlState
{
    let f = chunk_firsts(chunk, d.hunks@);
    let t = html_items(d, chunk, f);
    let over = goes_side_by_side(d, chunk, single0);
    let single = if over { false } else { single0 };
    let layout = if over { DiffLayout::SideBySide } else { layout0 };
    match filtered(d, t.0, t.1, t.2, filter) {
        None => st,
        Some(r) => {
            let x = r.1;
            let c = chunk_ctx(d, x);
            let b = ctx_bounds(d, x, bounds, order);
            let rs3 = pre_context(single, layout, t.0, t.1, old_hl, new_hl, x, c, b, order, st);
            let rs4 = items_run(single, layout, t.0, t.1, chunk_rows(d, chunk), d, old_hl, new_hl, r.0, (rs3, None, None)).0;
            let p = post_context(single, layout, t.0, t.1, old_hl, new_hl, x, c, b, order, rs4);
            (p.0, p.1, p.2, false)
        },
    }
}

fn by_layout_exec(layout: DiffLayout, o: usize, n: usize) -> (res: usize)
    ensures
        res as int == by_layout(layout, o as int, n as int),
{
    match layout {
        DiffLayout::AddOnly => n,
        DiffLayout::RemoveOnly => o,
        DiffLayout::SideBySide => if o <= n { o } else { n },
    }
}

fn rows_have_side(rows: &Vec<DiffRow>, left: bool) -> (res: bool)
    ensures
        res == has_side(rows_view(rows@), left),
{
    let ghost rv = rows_view(rows@);
    let mut i: usize = 0;
    while i < rows.len()
        invariant
            i <= rows@.len(),
            rv == rows_view(rows@),
            forall|q: int| 0 <= q < i ==> !(if left { (#[trigger] rv[q]).0 is Some } else { rv[q].1 is Some }),
        decreases rows@.len() - i,
    {
        assert(rv[i as int] == row_view(rows@[i as int]));
        let found = if left { rows[i].lhs.is_some() } else { rows[i].rhs.is_some() };
        if found {
            return true;
        }
        i = i + 1;
    }
    false
}

fn push_expand_row(acc: &mut Rendered, eid: &str, colspan: usize, step: usize, up: bool)
    ensures
        final(acc).out@ == old(acc).out@ + expand_row(eid@, colspan as nat, step as nat, up),
        final(acc).old@ == old(acc).old@,
        final(acc).new@ == old(acc).new@,
        final(acc).max_old == old(acc).max_old,
{
    acc.out.append("<tr class=\"expand-summary\" data-expand-id=\"");
    acc.out.append(eid);
    if up {
        acc.out.append("\" data-dir=\"up\">");
    } else {
        acc.out.append("\" data-dir=\"down\">");
    }
    acc.out.append("<td class=\"expand-btn\" colspan=\"");
    push_dec_usize(&mut acc.out, colspan);
    acc.out.append("\">");
    if up {
        acc.out.append("\u{2191}");
    } else {
        acc.out.append("\u{2193}");
    }
    acc.out.append(" Show ");
    push_dec_usize(&mut acc.out, step);
    acc.out.append(" more ");
    if step == 1 {
        acc.out.append("line");
    } else {
        acc.out.append("lines");
    }
    acc.out.append("</td></tr>");
    assert(acc.out@ =~= old(acc).out@ + expand_row(eid@, colspan as nat, step as nat, up));
}

fn expand_id_exec(pre: bool, order: usize) -> (res: String)
    ensures
        res@ == expand_id(pre, order as nat),
{
    let mut s = String::new();
    if pre {
        s.append("expand-pre-");
    } else {
        s.append("expand-post-");
    }
    push_dec_usize(&mut s, order);
    s
}

#[verifier::spinoff_prover]
#[verifier::rlimit(40)]
fn push_pre_rows(acc: &mut Rendered, single: bool, layout: DiffLayout, rn: &Vec<RowNums>, kept: &Vec<Keyed>,
    old_hl: &[String], new_hl: &[String], x: (usize, usize, usize, usize), c: (usize, usize, usize, usize),
    ocs: usize, ncs: usize, order: usize)
    requires
        items_ok(rn@.len(), kept@),
        x.0 <= 4 * LINE_LIMIT,
        x.2 <= 4 * LINE_LIMIT,
        rendered_ok(*old(acc)),
    ensures
        rs_of(*final(acc)) == pre_rows(single, layout, rn@, kept@, old_hl@, new_hl@, x,
            (c.0 as int, c.1 as int, c.2 as int, c.3 as int), ocs as int, ncs as int, order as nat, rs_of(*old(acc))),
        rendered_ok(*final(acc)),
{
    let colspan: usize = if single { 3 } else { 6 };
    let pc = by_layout_exec(layout, x.0.saturating_sub(ocs), x.2.saturating_sub(ncs));
    let ovs = if c.0 >= ocs { c.0 } else { ocs };
    let nvs = if c.1 >= ncs { c.1 } else { ncs };
    let vpc = by_layout_exec(layout, x.0.saturating_sub(ovs), x.2.saturating_sub(nvs));
    let hpc = pc.saturating_sub(vpc);
    let ob = x.0.saturating_sub(pc);
    let nb = x.2.saturating_sub(pc);
    let ghost c_i = (c.0 as int, c.1 as int, c.2 as int, c.3 as int);
    assert(pc as int == by_layout(layout, sat_sub(x.0 as int, ocs as int), sat_sub(x.2 as int, ncs as int)));
    assert(vpc as int == by_layout(layout, sat_sub(x.0 as int, max_i(c_i.0, ocs as int)), sat_sub(x.2 as int, max_i(c_i.1, ncs as int))));
    assert(hpc as int == sat_sub(pc as int, vpc as int));
    assert(ob as int == sat_sub(x.0 as int, pc as int));
    assert(nb as int == sat_sub(x.2 as int, pc as int));
    let epre = expand_id_exec(true, order);
    let ghost rs0 = rs_of(*acc);
    push_ctx_run(acc, single, layout, rn, kept, old_hl, new_hl, ob, nb, 0, hpc, Some(epre.as_str()));
    let ghost rs1 = rs_of(*acc);
    if hpc > 0 {
        push_expand_row(acc, epre.as_str(), colspan, if hpc < 8 { hpc } else { 8 }, true);
    }
    let ghost rs2 = rs_of(*acc);
    assert(rs2 == (rs1.0 + (if hpc > 0 { expand_row(epre@, colspan as nat, min_i(hpc as int, 8) as nat, true) } else { Seq::empty() }), rs1.1, rs1.2));
    push_ctx_run(acc, single, layout, rn, kept, old_hl, new_hl, ob, nb, hpc, pc, None);
}

fn push_pre_context(acc: &mut Rendered, single: bool, layout: DiffLayout, rn: &Vec<RowNums>, kept: &Vec<Keyed>,
    old_hl: &[String], new_hl: &[String], x: (usize, usize, usize, usize), c: (usize, usize, usize, usize),
    b: (usize, usize, usize, usize), order: usize, lo: Option<usize>, ln: Option<usize>, first: bool)
    requires
        items_ok(rn@.len(), kept@),
        x.0 <= 4 * LINE_LIMIT,
        x.2 <= 4 * LINE_LIMIT,
        lo matches Some(l) ==> l <= 8 * LINE_LIMIT,
        ln matches Some(l) ==> l <= 8 * LINE_LIMIT,
        rendered_ok(*old(acc)),
    ensures
        rs_of(*final(acc)) == pre_context(single, layout, rn@, kept@, old_hl@, new_hl@, x,
            (c.0 as int, c.1 as int, c.2 as int, c.3 as int), (b.0 as int, b.1 as int, b.2 as int, b.3 as int),
            order as nat, (rs_of(*old(acc)), lo, ln, first)),
        rendered_ok(*final(acc)),
{
    let ocs = match lo { Some(l) => if l + 1 > b.0 { l + 1 } else { b.0 }, None => b.0 };
    let ncs = match ln { Some(l) => if l + 1 > b.1 { l + 1 } else { b.1 }, None => b.1 };
    let colspan: usize = if single { 3 } else { 6 };
    let ghost sep = if !first && has_gap_before(lo, ln, b.0 as int, b.1 as int) { sep_row(colspan as nat) } else { Seq::empty() };
    let ghost out0 = acc.out@;
    if !first {
        let has_gap = match lo {
            Some(l) => l + 1 < b.0,
            None => match ln {
                Some(l) => l + 1 < b.1,
                None => true,
            },
        };
        if has_gap {
            acc.out.append("<tr class=\"chunk-sep\"><td colspan=\"");
            push_dec_usize(&mut acc.out, colspan);
            acc.out.append("\"></td></tr>");
            assert(acc.out@ =~= out0 + sep);
        } else {
            assert(acc.out@ =~= out0 + sep);
        }
    } else {
        assert(acc.out@ =~= out0 + sep);
    }
    push_pre_rows(acc, single, layout, rn, kept, old_hl, new_hl, x, c, ocs, ncs, order);
}

fn push_post_context(acc: &mut Rendered, single: bool, layout: DiffLayout, rn: &Vec<RowNums>, kept: &Vec<Keyed>,
    old_hl: &[String], new_hl: &[String], x: (usize, usize, usize, usize), c: (usize, usize, usize, usize),
    b: (usize, usize, usize, usize), order: usize) -> (res: (Option<usize>, Option<usize>))
    requires
        items_ok(rn@.len(), kept@),
        x.1 <= 4 * LINE_LIMIT,
        x.3 <= 4 * LINE_LIMIT,
        b.2 <= 4 * LINE_LIMIT,
        b.3 <= 4 * LINE_LIMIT,
        rendered_ok(*old(acc)),
    ensures
        (rs_of(*final(acc)), res.0, res.1) == post_context(single, layout, rn@, kept@, old_hl@, new_hl@, x,
            (c.0 as int, c.1 as int, c.2 as int, c.3 as int), (b.0 as int, b.1 as int, b.2 as int, b.3 as int),
            order as nat, rs_of(*old(acc))),
        res.0 matches Some(l) ==> l <= 8 * LINE_LIMIT,
        res.1 matches Some(l) ==> l <= 8 * LINE_LIMIT,
        rendered_ok(*final(acc)),
{
    let colspan: usize = if single { 3 } else { 6 };
    let ops = x.1 + 1;
    let nps = x.3 + 1;
    let ppc = by_layout_exec(layout, b.2.saturating_sub(ops), b.3.saturating_sub(nps));
    let vpp0 = by_layout_exec(layout, c.2.saturating_sub(ops), c.3.saturating_sub(nps));
    let vpp = if vpp0 < ppc { vpp0 } else { ppc };
    let hpp = ppc - vpp;
    let epost = expand_id_exec(false, order);
    push_ctx_run(acc, single, layout, rn, kept, old_hl, new_hl, ops, nps, 0, vpp, None);
    if hpp > 0 {
        push_expand_row(acc, epost.as_str(), colspan, if hpp < 8 { hpp } else { 8 }, false);
    }
    push_ctx_run(acc, single, layout, rn, kept, old_hl, new_hl, ops, nps, vpp, ppc, Some(epost.as_str()));
    if ppc > 0 {
        (Some(ops + ppc - 1), Some(nps + ppc - 1))
    } else {
        (Some(x.1), Some(x.3))
    }
}

fn ctx_bounds_exec(d: &DifftOutput, x: (usize, usize, usize, usize), bounds: &Vec<(usize, usize)>, order: usize)
    -> (res: (usize, usize, usize, usize))
    requires
        difft_fits(*d),
        x.1 <= 4 * LINE_LIMIT,
        x.3 <= 4 * LINE_LIMIT,
        order < usize::MAX,
    ensures
        (res.0 as int, res.1 as int, res.2 as int, res.3 as int) == ctx_bounds(*d, x, bounds@, order as nat),
        res.2 <= LINE_LIMIT,
        res.3 <= LINE_LIMIT,
{
    let old_len = d.old_lines.len();
    let new_len = d.new_lines.len();
    let oca0 = if x.1 + 41 < old_len { x.1 + 41 } else { old_len };
    let nca0 = if x.3 + 41 < new_len { x.3 + 41 } else { new_len };
    let (oca, nca) = if order + 1 < bounds.len() {
        let bb = bounds[order + 1];
        let bo = bb.0.saturating_sub(3);
        let bn = bb.1.saturating_sub(3);
        (if oca0 < bo { oca0 } else { bo }, if nca0 < bn { nca0 } else { bn })
    } else {
        (oca0, nca0)
    };
    (x.0.saturating_sub(40), x.2.saturating_sub(40), oca, nca)
}

fn html_chunk_exec(acc: &mut Rendered, d: &DifftOutput, chunk: &Vec<LineEntry>, filter: Option<(usize, usize)>,
    single0: bool, layout0: DiffLayout, bounds: &Vec<(usize, usize)>, order: usize,
    old_hl: &[String], new_hl: &[String], lo: Option<usize>, ln: Option<usize>, first: bool)
    -> (res: (Option<usize>, Option<usize>, bool, bool))
    requires
        difft_fits(*d),
        chunk@.len() < LINE_LIMIT,
        entries_below(chunk@, LINE_LIMIT as int),
        hl_fit(old_hl@),
        hl_fit(new_hl@),
        lo matches Some(l) ==> l <= 8 * LINE_LIMIT,
        ln matches Some(l) ==> l <= 8 * LINE_LIMIT,
        order < usize::MAX,
        rendered_ok(*old(acc)),
    ensures
        res.3 == chunk_merge_ok(*d, old_hl@, new_hl@, chunk@, filter, single0, layout0,
            bounds@, order as nat, (rs_of(*old(acc)), lo, ln, first)),
        res.3 ==> (rs_of(*final(acc)), res.0, res.1, res.2) == html_chunk(*d, old_hl@, new_hl@, chunk@, filter, single0, layout0,
            bounds@, order as nat, (rs_of(*old(acc)), lo, ln, first)),
        res.0 matches Some(l) ==> l <= 8 * LINE_LIMIT,
        res.1 matches Some(l) ==> l <= 8 * LINE_LIMIT,
        rendered_ok(*final(acc)),
{
    proof {
        lemma_fits_hunks(*d);
        assert(hunks_bounded(d.hunks@));
    }
    let ghost st0: HtmlState = (rs_of(*acc), lo, ln, first);
    let f = chunk_firsts_exec(d, chunk);
    let (rows, rn, kept, e, has_gp) = html_items_exec(d, chunk, f);
    let lhs_any = rows_have_side(&rows, true);
    let rhs_any = rows_have_side(&rows, false);
    let over = single0 && has_gp && lhs_any && rhs_any;
    assert(over == goes_side_by_side(*d, chunk@, single0));
    let single = if over { false } else { single0 };
    let layout = if over { DiffLayout::SideBySide } else { layout0 };
    let (fi, x) = match filtered_exec(d, &rn, &kept, e, filter) {
        None => { return (lo, ln, first, true); },
        Some(r) => r,
    };
    let c = chunk_ctx_exec(d, x);
    let b = ctx_bounds_exec(d, x, bounds, order);
    push_pre_context(acc, single, layout, &rn, &kept, old_hl, new_hl, x, c, b, order, lo, ln, first);
    if !push_items_run(acc, single, layout, &rows, &rn, &kept, d, old_hl, new_hl, &fi) {
        return (lo, ln, first, false);
    }
    let (l1, l2) = push_post_context(acc, single, layout, &rn, &kept, old_hl, new_hl, x, c, b, order);
    (l1, l2, false, true)
}

/// Whether rendering a chunk after state `st` merges only spans that are in
/// order (see [`items_merge_ok`]); a chunk that the filter empties merges none.
pub open spec fn chunk_merge_ok(d: DifftOutput, old_hl: Seq<String>, new_hl: Seq<String>, chunk: Seq<LineEntry>,
    filter: Option<(usize, usize)>, single0: bool, layout0: DiffLayout, bounds: Seq<(usize, usize)>, order: nat,
    st: HtmlState) -> bool
{
    let f = chunk_firsts(chunk, d.hunks@);
    let t = html_items(d, chunk, f);
    let over = goes_side_by_side(d, chunk, single0);
    let single = if over { false } else { single0 };
    let layout = if over { DiffLayout::SideBySide } else { layout0 };
    match filtered(d, t.0, t.1, t.2, filter) {
        None => true,
        Some(r) => {
            let x = r.1;
            let c = chunk_ctx(d, x);
            let b = ctx_bounds(d, x, bounds, order);
            let rs3 = pre_context(single, layout, t.0, t.1, old_hl, new_hl, x, c, b, order, st);
            items_merge_ok(single, layout, t.0, t.1, chunk_rows(d, chunk), d, old_hl, new_hl, r.0, (rs3, None, None))
        },
    }
}

/// Whether rendering the first `k` selected chunks merges only spans that are in order.
pub open spec fn html_fold_ok(d: DifftOutput, old_hl: Seq<String>, new_hl: Seq<String>, idx: Seq<usize>,
    filter: Option<(usize, usize)>, single0: bool, layout0: DiffLayout, bounds: Seq<(usize, usize)>, init: Seq<char>, k: int) -> bool
    decreases k,
{
    if k <= 0 {
        true
    } else {
        &&& html_fold_ok(d, old_hl, new_hl, idx, filter, single0, layout0, bounds, init, k - 1)
        &&& (idx[k - 1] < d.chunks@.len() ==> chunk_merge_ok(d, old_hl, new_hl, d.chunks@[idx[k - 1] as int]@, filter,
                single0, layout0, bounds, (k - 1) as nat,
                html_fold(d, old_hl, new_hl, idx, filter, single0, layout0, bounds, init, k - 1)))
    }
}

proof fn lemma_fold_ok_prefix(d: DifftOutput, old_hl: Seq<String>, new_hl: Seq<String>, idx: Seq<usize>,
    filter: Option<(usize, usize)>, single0: bool, layout0: DiffLayout, bounds: Seq<(usize, usize)>, init: Seq<char>, j: int, k: int)
    requires
        0 <= j <= k,
        html_fold_ok(d, old_hl, new_hl, idx, filter, single0, layout0, bounds, init, k),
    ensures
        html_fold_ok(d, old_hl, new_hl, idx, filter, single0, layout0, bounds, init, j),
    decreases k - j,
{
    if j < k {
        lemma_fold_ok_prefix(d, old_hl, new_hl, idx, filter, single0, layout0, bounds, init, j, k - 1);
    }
}

/// The first old and new lines of the selected chunks, skipping indices past
/// the chunks.
pub open spec fn chunk_bounds(d: DifftOutput, idx: Seq<usize>) -> Seq<(usize, usize)>
    decreases idx.len(),
{
    if idx.len() == 0 {
        Seq::empty()
    } else {
        let b = chunk_bounds(d, idx.drop_last());
        if idx.last() < d.chunks@.len() {
            let f = chunk_firsts(d.chunks@[idx.last() as int]@, d.hunks@);
            b.push((f.0, f.2))
        } else {
            b
        }
    }
}

/// Renders the first `k` selected chunks in order after the text `init`;
/// indices past the chunks are skipped.
pub open spec fn html_fold(d: DifftOutput, old_hl: Seq<String>, new_hl: Seq<String>, idx: Seq<usize>,
    filter: Option<(usize, usize)>, single0: bool, layout0: DiffLayout, bounds: Seq<(usize, usize)>, init: Seq<char>, k: int) -> HtmlState
    decreases k,
{
    if k <= 0 {
        ((init, Seq::empty(), Seq::empty()), None, None, true)
    } else {
        let st = html_fold(d, old_hl, new_hl, idx, filter, single0, layout0, bounds, init, k - 1);
        let ci = idx[k - 1];
        if ci < d.chunks@.len() {
            html_chunk(d, old_hl, new_hl, d.chunks@[ci as int]@, filter, single0, layout0, bounds, (k - 1) as nat, st)
        } else {
            st
        }
    }
}

/// How a diff block starts collapsed.
#[derive(Clone, Copy, PartialEq, Eq, Structural, Debug)]
pub enum CollapseMode {
    /// Expanded.
    Expanded,
    /// Collapsed, and found by the browser's search (deleted files).
    Searchable,
    /// Collapsed and hidden from search (generated files).
    Hidden,
}

/// The collapse attribute of a block.
pub open spec fn collapse_attr(c: CollapseMode) -> Seq<char> {
    match c {
        CollapseMode::Expanded => "data-collapse=\"none\""@,
        CollapseMode::Searchable => "data-collapse=\"searchable\""@,
        CollapseMode::Hidden => "data-collapse=\"hidden\""@,
    }
}

/// The note under the header of a collapsed block.
pub open spec fn disclaimer(c: CollapseMode) -> Seq<char> {
    match c {
        CollapseMode::Expanded => Seq::empty(),
        CollapseMode::Searchable => "<div class=\"collapse-disclaimer\">Automatically collapsed (file deleted). Click to expand.</div>"@,
        CollapseMode::Hidden => "<div class=\"collapse-disclaimer\">Automatically collapsed (generated file). Click to expand.</div>"@,
    }
}

/// The attribute of a block's body.
pub open spec fn body_attr(c: CollapseMode) -> Seq<char> {
    match c {
        CollapseMode::Expanded => Seq::empty(),
        CollapseMode::Searchable => " hidden=\"until-found\""@,
        CollapseMode::Hidden => " class=\"collapsed-hidden\""@,
    }
}

/// The opening of the table: three columns for a single-column block, six otherwise.
pub open spec fn table_open(single: bool, layout: DiffLayout) -> Seq<char> {
    if single {
        "<table class=\"diff-table diff-single "@
            + (if layout == DiffLayout::AddOnly { "diff-add-only"@ } else { "diff-remove-only"@ })
            + "\"><colgroup><col class=\"ln-col\"><col class=\"sign-col\"><col class=\"code-col\"></colgroup><tbody>"@
    } else {
        "<table class=\"diff-table\"><colgroup><col class=\"ln-col\"><col class=\"sign-col\"><col class=\"code-col\"><col class=\"ln-col\"><col class=\"sign-col\"><col class=\"code-col\"></colgroup><tbody>"@
    }
}

/// The start of a diff block: header with the escaped path, the collapse
/// state, and the opening of the body and the table.
pub open spec fn block_head(path: Seq<char>, c: CollapseMode, single: bool, layout: DiffLayout) -> Seq<char> {
    "<div class=\""@ + (if c == CollapseMode::Expanded { "diff-block"@ } else { "diff-block collapsed"@ }) + "\" "@ + collapse_attr(c)
        + "><div class=\"diff-header\"><span class=\"collapse-arrow\">\u{25B6}</span> "@ + escape_html(path)
        + "<label class=\"viewed-label\"><input type=\"checkbox\" class=\"viewed-check\"><span>Viewed</span></label></div>"@
        + disclaimer(c) + "<div class=\"diff-body\""@ + body_attr(c) + ">"@ + table_open(single, layout)
}

/// The characters `class="code`.
pub open spec fn code_class() -> Seq<char> {
    seq!['c', 'l', 'a', 's', 's', '=', '"', 'c', 'o', 'd', 'e']
}

/// Where a match of `class="code[^"]*">` that starts at `i` ends.
pub open spec fn code_tag_end(s: Seq<char>, i: int) -> Option<int> {
    if 0 <= i && i + 11 <= s.len() && s.subrange(i, i + 11) == code_class() {
        match find_from(s, i + 11, '"') {
            Some(q) => if q + 1 < s.len() && s[q + 1] == '>' { Some(q + 2) } else { None },
            None => None,
        }
    } else {
        None
    }
}

/// The number of spaces from position `j` on.
pub open spec fn space_run(s: Seq<char>, j: int) -> int
    decreases s.len() - j,
{
    if 0 <= j < s.len() && s[j] == ' ' { 1 + space_run(s, j + 1) } else { 0 }
}

/// A code-cell opening ends after it starts.
pub proof fn lemma_tag_end_after(s: Seq<char>, i: int)
    requires
        code_tag_end(s, i) is Some,
    ensures
        code_tag_end(s, i)->0 > i,
{
    lemma_find_from(s, i + 11, '"');
}

/// A run of spaces is not negative and stays within the text.
pub proof fn lemma_space_run_nonneg(s: Seq<char>, j: int)
    ensures
        0 <= space_run(s, j),
        j + space_run(s, j) <= s.len() || space_run(s, j) == 0,
    decreases s.len() - j,
{
    if 0 <= j < s.len() && s[j] == ' ' {
        lemma_space_run_nonneg(s, j + 1);
    }
}

/// The indentations after code-cell openings, as a scan for
/// `class="code[^"]*">( +)` from position `p` finds them.
pub open spec fn indents(s: Seq<char>, p: int) -> Seq<int>
    decreases s.len() - p,
{
    if p < 0 || p >= s.len() {
        Seq::empty()
    } else {
        match code_tag_end(s, p) {
            Some(j) => {
                proof {
                    lemma_tag_end_after(s, p);
                    lemma_space_run_nonneg(s, j);
                }
                if space_run(s, j) >= 1 {
                    seq![space_run(s, j)] + indents(s, j + space_run(s, j))
                } else {
                    indents(s, p + 1)
                }
            },
            None => indents(s, p + 1),
        }
    }
}

/// The smallest element, if there is one.
pub open spec fn seq_min(s: Seq<int>) -> Option<int>
    decreases s.len(),
{
    if s.len() == 0 {
        None
    } else {
        match seq_min(s.drop_last()) {
            None => Some(s.last()),
            Some(m) => Some(if s.last() < m { s.last() } else { m }),
        }
    }
}

/// The text from `p` on with `k` spaces removed after each code-cell opening
/// followed by at least `k` spaces.
pub open spec fn strip_from(s: Seq<char>, p: int, k: int) -> Seq<char>
    decreases s.len() - p,
{
    if p < 0 || p >= s.len() || k < 1 {
        if 0 <= p < s.len() { s.skip(p) } else { Seq::empty() }
    } else {
        match code_tag_end(s, p) {
            Some(j) => {
                proof {
                    lemma_tag_end_after(s, p);
                    lemma_space_run_nonneg(s, j);
                }
                if space_run(s, j) >= k {
                    s.subrange(p, j) + strip_from(s, j + k, k)
                } else {
                    seq![s[p]] + strip_from(s, p + 1, k)
                }
            },
            None => seq![s[p]] + strip_from(s, p + 1, k),
        }
    }
}

/// The block with the common indentation of its code cells removed: the
/// smallest run of spaces that opens a code cell is taken out of every code
/// cell that opens with at least that many.
pub open spec fn strip_indent(s: Seq<char>) -> Seq<char> {
    match seq_min(indents(s, 0)) {
        Some(m) => if m > 0 { strip_from(s, 0, m) } else { s },
        None => s,
    }
}

/// The HTML diff block of the selected chunks of a file, given its
/// highlighted old and new lines.
pub open spec fn diff_block(d: DifftOutput, idx: Seq<usize>, path: Seq<char>, filter: Option<(usize, usize)>,
    old_hl: Seq<String>, new_hl: Seq<String>, collapse: CollapseMode) -> Seq<char>
{
    let layout = layout_of(d, idx, filter);
    let single = layout != DiffLayout::SideBySide;
    let head = block_head(path, collapse, single, layout);
    let body = html_fold(d, old_hl, new_hl, idx, filter, single, layout, chunk_bounds(d, idx), head, idx.len() as int).0.0
        + "</tbody></table></div></div>"@;
    let stripped = strip_indent(body);
    if single { stripped } else { split_tables(stripped) }
}

/// Whether drawing the block of [`diff_block`] merges only change spans that
/// are in order: every row that the side-by-side row renderer draws has its
/// spans in order (see [`row_spans_ok`]); rows of single-column tables, rows
/// drawn as context, low-similarity pairs and rows outside the line filter
/// merge no spans.
pub open spec fn diff_block_ok(d: DifftOutput, idx: Seq<usize>, path: Seq<char>, filter: Option<(usize, usize)>,
    old_hl: Seq<String>, new_hl: Seq<String>, collapse: CollapseMode) -> bool
{
    let layout = layout_of(d, idx, filter);
    let single = layout != DiffLayout::SideBySide;
    let head = block_head(path, collapse, single, layout);
    html_fold_ok(d, old_hl, new_hl, idx, filter, single, layout, chunk_bounds(d, idx), head, idx.len() as int)
}

fn chunk_bounds_exec(d: &DifftOutput, idx: &[usize]) -> (res: Vec<(usize, usize)>)
    requires
        difft_fits(*d),
    ensures
        res@ == chunk_bounds(*d, idx@),
{
    let mut res: Vec<(usize, usize)> = Vec::new();
    let mut k: usize = 0;
    while k < idx.len()
        invariant
            k <= idx@.len(),
            difft_fits(*d),
            res@ == chunk_bounds(*d, idx@.take(k as int)),
        decreases idx@.len() - k,
    {
        let ci = idx[k];
        proof {
            assert(idx@.take(k + 1).drop_last() == idx@.take(k as int));
            assert(idx@.take(k + 1).last() == ci);
        }
        if ci < d.chunks.len() {
            let chunk = &d.chunks[ci];
            proof { assert(d.chunks@[ci as int] == *chunk); }
            let f = chunk_firsts_exec(d, chunk);
            res.push((f.0, f.2));
        }
        k = k + 1;
    }
    proof { assert(idx@.take(idx@.len() as int) == idx@); }
    res
}

fn block_head_exec(path: &str, c: CollapseMode, single: bool, layout: DiffLayout) -> (res: String)
    ensures
        res@ == block_head(path@, c, single, layout),
{
    let mut h = String::new();
    h.append("<div class=\"");
    match c {
        CollapseMode::Expanded => h.append("diff-block"),
        _ => h.append("diff-block collapsed"),
    }
    h.append("\" ");
    match c {
        CollapseMode::Expanded => h.append("data-collapse=\"none\""),
        CollapseMode::Searchable => h.append("data-collapse=\"searchable\""),
        CollapseMode::Hidden => h.append("data-collapse=\"hidden\""),
    }
    h.append("><div class=\"diff-header\"><span class=\"collapse-arrow\">\u{25B6}</span> ");
    let esc = html_escape(path);
    h.append(esc.as_str());
    h.append("<label class=\"viewed-label\"><input type=\"checkbox\" class=\"viewed-check\"><span>Viewed</span></label></div>");
    match c {
        CollapseMode::Expanded => {},
        CollapseMode::Searchable => h.append("<div class=\"collapse-disclaimer\">Automatically collapsed (file deleted). Click to expand.</div>"),
        CollapseMode::Hidden => h.append("<div class=\"collapse-disclaimer\">Automatically collapsed (generated file). Click to expand.</div>"),
    }
    h.append("<div class=\"diff-body\"");
    match c {
        CollapseMode::Expanded => {},
        CollapseMode::Searchable => h.append(" hidden=\"until-found\""),
        CollapseMode::Hidden => h.append(" class=\"collapsed-hidden\""),
    }
    h.append(">");
    if single {
        h.append("<table class=\"diff-table diff-single ");
        if layout == DiffLayout::AddOnly {
            h.append("diff-add-only");
        } else {
            h.append("diff-remove-only");
        }
        h.append("\"><colgroup><col class=\"ln-col\"><col class=\"sign-col\"><col class=\"code-col\"></colgroup><tbody>");
    } else {
        h.append("<table class=\"diff-table\"><colgroup><col class=\"ln-col\"><col class=\"sign-col\"><col class=\"code-col\"><col class=\"ln-col\"><col class=\"sign-col\"><col class=\"code-col\"></colgroup><tbody>");
    }
    proof {
        assert(h@ =~= block_head(path@, c, single, layout));
    }
    h
}

fn code_tag_at(h: &Vec<char>, i: usize) -> (res: Option<usize>)
    ensures
        match res {
            Some(j) => code_tag_end(h@, i as int) == Some(j as int),
            None => code_tag_end(h@, i as int) is None,
        },
{
    if i > h.len() || h.len() - i < 11 {
        return None;
    }
    let ok = h[i] == 'c' && h[i + 1] == 'l' && h[i + 2] == 'a' && h[i + 3] == 's' && h[i + 4] == 's'
        && h[i + 5] == '=' && h[i + 6] == '"' && h[i + 7] == 'c' && h[i + 8] == 'o' && h[i + 9] == 'd'
        && h[i + 10] == 'e';
    proof {
        if ok {
            assert(h@.subrange(i as int, i + 11) =~= code_class());
        } else {
            if h@.subrange(i as int, i + 11) == code_class() {
                assert(h@.subrange(i as int, i + 11)[0] == h@[i as int]);
                assert(h@.subrange(i as int, i + 11)[1] == h@[i + 1]);
                assert(h@.subrange(i as int, i + 11)[2] == h@[i + 2]);
                assert(h@.subrange(i as int, i + 11)[3] == h@[i + 3]);
                assert(h@.subrange(i as int, i + 11)[4] == h@[i + 4]);
                assert(h@.subrange(i as int, i + 11)[5] == h@[i + 5]);
                assert(h@.subrange(i as int, i + 11)[6] == h@[i + 6]);
                assert(h@.subrange(i as int, i + 11)[7] == h@[i + 7]);
                assert(h@.subrange(i as int, i + 11)[8] == h@[i + 8]);
                assert(h@.subrange(i as int, i + 11)[9] == h@[i + 9]);
                assert(h@.subrange(i as int, i + 11)[10] == h@[i + 10]);
            }
        }
    }
    if !ok {
        return None;
    }
    match find_char_from(h.as_slice(), i + 11, '"') {
        Some(q) => {
            proof { lemma_find_from(h@, i + 11, '"'); }
            if q + 1 < h.len() && h[q + 1] == '>' {
                Some(q + 2)
            } else {
                None
            }
        },
        None => None,
    }
}

fn spaces_at(h: &Vec<char>, j: usize) -> (res: usize)
    ensures
        res as int == space_run(h@, j as int),
        j + res <= h@.len() || res == 0,
{
    if j >= h.len() {
        return 0;
    }
    let mut r: usize = 0;
    while r < h.len() - j && h[j + r] == ' '
        invariant
            j < h@.len(),
            j + r <= h@.len(),
            space_run(h@, j as int) == r + space_run(h@, j + r),
        decreases h@.len() - j - r,
    {
        r = r + 1;
    }
    r
}

fn min_indent_exec(h: &Vec<char>) -> (res: Option<usize>)
    ensures
        match res {
            Some(m) => seq_min(indents(h@, 0)) == Some(m as int),
            None => seq_min(indents(h@, 0)) is None,
        },
{
    let ghost found: Seq<int> = Seq::empty();
    let mut best: Option<usize> = None;
    let mut p: usize = 0;
    while p < h.len()
        invariant
            p <= h@.len(),
            indents(h@, 0) == found + indents(h@, p as int),
            match best {
                Some(m) => seq_min(found) == Some(m as int),
                None => seq_min(found) is None,
            },
        decreases h@.len() - p,
    {
        match code_tag_at(h, p) {
            Some(j) => {
                proof { lemma_tag_end_after(h@, p as int); }
                let r = spaces_at(h, j);
                if r >= 1 {
                    proof {
                        assert(found.push(r as int).drop_last() == found);
                        assert((found + seq![r as int]) == found.push(r as int));
                        assert(found + indents(h@, p as int) == found.push(r as int) + indents(h@, j + r));
                        found = found.push(r as int);
                    }
                    best = match best {
                        None => Some(r),
                        Some(m) => Some(if r < m { r } else { m }),
                    };
                    p = j + r;
                } else {
                    p = p + 1;
                }
            },
            None => {
                p = p + 1;
            },
        }
    }
    proof { assert(found + Seq::<int>::empty() == found); }
    best
}

fn strip_exec(h: &Vec<char>, k: usize) -> (res: String)
    requires
        k >= 1,
    ensures
        res@ == strip_from(h@, 0, k as int),
{
    let mut out = String::new();
    let mut p: usize = 0;
    while p < h.len()
        invariant
            p <= h@.len(),
            k >= 1,
            out@ + strip_from(h@, p as int, k as int) == strip_from(h@, 0, k as int),
        decreases h@.len() - p,
    {
        match code_tag_at(h, p) {
            Some(j) => {
                proof { lemma_tag_end_after(h@, p as int); }
                let r = spaces_at(h, j);
                if r >= k {
                    push_chars(&mut out, h.as_slice(), p, j);
                    proof {
                        assert(strip_from(h@, p as int, k as int) == h@.subrange(p as int, j as int) + strip_from(h@, j + k, k as int));
                    }
                    p = j + k;
                } else {
                    push_char(&mut out, h[p]);
                    proof {
                        assert(strip_from(h@, p as int, k as int) == seq![h@[p as int]] + strip_from(h@, p + 1, k as int));
                    }
                    p = p + 1;
                }
            },
            None => {
                push_char(&mut out, h[p]);
                proof {
                    assert(strip_from(h@, p as int, k as int) == seq![h@[p as int]] + strip_from(h@, p + 1, k as int));
                }
                p = p + 1;
            },
        }
    }
    proof { assert(out@ + Seq::<char>::empty() == out@); }
    out
}

fn strip_indent_exec(html: &str) -> (res: String)
    ensures
        res@ == strip_indent(html@),
{
    let h = chars_of(html);
    match min_indent_exec(&h) {
        Some(m) => {
            if m > 0 {
                strip_exec(&h, m)
            } else {
                string_of_chars(h.as_slice())
            }
        },
        None => string_of_chars(h.as_slice()),
    }
}

/// Render the selected chunks of a file as an HTML diff block, from the
/// file's highlighted old and new lines (see [`diff_block`]); `None` when a
/// row that the block draws side by side has change spans out of order (see
/// [`diff_block_ok`]).
pub fn render_chunks_with(difft: &DifftOutput, chunk_indices: &[usize], file_path: &str, line_filter: Option<(usize, usize)>,
    old_hl: &Vec<String>, new_hl: &Vec<String>, collapse: CollapseMode) -> (res: Option<String>)
    requires
        difft_fits(*difft),
        hl_fit(old_hl@),
        hl_fit(new_hl@),
    ensures
        match res {
            None => !diff_block_ok(*difft, chunk_indices@, file_path@, line_filter, old_hl@, new_hl@, collapse),
            Some(s) => diff_block_ok(*difft, chunk_indices@, file_path@, line_filter, old_hl@, new_hl@, collapse)
                && s@ == diff_block(*difft, chunk_indices@, file_path@, line_filter, old_hl@, new_hl@, collapse),
        },
{
    let layout = detect_diff_layout(difft, chunk_indices, line_filter);
    let single = layout != DiffLayout::SideBySide;
    let head = block_head_exec(file_path, collapse, single, layout);
    let bounds = chunk_bounds_exec(difft, chunk_indices);
    let ghost init = head@;
    let mut acc = Rendered { out: head, old: Vec::new(), new: Vec::new(), max_old: 0 };
    let mut lo: Option<usize> = None;
    let mut ln: Option<usize> = None;
    let mut first = true;
    let mut k: usize = 0;
    proof {
        assert(acc.old@ =~= Seq::<usize>::empty());
        assert(acc.new@ =~= Seq::<usize>::empty());
    }
    while k < chunk_indices.len()
        invariant
            k <= chunk_indices@.len(),
            difft_fits(*difft),
            hl_fit(old_hl@),
            hl_fit(new_hl@),
            bounds@ == chunk_bounds(*difft, chunk_indices@),
            rendered_ok(acc),
            (rs_of(acc), lo, ln, first) == html_fold(*difft, old_hl@, new_hl@, chunk_indices@, line_filter, single, layout,
                bounds@, init, k as int),
            html_fold_ok(*difft, old_hl@, new_hl@, chunk_indices@, line_filter, single, layout, bounds@, init, k as int),
            init == block_head(file_path@, collapse, single, layout),
            layout == layout_of(*difft, chunk_indices@, line_filter),
            single == (layout != DiffLayout::SideBySide),
            lo matches Some(l) ==> l <= 8 * LINE_LIMIT,
            ln matches Some(l) ==> l <= 8 * LINE_LIMIT,
        decreases chunk_indices@.len() - k,
    {
        let ci = chunk_indices[k];
        if ci < difft.chunks.len() {
            let chunk = &difft.chunks[ci];
            proof {
                assert(difft.chunks@[ci as int] == *chunk);
                assert(chunk_indices@[k as int] == ci);
            }
            let r = html_chunk_exec(&mut acc, difft, chunk, line_filter, single, layout, &bounds, k,
                old_hl.as_slice(), new_hl.as_slice(), lo, ln, first);
            if !r.3 {
                proof {
                    if html_fold_ok(*difft, old_hl@, new_hl@, chunk_indices@, line_filter, single, layout, bounds@, init,
                        chunk_indices@.len() as int) {
                        lemma_fold_ok_prefix(*difft, old_hl@, new_hl@, chunk_indices@, line_filter, single, layout, bounds@, init,
                            k + 1, chunk_indices@.len() as int);
                    }
                }
                return None;
            }
            lo = r.0;
            ln = r.1;
            first = r.2;
        }
        k = k + 1;
    }
    acc.out.append("</tbody></table></div></div>");
    let stripped = strip_indent_exec(acc.out.as_str());
    if single {
        Some(stripped)
    } else {
        Some(split_into_two_tables(stripped.as_str()))
    }
}

/// Whether every highlighted line is at most a quarter of the address space long.
pub fn hl_lines_fit(hl: &Vec<String>) -> (res: bool)
    ensures
        res == hl_fit(hl@),
{
    let mut i: usize = 0;
    while i < hl.len()
        invariant
            i <= hl@.len(),
            forall|q: int| 0 <= q < i ==> (#[trigger] hl@[q])@.len() <= usize::MAX / 4,
        decreases hl@.len() - i,
    {
        if hl[i].as_str().unicode_len() > usize::MAX / 4 {
            return false;
        }
        i = i + 1;
    }
    true
}

/// The texts of lines.
pub open spec fn views(v: Seq<String>) -> Seq<Seq<char>> {
    v.map_values(|x: String| x@)
}

/// Every line is at most a quarter of the address space long.
pub open spec fn lines_fit(v: Seq<Seq<char>>) -> bool {
    forall|i: int| 0 <= i < v.len() ==> (#[trigger] v[i]).len() <= usize::MAX / 4
}

proof fn lemma_fit_views(v: Seq<String>)
    ensures
        hl_fit(v) == lines_fit(views(v)),
{
    if hl_fit(v) {
        assert forall|i: int| 0 <= i < views(v).len() implies (#[trigger] views(v)[i]).len() <= usize::MAX / 4 by {
            assert(views(v)[i] == v[i]@);
        }
    } else {
        let i = choose|i: int| 0 <= i < v.len() && !((#[trigger] v[i])@.len() <= usize::MAX / 4);
        assert(views(v)[i] == v[i]@);
    }
}

/// What rendering the selected chunks gives (`None` for a failure): both
/// versions highlighted in the language of the path, and then `None` when a
/// highlighted run would split a character, when a highlighted line is longer
/// than a quarter of the address space, or when a row that the block draws
/// side by side has change spans out of order (see [`diff_block_ok`], which
/// holds or fails alike for any highlighted lines); otherwise the block of
/// [`diff_block`] over the highlighted lines.
pub open spec fn chunks_html(d: DifftOutput, idx: Seq<usize>, path: Seq<char>, filter: Option<(usize, usize)>,
    collapse: CollapseMode, r: Option<Seq<char>>) -> bool {
    let lang = detected_language(path);
    let oh = syntax_lines(d.old_lines@, lang);
    let nh = syntax_lines(d.new_lines@, lang);
    match r {
        None => oh is None || nh is None || !lines_fit(oh->0) || !lines_fit(nh->0)
            || exists|o: Seq<String>, n: Seq<String>|
                #![trigger diff_block_ok(d, idx, path, filter, o, n, collapse)]
                views(o) == oh->0 && views(n) == nh->0 && !diff_block_ok(d, idx, path, filter, o, n, collapse),
        Some(s) => oh is Some && nh is Some
            && lines_fit(oh->0) && lines_fit(nh->0)
            && exists|o: Seq<String>, n: Seq<String>|
                #![trigger diff_block(d, idx, path, filter, o, n, collapse)]
                views(o) == oh->0 && views(n) == nh->0
                && diff_block_ok(d, idx, path, filter, o, n, collapse)
                && s == diff_block(d, idx, path, filter, o, n, collapse),
    }
}

/// Render the selected chunks of a file as an HTML diff block, highlighting
/// both versions of the file in the language of its path (see
/// [`chunks_html`]).
pub fn render_chunks(difft: &DifftOutput, chunk_indices: &[usize], file_path: &str, line_filter: Option<(usize, usize)>,
    hl: &mut SyntaxHighlighter, collapse: CollapseMode) -> (res: Option<String>)
    requires
        difft_fits(*difft),
        4 * join_lines(difft.old_lines@).len() < usize::MAX,
        4 * join_lines(difft.new_lines@).len() < usize::MAX,
    ensures
        chunks_html(*difft, chunk_indices@, file_path@, line_filter, collapse, match res { Some(s) => Some(s@), None => None }),
{
    let lang = detect_language(file_path);
    let ghost lv = match lang { Some(l) => Some(l@), None => None };
    assert(lv == detected_language(file_path@));
    let old_hl = match syntax_highlight_lines(difft.old_lines.as_slice(), hl, lang) {
        Some(v) => v,
        None => { return None; },
    };
    let new_hl = match syntax_highlight_lines(difft.new_lines.as_slice(), hl, lang) {
        Some(v) => v,
        None => { return None; },
    };
    let fit_old = hl_lines_fit(&old_hl);
    let fit_new = hl_lines_fit(&new_hl);
    proof {
        assert(views(old_hl@) == syntax_lines(difft.old_lines@, lv)->0);
        assert(views(new_hl@) == syntax_lines(difft.new_lines@, lv)->0);
        lemma_fit_views(old_hl@);
        lemma_fit_views(new_hl@);
    }
    if !fit_old || !fit_new {
        return None;
    }
    let out = render_chunks_with(difft, chunk_indices, file_path, line_filter, &old_hl, &new_hl, collapse);
    proof {
        match &out {
            Some(o) => {
                assert(views(old_hl@) == syntax_lines(difft.old_lines@, lv)->0
                    && views(new_hl@) == syntax_lines(difft.new_lines@, lv)->0
                    && diff_block_ok(*difft, chunk_indices@, file_path@, line_filter, old_hl@, new_hl@, collapse)
                    && o@ == diff_block(*difft, chunk_indices@, file_path@, line_filter, old_hl@, new_hl@, collapse));
            },
            None => {
                assert(views(old_hl@) == syntax_lines(difft.old_lines@, lv)->0
                    && views(new_hl@) == syntax_lines(difft.new_lines@, lv)->0
                    && !diff_block_ok(*difft, chunk_indices@, file_path@, line_filter, old_hl@, new_hl@, collapse));
            },
        }
    }
    out
}


/// The rendered lines of a state repeat no line on either side.
pub open spec fn lines_distinct(rs: RenderState) -> bool {
    rs.1.no_duplicates() && rs.2.no_duplicates()
}

proof fn lemma_push_distinct(s: Seq<usize>, x: usize)
    requires
        s.no_duplicates(),
        !s.contains(x),
    ensures
        s.push(x).no_duplicates(),
{
    let t = s.push(x);
    assert forall|i: int, j: int| 0 <= i < t.len() && 0 <= j < t.len() && i != j implies t[i] != t[j] by {
        if i < s.len() && j < s.len() {
            assert(t[i] == s[i] && t[j] == s[j]);
        } else if i < s.len() {
            assert(t[i] == s[i]);
            assert(s.contains(s[i]));
        } else {
            assert(t[j] == s[j]);
            assert(s.contains(s[j]));
        }
    }
}

proof fn lemma_ctx_line_distinct(single: bool, layout: DiffLayout, rn: Seq<RowNums>, kept: Seq<Keyed>,
    old_hl: Seq<String>, new_hl: Seq<String>, o: usize, n: usize, eid: Option<Seq<char>>, st: RenderState)
    requires
        lines_distinct(st),
    ensures
        lines_distinct(ctx_line(single, layout, rn, kept, old_hl, new_hl, o, n, eid, st)),
{
    if !st.1.contains(o) && st.1.no_duplicates() {
        lemma_push_distinct(st.1, o);
    }
    if !st.2.contains(n) && st.2.no_duplicates() {
        lemma_push_distinct(st.2, n);
    }
}

proof fn lemma_ctx_run_distinct(single: bool, layout: DiffLayout, rn: Seq<RowNums>, kept: Seq<Keyed>,
    old_hl: Seq<String>, new_hl: Seq<String>, ob: int, nb: int, lo: int, k: int, eid: Option<Seq<char>>, st: RenderState)
    requires
        lines_distinct(st),
    ensures
        lines_distinct(ctx_run(single, layout, rn, kept, old_hl, new_hl, ob, nb, lo, k, eid, st)),
    decreases k - lo,
{
    if k > lo {
        lemma_ctx_run_distinct(single, layout, rn, kept, old_hl, new_hl, ob, nb, lo, k - 1, eid, st);
        lemma_ctx_line_distinct(single, layout, rn, kept, old_hl, new_hl, (ob + k - 1) as usize, (nb + k - 1) as usize, eid,
            ctx_run(single, layout, rn, kept, old_hl, new_hl, ob, nb, lo, k - 1, eid, st));
    }
}

proof fn lemma_fill_run_distinct(single: bool, layout: DiffLayout, rn: Seq<RowNums>, kept: Seq<Keyed>, d: DifftOutput,
    old_hl: Seq<String>, new_hl: Seq<String>, ogs: int, ngs: int, k: int, st: RenderState)
    requires
        lines_distinct(st),
        0 <= ogs,
        0 <= ngs,
        ogs + k <= usize::MAX,
        ngs + k <= usize::MAX,
    ensures
        ({
            let r = fill_run(single, layout, rn, kept, d, old_hl, new_hl, ogs, ngs, k, st);
            &&& lines_distinct(r)
            &&& forall|x: usize| #[trigger] r.1.contains(x) ==> st.1.contains(x) || (ogs <= x < ogs + k)
            &&& forall|x: usize| #[trigger] r.2.contains(x) ==> st.2.contains(x) || (ngs <= x < ngs + k)
        }),
    decreases k,
{
    if k > 0 {
        lemma_fill_run_distinct(single, layout, rn, kept, d, old_hl, new_hl, ogs, ngs, k - 1, st);
        let p = fill_run(single, layout, rn, kept, d, old_hl, new_hl, ogs, ngs, k - 1, st);
        let o = (ogs + k - 1) as usize;
        let n = (ngs + k - 1) as usize;
        let r = fill_run(single, layout, rn, kept, d, old_hl, new_hl, ogs, ngs, k, st);
        assert(r == fill_line(single, layout, rn, kept, d, old_hl, new_hl, o, n, p));
        if r != p {
            lemma_push_distinct(p.1, o);
            lemma_push_distinct(p.2, n);
            assert(r.1 == p.1.push(o));
            assert(r.2 == p.2.push(n));
            assert forall|x: usize| #[trigger] r.1.contains(x) implies st.1.contains(x) || (ogs <= x < ogs + k) by {
                if x != o {
                    let i = choose|i: int| 0 <= i < r.1.len() && r.1[i] == x;
                    assert(p.1.contains(x)) by { assert(p.1[i] == x); }
                }
            }
            assert forall|x: usize| #[trigger] r.2.contains(x) implies st.2.contains(x) || (ngs <= x < ngs + k) by {
                if x != n {
                    let i = choose|i: int| 0 <= i < r.2.len() && r.2[i] == x;
                    assert(p.2.contains(x)) by { assert(p.2[i] == x); }
                }
            }
        }
    }
}

proof fn lemma_item_step_distinct(single: bool, layout: DiffLayout, rn: Seq<RowNums>, kept: Seq<Keyed>, rv: Seq<RowV>,
    d: DifftOutput, old_hl: Seq<String>, new_hl: Seq<String>, it: Item, st: ItemsState)
    requires
        lines_distinct(st.0),
    ensures
        lines_distinct(item_step(single, layout, rn, kept, rv, d, old_hl, new_hl, it, st).0),
{
    let co = item_old_idx(rn, it);
    let cn = item_new_idx(rn, it);
    let rs = st.0;
    if !((co matches Some(o) && rs.1.contains(o)) || (cn matches Some(n) && rs.2.contains(n))) {
        let r1 = gap_fill(single, layout, rn, kept, d, old_hl, new_hl, (st.1, st.2), co, cn, rs);
        match (st.1, st.2) {
            (Some(po), Some(pn)) => {
                let c_o: int = match co { Some(x) => x as int, None => usize::MAX as int };
                let c_n: int = match cn { Some(x) => x as int, None => usize::MAX as int };
                let new_ok = c_n == usize::MAX || c_n > pn + 1;
                if c_o > po + 1 && c_o != usize::MAX && new_ok {
                    let k = min_i(c_o - (po + 1), c_n - (pn + 1));
                    lemma_fill_run_distinct(single, layout, rn, kept, d, old_hl, new_hl, po + 1, pn + 1, k, rs);
                }
            },
            _ => {},
        }
        match co {
            Some(o) => {
                assert(!r1.1.contains(o));
                lemma_push_distinct(r1.1, o);
            },
            None => {},
        }
        match cn {
            Some(n) => {
                assert(!r1.2.contains(n));
                lemma_push_distinct(r1.2, n);
            },
            None => {},
        }
    }
}

proof fn lemma_items_run_distinct(single: bool, layout: DiffLayout, rn: Seq<RowNums>, kept: Seq<Keyed>, rv: Seq<RowV>,
    d: DifftOutput, old_hl: Seq<String>, new_hl: Seq<String>, s: Seq<Keyed>, st: ItemsState)
    requires
        lines_distinct(st.0),
    ensures
        lines_distinct(items_run(single, layout, rn, kept, rv, d, old_hl, new_hl, s, st).0),
    decreases s.len(),
{
    if s.len() > 0 {
        lemma_items_run_distinct(single, layout, rn, kept, rv, d, old_hl, new_hl, s.drop_last(), st);
        lemma_item_step_distinct(single, layout, rn, kept, rv, d, old_hl, new_hl, s.last().1,
            items_run(single, layout, rn, kept, rv, d, old_hl, new_hl, s.drop_last(), st));
    }
}

proof fn lemma_chunk_distinct(d: DifftOutput, old_hl: Seq<String>, new_hl: Seq<String>, chunk: Seq<LineEntry>,
    filter: Option<(usize, usize)>, single0: bool, layout0: DiffLayout, bounds: Seq<(usize, usize)>, order: nat, st: HtmlState)
    requires
        lines_distinct(st.0),
    ensures
        lines_distinct(html_chunk(d, old_hl, new_hl, chunk, filter, single0, layout0, bounds, order, st).0),
{
    let f = chunk_firsts(chunk, d.hunks@);
    let t = html_items(d, chunk, f);
    let over = goes_side_by_side(d, chunk, single0);
    let single = if over { false } else { single0 };
    let layout = if over { DiffLayout::SideBySide } else { layout0 };
    match filtered(d, t.0, t.1, t.2, filter) {
        None => {},
        Some(r) => {
            let x = r.1;
            let c = chunk_ctx(d, x);
            let b = ctx_bounds(d, x, bounds, order);
            let colspan: nat = if single { 3 } else { 6 };
            let sep = if !st.3 && has_gap_before(st.1, st.2, b.0, b.1) { sep_row(colspan) } else { Seq::empty() };
            let ocs = ctx_start(st.1, b.0);
            let ncs = ctx_start(st.2, b.1);
            let rs0 = (st.0.0 + sep, st.0.1, st.0.2);
            let pc = by_layout(layout, sat_sub(x.0 as int, ocs), sat_sub(x.2 as int, ncs));
            let vpc = by_layout(layout, sat_sub(x.0 as int, max_i(c.0, ocs)), sat_sub(x.2 as int, max_i(c.1, ncs)));
            let hpc = sat_sub(pc, vpc);
            let ob = sat_sub(x.0 as int, pc);
            let nb = sat_sub(x.2 as int, pc);
            let epre = expand_id(true, order);
            lemma_ctx_run_distinct(single, layout, t.0, t.1, old_hl, new_hl, ob, nb, 0, hpc, Some(epre), rs0);
            let rs1 = ctx_run(single, layout, t.0, t.1, old_hl, new_hl, ob, nb, 0, hpc, Some(epre), rs0);
            let rs2 = (rs1.0 + (if hpc > 0 { expand_row(epre, colspan, min_i(hpc, 8) as nat, true) } else { Seq::empty() }), rs1.1, rs1.2);
            lemma_ctx_run_distinct(single, layout, t.0, t.1, old_hl, new_hl, ob, nb, hpc, pc, None, rs2);
            let rs3 = pre_context(single, layout, t.0, t.1, old_hl, new_hl, x, c, b, order, st);
            assert(rs3 == ctx_run(single, layout, t.0, t.1, old_hl, new_hl, ob, nb, hpc, pc, None, rs2));
            lemma_items_run_distinct(single, layout, t.0, t.1, chunk_rows(d, chunk), d, old_hl, new_hl, r.0, (rs3, None, None));
            let rs4 = items_run(single, layout, t.0, t.1, chunk_rows(d, chunk), d, old_hl, new_hl, r.0, (rs3, None, None)).0;
            let ops = x.1 + 1;
            let nps = x.3 + 1;
            let ppc = by_layout(layout, sat_sub(b.2, ops), sat_sub(b.3, nps));
            let vpp = min_i(by_layout(layout, sat_sub(c.2, ops), sat_sub(c.3, nps)), ppc);
            let hpp = sat_sub(ppc, vpp);
            let epost = expand_id(false, order);
            lemma_ctx_run_distinct(single, layout, t.0, t.1, old_hl, new_hl, ops, nps, 0, vpp, None, rs4);
            let rs5 = ctx_run(single, layout, t.0, t.1, old_hl, new_hl, ops, nps, 0, vpp, None, rs4);
            let rs6 = (rs5.0 + (if hpp > 0 { expand_row(epost, colspan, min_i(hpp, 8) as nat, false) } else { Seq::empty() }), rs5.1, rs5.2);
            lemma_ctx_run_distinct(single, layout, t.0, t.1, old_hl, new_hl, ops, nps, vpp, ppc, Some(epost), rs6);
        },
    }
}

/// A diff block renders each old line and each new line at most once, over
/// all of its chunks: context, filled and changed rows are skipped for lines
/// that a row already showed, so the lines recorded as rendered never repeat.
pub proof fn lemma_block_lines_distinct(d: DifftOutput, old_hl: Seq<String>, new_hl: Seq<String>, idx: Seq<usize>,
    filter: Option<(usize, usize)>, single0: bool, layout0: DiffLayout, bounds: Seq<(usize, usize)>, init: Seq<char>, k: int)
    ensures
        lines_distinct(html_fold(d, old_hl, new_hl, idx, filter, single0, layout0, bounds, init, k).0),
    decreases k,
{
    if k > 0 {
        lemma_block_lines_distinct(d, old_hl, new_hl, idx, filter, single0, layout0, bounds, init, k - 1);
        let st = html_fold(d, old_hl, new_hl, idx, filter, single0, layout0, bounds, init, k - 1);
        let ci = idx[k - 1];
        if ci < d.chunks@.len() {
            lemma_chunk_distinct(d, old_hl, new_hl, d.chunks@[ci as int]@, filter, single0, layout0, bounds, (k - 1) as nat, st);
        }
    } else {
        assert(Seq::<usize>::empty().no_duplicates());
    }
}

} // verus!
