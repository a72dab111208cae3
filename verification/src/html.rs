//! HTML table rows of a diff block and the choice of the block's layout.

use vstd::prelude::*;
use crate::difft_json::{DifftOutput, LineEntry};
use crate::rows::{DiffRow, RowV, line_text, line_str, row_view};
use crate::highlight::{
    merge_spans, sort_by_start, span_pairs, covers_full_line, insert_many, insert_one, change_bounds,
    common_prefix, merge_whitespace_spans, spans_cover_full_line, insert_diff_highlights,
    insert_diff_highlight, find_change_bounds, spans_mergeable, common_prefix_len,
};
use vstd::string::StringSliceAdditionalSpecFns;
use vstd::utf8::{encode_utf8, is_char_boundary};
use crate::text::{dec, push_dec, push_dec_usize, str_eq};

verus! {

/// Layout mode for a diff block: side-by-side (6 cols) or single-column (3 cols).
#[derive(Debug, Clone, Copy, PartialEq, Eq, Structural)]
pub enum DiffLayout {
    SideBySide,
    AddOnly,
    RemoveOnly,
}

/// An optional string equals `lit`.
pub open spec fn opt_is(o: Option<String>, lit: Seq<char>) -> bool {
    match o {
        Some(s) => s@ == lit,
        None => false,
    }
}

/// Whether an optional string holds exactly `lit`.
pub fn opt_str_is(o: &Option<String>, lit: &str) -> (res: bool)
    ensures
        res == opt_is(*o, lit@),
{
    match o {
        Some(s) => str_eq(s.as_str(), lit),
        None => false,
    }
}

/// The position of an entry used by line filters: the new-side line number,
/// falling back to the old side (`None` when the entry has neither).
pub open spec fn entry_pos(e: LineEntry) -> Option<usize> {
    match e.rhs {
        Some(r) => Some(r.line_number as usize),
        None => match e.lhs {
            Some(l) => Some(l.line_number as usize),
            None => None,
        },
    }
}

/// Whether an entry passes the optional inclusive line filter (entries without
/// a position always pass).
pub open spec fn passes_filter(e: LineEntry, f: Option<(usize, usize)>) -> bool {
    match f {
        None => true,
        Some((s, t)) => match entry_pos(e) {
            None => true,
            Some(p) => s <= p <= t,
        },
    }
}

/// Some selected, filtered entry has an old side (`left`) or a new side.
pub open spec fn selected_has_side(d: DifftOutput, idx: Seq<usize>, f: Option<(usize, usize)>, left: bool) -> bool {
    exists|k: int, j: int|
        0 <= k < idx.len() && idx[k] < d.chunks@.len() && 0 <= j < d.chunks@[idx[k] as int]@.len()
        && passes_filter(#[trigger] d.chunks@[idx[k] as int]@[j], f)
        && (if left { d.chunks@[idx[k] as int]@[j].lhs is Some } else { d.chunks@[idx[k] as int]@[j].rhs is Some })
}

/// The layout of a block: files with status "added"/"deleted" are add-only /
/// remove-only; otherwise decided by which sides the selected (filtered) entries have.
pub open spec fn layout_of(d: DifftOutput, idx: Seq<usize>, f: Option<(usize, usize)>) -> DiffLayout {
    if opt_is(d.status, "added"@) {
        DiffLayout::AddOnly
    } else if opt_is(d.status, "deleted"@) {
        DiffLayout::RemoveOnly
    } else {
        let l = selected_has_side(d, idx, f, true);
        let r = selected_has_side(d, idx, f, false);
        if r && !l {
            DiffLayout::AddOnly
        } else if l && !r {
            DiffLayout::RemoveOnly
        } else {
            DiffLayout::SideBySide
        }
    }
}

/// Decide the layout of a diff block for the selected chunks and optional line filter.
pub fn detect_diff_layout(difft: &DifftOutput, chunk_indices: &[usize], line_filter: Option<(usize, usize)>) -> (res: DiffLayout)
    ensures
        res == layout_of(*difft, chunk_indices@, line_filter),
{
    if opt_str_is(&difft.status, "added") {
        return DiffLayout::AddOnly;
    }
    if opt_str_is(&difft.status, "deleted") {
        return DiffLayout::RemoveOnly;
    }
    let ghost d = *difft;
    let ghost idx = chunk_indices@;
    let mut has_lhs = false;
    let mut has_rhs = false;
    let mut k: usize = 0;
    while k < chunk_indices.len()
        invariant
            k <= idx.len(),
            d == *difft,
            idx == chunk_indices@,
            has_lhs ==> selected_has_side(d, idx, line_filter, true),
            has_rhs ==> selected_has_side(d, idx, line_filter, false),
            !has_lhs ==> forall|k2: int, j: int| 0 <= k2 < k && idx[k2] < d.chunks@.len() && 0 <= j < d.chunks@[idx[k2] as int]@.len()
                && passes_filter(#[trigger] d.chunks@[idx[k2] as int]@[j], line_filter) ==> d.chunks@[idx[k2] as int]@[j].lhs is None,
            !has_rhs ==> forall|k2: int, j: int| 0 <= k2 < k && idx[k2] < d.chunks@.len() && 0 <= j < d.chunks@[idx[k2] as int]@.len()
                && passes_filter(#[trigger] d.chunks@[idx[k2] as int]@[j], line_filter) ==> d.chunks@[idx[k2] as int]@[j].rhs is None,
        decreases idx.len() - k,
    {
        let ci = chunk_indices[k];
        if ci < difft.chunks.len() {
            let chunk = &difft.chunks[ci];
            let mut j: usize = 0;
            while j < chunk.len()
                invariant
                    k < idx.len(),
                    ci == idx[k as int],
                    ci < d.chunks@.len(),
                    *chunk == d.chunks@[ci as int],
                    j <= chunk@.len(),
                    d == *difft,
                    idx == chunk_indices@,
                    has_lhs ==> selected_has_side(d, idx, line_filter, true),
                    has_rhs ==> selected_has_side(d, idx, line_filter, false),
                    !has_lhs ==> forall|k2: int, j2: int| 0 <= k2 < k && idx[k2] < d.chunks@.len() && 0 <= j2 < d.chunks@[idx[k2] as int]@.len()
                        && passes_filter(#[trigger] d.chunks@[idx[k2] as int]@[j2], line_filter) ==> d.chunks@[idx[k2] as int]@[j2].lhs is None,
                    !has_rhs ==> forall|k2: int, j2: int| 0 <= k2 < k && idx[k2] < d.chunks@.len() && 0 <= j2 < d.chunks@[idx[k2] as int]@.len()
                        && passes_filter(#[trigger] d.chunks@[idx[k2] as int]@[j2], line_filter) ==> d.chunks@[idx[k2] as int]@[j2].rhs is None,
                    !has_lhs ==> forall|j2: int| 0 <= j2 < j && passes_filter(#[trigger] chunk@[j2], line_filter) ==> chunk@[j2].lhs is None,
                    !has_rhs ==> forall|j2: int| 0 <= j2 < j && passes_filter(#[trigger] chunk@[j2], line_filter) ==> chunk@[j2].rhs is None,
                decreases chunk@.len() - j,
            {
                let entry = &chunk[j];
                let pos: Option<usize> = match &entry.rhs {
                    Some(r) => Some(r.line_number as usize),
                    None => match &entry.lhs {
                        Some(l) => Some(l.line_number as usize),
                        None => None,
                    },
                };
                let keep = match line_filter {
                    None => true,
                    Some((s, t)) => match pos {
                        None => true,
                        Some(p) => s <= p && p <= t,
                    },
                };
                assert(keep == passes_filter(chunk@[j as int], line_filter));
                if keep {
                    if entry.lhs.is_some() {
                        has_lhs = true;
                    }
                    if entry.rhs.is_some() {
                        has_rhs = true;
                    }
                }
                j = j + 1;
            }
        }
        k = k + 1;
    }
    if has_rhs && !has_lhs {
        DiffLayout::AddOnly
    } else if has_lhs && !has_rhs {
        DiffLayout::RemoveOnly
    } else {
        DiffLayout::SideBySide
    }
}


/// The element `idx` of `lines`, or the empty text when out of range.
pub open spec fn line_at(lines: Seq<String>, idx: int) -> Seq<char> {
    if 0 <= idx < lines.len() {
        lines[idx]@
    } else {
        Seq::empty()
    }
}

/// The text of `lines[idx]`, or "" when out of range.
pub fn str_at(lines: &[String], idx: usize) -> (res: &str)
    ensures
        res@ == line_at(lines@, idx as int),
{
    if idx < lines.len() {
        lines[idx].as_str()
    } else {
        proof { reveal_strlit(""); }
        ""
    }
}

/// A visible two-sided context row.
pub open spec fn context_row_html(old_idx: nat, new_idx: nat, old_hl: Seq<String>, new_hl: Seq<String>) -> Seq<char> {
    "<tr class=\"line-context\"><td class=\"ln ln-lhs\">"@ + dec(old_idx + 1)
        + "</td><td class=\"sign sign-lhs\"></td><td class=\"code-lhs\">"@ + line_at(old_hl, old_idx as int)
        + "</td><td class=\"ln ln-rhs\">"@ + dec(new_idx + 1)
        + "</td><td class=\"sign sign-rhs\"></td><td class=\"code-rhs\">"@ + line_at(new_hl, new_idx as int)
        + "</td></tr>"@
}

/// Render a context (unchanged) line showing both old and new sides.
/// Expects pre-highlighted HTML content in the line arrays.
pub fn render_context_row(old_idx: usize, new_idx: usize, old_hl: &[String], new_hl: &[String]) -> (res: String)
    requires
        old_idx < usize::MAX,
        new_idx < usize::MAX,
    ensures
        res@ == context_row_html(old_idx as nat, new_idx as nat, old_hl@, new_hl@),
{
    let mut res = String::new();
    res.append("<tr class=\"line-context\"><td class=\"ln ln-lhs\">");
    push_dec_usize(&mut res, old_idx + 1);
    res.append("</td><td class=\"sign sign-lhs\"></td><td class=\"code-lhs\">");
    res.append(str_at(old_hl, old_idx));
    res.append("</td><td class=\"ln ln-rhs\">");
    push_dec_usize(&mut res, new_idx + 1);
    res.append("</td><td class=\"sign sign-rhs\"></td><td class=\"code-rhs\">");
    res.append(str_at(new_hl, new_idx));
    res.append("</td></tr>");
    assert(res@ =~= context_row_html(old_idx as nat, new_idx as nat, old_hl@, new_hl@));
    res
}

/// A visible single-column context row.
pub open spec fn single_context_row_html(idx: nat, hl: Seq<String>) -> Seq<char> {
    "<tr class=\"line-context\"><td class=\"ln\">"@ + dec(idx + 1)
        + "</td><td class=\"sign\"></td><td class=\"code\">"@ + line_at(hl, idx as int)
        + "</td></tr>"@
}

/// Render a single-column context row (for add-only or remove-only blocks).
pub fn render_single_context_row(idx: usize, hl_lines: &[String]) -> (res: String)
    requires
        idx < usize::MAX,
    ensures
        res@ == single_context_row_html(idx as nat, hl_lines@),
{
    let mut res = String::new();
    res.append("<tr class=\"line-context\"><td class=\"ln\">");
    push_dec_usize(&mut res, idx + 1);
    res.append("</td><td class=\"sign\"></td><td class=\"code\">");
    res.append(str_at(hl_lines, idx));
    res.append("</td></tr>");
    assert(res@ =~= single_context_row_html(idx as nat, hl_lines@));
    res
}

/// A hidden, expandable two-sided context row.
pub open spec fn context_row_expandable_html(old_idx: nat, new_idx: nat, old_hl: Seq<String>, new_hl: Seq<String>, expand_id: Seq<char>) -> Seq<char> {
    "<tr class=\"line-context expand-line\" data-expand-id=\""@ + expand_id
        + "\" hidden=\"until-found\"><td class=\"ln ln-lhs\">"@ + dec(old_idx + 1)
        + "</td><td class=\"sign sign-lhs\"></td><td class=\"code-lhs\">"@ + line_at(old_hl, old_idx as int)
        + "</td><td class=\"ln ln-rhs\">"@ + dec(new_idx + 1)
        + "</td><td class=\"sign sign-rhs\"></td><td class=\"code-rhs\">"@ + line_at(new_hl, new_idx as int)
        + "</td></tr>"@
}

/// Render a hidden expandable context row (side-by-side, 6 cols).
pub fn render_context_row_expandable(old_idx: usize, new_idx: usize, old_hl: &[String], new_hl: &[String], expand_id: &str) -> (res: String)
    requires
        old_idx < usize::MAX,
        new_idx < usize::MAX,
    ensures
        res@ == context_row_expandable_html(old_idx as nat, new_idx as nat, old_hl@, new_hl@, expand_id@),
{
    let mut res = String::new();
    res.append("<tr class=\"line-context expand-line\" data-expand-id=\"");
    res.append(expand_id);
    res.append("\" hidden=\"until-found\"><td class=\"ln ln-lhs\">");
    push_dec_usize(&mut res, old_idx + 1);
    res.append("</td><td class=\"sign sign-lhs\"></td><td class=\"code-lhs\">");
    res.append(str_at(old_hl, old_idx));
    res.append("</td><td class=\"ln ln-rhs\">");
    push_dec_usize(&mut res, new_idx + 1);
    res.append("</td><td class=\"sign sign-rhs\"></td><td class=\"code-rhs\">");
    res.append(str_at(new_hl, new_idx));
    res.append("</td></tr>");
    assert(res@ =~= context_row_expandable_html(old_idx as nat, new_idx as nat, old_hl@, new_hl@, expand_id@));
    res
}

/// A hidden, expandable single-column context row.
pub open spec fn single_context_row_expandable_html(idx: nat, hl: Seq<String>, expand_id: Seq<char>) -> Seq<char> {
    "<tr class=\"line-context expand-line\" data-expand-id=\""@ + expand_id
        + "\" hidden=\"until-found\"><td class=\"ln\">"@ + dec(idx + 1)
        + "</td><td class=\"sign\"></td><td class=\"code\">"@ + line_at(hl, idx as int)
        + "</td></tr>"@
}

/// Render a hidden expandable single-column context row.
pub fn render_single_context_row_expandable(idx: usize, hl_lines: &[String], expand_id: &str) -> (res: String)
    requires
        idx < usize::MAX,
    ensures
        res@ == single_context_row_expandable_html(idx as nat, hl_lines@, expand_id@),
{
    let mut res = String::new();
    res.append("<tr class=\"line-context expand-line\" data-expand-id=\"");
    res.append(expand_id);
    res.append("\" hidden=\"until-found\"><td class=\"ln\">");
    push_dec_usize(&mut res, idx + 1);
    res.append("</td><td class=\"sign\"></td><td class=\"code\">");
    res.append(str_at(hl_lines, idx));
    res.append("</td></tr>");
    assert(res@ =~= single_context_row_expandable_html(idx as nat, hl_lines@, expand_id@));
    res
}

/// A single-column added row for 1-based line `num` with content `code`.
pub open spec fn single_added_html(num: nat, code: Seq<char>) -> Seq<char> {
    "<tr class=\"line-added\"><td class=\"ln ln-rhs\">"@ + dec(num)
        + "</td><td class=\"sign sign-rhs\">+</td><td class=\"code-rhs\">"@ + code + "</td></tr>"@
}

/// A single-column removed row for 1-based line `num` with content `code`.
pub open spec fn single_removed_html(num: nat, code: Seq<char>) -> Seq<char> {
    "<tr class=\"line-removed\"><td class=\"ln ln-lhs\">"@ + dec(num)
        + "</td><td class=\"sign sign-lhs\">\u{2212}</td><td class=\"code-lhs\">"@ + code + "</td></tr>"@
}

/// The single-column row of a diff row: in an add-only block its new side, in
/// a remove-only block its old side, and nothing otherwise.
pub open spec fn single_diff_row_html(row: crate::rows::RowV, layout: DiffLayout, old_hl: Seq<String>, new_hl: Seq<String>) -> Seq<char> {
    match layout {
        DiffLayout::AddOnly => match row.1 {
            Some(r) => single_added_html((r.line_number + 1) as nat, line_at(new_hl, (r.line_number as usize) as int)),
            None => Seq::empty(),
        },
        DiffLayout::RemoveOnly => match row.0 {
            Some(l) => single_removed_html((l.line_number + 1) as nat, line_at(old_hl, (l.line_number as usize) as int)),
            None => Seq::empty(),
        },
        DiffLayout::SideBySide => Seq::empty(),
    }
}

/// Render a single-column diff row (for add-only or remove-only blocks).
pub fn render_single_diff_row(row: &DiffRow, layout: DiffLayout, old_hl: &[String], new_hl: &[String]) -> (res: String)
    requires
        row.lhs matches Some(l) ==> l.line_number < u64::MAX,
        row.rhs matches Some(r) ==> r.line_number < u64::MAX,
    ensures
        res@ == single_diff_row_html(crate::rows::row_view(*row), layout, old_hl@, new_hl@),
{
    let mut res = String::new();
    match layout {
        DiffLayout::AddOnly => {
            if let Some(rhs) = row.rhs {
                res.append("<tr class=\"line-added\"><td class=\"ln ln-rhs\">");
                push_dec(&mut res, rhs.line_number + 1);
                res.append("</td><td class=\"sign sign-rhs\">+</td><td class=\"code-rhs\">");
                res.append(str_at(new_hl, rhs.line_number as usize));
                res.append("</td></tr>");
            }
        },
        DiffLayout::RemoveOnly => {
            if let Some(lhs) = row.lhs {
                res.append("<tr class=\"line-removed\"><td class=\"ln ln-lhs\">");
                push_dec(&mut res, lhs.line_number + 1);
                res.append("</td><td class=\"sign sign-lhs\">\u{2212}</td><td class=\"code-lhs\">");
                res.append(str_at(old_hl, lhs.line_number as usize));
                res.append("</td></tr>");
            }
        },
        DiffLayout::SideBySide => {},
    }
    assert(res@ =~= single_diff_row_html(crate::rows::row_view(*row), layout, old_hl@, new_hl@));
    res
}


/// Old-side cells with a minus sign.
pub open spec fn lhs_cells(num: nat, code: Seq<char>) -> Seq<char> {
    "<td class=\"ln ln-lhs\">"@ + dec(num) + "</td><td class=\"sign sign-lhs\">\u{2212}</td><td class=\"code-lhs\">"@ + code + "</td>"@
}

/// New-side cells with a plus sign.
pub open spec fn rhs_cells(num: nat, code: Seq<char>) -> Seq<char> {
    "<td class=\"ln ln-rhs\">"@ + dec(num) + "</td><td class=\"sign sign-rhs\">+</td><td class=\"code-rhs\">"@ + code + "</td>"@
}

/// Old-side cells rendered as unchanged background, without a sign.
pub open spec fn lhs_bg_cells(num: nat, code: Seq<char>) -> Seq<char> {
    "<td class=\"ln ln-lhs\" style=\"background:var(--bg)\">"@ + dec(num)
        + "</td><td class=\"sign sign-lhs\" style=\"background:var(--bg)\"></td><td class=\"code-lhs\" style=\"background:var(--bg)\">"@
        + code + "</td>"@
}

/// New-side cells rendered as unchanged background, without a sign.
pub open spec fn rhs_bg_cells(num: nat, code: Seq<char>) -> Seq<char> {
    "<td class=\"ln ln-rhs\" style=\"background:var(--bg)\">"@ + dec(num)
        + "</td><td class=\"sign sign-rhs\" style=\"background:var(--bg)\"></td><td class=\"code-rhs\" style=\"background:var(--bg)\">"@
        + code + "</td>"@
}

/// Empty old-side cells.
pub open spec fn empty_lhs_cells() -> Seq<char> {
    "<td class=\"ln ln-lhs\"></td><td class=\"sign sign-lhs\"></td><td class=\"code-lhs\"></td>"@
}

/// Empty new-side cells.
pub open spec fn empty_rhs_cells() -> Seq<char> {
    "<td class=\"ln ln-rhs\"></td><td class=\"sign sign-rhs\"></td><td class=\"code-rhs\"></td>"@
}

/// A table row with the given class around `cells`.
pub open spec fn tr(class: Seq<char>, cells: Seq<char>) -> Seq<char> {
    "<tr class=\""@ + class + "\">"@ + cells + "</tr>"@
}

/// The merged change spans of one side of a row (over the line's bytes).
pub open spec fn side_spans(side: crate::difft_json::LineSide, line: Seq<char>) -> Seq<(usize, usize)> {
    merge_spans(sort_by_start(span_pairs(side.changes@)), encode_utf8(line))->0
}

/// The change spans of a side merge over its line.
pub open spec fn side_merges(side: crate::difft_json::LineSide, lines: Seq<String>) -> bool {
    merge_spans(sort_by_start(span_pairs(side.changes@)), encode_utf8(line_text(lines, side.line_number))) is Some
}

/// The rendering inputs for a row are within what the renderer handles without
/// failing: line numbers below the maximum, highlighted lines of bounded
/// length, and the spans that the row merges in order (see [`row_spans_ok`]).
pub open spec fn diff_row_ok(row: RowV, old_lines: Seq<String>, new_lines: Seq<String>, old_hl: Seq<String>, new_hl: Seq<String>) -> bool {
    &&& row.0 matches Some(l) ==> {
        &&& l.line_number < u64::MAX
        &&& (l.line_number as usize) < usize::MAX
        &&& line_text(old_hl, l.line_number).len() <= usize::MAX / 4
    }
    &&& row.1 matches Some(r) ==> {
        &&& r.line_number < u64::MAX
        &&& (r.line_number as usize) < usize::MAX
        &&& line_text(new_hl, r.line_number).len() <= usize::MAX / 4
    }
    &&& row_spans_ok(row, old_lines, new_lines)
}

/// The HTML of a row pairing an old and a new line.
///
/// - Equal old and new texts give a context row.
/// - With change spans: the spans (merged across separators) either cover
///   both lines (row class `line-paired-full`, no token highlight) or are
///   highlighted; when only the new side has spans the old side is shown as
///   unchanged background, and symmetrically.
/// - Without spans the differing middle found by trimming the common prefix
///   and suffix is highlighted.
pub open spec fn paired_row_html(l: crate::difft_json::LineSide, r: crate::difft_json::LineSide, old_lines: Seq<String>, new_lines: Seq<String>, old_hl: Seq<String>, new_hl: Seq<String>) -> Seq<char> {
    let ol = line_text(old_lines, l.line_number);
    let nl = line_text(new_lines, r.line_number);
    let oh = line_text(old_hl, l.line_number);
    let nh = line_text(new_hl, r.line_number);
    let onum = (l.line_number + 1) as nat;
    let nnum = (r.line_number + 1) as nat;
    if ol == nl {
        context_row_html((l.line_number as usize) as nat, (r.line_number as usize) as nat, old_hl, new_hl)
    } else if l.changes@.len() > 0 || r.changes@.len() > 0 {
        let os = side_spans(l, ol);
        let ns = side_spans(r, nl);
        let full = covers_full_line(ns, encode_utf8(nl)) && covers_full_line(os, encode_utf8(ol));
        let old_code = if full { oh } else { insert_many(oh, os, "hl-del"@) };
        let new_code = if full { nh } else { insert_many(nh, ns, "hl-add"@) };
        if l.changes@.len() == 0 {
            tr("line-paired"@, lhs_bg_cells(onum, oh) + rhs_cells(nnum, new_code))
        } else if r.changes@.len() == 0 {
            tr("line-paired"@, lhs_cells(onum, old_code) + rhs_bg_cells(nnum, nh))
        } else {
            tr(if full { "line-paired-full"@ } else { "line-paired"@ }, lhs_cells(onum, old_code) + rhs_cells(nnum, new_code))
        }
    } else {
        let b = change_bounds(encode_utf8(ol), encode_utf8(nl));
        tr("line-paired"@, lhs_cells(onum, insert_one(oh, b.0, b.1, "hl-del"@)) + rhs_cells(nnum, insert_one(nh, b.2, b.3, "hl-add"@)))
    }
}

/// The HTML of a removed line: `line-removed`, or `line-removed-partial` with
/// highlighted spans when its merged spans do not cover the line.
pub open spec fn removed_row_html(l: crate::difft_json::LineSide, old_lines: Seq<String>, old_hl: Seq<String>) -> Seq<char> {
    let ol = line_text(old_lines, l.line_number);
    let oh = line_text(old_hl, l.line_number);
    let sp = side_spans(l, ol);
    let full = sp.len() == 0 || covers_full_line(sp, encode_utf8(ol));
    tr(if full { "line-removed"@ } else { "line-removed-partial"@ },
        lhs_cells((l.line_number + 1) as nat, if full { oh } else { insert_many(oh, sp, "hl-del"@) }) + empty_rhs_cells())
}

/// The HTML of an added line: `line-added`, or `line-added-partial` with
/// highlighted spans when its merged spans do not cover the line.
pub open spec fn added_row_html(r: crate::difft_json::LineSide, new_lines: Seq<String>, new_hl: Seq<String>) -> Seq<char> {
    let nl = line_text(new_lines, r.line_number);
    let nh = line_text(new_hl, r.line_number);
    let sp = side_spans(r, nl);
    let full = sp.len() == 0 || covers_full_line(sp, encode_utf8(nl));
    tr(if full { "line-added"@ } else { "line-added-partial"@ },
        empty_lhs_cells() + rhs_cells((r.line_number + 1) as nat, if full { nh } else { insert_many(nh, sp, "hl-add"@) }))
}

/// The HTML of a side-by-side diff row (nothing for a row without sides).
pub open spec fn diff_row_html(row: RowV, old_lines: Seq<String>, new_lines: Seq<String>, old_hl: Seq<String>, new_hl: Seq<String>) -> Seq<char> {
    match (row.0, row.1) {
        (Some(l), Some(r)) => paired_row_html(l, r, old_lines, new_lines, old_hl, new_hl),
        (Some(l), None) => removed_row_html(l, old_lines, old_hl),
        (None, Some(r)) => added_row_html(r, new_lines, new_hl),
        (None, None) => Seq::empty(),
    }
}

/// Appends the old-side cells with a minus sign.
pub fn push_lhs_cells(out: &mut String, num: u64, code: &str)
    ensures
        final(out)@ == old(out)@ + lhs_cells(num as nat, code@),
{
    out.append("<td class=\"ln ln-lhs\">");
    push_dec(out, num);
    out.append("</td><td class=\"sign sign-lhs\">\u{2212}</td><td class=\"code-lhs\">");
    out.append(code);
    out.append("</td>");
    assert(final(out)@ =~= old(out)@ + lhs_cells(num as nat, code@));
}

/// Appends the new-side cells with a plus sign.
pub fn push_rhs_cells(out: &mut String, num: u64, code: &str)
    ensures
        final(out)@ == old(out)@ + rhs_cells(num as nat, code@),
{
    out.append("<td class=\"ln ln-rhs\">");
    push_dec(out, num);
    out.append("</td><td class=\"sign sign-rhs\">+</td><td class=\"code-rhs\">");
    out.append(code);
    out.append("</td>");
    assert(final(out)@ =~= old(out)@ + rhs_cells(num as nat, code@));
}

fn push_lhs_bg_cells(out: &mut String, num: u64, code: &str)
    ensures
        final(out)@ == old(out)@ + lhs_bg_cells(num as nat, code@),
{
    out.append("<td class=\"ln ln-lhs\" style=\"background:var(--bg)\">");
    push_dec(out, num);
    out.append("</td><td class=\"sign sign-lhs\" style=\"background:var(--bg)\"></td><td class=\"code-lhs\" style=\"background:var(--bg)\">");
    out.append(code);
    out.append("</td>");
    assert(final(out)@ =~= old(out)@ + lhs_bg_cells(num as nat, code@));
}

fn push_rhs_bg_cells(out: &mut String, num: u64, code: &str)
    ensures
        final(out)@ == old(out)@ + rhs_bg_cells(num as nat, code@),
{
    out.append("<td class=\"ln ln-rhs\" style=\"background:var(--bg)\">");
    push_dec(out, num);
    out.append("</td><td class=\"sign sign-rhs\" style=\"background:var(--bg)\"></td><td class=\"code-rhs\" style=\"background:var(--bg)\">");
    out.append(code);
    out.append("</td>");
    assert(final(out)@ =~= old(out)@ + rhs_bg_cells(num as nat, code@));
}

/// Appends the opening tag of a row with the given class.
pub fn push_tr_open(out: &mut String, class: &str)
    ensures
        final(out)@ == old(out)@ + "<tr class=\""@ + class@ + "\">"@,
{
    out.append("<tr class=\"");
    out.append(class);
    out.append("\">");
}

fn render_paired_row(lhs: &crate::difft_json::LineSide, rhs: &crate::difft_json::LineSide, old_lines: &[String], new_lines: &[String], old_hl: &[String], new_hl: &[String]) -> (res: String)
    requires
        diff_row_ok((Some(*lhs), Some(*rhs)), old_lines@, new_lines@, old_hl@, new_hl@),
    ensures
        res@ == paired_row_html(*lhs, *rhs, old_lines@, new_lines@, old_hl@, new_hl@),
{
    let old_line = line_str(old_lines, lhs.line_number);
    let new_line = line_str(new_lines, rhs.line_number);
    let old_highlighted = line_str(old_hl, lhs.line_number);
    let new_highlighted = line_str(new_hl, rhs.line_number);
    if str_eq(old_line, new_line) {
        return render_context_row(lhs.line_number as usize, rhs.line_number as usize, old_hl, new_hl);
    }
    let mut html = String::new();
    if lhs.changes.len() > 0 || rhs.changes.len() > 0 {
        let old_spans = merge_whitespace_spans(lhs.changes.as_slice(), old_line);
        let new_spans = merge_whitespace_spans(rhs.changes.as_slice(), new_line);
        let is_full_line = spans_cover_full_line(new_spans.as_slice(), new_line)
            && spans_cover_full_line(old_spans.as_slice(), old_line);
        let old_code = if is_full_line {
            old_highlighted.to_owned()
        } else {
            insert_diff_highlights(old_highlighted, old_spans.as_slice(), "hl-del")
        };
        let new_code = if is_full_line {
            new_highlighted.to_owned()
        } else {
            insert_diff_highlights(new_highlighted, new_spans.as_slice(), "hl-add")
        };
        if lhs.changes.len() == 0 {
            // Purely additive: render the old side as context.
            push_tr_open(&mut html, "line-paired");
            push_lhs_bg_cells(&mut html, lhs.line_number + 1, old_highlighted);
            push_rhs_cells(&mut html, rhs.line_number + 1, new_code.as_str());
            html.append("</tr>");
            assert(html@ =~= paired_row_html(*lhs, *rhs, old_lines@, new_lines@, old_hl@, new_hl@));
        } else if rhs.changes.len() == 0 {
            // Purely subtractive: the new side is context.
            push_tr_open(&mut html, "line-paired");
            push_lhs_cells(&mut html, lhs.line_number + 1, old_code.as_str());
            push_rhs_bg_cells(&mut html, rhs.line_number + 1, new_highlighted);
            html.append("</tr>");
            assert(html@ =~= paired_row_html(*lhs, *rhs, old_lines@, new_lines@, old_hl@, new_hl@));
        } else {
            push_tr_open(&mut html, if is_full_line { "line-paired-full" } else { "line-paired" });
            push_lhs_cells(&mut html, lhs.line_number + 1, old_code.as_str());
            push_rhs_cells(&mut html, rhs.line_number + 1, new_code.as_str());
            html.append("</tr>");
            assert(html@ =~= paired_row_html(*lhs, *rhs, old_lines@, new_lines@, old_hl@, new_hl@));
        }
    } else {
        // No difft spans: fall back to prefix/suffix comparison
        let (old_cs, old_ce, new_cs, new_ce) = find_change_bounds(old_line, new_line);
        let old_code = insert_diff_highlight(old_highlighted, old_cs, old_ce, "hl-del");
        let new_code = insert_diff_highlight(new_highlighted, new_cs, new_ce, "hl-add");
        push_tr_open(&mut html, "line-paired");
        push_lhs_cells(&mut html, lhs.line_number + 1, old_code.as_str());
        push_rhs_cells(&mut html, rhs.line_number + 1, new_code.as_str());
        html.append("</tr>");
    }
    assert(html@ =~= paired_row_html(*lhs, *rhs, old_lines@, new_lines@, old_hl@, new_hl@));
    html
}

fn render_removed_row(lhs: &crate::difft_json::LineSide, old_lines: &[String], old_hl: &[String]) -> (res: String)
    requires
        lhs.line_number < u64::MAX,
        merge_spans(sort_by_start(span_pairs(lhs.changes@)), encode_utf8(line_text(old_lines@, lhs.line_number))) is Some,
        line_text(old_hl@, lhs.line_number).len() <= usize::MAX / 4,
    ensures
        res@ == removed_row_html(*lhs, old_lines@, old_hl@),
{
    let mut html = String::new();
    let old_line = line_str(old_lines, lhs.line_number);
    let old_highlighted = line_str(old_hl, lhs.line_number);
    let spans = merge_whitespace_spans(lhs.changes.as_slice(), old_line);
    let is_full = spans.len() == 0 || spans_cover_full_line(spans.as_slice(), old_line);
    let content = if is_full {
        old_highlighted.to_owned()
    } else {
        insert_diff_highlights(old_highlighted, spans.as_slice(), "hl-del")
    };
    push_tr_open(&mut html, if is_full { "line-removed" } else { "line-removed-partial" });
    push_lhs_cells(&mut html, lhs.line_number + 1, content.as_str());
    html.append("<td class=\"ln ln-rhs\"></td><td class=\"sign sign-rhs\"></td><td class=\"code-rhs\"></td>");
    html.append("</tr>");
    assert(html@ =~= removed_row_html(*lhs, old_lines@, old_hl@));
    html
}

fn render_added_row(rhs: &crate::difft_json::LineSide, new_lines: &[String], new_hl: &[String]) -> (res: String)
    requires
        rhs.line_number < u64::MAX,
        merge_spans(sort_by_start(span_pairs(rhs.changes@)), encode_utf8(line_text(new_lines@, rhs.line_number))) is Some,
        line_text(new_hl@, rhs.line_number).len() <= usize::MAX / 4,
    ensures
        res@ == added_row_html(*rhs, new_lines@, new_hl@),
{
    let mut html = String::new();
    let new_line = line_str(new_lines, rhs.line_number);
    let new_highlighted = line_str(new_hl, rhs.line_number);
    let spans = merge_whitespace_spans(rhs.changes.as_slice(), new_line);
    let is_full = spans.len() == 0 || spans_cover_full_line(spans.as_slice(), new_line);
    let content = if is_full {
        new_highlighted.to_owned()
    } else {
        insert_diff_highlights(new_highlighted, spans.as_slice(), "hl-add")
    };
    push_tr_open(&mut html, if is_full { "line-added" } else { "line-added-partial" });
    html.append("<td class=\"ln ln-lhs\"></td><td class=\"sign sign-lhs\"></td><td class=\"code-lhs\"></td>");
    push_rhs_cells(&mut html, rhs.line_number + 1, content.as_str());
    html.append("</tr>");
    assert(html@ =~= added_row_html(*rhs, new_lines@, new_hl@));
    html
}

/// Render one side-by-side diff row.
pub fn render_diff_row(row: &DiffRow, old_lines: &[String], new_lines: &[String], old_hl: &[String], new_hl: &[String]) -> (res: String)
    requires
        diff_row_ok(row_view(*row), old_lines@, new_lines@, old_hl@, new_hl@),
    ensures
        res@ == diff_row_html(row_view(*row), old_lines@, new_lines@, old_hl@, new_hl@),
{
    match (row.lhs, row.rhs) {
        (Some(lhs), Some(rhs)) => render_paired_row(lhs, rhs, old_lines, new_lines, old_hl, new_hl),
        (Some(lhs), None) => render_removed_row(lhs, old_lines, old_hl),
        (None, Some(rhs)) => render_added_row(rhs, new_lines, new_hl),
        (None, None) => String::new(),
    }
}

/// The spans that rendering the row merges are in order: those of a lone
/// removed or added line, and those of both sides of a pair whose texts
/// differ (a pair of equal texts is a context row, whatever its spans); and a
/// pair of different lines without spans splits both lines at their common
/// prefix on a character boundary.
pub open spec fn row_spans_ok(row: RowV, old_lines: Seq<String>, new_lines: Seq<String>) -> bool {
    match (row.0, row.1) {
        (Some(l), Some(r)) => {
            let ob = encode_utf8(line_text(old_lines, l.line_number));
            let nb = encode_utf8(line_text(new_lines, r.line_number));
            line_text(old_lines, l.line_number) != line_text(new_lines, r.line_number) ==> {
                &&& side_merges(l, old_lines)
                &&& side_merges(r, new_lines)
                &&& (l.changes@.len() == 0 && r.changes@.len() == 0)
                    ==> is_char_boundary(ob, common_prefix(ob, nb) as int) && is_char_boundary(nb, common_prefix(ob, nb) as int)
            }
        },
        (Some(l), None) => side_merges(l, old_lines),
        (None, Some(r)) => side_merges(r, new_lines),
        (None, None) => true,
    }
}

/// Every highlighted line is at most a quarter of the address space long.
pub open spec fn hl_fit(hl: Seq<String>) -> bool {
    forall|i: int| 0 <= i < hl.len() ==> (#[trigger] hl[i])@.len() <= usize::MAX / 4
}

/// A pair whose old and new texts are equal is drawn as a context row,
/// whatever its change spans, and the renderer merges none of them: its
/// spans never stand in the way of drawing it.
pub proof fn lemma_equal_pair_is_context(l: crate::difft_json::LineSide, r: crate::difft_json::LineSide,
    old_lines: Seq<String>, new_lines: Seq<String>, old_hl: Seq<String>, new_hl: Seq<String>)
    requires
        line_text(old_lines, l.line_number) == line_text(new_lines, r.line_number),
    ensures
        diff_row_html((Some(l), Some(r)), old_lines, new_lines, old_hl, new_hl)
            == context_row_html((l.line_number as usize) as nat, (r.line_number as usize) as nat, old_hl, new_hl),
        row_spans_ok((Some(l), Some(r)), old_lines, new_lines),
{
}

/// A row drawn as a whole added (`line-added`) or whole removed
/// (`line-removed`) line shows its syntax-highlighted line untouched: no diff
/// highlight span is inserted; only `-partial` rows carry inserted spans.
pub proof fn lemma_full_rows_untouched(row: RowV, old_lines: Seq<String>, new_lines: Seq<String>, old_hl: Seq<String>, new_hl: Seq<String>)
    ensures
        row.0 is None && row.1 is Some ==> {
            let r = row.1->0;
            let nl = line_text(new_lines, r.line_number);
            let sp = side_spans(r, nl);
            &&& (sp.len() == 0 || covers_full_line(sp, encode_utf8(nl))) ==> diff_row_html(row, old_lines, new_lines, old_hl, new_hl)
                == tr("line-added"@, empty_lhs_cells() + rhs_cells((r.line_number + 1) as nat, line_text(new_hl, r.line_number)))
            &&& !(sp.len() == 0 || covers_full_line(sp, encode_utf8(nl))) ==> diff_row_html(row, old_lines, new_lines, old_hl, new_hl)
                == tr("line-added-partial"@, empty_lhs_cells() + rhs_cells((r.line_number + 1) as nat,
                    insert_many(line_text(new_hl, r.line_number), sp, "hl-add"@)))
        },
        row.0 is Some && row.1 is None ==> {
            let l = row.0->0;
            let ol = line_text(old_lines, l.line_number);
            let sp = side_spans(l, ol);
            &&& (sp.len() == 0 || covers_full_line(sp, encode_utf8(ol))) ==> diff_row_html(row, old_lines, new_lines, old_hl, new_hl)
                == tr("line-removed"@, lhs_cells((l.line_number + 1) as nat, line_text(old_hl, l.line_number)) + empty_rhs_cells())
            &&& !(sp.len() == 0 || covers_full_line(sp, encode_utf8(ol))) ==> diff_row_html(row, old_lines, new_lines, old_hl, new_hl)
                == tr("line-removed-partial"@, lhs_cells((l.line_number + 1) as nat,
                    insert_many(line_text(old_hl, l.line_number), sp, "hl-del"@)) + empty_rhs_cells())
        },
{
}

/// A row whose spans are in order renders within bounds when its line numbers
/// are below `2^28` and its highlighted lines fit.
pub proof fn lemma_row_renders(row: RowV, old_lines: Seq<String>, new_lines: Seq<String>, old_hl: Seq<String>, new_hl: Seq<String>)
    requires
        row_spans_ok(row, old_lines, new_lines),
        hl_fit(old_hl),
        hl_fit(new_hl),
        row.0 matches Some(l) ==> l.line_number < 0x1000_0000,
        row.1 matches Some(r) ==> r.line_number < 0x1000_0000,
    ensures
        diff_row_ok(row, old_lines, new_lines, old_hl, new_hl),
{
    match row.0 {
        Some(l) => {
            if (l.line_number as usize) < old_hl.len() {
                assert(old_hl[(l.line_number as usize) as int]@.len() <= usize::MAX / 4);
            }
        },
        None => {},
    }
    match row.1 {
        Some(r) => {
            if (r.line_number as usize) < new_hl.len() {
                assert(new_hl[(r.line_number as usize) as int]@.len() <= usize::MAX / 4);
            }
        },
        None => {},
    }
}

/// Whether a row's spans merge and a pair without spans splits at a character boundary.
pub fn row_spans_renderable(row: &DiffRow, old_lines: &[String], new_lines: &[String]) -> (res: bool)
    ensures
        res == row_spans_ok(row_view(*row), old_lines@, new_lines@),
{
    match (row.lhs, row.rhs) {
        (Some(l), Some(r)) => {
            let ol = line_str(old_lines, l.line_number);
            let nl = line_str(new_lines, r.line_number);
            if str_eq(ol, nl) {
                return true;
            }
            let lok = spans_mergeable(l.changes.as_slice(), ol);
            let rok = spans_mergeable(r.changes.as_slice(), nl);
            let bok = if l.changes.len() == 0 && r.changes.len() == 0 {
                let p = common_prefix_len(ol, nl);
                ol.is_char_boundary(p) && nl.is_char_boundary(p)
            } else {
                true
            };
            lok && rok && bok
        },
        (Some(l), None) => spans_mergeable(l.changes.as_slice(), line_str(old_lines, l.line_number)),
        (None, Some(r)) => spans_mergeable(r.changes.as_slice(), line_str(new_lines, r.line_number)),
        (None, None) => true,
    }
}

} // verus!
