//! Splitting a side-by-side diff table into two single-side tables placed
//! next to each other, row by row.

use vstd::prelude::*;
use crate::refs::has_at;
use crate::text::{chars_of, dec, push_char, push_dec_usize, string_of_chars};

verus! {

/// The first position from `i` on where `p` occurs in `h`.
pub open spec fn find_sub(h: Seq<char>, i: int, p: Seq<char>) -> Option<int>
    decreases h.len() + 1 - i,
{
    if i < 0 || i + p.len() > h.len() {
        None
    } else if has_at(h, i, p) {
        Some(i)
    } else {
        find_sub(h, i + 1, p)
    }
}

/// The number of characters other than `>` from `a` on.
pub open spec fn not_gt_run(h: Seq<char>, a: int) -> int
    decreases h.len() - a,
{
    if 0 <= a < h.len() && h[a] != '>' { 1 + not_gt_run(h, a + 1) } else { 0 }
}

/// An element `OPEN ATTRS>INNER CLOSE` at `i` (`OPEN` ends with a space;
/// `ATTRS` holds no `>`; `INNER` is the shortest run before `CLOSE`), as
/// (attrs start, attrs end, inner start, inner end, end).
pub open spec fn elem_at(h: Seq<char>, i: int, open: Seq<char>, close: Seq<char>) -> Option<(int, int, int, int, int)> {
    if !has_at(h, i, open) {
        None
    } else {
        let a = i + open.len();
        let b = a + not_gt_run(h, a);
        if b >= h.len() {
            None
        } else {
            match find_sub(h, b + 1, close) {
                None => None,
                Some(e) => Some((a, b, b + 1, e, e + close.len())),
            }
        }
    }
}

/// The elements in `h` from `i` on, leftmost first and not overlapping, as
/// `Regex::captures_iter` finds `(?s)OPEN([^>]*)>(.*?)CLOSE`.
pub open spec fn scan_elems(h: Seq<char>, i: int, open: Seq<char>, close: Seq<char>) -> Seq<(int, int, int, int, int)>
    decreases h.len() - i,
{
    if i < 0 || i >= h.len() {
        Seq::empty()
    } else {
        match elem_at(h, i, open, close) {
            Some(m) => if i < m.4 <= h.len() { seq![m] + scan_elems(h, m.4, open, close) } else { Seq::empty() },
            None => scan_elems(h, i + 1, open, close),
        }
    }
}

/// `s` with every occurrence of `p` (left to right, not overlapping) replaced by `r`.
pub open spec fn replace_all(s: Seq<char>, p: Seq<char>, r: Seq<char>) -> Seq<char>
    decreases s.len(),
{
    if s.len() == 0 {
        Seq::empty()
    } else if p.len() > 0 && has_at(s, 0, p) {
        r + replace_all(s.skip(p.len() as int), p, r)
    } else {
        seq![s[0]] + replace_all(s.skip(1), p, r)
    }
}

/// `s` with its first occurrence of `p` replaced by `r`.
pub open spec fn replace_first(s: Seq<char>, p: Seq<char>, r: Seq<char>) -> Seq<char> {
    match find_sub(s, 0, p) {
        None => s,
        Some(i) => s.take(i) + r + s.skip(i + p.len()),
    }
}

/// Whether `p` occurs in `s`.
pub open spec fn contains_sub(s: Seq<char>, p: Seq<char>) -> bool {
    find_sub(s, 0, p) is Some
}

/// The text of a range.
pub open spec fn part_of(h: Seq<char>, a: int, b: int) -> Seq<char> {
    h.subrange(a, b)
}

/// One cell as HTML.
pub open spec fn cell_html(inner: Seq<char>, c: (int, int, int, int, int)) -> Seq<char> {
    "<td "@ + part_of(inner, c.0, c.1) + ">"@ + part_of(inner, c.2, c.3) + "</td>"@
}

/// Cells `a..b` as HTML.
pub open spec fn cells_html(inner: Seq<char>, cs: Seq<(int, int, int, int, int)>, a: int, b: int) -> Seq<char>
    decreases b - a,
{
    if b <= a { Seq::empty() } else { cells_html(inner, cs, a, b - 1) + cell_html(inner, cs[b - 1]) }
}

/// A row of one table: its attributes, its index, its cells.
pub open spec fn side_row(attrs: Seq<char>, idx: nat, body: Seq<char>) -> Seq<char> {
    "<tr "@ + attrs + " data-row-idx=\""@ + dec(idx) + "\">"@ + body + "</tr>"@
}

/// The (old-table row, new-table row) that a row of the side-by-side table becomes.
pub open spec fn split_row(h: Seq<char>, tr: (int, int, int, int, int), idx: nat) -> (Seq<char>, Seq<char>) {
    let attrs = part_of(h, tr.0, tr.1);
    let inner = part_of(h, tr.2, tr.3);
    let cs = scan_elems(inner, 0, "<td "@, "</td>"@);
    if cs.len() == 1 {
        let c = cs[0];
        let cell = "<td "@ + replace_all(part_of(inner, c.0, c.1), "colspan=\"6\""@, "colspan=\"3\""@) + ">"@ + part_of(inner, c.2, c.3) + "</td>"@;
        (side_row(attrs, idx, cell), side_row(attrs, idx, cell))
    } else if cs.len() == 6 {
        let la = if contains_sub(attrs, "line-added"@) { replace_first(attrs, "class=\""@, "class=\"placeholder "@) } else { attrs };
        let ra = if contains_sub(attrs, "line-removed"@) { replace_first(attrs, "class=\""@, "class=\"placeholder "@) } else { attrs };
        (side_row(la, idx, cells_html(inner, cs, 0, 3)), side_row(ra, idx, cells_html(inner, cs, 3, 6)))
    } else if cs.len() == 3 {
        (side_row(attrs, idx, cells_html(inner, cs, 0, 3)), side_row(attrs, idx, cells_html(inner, cs, 0, 3)))
    } else {
        (side_row(attrs, idx, inner), side_row(attrs, idx, inner))
    }
}

/// The rows of the two tables for the first `k` rows.
pub open spec fn split_rows(h: Seq<char>, trs: Seq<(int, int, int, int, int)>, k: int) -> (Seq<char>, Seq<char>)
    decreases k,
{
    if k <= 0 {
        (Seq::empty(), Seq::empty())
    } else {
        let p = split_rows(h, trs, k - 1);
        let r = split_row(h, trs[k - 1], (k - 1) as nat);
        (p.0 + r.0, p.1 + r.1)
    }
}

/// The column group of a single-side table.
pub open spec fn colgroup3() -> Seq<char> {
    "<colgroup><col class=\"ln-col\"><col class=\"sign-col\"><col class=\"code-col\"></colgroup>"@
}

/// The two tables side by side.
pub open spec fn two_tables(lhs: Seq<char>, rhs: Seq<char>) -> Seq<char> {
    "<div class=\"diff-sides\"><div class=\"diff-side diff-side-old\"><table class=\"diff-table diff-table-lhs\">"@
        + colgroup3() + "<tbody>"@ + lhs + "</tbody></table></div><div class=\"diff-side diff-side-new\"><table class=\"diff-table diff-table-rhs\">"@
        + colgroup3() + "<tbody>"@ + rhs + "</tbody></table></div></div>"@
}

/// The positions of a side-by-side table: (table start, body content start,
/// body end, table end).
pub open spec fn table_bounds(h: Seq<char>) -> Option<(int, int, int, int)> {
    match find_sub(h, 0, "<table class=\"diff-table\">"@) {
        None => None,
        Some(ts) => match find_sub(h, ts, "<tbody>"@) {
            None => None,
            Some(bs) => match find_sub(h, bs + 7, "</tbody>"@) {
                None => None,
                Some(be) => match find_sub(h, be, "</table>"@) {
                    None => None,
                    Some(te) => Some((ts, bs + 7, be, te + 8)),
                },
            },
        },
    }
}

/// The HTML with its side-by-side table (`<table class="diff-table">`)
/// replaced by two single-side tables in a flex container; unchanged when
/// there is no such table.
pub open spec fn split_tables(h: Seq<char>) -> Seq<char> {
    match table_bounds(h) {
        None => h,
        Some(b) => {
            let body = part_of(h, b.1, b.2);
            let trs = scan_elems(body, 0, "<tr "@, "</tr>"@);
            let rows = split_rows(body, trs, trs.len() as int);
            h.take(b.0) + two_tables(rows.0, rows.1) + h.skip(b.3)
        },
    }
}

/// The rows of the old table: row `k` of the body split for the old side.
pub open spec fn lhs_rows(body: Seq<char>, trs: Seq<(int, int, int, int, int)>) -> Seq<Seq<char>> {
    Seq::new(trs.len(), |k: int| split_row(body, trs[k], k as nat).0)
}

/// The rows of the new table: row `k` of the body split for the new side.
pub open spec fn rhs_rows(body: Seq<char>, trs: Seq<(int, int, int, int, int)>) -> Seq<Seq<char>> {
    Seq::new(trs.len(), |k: int| split_row(body, trs[k], k as nat).1)
}

proof fn lemma_split_rows_flat(body: Seq<char>, trs: Seq<(int, int, int, int, int)>, k: int)
    requires
        0 <= k <= trs.len(),
    ensures
        split_rows(body, trs, k).0 == lhs_rows(body, trs).take(k).flatten(),
        split_rows(body, trs, k).1 == rhs_rows(body, trs).take(k).flatten(),
    decreases k,
{
    if k == 0 {
        assert(lhs_rows(body, trs).take(0) =~= Seq::<Seq<char>>::empty());
        assert(rhs_rows(body, trs).take(0) =~= Seq::<Seq<char>>::empty());
    } else {
        lemma_split_rows_flat(body, trs, k - 1);
        let l = lhs_rows(body, trs);
        let r = rhs_rows(body, trs);
        assert(l.take(k) =~= l.take(k - 1).push(l[k - 1]));
        assert(r.take(k) =~= r.take(k - 1).push(r[k - 1]));
        l.take(k - 1).lemma_flatten_push(l[k - 1]);
        r.take(k - 1).lemma_flatten_push(r[k - 1]);
    }
}

/// Splitting a side-by-side table: without a `diff-table` table (with its
/// body) the HTML is unchanged; otherwise the text before the table and after
/// it is kept, and the table becomes two tables whose `k`-th rows are the
/// `k`-th source row split for each side, both with `data-row-idx` `k`. A
/// six-cell row gives its first three cells to the old table and the other
/// three to the new one; a one-cell row goes to both with `colspan="3"`.
pub proof fn lemma_split_tables_shape(h: Seq<char>)
    ensures
        table_bounds(h) is None ==> split_tables(h) == h,
        table_bounds(h) matches Some(b) ==> {
            let body = part_of(h, b.1, b.2);
            let trs = scan_elems(body, 0, "<tr "@, "</tr>"@);
            split_tables(h) == h.take(b.0) + two_tables(lhs_rows(body, trs).flatten(), rhs_rows(body, trs).flatten()) + h.skip(b.3)
        },
{
    if let Some(b) = table_bounds(h) {
        let body = part_of(h, b.1, b.2);
        let trs = scan_elems(body, 0, "<tr "@, "</tr>"@);
        lemma_split_rows_flat(body, trs, trs.len() as int);
        assert(lhs_rows(body, trs).take(trs.len() as int) =~= lhs_rows(body, trs));
        assert(rhs_rows(body, trs).take(trs.len() as int) =~= rhs_rows(body, trs));
    }
}

/// How one row is split: its index goes to both sides; six cells are split
/// three and three (an added row's old half, or a removed row's new half, is
/// marked as a placeholder); one cell spanning six columns spans three on
/// each side; three cells are kept on both sides.
pub proof fn lemma_split_row_cells(h: Seq<char>, tr: (int, int, int, int, int), idx: nat)
    ensures
        ({
            let attrs = part_of(h, tr.0, tr.1);
            let inner = part_of(h, tr.2, tr.3);
            let cs = scan_elems(inner, 0, "<td "@, "</td>"@);
            let r = split_row(h, tr, idx);
            &&& cs.len() == 6 ==> r.0 == side_row(
                    if contains_sub(attrs, "line-added"@) { replace_first(attrs, "class=\""@, "class=\"placeholder "@) } else { attrs },
                    idx, cells_html(inner, cs, 0, 3))
                && r.1 == side_row(
                    if contains_sub(attrs, "line-removed"@) { replace_first(attrs, "class=\""@, "class=\"placeholder "@) } else { attrs },
                    idx, cells_html(inner, cs, 3, 6))
            &&& cs.len() == 1 ==> r.0 == r.1 && r.0 == side_row(attrs, idx,
                    "<td "@ + replace_all(part_of(inner, cs[0].0, cs[0].1), "colspan=\"6\""@, "colspan=\"3\""@) + ">"@
                    + part_of(inner, cs[0].2, cs[0].3) + "</td>"@)
            &&& cs.len() == 3 ==> r.0 == r.1 && r.0 == side_row(attrs, idx, cells_html(inner, cs, 0, 3))
        }),
{
}

pub(crate) fn has_at_exec(h: &[char], i: usize, p: &[char]) -> (res: bool)
    ensures
        res == has_at(h@, i as int, p@),
{
    let n = h.len();
    if i > n || p.len() > n - i {
        return false;
    }
    let mut k: usize = 0;
    while k < p.len()
        invariant
            k <= p@.len(),
            n == h@.len(),
            i + p@.len() <= h@.len(),
            forall|q: int| 0 <= q < k ==> h@[i + q] == p@[q],
        decreases p@.len() - k,
    {
        if h[i + k] != p[k] {
            assert(h@.subrange(i as int, i + p@.len())[k as int] != p@[k as int]);
            return false;
        }
        k = k + 1;
    }
    assert(h@.subrange(i as int, i + p@.len()) =~= p@);
    true
}

/// The first position from `i` on where `p` occurs.
pub(crate) fn find_sub_exec(h: &[char], i: usize, p: &[char]) -> (res: Option<usize>)
    ensures
        match find_sub(h@, i as int, p@) {
            Some(x) => res == Some(x as usize) && i <= x && x + p@.len() <= h@.len(),
            None => res is None,
        },
{
    let n = h.len();
    if p.len() == 0 {
        if i <= n {
            assert(has_at(h@, i as int, p@)) by { assert(h@.subrange(i as int, i as int) =~= p@); }
            return Some(i);
        }
        return None;
    }
    let mut k = i;
    while k <= n && p.len() <= n - k
        invariant
            i <= k,
            n == h@.len(),
            p@.len() >= 1,
            find_sub(h@, i as int, p@) == find_sub(h@, k as int, p@),
        decreases n + 1 - k,
    {
        if has_at_exec(h, k, p) {
            return Some(k);
        }
        k = k + 1;
    }
    None
}

/// The element at `i`, if one starts there.
fn elem_at_exec(h: &[char], i: usize, open: &[char], close: &[char]) -> (res: Option<(usize, usize, usize, usize, usize)>)
    ensures
        match elem_at(h@, i as int, open@, close@) {
            Some(m) => res matches Some(r) && m == (r.0 as int, r.1 as int, r.2 as int, r.3 as int, r.4 as int)
                && r.0 <= r.1 < r.2 <= r.3 <= r.4 <= h@.len() && i < r.2,
            None => res is None,
        },
{
    let n = h.len();
    if !has_at_exec(h, i, open) {
        return None;
    }
    let a = i + open.len();
    let mut b = a;
    while b < h.len() && h[b] != '>'
        invariant
            a <= b <= h@.len(),
            not_gt_run(h@, a as int) == (b - a) + not_gt_run(h@, b as int),
        decreases h@.len() - b,
    {
        b = b + 1;
    }
    if b >= h.len() {
        return None;
    }
    match find_sub_exec(h, b + 1, close) {
        None => None,
        Some(e) => Some((a, b, b + 1, e, e + close.len())),
    }
}

/// The elements in `h`, leftmost first and not overlapping.
fn scan_elems_exec(h: &[char], open: &[char], close: &[char]) -> (res: Vec<(usize, usize, usize, usize, usize)>)
    ensures
        res@.len() == scan_elems(h@, 0, open@, close@).len(),
        forall|k: int| 0 <= k < res@.len() ==> {
            let r = #[trigger] res@[k];
            &&& scan_elems(h@, 0, open@, close@)[k] == (r.0 as int, r.1 as int, r.2 as int, r.3 as int, r.4 as int)
            &&& r.0 <= r.1 < r.2 <= r.3 <= r.4 <= h@.len()
        },
{
    let mut res: Vec<(usize, usize, usize, usize, usize)> = Vec::new();
    let mut i: usize = 0;
    while i < h.len()
        invariant
            i <= h@.len(),
            ({
                let all = scan_elems(h@, 0, open@, close@);
                let rest = scan_elems(h@, i as int, open@, close@);
                &&& all.len() == res@.len() + rest.len()
                &&& forall|k: int| 0 <= k < res@.len() ==> {
                    let r = #[trigger] res@[k];
                    &&& all[k] == (r.0 as int, r.1 as int, r.2 as int, r.3 as int, r.4 as int)
                    &&& r.0 <= r.1 < r.2 <= r.3 <= r.4 <= h@.len()
                }
                &&& forall|k: int| 0 <= k < rest.len() ==> all[res@.len() + k] == #[trigger] rest[k]
            }),
        decreases h@.len() - i,
    {
        let ghost before = res@;
        match elem_at_exec(h, i, open, close) {
            Some(r) => {
                res.push(r);
                proof {
                    let all = scan_elems(h@, 0, open@, close@);
                    let rest = scan_elems(h@, i as int, open@, close@);
                    let rest2 = scan_elems(h@, r.4 as int, open@, close@);
                    assert(rest == seq![rest[0]] + rest2);
                    assert forall|k: int| 0 <= k < res@.len() implies {
                        let x = #[trigger] res@[k];
                        &&& all[k] == (x.0 as int, x.1 as int, x.2 as int, x.3 as int, x.4 as int)
                        &&& x.0 <= x.1 < x.2 <= x.3 <= x.4 <= h@.len()
                    } by {
                        if k < before.len() { assert(res@[k] == before[k]); }
                    }
                    assert forall|k: int| 0 <= k < rest2.len() implies all[res@.len() + k] == #[trigger] rest2[k] by {
                        assert(rest[k + 1] == rest2[k]);
                    }
                }
                i = r.4;
            },
            None => {
                i = i + 1;
            },
        }
    }
    res
}

pub(crate) fn push_range(out: &mut String, h: &[char], a: usize, b: usize)
    requires
        a <= b <= h@.len(),
    ensures
        final(out)@ == old(out)@ + part_of(h@, a as int, b as int),
{
    let ghost start = out@;
    let mut k = a;
    while k < b
        invariant
            a <= k <= b <= h@.len(),
            out@ == start + h@.subrange(a as int, k as int),
        decreases b - k,
    {
        push_char(out, h[k]);
        proof { assert(h@.subrange(a as int, k + 1) == h@.subrange(a as int, k as int).push(h@[k as int])); }
        k = k + 1;
    }
}

proof fn lemma_replace_all_step(s: Seq<char>, i: int, p: Seq<char>, r: Seq<char>)
    requires
        0 <= i <= s.len(),
    ensures
        replace_all(s.skip(i), p, r) == if i == s.len() { Seq::<char>::empty() } else if p.len() > 0 && has_at(s, i, p) {
            r + replace_all(s.skip(i + p.len()), p, r)
        } else {
            seq![s[i]] + replace_all(s.skip(i + 1), p, r)
        },
{
    let t = s.skip(i);
    if i < s.len() {
        if p.len() > 0 && i + p.len() <= s.len() {
            assert(t.subrange(0, p.len() as int) =~= s.subrange(i, i + p.len()));
            assert(t.skip(p.len() as int) =~= s.skip(i + p.len()));
        }
        assert(t.skip(1) =~= s.skip(i + 1));
        assert(t[0] == s[i]);
    } else {
        assert(t.len() == 0);
    }
}

/// `s` with every `p` replaced by `r`.
pub(crate) fn replace_all_exec(s: &[char], p: &[char], r: &str) -> (res: String)
    ensures
        res@ == replace_all(s@, p@, r@),
{
    let mut out = String::new();
    let mut i: usize = 0;
    proof { assert(s@.skip(0) == s@); }
    while i < s.len()
        invariant
            i <= s@.len(),
            out@ + replace_all(s@.skip(i as int), p@, r@) == replace_all(s@, p@, r@),
        decreases s@.len() - i,
    {
        proof { lemma_replace_all_step(s@, i as int, p@, r@); }
        if p.len() > 0 && has_at_exec(s, i, p) {
            out.append(r);
            i = i + p.len();
        } else {
            push_char(&mut out, s[i]);
            i = i + 1;
        }
    }
    proof { lemma_replace_all_step(s@, i as int, p@, r@); }
    out
}

/// Whether `p` occurs in `s`.
pub(crate) fn contains_exec(s: &[char], p: &str) -> (res: bool)
    ensures
        res == contains_sub(s@, p@),
{
    let pc = chars_of(p);
    find_sub_exec(s, 0, pc.as_slice()).is_some()
}

/// `s` with its first `p` replaced by `r`.
pub(crate) fn replace_first_exec(s: &[char], p: &str, r: &str) -> (res: String)
    ensures
        res@ == replace_first(s@, p@, r@),
{
    let pc = chars_of(p);
    let _n = s.len();
    let mut out = String::new();
    match find_sub_exec(s, 0, pc.as_slice()) {
        None => {
            push_range(&mut out, s, 0, s.len());
            proof { assert(s@.subrange(0, s@.len() as int) == s@); }
        },
        Some(i) => {
            push_range(&mut out, s, 0, i);
            out.append(r);
            push_range(&mut out, s, i + pc.len(), s.len());
            proof {
                assert(s@.subrange(0, i as int) == s@.take(i as int));
                assert(s@.subrange(i + pc@.len(), s@.len() as int) == s@.skip(i + pc@.len()));
            }
        },
    }
    out
}

pub(crate) fn sub_vec(h: &[char], a: usize, b: usize) -> (res: Vec<char>)
    requires
        a <= b <= h@.len(),
    ensures
        res@ == part_of(h@, a as int, b as int),
{
    let mut v: Vec<char> = Vec::new();
    let mut k = a;
    while k < b
        invariant
            a <= k <= b <= h@.len(),
            v@ == h@.subrange(a as int, k as int),
        decreases b - k,
    {
        v.push(h[k]);
        proof { assert(v@ =~= h@.subrange(a as int, k + 1)); }
        k = k + 1;
    }
    v
}

fn push_side_row(out: &mut String, attrs: &str, idx: usize, body: &str)
    ensures
        final(out)@ == old(out)@ + side_row(attrs@, idx as nat, body@),
{
    let ghost start = out@;
    out.append("<tr ");
    out.append(attrs);
    out.append(" data-row-idx=\"");
    push_dec_usize(out, idx);
    out.append("\">");
    out.append(body);
    out.append("</tr>");
    proof { assert(out@ =~= start + side_row(attrs@, idx as nat, body@)); }
}

/// Cells `a..b` as HTML.
fn cells_exec(inner: &[char], cs: &Vec<(usize, usize, usize, usize, usize)>, a: usize, b: usize, Ghost(csv): Ghost<Seq<(int, int, int, int, int)>>) -> (res: String)
    requires
        a <= b <= cs@.len() == csv.len(),
        forall|k: int| 0 <= k < cs@.len() ==> {
            let r = #[trigger] cs@[k];
            &&& csv[k] == (r.0 as int, r.1 as int, r.2 as int, r.3 as int, r.4 as int)
            &&& r.0 <= r.1 < r.2 <= r.3 <= r.4 <= inner@.len()
        },
    ensures
        res@ == cells_html(inner@, csv, a as int, b as int),
{
    let mut out = String::new();
    let mut k = a;
    while k < b
        invariant
            a <= k <= b <= cs@.len() == csv.len(),
            forall|q: int| 0 <= q < cs@.len() ==> {
                let r = #[trigger] cs@[q];
                &&& csv[q] == (r.0 as int, r.1 as int, r.2 as int, r.3 as int, r.4 as int)
                &&& r.0 <= r.1 < r.2 <= r.3 <= r.4 <= inner@.len()
            },
            out@ == cells_html(inner@, csv, a as int, k as int),
        decreases b - k,
    {
        let c = cs[k];
        let ghost before = out@;
        out.append("<td ");
        push_range(&mut out, inner, c.0, c.1);
        out.append(">");
        push_range(&mut out, inner, c.2, c.3);
        out.append("</td>");
        proof {
            assert(cs@[k as int] == c);
            assert(out@ =~= cells_html(inner@, csv, a as int, k + 1));
        }
        k = k + 1;
    }
    out
}

/// The two rows that a side-by-side row becomes.
fn split_row_exec(h: &[char], tr: (usize, usize, usize, usize, usize), idx: usize, lhs: &mut String, rhs: &mut String)
    requires
        tr.0 <= tr.1 <= tr.2 <= tr.3 <= h@.len(),
    ensures
        ({
            let r = split_row(h@, (tr.0 as int, tr.1 as int, tr.2 as int, tr.3 as int, tr.4 as int), idx as nat);
            &&& final(lhs)@ == old(lhs)@ + r.0
            &&& final(rhs)@ == old(rhs)@ + r.1
        }),
{
    let attrs_v = sub_vec(h, tr.0, tr.1);
    let inner_v = sub_vec(h, tr.2, tr.3);
    let attrs = string_of_chars(attrs_v.as_slice());
    let inner = inner_v.as_slice();
    let td_open = chars_of("<td ");
    let td_close = chars_of("</td>");
    let cs = scan_elems_exec(inner, td_open.as_slice(), td_close.as_slice());
    let ghost csv = scan_elems(inner@, 0, "<td "@, "</td>"@);
    if cs.len() == 1 {
        let c = cs[0];
        let av = sub_vec(inner, c.0, c.1);
        let new_attrs = replace_all_exec(av.as_slice(), chars_of("colspan=\"6\"").as_slice(), "colspan=\"3\"");
        let mut cell = String::new();
        cell.append("<td ");
        cell.append(new_attrs.as_str());
        cell.append(">");
        push_range(&mut cell, inner, c.2, c.3);
        cell.append("</td>");
        proof {
            assert(cs@[0] == c);
        }
        push_side_row(lhs, attrs.as_str(), idx, cell.as_str());
        push_side_row(rhs, attrs.as_str(), idx, cell.as_str());
    } else if cs.len() == 6 {
        let add_only = contains_exec(attrs_v.as_slice(), "line-added");
        let remove_only = contains_exec(attrs_v.as_slice(), "line-removed");
        let la = if add_only { replace_first_exec(attrs_v.as_slice(), "class=\"", "class=\"placeholder ") } else { string_of_chars(attrs_v.as_slice()) };
        let ra = if remove_only { replace_first_exec(attrs_v.as_slice(), "class=\"", "class=\"placeholder ") } else { string_of_chars(attrs_v.as_slice()) };
        let lc = cells_exec(inner, &cs, 0, 3, Ghost(csv));
        let rc = cells_exec(inner, &cs, 3, 6, Ghost(csv));
        push_side_row(lhs, la.as_str(), idx, lc.as_str());
        push_side_row(rhs, ra.as_str(), idx, rc.as_str());
    } else if cs.len() == 3 {
        let cc = cells_exec(inner, &cs, 0, 3, Ghost(csv));
        push_side_row(lhs, attrs.as_str(), idx, cc.as_str());
        push_side_row(rhs, attrs.as_str(), idx, cc.as_str());
    } else {
        let body = string_of_chars(inner);
        push_side_row(lhs, attrs.as_str(), idx, body.as_str());
        push_side_row(rhs, attrs.as_str(), idx, body.as_str());
    }
}

/// Split a 6-column side-by-side diff table into two 3-column tables in a
/// flex container. Only a `<table class="diff-table">` (not `diff-single`)
/// is split; other HTML is returned unchanged.
pub fn split_into_two_tables(html: &str) -> (res: String)
    ensures
        res@ == split_tables(html@),
{
    let h = chars_of(html);
    let hs = h.as_slice();
    let n = hs.len();
    let ts = match find_sub_exec(hs, 0, chars_of("<table class=\"diff-table\">").as_slice()) {
        Some(p) => p,
        None => return string_of_chars(hs),
    };
    let bs = match find_sub_exec(hs, ts, chars_of("<tbody>").as_slice()) {
        Some(p) => p,
        None => return string_of_chars(hs),
    };
    proof { reveal_strlit("<tbody>"); }
    let be = match find_sub_exec(hs, bs + 7, chars_of("</tbody>").as_slice()) {
        Some(p) => p,
        None => return string_of_chars(hs),
    };
    let te = match find_sub_exec(hs, be, chars_of("</table>").as_slice()) {
        Some(p) => p,
        None => return string_of_chars(hs),
    };
    proof { reveal_strlit("</table>"); }
    let body = sub_vec(hs, bs + 7, be);
    let bsl = body.as_slice();
    let trs = scan_elems_exec(bsl, chars_of("<tr ").as_slice(), chars_of("</tr>").as_slice());
    let ghost trv = scan_elems(body@, 0, "<tr "@, "</tr>"@);
    let mut lhs = String::new();
    let mut rhs = String::new();
    let mut k: usize = 0;
    while k < trs.len()
        invariant
            k <= trs@.len() == trv.len(),
            bsl@ == body@,
            forall|q: int| 0 <= q < trs@.len() ==> {
                let r = #[trigger] trs@[q];
                &&& trv[q] == (r.0 as int, r.1 as int, r.2 as int, r.3 as int, r.4 as int)
                &&& r.0 <= r.1 < r.2 <= r.3 <= r.4 <= body@.len()
            },
            (lhs@, rhs@) == split_rows(body@, trv, k as int),
        decreases trs@.len() - k,
    {
        let t = trs[k];
        proof { assert(trs@[k as int] == t); }
        split_row_exec(bsl, t, k, &mut lhs, &mut rhs);
        k = k + 1;
    }
    let mut out = String::new();
    push_range(&mut out, hs, 0, ts);
    let cg = "<colgroup><col class=\"ln-col\"><col class=\"sign-col\"><col class=\"code-col\"></colgroup>";
    out.append("<div class=\"diff-sides\"><div class=\"diff-side diff-side-old\"><table class=\"diff-table diff-table-lhs\">");
    out.append(cg);
    out.append("<tbody>");
    out.append(lhs.as_str());
    out.append("</tbody></table></div><div class=\"diff-side diff-side-new\"><table class=\"diff-table diff-table-rhs\">");
    out.append(cg);
    out.append("<tbody>");
    out.append(rhs.as_str());
    out.append("</tbody></table></div></div>");
    push_range(&mut out, hs, te + 8, n);
    proof {
        assert(hs@.subrange(0, ts as int) == hs@.take(ts as int));
        assert(hs@.subrange(te + 8, n as int) == hs@.skip(te + 8));
        assert(out@ =~= split_tables(html@));
    }
    out
}

} // verus!
