//! Consolidation of a chunk's entries into side-by-side rows, and the
//! re-pairing of reordered lines.

use vstd::prelude::*;
use crate::difft_json::{LineEntry, LineSide};
use crate::text::str_eq;

verus! {

/// A row to render in the diff table.
#[derive(Clone, Copy)]
pub struct DiffRow<'a> {
    pub lhs: Option<&'a LineSide>,
    pub rhs: Option<&'a LineSide>,
}

/// The two sides of a row as values.
pub open spec fn row_view(r: DiffRow) -> (Option<LineSide>, Option<LineSide>) {
    (
        match r.lhs { Some(s) => Some(*s), None => None },
        match r.rhs { Some(s) => Some(*s), None => None },
    )
}

/// The rows as values.
pub open spec fn rows_view(rs: Seq<DiffRow>) -> Seq<(Option<LineSide>, Option<LineSide>)> {
    rs.map_values(|r: DiffRow| row_view(r))
}

/// An entry with only the old side (a removed line).
pub open spec fn lhs_only(e: LineEntry) -> bool {
    e.lhs is Some && e.rhs is None
}

/// An entry with only the new side (an added line).
pub open spec fn rhs_only(e: LineEntry) -> bool {
    e.rhs is Some && e.lhs is None
}

/// End of the run of removed-only entries starting at `i`.
pub open spec fn lhs_run_end(e: Seq<LineEntry>, i: int) -> int
    decreases e.len() - i,
{
    if i >= e.len() || !lhs_only(e[i]) {
        i
    } else {
        lhs_run_end(e, i + 1)
    }
}

/// End of the run of added-only entries starting at `i`.
pub open spec fn rhs_run_end(e: Seq<LineEntry>, i: int) -> int
    decreases e.len() - i,
{
    if i >= e.len() || !rhs_only(e[i]) {
        i
    } else {
        rhs_run_end(e, i + 1)
    }
}

/// Removed run `e[i..j]` zipped positionally with the added run `e[j..k]`.
pub open spec fn zip_runs(e: Seq<LineEntry>, i: int, j: int, k: int) -> Seq<(Option<LineSide>, Option<LineSide>)> {
    let n = if j - i >= k - j { j - i } else { k - j };
    Seq::new(n as nat, |m: int| (
        if m < j - i { e[i + m].lhs } else { None },
        if m < k - j { e[j + m].rhs } else { None },
    ))
}

/// The consolidated rows of `e[i..]`: a paired entry is one row; a run of
/// removed-only entries is paired positionally with the immediately following
/// run of added-only entries; a lone added-only entry is its own row; an entry
/// with no side is dropped.
pub open spec fn consolidate(e: Seq<LineEntry>, i: int) -> Seq<(Option<LineSide>, Option<LineSide>)>
    decreases e.len() - i, 0int,
{
    if i < 0 || i >= e.len() {
        Seq::empty()
    } else if e[i].lhs is Some && e[i].rhs is Some {
        seq![(e[i].lhs, e[i].rhs)] + consolidate(e, i + 1)
    } else if e[i].lhs is Some {
        let j = lhs_run_end(e, i);
        let k = rhs_run_end(e, j);
        if i < k <= e.len() { zip_runs(e, i, j, k) + consolidate(e, k) } else { Seq::empty() }
    } else if e[i].rhs is Some {
        seq![(None, e[i].rhs)] + consolidate(e, i + 1)
    } else {
        consolidate(e, i + 1)
    }
}

proof fn lemma_run_ends(e: Seq<LineEntry>, i: int)
    requires
        0 <= i <= e.len(),
    ensures
        i <= lhs_run_end(e, i) <= e.len(),
        i <= rhs_run_end(e, i) <= e.len(),
        forall|m: int| i <= m < lhs_run_end(e, i) ==> lhs_only(#[trigger] e[m]),
        forall|m: int| i <= m < rhs_run_end(e, i) ==> rhs_only(#[trigger] e[m]),
        lhs_run_end(e, i) < e.len() ==> !lhs_only(e[lhs_run_end(e, i)]),
        rhs_run_end(e, i) < e.len() ==> !rhs_only(e[rhs_run_end(e, i)]),
    decreases e.len() - i,
{
    if i < e.len() {
        lemma_run_ends(e, i + 1);
    }
}

/// Consolidate entries within a chunk for better side-by-side layout.
pub fn consolidate_chunk<'a>(entries: &'a [LineEntry]) -> (rows: Vec<DiffRow<'a>>)
    ensures
        rows_view(rows@) == consolidate(entries@, 0),
{
    let mut rows: Vec<DiffRow<'a>> = Vec::new();
    let mut i: usize = 0;
    let ghost e = entries@;
    while i < entries.len()
        invariant
            i <= e.len(),
            e == entries@,
            consolidate(e, 0) == rows_view(rows@) + consolidate(e, i as int),
        decreases e.len() - i,
    {
        let entry = &entries[i];
        let has_lhs = entry.lhs.is_some();
        let has_rhs = entry.rhs.is_some();
        if has_lhs && has_rhs {
            let ghost before = rows@;
            rows.push(DiffRow { lhs: entry.lhs.as_ref(), rhs: entry.rhs.as_ref() });
            assert(rows_view(rows@) == rows_view(before).push((e[i as int].lhs, e[i as int].rhs)));
            assert(rows_view(rows@) + consolidate(e, i + 1) == rows_view(before) + consolidate(e, i as int));
            i = i + 1;
        } else if has_lhs {
            let lhs_start = i;
            proof { lemma_run_ends(e, i as int); }
            while i < entries.len() && entries[i].lhs.is_some() && entries[i].rhs.is_none()
                invariant
                    lhs_start <= i <= lhs_run_end(e, lhs_start as int),
                    lhs_run_end(e, lhs_start as int) <= e.len(),
                    e == entries@,
                    forall|m: int| lhs_start <= m < lhs_run_end(e, lhs_start as int) ==> lhs_only(#[trigger] e[m]),
                    lhs_run_end(e, lhs_start as int) < e.len() ==> !lhs_only(e[lhs_run_end(e, lhs_start as int)]),
                decreases e.len() - i,
            {
                i = i + 1;
            }
            let rhs_start = i;
            proof { lemma_run_ends(e, i as int); }
            while i < entries.len() && entries[i].rhs.is_some() && entries[i].lhs.is_none()
                invariant
                    rhs_start <= i <= rhs_run_end(e, rhs_start as int),
                    rhs_run_end(e, rhs_start as int) <= e.len(),
                    e == entries@,
                    forall|m: int| rhs_start <= m < rhs_run_end(e, rhs_start as int) ==> rhs_only(#[trigger] e[m]),
                    rhs_run_end(e, rhs_start as int) < e.len() ==> !rhs_only(e[rhs_run_end(e, rhs_start as int)]),
                decreases e.len() - i,
            {
                i = i + 1;
            }
            let lhs_len = rhs_start - lhs_start;
            let rhs_len = i - rhs_start;
            let max_len = if lhs_len >= rhs_len { lhs_len } else { rhs_len };
            let ghost before = rows@;
            let ghost z = zip_runs(e, lhs_start as int, rhs_start as int, i as int);
            let mut j: usize = 0;
            while j < max_len
                invariant
                    j <= max_len,
                    z.len() == max_len,
                    lhs_start <= rhs_start <= i <= e.len(),
                    lhs_len == rhs_start - lhs_start,
                    rhs_len == i - rhs_start,
                    e == entries@,
                    z == zip_runs(e, lhs_start as int, rhs_start as int, i as int),
                    rows_view(rows@) == rows_view(before) + z.take(j as int),
                decreases max_len - j,
            {
                let l = if j < lhs_len { entries[lhs_start + j].lhs.as_ref() } else { None };
                let r = if j < rhs_len { entries[rhs_start + j].rhs.as_ref() } else { None };
                let ghost old_rows = rows@;
                rows.push(DiffRow { lhs: l, rhs: r });
                proof {
                    assert(z.take(j + 1) == z.take(j as int).push(z[j as int]));
                    assert(row_view(DiffRow { lhs: l, rhs: r }) == z[j as int]);
                    assert(rows_view(rows@) =~= rows_view(old_rows).push(z[j as int]));
                }
                j = j + 1;
            }
            proof {
                assert(z.take(max_len as int) == z);
                assert(i > lhs_start);
            }
        } else if has_rhs {
            let ghost before = rows@;
            rows.push(DiffRow { lhs: None, rhs: entry.rhs.as_ref() });
            assert(rows_view(rows@) == rows_view(before).push((None, e[i as int].rhs)));
            assert(rows_view(rows@) + consolidate(e, i + 1) == rows_view(before) + consolidate(e, i as int));
            i = i + 1;
        } else {
            i = i + 1;
        }
    }
    rows
}


/// The characters of each string.
pub open spec fn strs_view(v: Seq<&str>) -> Seq<Seq<char>> {
    v.map_values(|s: &str| s@)
}

/// Length of a longest common subsequence of `a[..i]` and `b[..j]`.
pub open spec fn lcs_len(a: Seq<Seq<char>>, b: Seq<Seq<char>>, i: int, j: int) -> nat
    decreases i, j,
{
    if i <= 0 || j <= 0 {
        0
    } else if a[i - 1] == b[j - 1] {
        lcs_len(a, b, i - 1, j - 1) + 1
    } else {
        let up = lcs_len(a, b, i - 1, j);
        let left = lcs_len(a, b, i, j - 1);
        if up >= left { up } else { left }
    }
}

/// The matched index pairs found by walking the LCS table back from `(i, j)`:
/// equal items are matched, otherwise the walk moves up when that keeps at
/// least as long a subsequence, else left. Pairs are in increasing order.
pub open spec fn lcs_trace(a: Seq<Seq<char>>, b: Seq<Seq<char>>, i: int, j: int) -> Seq<(usize, usize)>
    decreases i, j,
{
    if i <= 0 || j <= 0 {
        Seq::empty()
    } else if a[i - 1] == b[j - 1] {
        lcs_trace(a, b, i - 1, j - 1).push(((i - 1) as usize, (j - 1) as usize))
    } else if lcs_len(a, b, i - 1, j) >= lcs_len(a, b, i, j - 1) {
        lcs_trace(a, b, i - 1, j)
    } else {
        lcs_trace(a, b, i, j - 1)
    }
}

/// `pairs` matches equal items of `a` and `b` at strictly increasing indices on both sides.
pub open spec fn is_common_subsequence(a: Seq<Seq<char>>, b: Seq<Seq<char>>, pairs: Seq<(usize, usize)>) -> bool {
    &&& forall|k: int| 0 <= k < pairs.len() ==> {
        &&& (#[trigger] pairs[k]).0 < a.len()
        &&& pairs[k].1 < b.len()
        &&& a[pairs[k].0 as int] == b[pairs[k].1 as int]
    }
    &&& forall|k: int, l: int| 0 <= k < l < pairs.len() ==> (#[trigger] pairs[k]).0 < (#[trigger] pairs[l]).0 && pairs[k].1 < pairs[l].1
}

proof fn lemma_lcs_len_bound(a: Seq<Seq<char>>, b: Seq<Seq<char>>, i: int, j: int)
    requires
        0 <= i,
        0 <= j,
    ensures
        lcs_len(a, b, i, j) <= i,
        lcs_len(a, b, i, j) <= j,
    decreases i, j,
{
    if i > 0 && j > 0 {
        lemma_lcs_len_bound(a, b, i - 1, j - 1);
        lemma_lcs_len_bound(a, b, i - 1, j);
        lemma_lcs_len_bound(a, b, i, j - 1);
    }
}

/// The trace is a common subsequence within `a[..i]`, `b[..j]` whose length is `lcs_len`.
pub proof fn lemma_lcs_trace(a: Seq<Seq<char>>, b: Seq<Seq<char>>, i: int, j: int)
    requires
        0 <= i <= a.len(),
        0 <= j <= b.len(),
        i <= usize::MAX,
        j <= usize::MAX,
    ensures
        is_common_subsequence(a, b, lcs_trace(a, b, i, j)),
        lcs_trace(a, b, i, j).len() == lcs_len(a, b, i, j),
        forall|k: int| 0 <= k < lcs_trace(a, b, i, j).len() ==>
            (#[trigger] lcs_trace(a, b, i, j)[k]).0 < i && lcs_trace(a, b, i, j)[k].1 < j,
    decreases i, j,
{
    if i > 0 && j > 0 {
        if a[i - 1] == b[j - 1] {
            lemma_lcs_trace(a, b, i - 1, j - 1);
        } else if lcs_len(a, b, i - 1, j) >= lcs_len(a, b, i, j - 1) {
            lemma_lcs_trace(a, b, i - 1, j);
        } else {
            lemma_lcs_trace(a, b, i, j - 1);
        }
    }
}

/// Each step of the LCS table adds at most one.
proof fn lemma_lcs_step(a: Seq<Seq<char>>, b: Seq<Seq<char>>, i: int, j: int)
    requires
        0 <= i,
        0 <= j,
    ensures
        i > 0 ==> lcs_len(a, b, i - 1, j) <= lcs_len(a, b, i, j) <= lcs_len(a, b, i - 1, j) + 1,
        j > 0 ==> lcs_len(a, b, i, j - 1) <= lcs_len(a, b, i, j) <= lcs_len(a, b, i, j - 1) + 1,
    decreases i + j,
{
    if i > 0 && j > 0 {
        lemma_lcs_step(a, b, i - 1, j);
        lemma_lcs_step(a, b, i, j - 1);
    } else if i > 0 {
        assert(lcs_len(a, b, i - 1, j) == 0);
    } else if j > 0 {
        assert(lcs_len(a, b, i, j - 1) == 0);
    }
}

/// No common subsequence of `a[..i]` and `b[..j]` is longer than `lcs_len`:
/// the LCS is maximal.
pub proof fn lemma_lcs_maximal(a: Seq<Seq<char>>, b: Seq<Seq<char>>, pairs: Seq<(usize, usize)>, i: int, j: int)
    requires
        0 <= i <= a.len(),
        0 <= j <= b.len(),
        is_common_subsequence(a, b, pairs),
        forall|k: int| 0 <= k < pairs.len() ==> (#[trigger] pairs[k]).0 < i && pairs[k].1 < j,
    ensures
        pairs.len() <= lcs_len(a, b, i, j),
    decreases i + j,
{
    if pairs.len() > 0 {
        let n = pairs.len() as int;
        let last = pairs[n - 1];
        let p = last.0 as int;
        let q = last.1 as int;
        assert forall|k: int| 0 <= k < n - 1 implies (#[trigger] pairs[k]).0 < p && pairs[k].1 < q by {
            assert(pairs[k].0 < pairs[n - 1].0 && pairs[k].1 < pairs[n - 1].1);
        }
        lemma_lcs_step(a, b, i, j);
        if p < i - 1 {
            assert forall|k: int| 0 <= k < pairs.len() implies (#[trigger] pairs[k]).0 < i - 1 && pairs[k].1 < j by {
                if k < n - 1 { assert(pairs[k].0 < p); }
            }
            lemma_lcs_maximal(a, b, pairs, i - 1, j);
        } else if q < j - 1 {
            assert forall|k: int| 0 <= k < pairs.len() implies (#[trigger] pairs[k]).0 < i && pairs[k].1 < j - 1 by {
                if k < n - 1 { assert(pairs[k].1 < q); }
            }
            lemma_lcs_maximal(a, b, pairs, i, j - 1);
        } else {
            assert(a[p] == b[q]);
            let d = pairs.drop_last();
            assert forall|k: int| 0 <= k < d.len() implies (#[trigger] d[k]).0 < i - 1 && d[k].1 < j - 1 by {
                assert(d[k] == pairs[k]);
            }
            assert forall|k: int| 0 <= k < d.len() implies {
                &&& (#[trigger] d[k]).0 < a.len()
                &&& d[k].1 < b.len()
                &&& a[d[k].0 as int] == b[d[k].1 as int]
            } by {
                assert(d[k] == pairs[k]);
            }
            assert forall|k: int, l: int| 0 <= k < l < d.len() implies (#[trigger] d[k]).0 < (#[trigger] d[l]).0 && d[k].1 < d[l].1 by {
                assert(d[k] == pairs[k] && d[l] == pairs[l]);
            }
            lemma_lcs_maximal(a, b, d, i - 1, j - 1);
        }
    }
}

/// Compute the Longest Common Subsequence of two string slices.
/// Returns pairs of (old_idx, new_idx) that form the LCS, in increasing order.
pub fn longest_common_subsequence(old: &[&str], new: &[&str]) -> (res: Vec<(usize, usize)>)
    requires
        old@.len() < u32::MAX,
        new@.len() < usize::MAX,
    ensures
        res@ == lcs_trace(strs_view(old@), strs_view(new@), old@.len() as int, new@.len() as int),
        is_common_subsequence(strs_view(old@), strs_view(new@), res@),
        res@.len() == lcs_len(strs_view(old@), strs_view(new@), old@.len() as int, new@.len() as int),
{
    let ghost a = strs_view(old@);
    let ghost b = strs_view(new@);
    let m = old.len();
    let n = new.len();
    // dp[i][j] = LCS length for old[..i] vs new[..j]
    let mut dp: Vec<Vec<u32>> = Vec::new();
    let mut row0: Vec<u32> = Vec::new();
    let mut j: usize = 0;
    while j <= n
        invariant
            j <= n + 1,
            n == new@.len(),
            n < usize::MAX,
            row0@.len() == j,
            forall|q: int| 0 <= q < j ==> row0@[q] == 0,
        decreases n + 1 - j,
    {
        row0.push(0);
        j = j + 1;
    }
    dp.push(row0);
    let mut i: usize = 1;
    while i <= m
        invariant
            1 <= i <= m + 1,
            m == old@.len(),
            n == new@.len(),
            n < usize::MAX,
            m < u32::MAX,
            a == strs_view(old@),
            b == strs_view(new@),
            dp@.len() == i,
            forall|p: int, q: int| 0 <= p < i && 0 <= q <= n ==> (#[trigger] dp@[p]@[q]) == lcs_len(a, b, p, q),
            forall|p: int| 0 <= p < i ==> (#[trigger] dp@[p])@.len() == n + 1,
        decreases m + 1 - i,
    {
        let mut row: Vec<u32> = Vec::new();
        row.push(0);
        let mut j: usize = 1;
        while j <= n
            invariant
                1 <= i <= m,
                1 <= j <= n + 1,
                m == old@.len(),
                n == new@.len(),
                n < usize::MAX,
                m < u32::MAX,
                a == strs_view(old@),
                b == strs_view(new@),
                dp@.len() == i,
                forall|p: int, q: int| 0 <= p < i && 0 <= q <= n ==> (#[trigger] dp@[p]@[q]) == lcs_len(a, b, p, q),
                forall|p: int| 0 <= p < i ==> (#[trigger] dp@[p])@.len() == n + 1,
                row@.len() == j,
                forall|q: int| 0 <= q < j ==> (#[trigger] row@[q]) == lcs_len(a, b, i as int, q),
            decreases n + 1 - j,
        {
            proof {
                lemma_lcs_len_bound(a, b, i - 1, j - 1);
                assert(a[i - 1] == old@[i - 1]@);
                assert(b[j - 1] == new@[j - 1]@);
            }
            let v = if str_eq(old[i - 1], new[j - 1]) {
                dp[i - 1][j - 1] + 1
            } else {
                let up = dp[i - 1][j];
                let left = row[j - 1];
                if up >= left { up } else { left }
            };
            row.push(v);
            j = j + 1;
        }
        dp.push(row);
        i = i + 1;
    }

    // Backtrack to find matched pairs (collected from the end).
    let mut rev: Vec<(usize, usize)> = Vec::new();
    let mut i = m;
    let mut j = n;
    while i > 0 && j > 0
        invariant
            i <= m,
            j <= n,
            m == old@.len(),
            n == new@.len(),
            a == strs_view(old@),
            b == strs_view(new@),
            dp@.len() == m + 1,
            forall|p: int, q: int| 0 <= p <= m && 0 <= q <= n ==> (#[trigger] dp@[p]@[q]) == lcs_len(a, b, p, q),
            forall|p: int| 0 <= p <= m ==> (#[trigger] dp@[p])@.len() == n + 1,
            lcs_trace(a, b, m as int, n as int) == lcs_trace(a, b, i as int, j as int) + rev@.reverse(),
        decreases i + j,
    {
        proof {
            assert(a[i - 1] == old@[i - 1]@);
            assert(b[j - 1] == new@[j - 1]@);
        }
        if str_eq(old[i - 1], new[j - 1]) {
            let ghost before = rev@;
            rev.push((i - 1, j - 1));
            proof {
                assert(rev@.reverse() =~= seq![((i - 1) as usize, (j - 1) as usize)] + before.reverse());
                assert(lcs_trace(a, b, i as int, j as int) == lcs_trace(a, b, i - 1, j - 1).push(((i - 1) as usize, (j - 1) as usize)));
                assert(lcs_trace(a, b, i as int, j as int) + before.reverse()
                    =~= lcs_trace(a, b, i - 1, j - 1) + rev@.reverse());
            }
            i = i - 1;
            j = j - 1;
        } else if dp[i - 1][j] >= dp[i][j - 1] {
            i = i - 1;
        } else {
            j = j - 1;
        }
    }
    let mut res: Vec<(usize, usize)> = Vec::new();
    let mut k = rev.len();
    while k > 0
        invariant
            k <= rev@.len(),
            res@ == rev@.reverse().take(rev@.len() - k),
        decreases k,
    {
        k = k - 1;
        res.push(rev[k]);
        proof {
            assert(rev@.reverse().take(rev@.len() - k) =~= rev@.reverse().take(rev@.len() - k - 1).push(rev@[k as int]));
        }
    }
    proof {
        assert(rev@.reverse().take(rev@.len() as int) == rev@.reverse());
        assert(lcs_trace(a, b, i as int, j as int) == Seq::<(usize, usize)>::empty());
        assert(res@ =~= lcs_trace(a, b, m as int, n as int));
        lemma_lcs_trace(a, b, m as int, n as int);
    }
    res
}


/// The sides of a row, as values.
pub type RowV = (Option<LineSide>, Option<LineSide>);

/// The text of 0-based line `ln` of `lines`, or the empty text when out of range.
pub open spec fn line_text(lines: Seq<String>, ln: u64) -> Seq<char> {
    if (ln as usize) < lines.len() {
        lines[(ln as usize) as int]@
    } else {
        Seq::empty()
    }
}

/// A paired row whose old and new line texts are identical.
pub open spec fn is_ctx_row(r: RowV, old: Seq<String>, new: Seq<String>) -> bool {
    &&& r.0 is Some
    &&& r.1 is Some
    &&& line_text(old, r.0->0.line_number) == line_text(new, r.1->0.line_number)
}

/// End of the run of non-context rows starting at `i`.
pub open spec fn change_run_end(rs: Seq<RowV>, i: int, old: Seq<String>, new: Seq<String>) -> int
    decreases rs.len() - i,
{
    if i >= rs.len() || is_ctx_row(rs[i], old, new) {
        i
    } else {
        change_run_end(rs, i + 1, old, new)
    }
}

/// The old sides present in `run`, in order.
pub open spec fn run_lhs(run: Seq<RowV>) -> Seq<LineSide>
    decreases run.len(),
{
    if run.len() == 0 {
        Seq::empty()
    } else {
        match run.last().0 {
            Some(s) => run_lhs(run.drop_last()).push(s),
            None => run_lhs(run.drop_last()),
        }
    }
}

/// The new sides present in `run`, in order.
pub open spec fn run_rhs(run: Seq<RowV>) -> Seq<LineSide>
    decreases run.len(),
{
    if run.len() == 0 {
        Seq::empty()
    } else {
        match run.last().1 {
            Some(s) => run_rhs(run.drop_last()).push(s),
            None => run_rhs(run.drop_last()),
        }
    }
}

/// Whether old index `k` is matched by some pair of `l`.
pub open spec fn old_matched(l: Seq<(usize, usize)>, k: int) -> bool {
    exists|q: int| 0 <= q < l.len() && (#[trigger] l[q]).0 == k
}

/// Whether new index `k` is matched by some pair of `l`.
pub open spec fn new_matched(l: Seq<(usize, usize)>, k: int) -> bool {
    exists|q: int| 0 <= q < l.len() && (#[trigger] l[q]).1 == k
}

/// The unmatched old sides among the first `k`, as removal rows in old order.
pub open spec fn unmatched_old_rows(os: Seq<LineSide>, l: Seq<(usize, usize)>, k: int) -> Seq<RowV>
    decreases k,
{
    if k <= 0 {
        Seq::empty()
    } else if old_matched(l, k - 1) {
        unmatched_old_rows(os, l, k - 1)
    } else {
        unmatched_old_rows(os, l, k - 1).push((Some(os[k - 1]), None))
    }
}

/// Each new side in order: beside its matched old side, or as an addition.
pub open spec fn new_rows(os: Seq<LineSide>, ns: Seq<LineSide>, l: Seq<(usize, usize)>) -> Seq<RowV> {
    Seq::new(ns.len(), |ni: int|
        if new_matched(l, ni) {
            (Some(os[l[choose|q: int| 0 <= q < l.len() && (#[trigger] l[q]).1 == ni].0 as int]), Some(ns[ni]))
        } else {
            (None, Some(ns[ni]))
        }
    )
}

/// Texts of the given sides.
pub open spec fn side_texts(ss: Seq<LineSide>, lines: Seq<String>) -> Seq<Seq<char>> {
    ss.map_values(|s: LineSide| line_text(lines, s.line_number))
}

/// A run of changed rows, re-paired when at least half of the smaller side's
/// lines reappear (in LCS order) on the other side: unmatched old lines become
/// removals, then new lines follow in order, matched ones beside their old line.
pub open spec fn repair_run(run: Seq<RowV>, old: Seq<String>, new: Seq<String>) -> Seq<RowV> {
    let os = run_lhs(run);
    let ns = run_rhs(run);
    if os.len() < 2 || ns.len() < 2 || os.len() > 200 || ns.len() > 200 {
        run
    } else {
        let l = lcs_trace(side_texts(os, old), side_texts(ns, new), os.len() as int, ns.len() as int);
        let min_side = if os.len() <= ns.len() { os.len() } else { ns.len() };
        if l.len() * 2 < min_side {
            run
        } else {
            unmatched_old_rows(os, l, os.len() as int) + new_rows(os, ns, l)
        }
    }
}

/// Rows `rs[i..]` with context rows kept and each maximal run of changed rows re-paired.
pub open spec fn fix_rows(rs: Seq<RowV>, i: int, old: Seq<String>, new: Seq<String>) -> Seq<RowV>
    decreases rs.len() - i, 0int,
{
    if i < 0 || i >= rs.len() {
        Seq::empty()
    } else if is_ctx_row(rs[i], old, new) {
        seq![rs[i]] + fix_rows(rs, i + 1, old, new)
    } else {
        let j = change_run_end(rs, i, old, new);
        if i < j <= rs.len() {
            repair_run(rs.subrange(i, j), old, new) + fix_rows(rs, j, old, new)
        } else {
            Seq::empty()
        }
    }
}

proof fn lemma_change_run_end(rs: Seq<RowV>, i: int, old: Seq<String>, new: Seq<String>)
    requires
        0 <= i <= rs.len(),
    ensures
        i <= change_run_end(rs, i, old, new) <= rs.len(),
        forall|m: int| i <= m < change_run_end(rs, i, old, new) ==> !is_ctx_row(#[trigger] rs[m], old, new),
        change_run_end(rs, i, old, new) < rs.len() ==> is_ctx_row(rs[change_run_end(rs, i, old, new)], old, new),
    decreases rs.len() - i,
{
    if i < rs.len() {
        lemma_change_run_end(rs, i + 1, old, new);
    }
}

/// Every line number on either side of the entries is below `b`.
pub open spec fn entries_below(e: Seq<LineEntry>, b: int) -> bool {
    forall|j: int| 0 <= j < e.len() ==> {
        &&& ((#[trigger] e[j]).lhs matches Some(s) ==> s.line_number < b)
        &&& (e[j].rhs matches Some(s) ==> s.line_number < b)
    }
}

/// Every line number on either side of the rows is below `b`.
pub open spec fn rows_below(rs: Seq<RowV>, b: int) -> bool {
    forall|j: int| 0 <= j < rs.len() ==> {
        &&& ((#[trigger] rs[j]).0 matches Some(s) ==> s.line_number < b)
        &&& (rs[j].1 matches Some(s) ==> s.line_number < b)
    }
}

proof fn lemma_rows_below_concat(a: Seq<RowV>, c: Seq<RowV>, b: int)
    requires
        rows_below(a, b),
        rows_below(c, b),
    ensures
        rows_below(a + c, b),
{
    assert forall|j: int| 0 <= j < (a + c).len() implies {
        &&& ((#[trigger] (a + c)[j]).0 matches Some(s) ==> s.line_number < b)
        &&& ((a + c)[j].1 matches Some(s) ==> s.line_number < b)
    } by {
        if j < a.len() {
            assert((a + c)[j] == a[j]);
        } else {
            assert((a + c)[j] == c[j - a.len()]);
        }
    }
}

/// The (old, new) sides of each entry, in order.
pub open spec fn entry_sides(e: Seq<LineEntry>) -> Seq<RowV> {
    e.map_values(|x: LineEntry| (x.lhs, x.rhs))
}

proof fn lemma_sides_concat(a: Seq<RowV>, b: Seq<RowV>)
    ensures
        run_lhs(a + b) == run_lhs(a) + run_lhs(b),
        run_rhs(a + b) == run_rhs(a) + run_rhs(b),
    decreases b.len(),
{
    if b.len() == 0 {
        assert(a + b =~= a);
        assert(run_lhs(a) + run_lhs(b) =~= run_lhs(a));
        assert(run_rhs(a) + run_rhs(b) =~= run_rhs(a));
    } else {
        assert((a + b).drop_last() =~= a + b.drop_last());
        assert((a + b).last() == b.last());
        lemma_sides_concat(a, b.drop_last());
        match b.last().0 {
            Some(x) => { assert(run_lhs(a) + run_lhs(b.drop_last()).push(x) =~= (run_lhs(a) + run_lhs(b.drop_last())).push(x)); },
            None => {},
        }
        match b.last().1 {
            Some(x) => { assert(run_rhs(a) + run_rhs(b.drop_last()).push(x) =~= (run_rhs(a) + run_rhs(b.drop_last())).push(x)); },
            None => {},
        }
    }
}

proof fn lemma_lhs_all(s: Seq<RowV>)
    ensures
        (forall|m: int| 0 <= m < s.len() ==> (#[trigger] s[m]).0 is None) ==> run_lhs(s) == Seq::<LineSide>::empty(),
        (forall|m: int| 0 <= m < s.len() ==> (#[trigger] s[m]).0 is Some)
            ==> run_lhs(s) == Seq::new(s.len(), |m: int| s[m].0->0),
    decreases s.len(),
{
    if s.len() > 0 {
        lemma_lhs_all(s.drop_last());
        if forall|m: int| 0 <= m < s.len() ==> (#[trigger] s[m]).0 is None {
            assert(s.drop_last()[0].0 is None ==> true);
            assert forall|m: int| 0 <= m < s.drop_last().len() implies (#[trigger] s.drop_last()[m]).0 is None by {
                assert(s.drop_last()[m] == s[m]);
            }
            assert(s.last() == s[s.len() - 1]);
        }
        if forall|m: int| 0 <= m < s.len() ==> (#[trigger] s[m]).0 is Some {
            assert forall|m: int| 0 <= m < s.drop_last().len() implies (#[trigger] s.drop_last()[m]).0 is Some by {
                assert(s.drop_last()[m] == s[m]);
            }
            assert(s.last() == s[s.len() - 1]);
            assert(run_lhs(s) =~= Seq::new(s.len(), |m: int| s[m].0->0));
        }
    } else {
        assert(Seq::new(s.len(), |m: int| s[m].0->0) =~= Seq::<LineSide>::empty());
    }
}

proof fn lemma_rhs_all(s: Seq<RowV>)
    ensures
        (forall|m: int| 0 <= m < s.len() ==> (#[trigger] s[m]).1 is None) ==> run_rhs(s) == Seq::<LineSide>::empty(),
        (forall|m: int| 0 <= m < s.len() ==> (#[trigger] s[m]).1 is Some)
            ==> run_rhs(s) == Seq::new(s.len(), |m: int| s[m].1->0),
    decreases s.len(),
{
    if s.len() > 0 {
        lemma_rhs_all(s.drop_last());
        if forall|m: int| 0 <= m < s.len() ==> (#[trigger] s[m]).1 is None {
            assert forall|m: int| 0 <= m < s.drop_last().len() implies (#[trigger] s.drop_last()[m]).1 is None by {
                assert(s.drop_last()[m] == s[m]);
            }
            assert(s.last() == s[s.len() - 1]);
        }
        if forall|m: int| 0 <= m < s.len() ==> (#[trigger] s[m]).1 is Some {
            assert forall|m: int| 0 <= m < s.drop_last().len() implies (#[trigger] s.drop_last()[m]).1 is Some by {
                assert(s.drop_last()[m] == s[m]);
            }
            assert(s.last() == s[s.len() - 1]);
            assert(run_rhs(s) =~= Seq::new(s.len(), |m: int| s[m].1->0));
        }
    } else {
        assert(Seq::new(s.len(), |m: int| s[m].1->0) =~= Seq::<LineSide>::empty());
    }
}

proof fn lemma_sides_one(x: RowV)
    ensures
        run_lhs(seq![x]) == (match x.0 { Some(l) => seq![l], None => Seq::<LineSide>::empty() }),
        run_rhs(seq![x]) == (match x.1 { Some(r) => seq![r], None => Seq::<LineSide>::empty() }),
{
    let one = seq![x];
    assert(one.drop_last() =~= Seq::<RowV>::empty());
    assert(one.last() == x);
    assert(run_lhs(Seq::<RowV>::empty()) == Seq::<LineSide>::empty());
    assert(run_rhs(Seq::<RowV>::empty()) == Seq::<LineSide>::empty());
    assert(run_lhs(one) == match x.0 { Some(l) => run_lhs(one.drop_last()).push(l), None => run_lhs(one.drop_last()) });
    assert(run_rhs(one) == match x.1 { Some(r) => run_rhs(one.drop_last()).push(r), None => run_rhs(one.drop_last()) });
    assert(Seq::<LineSide>::empty().push(x.0->0) =~= seq![x.0->0]);
    assert(Seq::<LineSide>::empty().push(x.1->0) =~= seq![x.1->0]);
}

#[verifier::spinoff_prover]
proof fn lemma_zip_sides(e: Seq<LineEntry>, i: int, j: int, k: int)
    requires
        0 <= i <= j <= k <= e.len(),
        forall|m: int| i <= m < j ==> lhs_only(#[trigger] e[m]),
        forall|m: int| j <= m < k ==> rhs_only(#[trigger] e[m]),
    ensures
        run_lhs(zip_runs(e, i, j, k)) == run_lhs(entry_sides(e).subrange(i, k)),
        run_rhs(zip_runs(e, i, j, k)) == run_rhs(entry_sides(e).subrange(i, k)),
{
    let ps = entry_sides(e);
    let z = zip_runs(e, i, j, k);
    let pa = ps.subrange(i, j);
    let pb = ps.subrange(j, k);
    assert(ps.subrange(i, k) =~= pa + pb);
    lemma_sides_concat(pa, pb);
    assert forall|m: int| 0 <= m < pa.len() implies (#[trigger] pa[m]).0 is Some && pa[m].1 is None by {
        assert(pa[m] == ps[i + m]);
        assert(lhs_only(e[i + m]));
    }
    assert forall|m: int| 0 <= m < pb.len() implies (#[trigger] pb[m]).0 is None && pb[m].1 is Some by {
        assert(pb[m] == ps[j + m]);
        assert(rhs_only(e[j + m]));
    }
    lemma_lhs_all(pa);
    lemma_rhs_all(pa);
    lemma_lhs_all(pb);
    lemma_rhs_all(pb);
    let za = z.take(j - i);
    let zb = z.skip(j - i);
    assert(z =~= za + zb);
    lemma_sides_concat(za, zb);
    assert forall|m: int| 0 <= m < za.len() implies (#[trigger] za[m]).0 is Some by {
        assert(za[m] == z[m]);
        assert(lhs_only(e[i + m]));
    }
    assert forall|m: int| 0 <= m < zb.len() implies (#[trigger] zb[m]).0 is None by {
        assert(zb[m] == z[j - i + m]);
    }
    lemma_lhs_all(za);
    lemma_lhs_all(zb);
    assert forall|m: int| 0 <= m < za.len() implies za[m].0->0 == pa[m].0->0 by {
        assert(za[m] == z[m]);
        assert(pa[m] == ps[i + m]);
    }
    assert(Seq::new(za.len(), |m: int| za[m].0->0) =~= Seq::new(pa.len(), |m: int| pa[m].0->0));
    assert(run_lhs(pa) + run_lhs(pb) =~= run_lhs(pa));
    assert(run_lhs(za) + run_lhs(zb) =~= run_lhs(za));
    let zc = z.take(k - j);
    let zd = z.skip(k - j);
    assert(z =~= zc + zd);
    lemma_sides_concat(zc, zd);
    assert forall|m: int| 0 <= m < zc.len() implies (#[trigger] zc[m]).1 is Some by {
        assert(zc[m] == z[m]);
        assert(rhs_only(e[j + m]));
    }
    assert forall|m: int| 0 <= m < zd.len() implies (#[trigger] zd[m]).1 is None by {
        assert(zd[m] == z[k - j + m]);
    }
    lemma_rhs_all(zc);
    lemma_rhs_all(zd);
    assert forall|m: int| 0 <= m < zc.len() implies zc[m].1->0 == pb[m].1->0 by {
        assert(zc[m] == z[m]);
        assert(pb[m] == ps[j + m]);
    }
    assert(Seq::new(zc.len(), |m: int| zc[m].1->0) =~= Seq::new(pb.len(), |m: int| pb[m].1->0));
    assert(run_rhs(pa) + run_rhs(pb) =~= run_rhs(pb));
    assert(run_rhs(zc) + run_rhs(zd) =~= run_rhs(zc));
}

/// Consolidation yields no empty row: every row has an old or a new side; a
/// paired entry gives exactly one row holding its two sides, a lone added
/// entry one row of its own, and an entry with no side none.
pub proof fn lemma_consolidate_rows(e: Seq<LineEntry>, i: int)
    requires
        0 <= i <= e.len(),
    ensures
        forall|m: int| 0 <= m < consolidate(e, i).len() ==>
            (#[trigger] consolidate(e, i)[m]).0 is Some || consolidate(e, i)[m].1 is Some,
        i < e.len() && e[i].lhs is Some && e[i].rhs is Some ==> consolidate(e, i) == seq![(e[i].lhs, e[i].rhs)] + consolidate(e, i + 1),
        i < e.len() && e[i].lhs is None && e[i].rhs is Some ==> consolidate(e, i) == seq![(e[i].lhs, e[i].rhs)] + consolidate(e, i + 1),
        i < e.len() && e[i].lhs is None && e[i].rhs is None ==> consolidate(e, i) == consolidate(e, i + 1),
    decreases e.len() - i,
{
    if i < e.len() {
        if e[i].lhs is Some && e[i].rhs is Some || e[i].lhs is None {
            lemma_consolidate_rows(e, i + 1);
            let rest = consolidate(e, i + 1);
            let x = (e[i].lhs, e[i].rhs);
            if e[i].lhs is Some || e[i].rhs is Some {
                assert forall|m: int| 0 <= m < (seq![x] + rest).len() implies
                    (#[trigger] (seq![x] + rest)[m]).0 is Some || (seq![x] + rest)[m].1 is Some by {
                    if m > 0 { assert((seq![x] + rest)[m] == rest[m - 1]); }
                }
            }
        } else {
            lemma_run_ends(e, i);
            let j = lhs_run_end(e, i);
            lemma_run_ends(e, j);
            let k = rhs_run_end(e, j);
            assert(lhs_only(e[i]));
            lemma_consolidate_rows(e, k);
            let z = zip_runs(e, i, j, k);
            let rest = consolidate(e, k);
            assert forall|m: int| 0 <= m < (z + rest).len() implies
                (#[trigger] (z + rest)[m]).0 is Some || (z + rest)[m].1 is Some by {
                if m < z.len() {
                    assert((z + rest)[m] == z[m]);
                    if m < j - i {
                        assert(lhs_only(e[i + m]));
                    } else {
                        assert(rhs_only(e[j + m]));
                    }
                } else {
                    assert((z + rest)[m] == rest[m - z.len()]);
                }
            }
        }
    }
}

/// Consolidation keeps each side's lines in entry order: the old sides of the
/// rows, read top to bottom, are the old sides of the entries in order, and
/// likewise for the new sides.
pub proof fn lemma_consolidate_sides(e: Seq<LineEntry>, i: int)
    requires
        0 <= i <= e.len(),
    ensures
        run_lhs(consolidate(e, i)) == run_lhs(entry_sides(e).skip(i)),
        run_rhs(consolidate(e, i)) == run_rhs(entry_sides(e).skip(i)),
    decreases e.len() - i,
{
    let ps = entry_sides(e);
    if i == e.len() {
        assert(ps.skip(i) =~= Seq::<RowV>::empty());
    } else {
        assert(ps[i] == (e[i].lhs, e[i].rhs));
        if e[i].lhs is Some && e[i].rhs is Some || e[i].lhs is None {
            lemma_consolidate_sides(e, i + 1);
            assert(ps.skip(i) =~= seq![ps[i]] + ps.skip(i + 1));
            lemma_sides_concat(seq![ps[i]], ps.skip(i + 1));
            lemma_sides_one(ps[i]);
            if e[i].lhs is Some || e[i].rhs is Some {
                assert(consolidate(e, i) == seq![ps[i]] + consolidate(e, i + 1));
                lemma_sides_concat(seq![ps[i]], consolidate(e, i + 1));
            } else {
                assert(run_lhs(ps.skip(i)) =~= run_lhs(ps.skip(i + 1)));
                assert(run_rhs(ps.skip(i)) =~= run_rhs(ps.skip(i + 1)));
            }
        } else {
            lemma_run_ends(e, i);
            let j = lhs_run_end(e, i);
            lemma_run_ends(e, j);
            let k = rhs_run_end(e, j);
            lemma_consolidate_sides(e, k);
            lemma_zip_sides(e, i, j, k);
            lemma_sides_concat(zip_runs(e, i, j, k), consolidate(e, k));
            assert(ps.skip(i) =~= ps.subrange(i, k) + ps.skip(k));
            lemma_sides_concat(ps.subrange(i, k), ps.skip(k));
        }
    }
}

/// Consolidation yields at most one row per entry, and only the entries' sides.
pub proof fn lemma_consolidate_bounded(e: Seq<LineEntry>, i: int, b: int)
    requires
        0 <= i <= e.len(),
        entries_below(e, b),
    ensures
        consolidate(e, i).len() <= e.len() - i,
        rows_below(consolidate(e, i), b),
    decreases e.len() - i, 0int,
{
    if i < e.len() {
        lemma_run_ends(e, i);
        if e[i].lhs is Some && e[i].rhs is Some {
            lemma_consolidate_bounded(e, i + 1, b);
            lemma_rows_below_concat(seq![(e[i].lhs, e[i].rhs)], consolidate(e, i + 1), b);
        } else if e[i].lhs is Some {
            let j = lhs_run_end(e, i);
            let k = rhs_run_end(e, j);
            lemma_run_ends(e, j);
            if i < k <= e.len() {
                lemma_consolidate_bounded(e, k, b);
                let z = zip_runs(e, i, j, k);
                assert forall|m: int| 0 <= m < z.len() implies {
                    &&& ((#[trigger] z[m]).0 matches Some(s) ==> s.line_number < b)
                    &&& (z[m].1 matches Some(s) ==> s.line_number < b)
                } by {
                    if m < j - i { assert(e[i + m] == e[i + m]); }
                    if m < k - j { assert(e[j + m] == e[j + m]); }
                }
                lemma_rows_below_concat(z, consolidate(e, k), b);
            }
        } else if e[i].rhs is Some {
            lemma_consolidate_bounded(e, i + 1, b);
            lemma_rows_below_concat(seq![(None, e[i].rhs)], consolidate(e, i + 1), b);
        } else {
            lemma_consolidate_bounded(e, i + 1, b);
        }
    }
}

proof fn lemma_run_sides_bounded(run: Seq<RowV>, b: int)
    requires
        rows_below(run, b),
    ensures
        run_lhs(run).len() <= run.len(),
        run_rhs(run).len() <= run.len(),
        forall|q: int| 0 <= q < run_lhs(run).len() ==> (#[trigger] run_lhs(run)[q]).line_number < b,
        forall|q: int| 0 <= q < run_rhs(run).len() ==> (#[trigger] run_rhs(run)[q]).line_number < b,
    decreases run.len(),
{
    if run.len() > 0 {
        let d = run.drop_last();
        assert forall|j: int| 0 <= j < d.len() implies {
            &&& ((#[trigger] d[j]).0 matches Some(s) ==> s.line_number < b)
            &&& (d[j].1 matches Some(s) ==> s.line_number < b)
        } by {
            assert(d[j] == run[j]);
        }
        lemma_run_sides_bounded(d, b);
        assert(run.last() == run[run.len() - 1]);
    }
}

proof fn lemma_unmatched_bounded(os: Seq<LineSide>, l: Seq<(usize, usize)>, k: int, b: int)
    requires
        0 <= k <= os.len(),
        forall|q: int| 0 <= q < os.len() ==> (#[trigger] os[q]).line_number < b,
    ensures
        unmatched_old_rows(os, l, k).len() <= k,
        rows_below(unmatched_old_rows(os, l, k), b),
    decreases k,
{
    if k > 0 {
        lemma_unmatched_bounded(os, l, k - 1, b);
        if !old_matched(l, k - 1) {
            lemma_rows_below_concat(unmatched_old_rows(os, l, k - 1), seq![(Some(os[k - 1]), None::<LineSide>)], b);
            assert(unmatched_old_rows(os, l, k - 1).push((Some(os[k - 1]), None)) == unmatched_old_rows(os, l, k - 1) + seq![(Some(os[k - 1]), None::<LineSide>)]);
        }
    }
}

/// Re-pairing a run keeps its line numbers and at most doubles its length.
proof fn lemma_repair_run_bounded(run: Seq<RowV>, old: Seq<String>, new: Seq<String>, b: int)
    requires
        rows_below(run, b),
    ensures
        repair_run(run, old, new).len() <= 2 * run.len(),
        rows_below(repair_run(run, old, new), b),
{
    let os = run_lhs(run);
    let ns = run_rhs(run);
    lemma_run_sides_bounded(run, b);
    if !(os.len() < 2 || ns.len() < 2 || os.len() > 200 || ns.len() > 200) {
        let l = lcs_trace(side_texts(os, old), side_texts(ns, new), os.len() as int, ns.len() as int);
        let min_side = if os.len() <= ns.len() { os.len() } else { ns.len() };
        if !(l.len() * 2 < min_side) {
            lemma_lcs_trace(side_texts(os, old), side_texts(ns, new), os.len() as int, ns.len() as int);
            lemma_unmatched_bounded(os, l, os.len() as int, b);
            let nr = new_rows(os, ns, l);
            assert forall|j: int| 0 <= j < nr.len() implies {
                &&& ((#[trigger] nr[j]).0 matches Some(s) ==> s.line_number < b)
                &&& (nr[j].1 matches Some(s) ==> s.line_number < b)
            } by {
                if new_matched(l, j) {
                    let q = choose|q: int| 0 <= q < l.len() && (#[trigger] l[q]).1 == j;
                    assert(l[q].0 < os.len());
                }
            }
            lemma_rows_below_concat(unmatched_old_rows(os, l, os.len() as int), nr, b);
        }
    }
}

/// Re-pairing reordered lines at most doubles the rows and keeps their line numbers.
pub proof fn lemma_fix_rows_bounded(rs: Seq<RowV>, i: int, old: Seq<String>, new: Seq<String>, b: int)
    requires
        0 <= i <= rs.len(),
        rows_below(rs, b),
    ensures
        fix_rows(rs, i, old, new).len() <= 2 * (rs.len() - i),
        rows_below(fix_rows(rs, i, old, new), b),
    decreases rs.len() - i, 0int,
{
    if i < rs.len() {
        if is_ctx_row(rs[i], old, new) {
            lemma_fix_rows_bounded(rs, i + 1, old, new, b);
            lemma_rows_below_concat(seq![rs[i]], fix_rows(rs, i + 1, old, new), b);
        } else {
            lemma_change_run_end(rs, i, old, new);
            let j = change_run_end(rs, i, old, new);
            if i < j <= rs.len() {
                lemma_fix_rows_bounded(rs, j, old, new, b);
                let run = rs.subrange(i, j);
                assert forall|m: int| 0 <= m < run.len() implies {
                    &&& ((#[trigger] run[m]).0 matches Some(s) ==> s.line_number < b)
                    &&& (run[m].1 matches Some(s) ==> s.line_number < b)
                } by {
                    assert(run[m] == rs[i + m]);
                }
                lemma_repair_run_bounded(run, old, new, b);
                lemma_rows_below_concat(repair_run(run, old, new), fix_rows(rs, j, old, new), b);
            }
        }
    }
}

/// The text of line `ln`, or "" when it is out of range.
pub fn line_str(lines: &[String], ln: u64) -> (res: &str)
    ensures
        res@ == line_text(lines@, ln),
{
    let idx = ln as usize;
    if idx < lines.len() {
        lines[idx].as_str()
    } else {
        proof { reveal_strlit(""); }
        ""
    }
}

/// Whether a row is an unchanged line shown as a changed pair.
fn row_is_context(row: &DiffRow, old_lines: &[String], new_lines: &[String]) -> (res: bool)
    ensures
        res == is_ctx_row(row_view(*row), old_lines@, new_lines@),
{
    match (row.lhs, row.rhs) {
        (Some(lhs), Some(rhs)) => {
            let o = line_str(old_lines, lhs.line_number);
            let n = line_str(new_lines, rhs.line_number);
            crate::text::str_eq(o, n)
        },
        _ => false,
    }
}

proof fn lemma_unmatched_rhs(os: Seq<LineSide>, l: Seq<(usize, usize)>, k: int)
    ensures
        forall|m: int| 0 <= m < unmatched_old_rows(os, l, k).len() ==> (#[trigger] unmatched_old_rows(os, l, k)[m]).1 is None,
    decreases k,
{
    if k > 0 {
        lemma_unmatched_rhs(os, l, k - 1);
        if !old_matched(l, k - 1) {
            let u = unmatched_old_rows(os, l, k - 1);
            assert forall|m: int| 0 <= m < u.push((Some(os[k - 1]), None)).len()
                implies (#[trigger] u.push((Some(os[k - 1]), None))[m]).1 is None by {
                if m < u.len() { assert(u.push((Some(os[k - 1]), None))[m] == u[m]); }
            }
        }
    }
}

/// A repaired run keeps its new sides in order.
proof fn lemma_repair_rhs(run: Seq<RowV>, old: Seq<String>, new: Seq<String>)
    ensures
        run_rhs(repair_run(run, old, new)) == run_rhs(run),
{
    let os = run_lhs(run);
    let ns = run_rhs(run);
    if !(os.len() < 2 || ns.len() < 2 || os.len() > 200 || ns.len() > 200) {
        let l = lcs_trace(side_texts(os, old), side_texts(ns, new), os.len() as int, ns.len() as int);
        let min_side = if os.len() <= ns.len() { os.len() } else { ns.len() };
        if l.len() * 2 >= min_side {
            let u = unmatched_old_rows(os, l, os.len() as int);
            let w = new_rows(os, ns, l);
            lemma_unmatched_rhs(os, l, os.len() as int);
            lemma_rhs_all(u);
            lemma_rhs_all(w);
            lemma_sides_concat(u, w);
            assert forall|m: int| 0 <= m < w.len() implies (#[trigger] w[m]).1 is Some by {}
            assert(Seq::new(w.len(), |m: int| w[m].1->0) =~= ns);
            assert(run_rhs(u) + run_rhs(w) =~= run_rhs(w));
        }
    }
}

/// The old sides that the pairs of `l` match, in pair order.
spec fn matched_olds(os: Seq<LineSide>, l: Seq<(usize, usize)>) -> Seq<LineSide> {
    Seq::new(l.len(), |q: int| os[l[q].0 as int])
}

spec fn pairs_ok(l: Seq<(usize, usize)>, n_old: int, n_new: int) -> bool {
    &&& forall|q: int| 0 <= q < l.len() ==> (#[trigger] l[q]).0 < n_old && l[q].1 < n_new
    &&& forall|q: int, r: int| 0 <= q < r < l.len() ==> (#[trigger] l[q]).0 < (#[trigger] l[r]).0 && l[q].1 < l[r].1
}

/// How many pairs have a new index below `m`.
spec fn cnt_new(l: Seq<(usize, usize)>, m: int) -> int
    decreases l.len(),
{
    if l.len() == 0 { 0 } else if (l.last().1 as int) < m { l.len() as int } else { cnt_new(l.drop_last(), m) }
}

/// How many pairs have an old index below `m`.
spec fn cnt_old(l: Seq<(usize, usize)>, m: int) -> int
    decreases l.len(),
{
    if l.len() == 0 { 0 } else if (l.last().0 as int) < m { l.len() as int } else { cnt_old(l.drop_last(), m) }
}

proof fn lemma_cnt(l: Seq<(usize, usize)>, m: int)
    requires
        forall|q: int, r: int| 0 <= q < r < l.len() ==> (#[trigger] l[q]).0 < (#[trigger] l[r]).0 && l[q].1 < l[r].1,
    ensures
        0 <= cnt_new(l, m) <= l.len(),
        forall|q: int| 0 <= q < cnt_new(l, m) ==> (#[trigger] l[q]).1 < m,
        forall|q: int| cnt_new(l, m) <= q < l.len() ==> (#[trigger] l[q]).1 >= m,
        0 <= cnt_old(l, m) <= l.len(),
        forall|q: int| 0 <= q < cnt_old(l, m) ==> (#[trigger] l[q]).0 < m,
        forall|q: int| cnt_old(l, m) <= q < l.len() ==> (#[trigger] l[q]).0 >= m,
    decreases l.len(),
{
    if l.len() > 0 {
        let d = l.drop_last();
        assert forall|q: int, r: int| 0 <= q < r < d.len() implies (#[trigger] d[q]).0 < (#[trigger] d[r]).0 && d[q].1 < d[r].1 by {
            assert(d[q] == l[q] && d[r] == l[r]);
        }
        lemma_cnt(d, m);
        let n = l.len() - 1;
        assert forall|q: int| 0 <= q < n implies (#[trigger] l[q]).0 < l[n].0 && l[q].1 < l[n].1 by {}
        assert forall|q: int| 0 <= q < n implies #[trigger] l[q] == d[q] by {}
    }
}

proof fn lemma_push_lhs(s: Seq<RowV>, x: RowV)
    ensures
        run_lhs(s.push(x)) == (match x.0 { Some(v) => run_lhs(s).push(v), None => run_lhs(s) }),
{
    assert(s.push(x).drop_last() =~= s);
    assert(s.push(x).last() == x);
}

proof fn lemma_new_rows_prefix(os: Seq<LineSide>, ns: Seq<LineSide>, l: Seq<(usize, usize)>, m: int)
    requires
        0 <= m <= ns.len(),
        pairs_ok(l, os.len() as int, ns.len() as int),
    ensures
        run_lhs(new_rows(os, ns, l).take(m)) == matched_olds(os, l).take(cnt_new(l, m)),
    decreases m,
{
    let w = new_rows(os, ns, l);
    let lo = matched_olds(os, l);
    lemma_cnt(l, m);
    if m == 0 {
        if cnt_new(l, m) > 0 {
            assert(l[0].1 < 0);
        }
        assert(w.take(0) =~= Seq::<RowV>::empty());
        assert(lo.take(0) =~= Seq::<LineSide>::empty());
    } else {
        lemma_new_rows_prefix(os, ns, l, m - 1);
        lemma_cnt(l, m - 1);
        let c0 = cnt_new(l, m - 1);
        let c1 = cnt_new(l, m);
        assert(w.take(m) =~= w.take(m - 1).push(w[m - 1]));
        lemma_push_lhs(w.take(m - 1), w[m - 1]);
        if new_matched(l, m - 1) {
            let qs = choose|q: int| 0 <= q < l.len() && (#[trigger] l[q]).1 == m - 1;
            assert(w[m - 1].0 == Some(os[l[qs].0 as int]));
            if c0 > qs { assert(l[qs].1 < m - 1); }
            if c0 < qs { assert(l[c0].1 < l[qs].1); }
            assert(c0 == qs);
            if c1 <= qs { assert(l[qs].1 >= m); }
            if c1 > qs + 1 { assert(l[qs].1 < l[qs + 1].1); assert(l[qs + 1].1 < m); }
            assert(c1 == qs + 1);
            assert(lo.take(c1) =~= lo.take(c0).push(os[l[qs].0 as int]));
        } else {
            assert(w[m - 1].0 is None);
            if c1 > c0 {
                assert(l[c0].1 < m && l[c0].1 >= m - 1);
                assert(new_matched(l, m - 1));
            }
            if c1 < c0 {
                assert(l[c1].1 < m - 1);
            }
            assert(c1 == c0);
        }
    }
}

proof fn lemma_unmatched_multiset(os: Seq<LineSide>, l: Seq<(usize, usize)>, k: int)
    requires
        0 <= k <= os.len(),
        pairs_ok(l, os.len() as int, usize::MAX as int),
    ensures
        os.take(k).to_multiset() == run_lhs(unmatched_old_rows(os, l, k)).to_multiset().add(matched_olds(os, l).take(cnt_old(l, k)).to_multiset()),
    decreases k,
{
    broadcast use vstd::seq_lib::group_to_multiset_ensures;
    let lo = matched_olds(os, l);
    lemma_cnt(l, k);
    if k == 0 {
        if cnt_old(l, k) > 0 {
            assert(l[0].0 < 0);
        }
        assert(os.take(0) =~= Seq::<LineSide>::empty());
        assert(lo.take(0) =~= Seq::<LineSide>::empty());
        assert(run_lhs(Seq::<RowV>::empty()) == Seq::<LineSide>::empty());
        assert(Seq::<LineSide>::empty().to_multiset().add(Seq::<LineSide>::empty().to_multiset()) =~= Seq::<LineSide>::empty().to_multiset());
    } else {
        lemma_unmatched_multiset(os, l, k - 1);
        lemma_cnt(l, k - 1);
        let c0 = cnt_old(l, k - 1);
        let c1 = cnt_old(l, k);
        let u0 = unmatched_old_rows(os, l, k - 1);
        assert(os.take(k) =~= os.take(k - 1).push(os[k - 1]));
        if old_matched(l, k - 1) {
            let qs = choose|q: int| 0 <= q < l.len() && (#[trigger] l[q]).0 == k - 1;
            if c0 > qs { assert(l[qs].0 < k - 1); }
            if c0 < qs { assert(l[c0].0 < l[qs].0); }
            assert(c0 == qs);
            if c1 <= qs { assert(l[qs].0 >= k); }
            if c1 > qs + 1 { assert(l[qs].0 < l[qs + 1].0); assert(l[qs + 1].0 < k); }
            assert(c1 == qs + 1);
            assert(lo.take(c1) =~= lo.take(c0).push(os[k - 1]));
            assert(os.take(k).to_multiset() =~= run_lhs(u0).to_multiset().add(lo.take(c1).to_multiset()));
        } else {
            lemma_push_lhs(u0, (Some(os[k - 1]), None));
            if c1 > c0 {
                assert(l[c0].0 < k && l[c0].0 >= k - 1);
                assert(old_matched(l, k - 1));
            }
            if c1 < c0 {
                assert(l[c1].0 < k - 1);
            }
            assert(c1 == c0);
            assert(os.take(k).to_multiset() =~= run_lhs(u0).push(os[k - 1]).to_multiset().add(lo.take(c1).to_multiset()));
        }
    }
}

/// A repaired run keeps its old sides, in some order.
proof fn lemma_repair_lhs(run: Seq<RowV>, old: Seq<String>, new: Seq<String>)
    ensures
        run_lhs(repair_run(run, old, new)).to_multiset() == run_lhs(run).to_multiset(),
{
    let os = run_lhs(run);
    let ns = run_rhs(run);
    if !(os.len() < 2 || ns.len() < 2 || os.len() > 200 || ns.len() > 200) {
        let a = side_texts(os, old);
        let b = side_texts(ns, new);
        let l = lcs_trace(a, b, os.len() as int, ns.len() as int);
        let min_side = if os.len() <= ns.len() { os.len() } else { ns.len() };
        if l.len() * 2 >= min_side {
            lemma_lcs_trace(a, b, os.len() as int, ns.len() as int);
            assert(pairs_ok(l, os.len() as int, ns.len() as int));
            let u = unmatched_old_rows(os, l, os.len() as int);
            let w = new_rows(os, ns, l);
            lemma_new_rows_prefix(os, ns, l, ns.len() as int);
            lemma_unmatched_multiset(os, l, os.len() as int);
            lemma_cnt(l, ns.len() as int);
            lemma_cnt(l, os.len() as int);
            if cnt_new(l, ns.len() as int) < l.len() { assert(l[cnt_new(l, ns.len() as int)].1 < ns.len()); }
            if cnt_old(l, os.len() as int) < l.len() { assert(l[cnt_old(l, os.len() as int)].0 < os.len()); }
            assert(w.take(ns.len() as int) =~= w);
            assert(os.take(os.len() as int) =~= os);
            let lo = matched_olds(os, l);
            assert(lo.take(l.len() as int) =~= lo);
            lemma_sides_concat(u, w);
            vstd::seq_lib::lemma_multiset_commutative(run_lhs(u), run_lhs(w));
        }
    }
}

/// Re-pairing reordered rows keeps every old line: the old sides of the rows
/// are those before, as a multiset (their order may change).
pub proof fn lemma_fix_rows_keeps_old_sides(rs: Seq<RowV>, i: int, old: Seq<String>, new: Seq<String>)
    requires
        0 <= i <= rs.len(),
    ensures
        run_lhs(fix_rows(rs, i, old, new)).to_multiset() == run_lhs(rs.skip(i)).to_multiset(),
    decreases rs.len() - i,
{
    if i == rs.len() {
        assert(rs.skip(i) =~= Seq::<RowV>::empty());
    } else if is_ctx_row(rs[i], old, new) {
        lemma_fix_rows_keeps_old_sides(rs, i + 1, old, new);
        assert(rs.skip(i) =~= seq![rs[i]] + rs.skip(i + 1));
        lemma_sides_concat(seq![rs[i]], rs.skip(i + 1));
        lemma_sides_concat(seq![rs[i]], fix_rows(rs, i + 1, old, new));
        vstd::seq_lib::lemma_multiset_commutative(run_lhs(seq![rs[i]]), run_lhs(rs.skip(i + 1)));
        vstd::seq_lib::lemma_multiset_commutative(run_lhs(seq![rs[i]]), run_lhs(fix_rows(rs, i + 1, old, new)));
    } else {
        lemma_change_run_end(rs, i, old, new);
        let j = change_run_end(rs, i, old, new);
        lemma_change_run_end(rs, i + 1, old, new);
        assert(j == change_run_end(rs, i + 1, old, new));
        lemma_fix_rows_keeps_old_sides(rs, j, old, new);
        let run = rs.subrange(i, j);
        lemma_repair_lhs(run, old, new);
        lemma_sides_concat(repair_run(run, old, new), fix_rows(rs, j, old, new));
        assert(rs.skip(i) =~= run + rs.skip(j));
        lemma_sides_concat(run, rs.skip(j));
        vstd::seq_lib::lemma_multiset_commutative(run_lhs(repair_run(run, old, new)), run_lhs(fix_rows(rs, j, old, new)));
        vstd::seq_lib::lemma_multiset_commutative(run_lhs(run), run_lhs(rs.skip(j)));
    }
}

/// The copy rules of re-pairing: context rows are copied as they are, so
/// rows that are all context come out unchanged; a run of changed rows is
/// copied unchanged when a side has fewer than two or more than 200 lines,
/// or when fewer than half of the smaller side's lines are matched (in LCS
/// order); otherwise the unmatched old lines come first as removals, in old
/// order, and then each new line in order, beside its matched old line or
/// as an addition.
pub proof fn lemma_fix_rows_copies(rs: Seq<RowV>, i: int, old: Seq<String>, new: Seq<String>)
    requires
        0 <= i <= rs.len(),
    ensures
        (forall|m: int| i <= m < rs.len() ==> is_ctx_row(#[trigger] rs[m], old, new)) ==> fix_rows(rs, i, old, new) == rs.skip(i),
        forall|run: Seq<RowV>| #![trigger repair_run(run, old, new)] ({
            let os = run_lhs(run);
            let ns = run_rhs(run);
            let l = lcs_trace(side_texts(os, old), side_texts(ns, new), os.len() as int, ns.len() as int);
            let min_side = if os.len() <= ns.len() { os.len() } else { ns.len() };
            &&& (os.len() < 2 || ns.len() < 2 || os.len() > 200 || ns.len() > 200 || l.len() * 2 < min_side)
                ==> repair_run(run, old, new) == run
            &&& !(os.len() < 2 || ns.len() < 2 || os.len() > 200 || ns.len() > 200 || l.len() * 2 < min_side)
                ==> repair_run(run, old, new) == unmatched_old_rows(os, l, os.len() as int) + new_rows(os, ns, l)
        }),
    decreases rs.len() - i,
{
    if i < rs.len() {
        lemma_fix_rows_copies(rs, i + 1, old, new);
        if forall|m: int| i <= m < rs.len() ==> is_ctx_row(#[trigger] rs[m], old, new) {
            assert(is_ctx_row(rs[i], old, new));
            assert(rs.skip(i) =~= seq![rs[i]] + rs.skip(i + 1));
        }
    } else {
        assert(rs.skip(i) =~= Seq::<RowV>::empty());
    }
}

/// Re-pairing reordered rows keeps the new lines in order: the new sides of
/// the rows, read top to bottom, are unchanged.
pub proof fn lemma_fix_rows_keeps_new_sides(rs: Seq<RowV>, i: int, old: Seq<String>, new: Seq<String>)
    requires
        0 <= i <= rs.len(),
    ensures
        run_rhs(fix_rows(rs, i, old, new)) == run_rhs(rs.skip(i)),
    decreases rs.len() - i,
{
    if i == rs.len() {
        assert(rs.skip(i) =~= Seq::<RowV>::empty());
    } else if is_ctx_row(rs[i], old, new) {
        lemma_fix_rows_keeps_new_sides(rs, i + 1, old, new);
        assert(rs.skip(i) =~= seq![rs[i]] + rs.skip(i + 1));
        lemma_sides_concat(seq![rs[i]], rs.skip(i + 1));
        lemma_sides_concat(seq![rs[i]], fix_rows(rs, i + 1, old, new));
    } else {
        lemma_change_run_end(rs, i, old, new);
        let j = change_run_end(rs, i, old, new);
        lemma_change_run_end(rs, i + 1, old, new);
        assert(j == change_run_end(rs, i + 1, old, new));
        lemma_fix_rows_keeps_new_sides(rs, j, old, new);
        lemma_repair_rhs(rs.subrange(i, j), old, new);
        lemma_sides_concat(repair_run(rs.subrange(i, j), old, new), fix_rows(rs, j, old, new));
        assert(rs.skip(i) =~= rs.subrange(i, j) + rs.skip(j));
        lemma_sides_concat(rs.subrange(i, j), rs.skip(j));
    }
}

/// Post-process consolidated rows to detect reordered lines. When a block of
/// "changed" rows contains lines that appear in both old and new (just at
/// different positions), re-pair them as context so only the truly moved lines
/// show as removed/added. Uses LCS to determine which lines keep their
/// relative order.
pub fn fix_reorders<'a>(rows: Vec<DiffRow<'a>>, old_lines: &[String], new_lines: &[String]) -> (res: Vec<DiffRow<'a>>)
    ensures
        rows_view(res@) == fix_rows(rows_view(rows@), 0, old_lines@, new_lines@),
{
    let ghost rs = rows_view(rows@);
    let ghost old = old_lines@;
    let ghost new = new_lines@;
    let mut result: Vec<DiffRow<'a>> = Vec::new();
    let mut i: usize = 0;
    while i < rows.len()
        invariant
            i <= rows@.len(),
            rs == rows_view(rows@),
            old == old_lines@,
            new == new_lines@,
            fix_rows(rs, 0, old, new) == rows_view(result@) + fix_rows(rs, i as int, old, new),
        decreases rows@.len() - i,
    {
        if row_is_context(&rows[i], old_lines, new_lines) {
            let ghost before = result@;
            result.push(rows[i]);
            proof {
                assert(rows_view(result@) =~= rows_view(before).push(rs[i as int]));
                assert(fix_rows(rs, i as int, old, new) == seq![rs[i as int]] + fix_rows(rs, i + 1, old, new));
                assert(rows_view(result@) + fix_rows(rs, i + 1, old, new) =~= rows_view(before) + fix_rows(rs, i as int, old, new));
            }
            i = i + 1;
            continue;
        }
        // Collect a maximal run of non-context (changed) rows
        let run_start = i;
        proof { lemma_change_run_end(rs, i as int, old, new); }
        while i < rows.len() && !row_is_context(&rows[i], old_lines, new_lines)
            invariant
                run_start <= i <= change_run_end(rs, run_start as int, old, new),
                change_run_end(rs, run_start as int, old, new) <= rows@.len(),
                rs == rows_view(rows@),
                old == old_lines@,
                new == new_lines@,
                forall|m: int| run_start <= m < change_run_end(rs, run_start as int, old, new) ==> !is_ctx_row(#[trigger] rs[m], old, new),
                change_run_end(rs, run_start as int, old, new) < rs.len() ==> is_ctx_row(rs[change_run_end(rs, run_start as int, old, new)], old, new),
            decreases rows@.len() - i,
        {
            i = i + 1;
        }
        let ghost run = rs.subrange(run_start as int, i as int);
        let ghost before = result@;
        let rep = repair_run_exec(&rows, run_start, i, old_lines, new_lines);
        let mut k: usize = 0;
        while k < rep.len()
            invariant
                k <= rep@.len(),
                rows_view(result@) == rows_view(before) + rows_view(rep@).take(k as int),
            decreases rep@.len() - k,
        {
            let ghost b2 = result@;
            result.push(rep[k]);
            proof {
                assert(rows_view(rep@).take(k + 1) == rows_view(rep@).take(k as int).push(rows_view(rep@)[k as int]));
                assert(rows_view(result@) =~= rows_view(b2).push(row_view(rep@[k as int])));
            }
            k = k + 1;
        }
        proof {
            assert(rows_view(rep@).take(rep@.len() as int) == rows_view(rep@));
            assert(rows_view(rows@).subrange(run_start as int, i as int) == run);
        }
    }
    result
}

/// The rows of `rows[start..end]` (a maximal run of changed rows) after re-pairing.
fn repair_run_exec<'a>(rows: &Vec<DiffRow<'a>>, start: usize, end: usize, old_lines: &[String], new_lines: &[String]) -> (res: Vec<DiffRow<'a>>)
    requires
        start <= end <= rows@.len(),
    ensures
        rows_view(res@) == repair_run(rows_view(rows@).subrange(start as int, end as int), old_lines@, new_lines@),
{
    let ghost run = rows_view(rows@).subrange(start as int, end as int);
    let mut old_entries: Vec<&'a LineSide> = Vec::new();
    let mut new_entries: Vec<&'a LineSide> = Vec::new();
    let mut run_copy: Vec<DiffRow<'a>> = Vec::new();
    let mut i = start;
    while i < end
        invariant
            start <= i <= end <= rows@.len(),
            run == rows_view(rows@).subrange(start as int, end as int),
            old_entries@.map_values(|s: &LineSide| *s) == run_lhs(run.take(i - start)),
            new_entries@.map_values(|s: &LineSide| *s) == run_rhs(run.take(i - start)),
            rows_view(run_copy@) == run.take(i - start),
        decreases end - i,
    {
        let row = rows[i];
        proof {
            assert(run.take(i - start + 1).drop_last() == run.take(i - start));
            assert(run.take(i - start + 1).last() == row_view(row));
        }
        if let Some(l) = row.lhs {
            old_entries.push(l);
        }
        if let Some(r) = row.rhs {
            new_entries.push(r);
        }
        let ghost b = run_copy@;
        run_copy.push(row);
        proof {
            assert(rows_view(run_copy@) =~= rows_view(b).push(row_view(row)));
            assert(run.take(i - start + 1) == run.take(i - start).push(row_view(row)));
            assert(old_entries@.map_values(|s: &LineSide| *s) =~= run_lhs(run.take(i - start + 1)));
            assert(new_entries@.map_values(|s: &LineSide| *s) =~= run_rhs(run.take(i - start + 1)));
        }
        i = i + 1;
    }
    proof { assert(run.take(end - start) == run); }
    let ghost os = run_lhs(run);
    let ghost ns = run_rhs(run);
    if old_entries.len() < 2 || new_entries.len() < 2 || old_entries.len() > 200 || new_entries.len() > 200 {
        return run_copy;
    }
    let mut old_contents: Vec<&str> = Vec::new();
    let mut k: usize = 0;
    while k < old_entries.len()
        invariant
            k <= old_entries@.len(),
            old_entries@.map_values(|s: &LineSide| *s) == os,
            strs_view(old_contents@) == side_texts(os, old_lines@).take(k as int),
        decreases old_entries@.len() - k,
    {
        let t = line_str(old_lines, old_entries[k].line_number);
        let ghost b = old_contents@;
        old_contents.push(t);
        proof {
            assert(old_entries@.map_values(|s: &LineSide| *s)[k as int] == *old_entries@[k as int]);
            assert(os[k as int] == *old_entries@[k as int]);
            assert(strs_view(old_contents@) =~= strs_view(b).push(t@));
            assert(strs_view(old_contents@) =~= side_texts(os, old_lines@).take(k + 1));
        }
        k = k + 1;
    }
    let mut new_contents: Vec<&str> = Vec::new();
    let mut k: usize = 0;
    while k < new_entries.len()
        invariant
            k <= new_entries@.len(),
            new_entries@.map_values(|s: &LineSide| *s) == ns,
            strs_view(new_contents@) == side_texts(ns, new_lines@).take(k as int),
        decreases new_entries@.len() - k,
    {
        let t = line_str(new_lines, new_entries[k].line_number);
        let ghost b = new_contents@;
        new_contents.push(t);
        proof {
            assert(new_entries@.map_values(|s: &LineSide| *s)[k as int] == *new_entries@[k as int]);
            assert(ns[k as int] == *new_entries@[k as int]);
            assert(strs_view(new_contents@) =~= strs_view(b).push(t@));
            assert(strs_view(new_contents@) =~= side_texts(ns, new_lines@).take(k + 1));
        }
        k = k + 1;
    }
    proof {
        assert(side_texts(os, old_lines@).take(os.len() as int) == side_texts(os, old_lines@));
        assert(side_texts(ns, new_lines@).take(ns.len() as int) == side_texts(ns, new_lines@));
    }
    let lcs = longest_common_subsequence(old_contents.as_slice(), new_contents.as_slice());
    let ghost l = lcs@;
    proof {
        lemma_lcs_len_bound(strs_view(old_contents@), strs_view(new_contents@), old_contents@.len() as int, new_contents@.len() as int);
    }
    let min_side = if old_entries.len() <= new_entries.len() { old_entries.len() } else { new_entries.len() };
    if lcs.len() * 2 < min_side {
        return run_copy;
    }
    // Mark matched indices
    let mut matched_old: Vec<bool> = Vec::new();
    let mut k: usize = 0;
    while k < old_entries.len()
        invariant
            k <= old_entries@.len(),
            matched_old@.len() == k,
            forall|q: int| 0 <= q < k ==> !matched_old@[q],
        decreases old_entries@.len() - k,
    {
        matched_old.push(false);
        k = k + 1;
    }
    let mut new_to_old: Vec<Option<usize>> = Vec::new();
    let mut k: usize = 0;
    while k < new_entries.len()
        invariant
            k <= new_entries@.len(),
            new_to_old@.len() == k,
            forall|q: int| 0 <= q < k ==> new_to_old@[q] is None,
        decreases new_entries@.len() - k,
    {
        new_to_old.push(None);
        k = k + 1;
    }
    let mut q: usize = 0;
    while q < lcs.len()
        invariant
            q <= l.len(),
            l == lcs@,
            is_common_subsequence(side_texts(os, old_lines@), side_texts(ns, new_lines@), l),
            old_entries@.len() == os.len(),
            new_entries@.len() == ns.len(),
            side_texts(os, old_lines@).len() == os.len(),
            side_texts(ns, new_lines@).len() == ns.len(),
            matched_old@.len() == os.len(),
            new_to_old@.len() == ns.len(),
            forall|o: int| 0 <= o < os.len() ==> (#[trigger] matched_old@[o] <==> old_matched(l.take(q as int), o)),
            forall|n: int| 0 <= n < ns.len() ==> match #[trigger] new_to_old@[n] {
                Some(o) => exists|p: int| 0 <= p < q && l[p] == (o, n as usize),
                None => !new_matched(l.take(q as int), n),
            },
        decreases l.len() - q,
    {
        let (oi, ni) = lcs[q];
        assert(l[q as int] == (oi, ni));
        matched_old.set(oi, true);
        new_to_old.set(ni, Some(oi));
        proof {
            assert forall|o: int| 0 <= o < os.len() implies (#[trigger] matched_old@[o] <==> old_matched(l.take(q + 1), o)) by {
                if o == oi {
                    assert(l.take(q + 1)[q as int] == l[q as int]);
                } else {
                    if old_matched(l.take(q + 1), o) {
                        let p = choose|p: int| 0 <= p < l.take(q + 1).len() && (#[trigger] l.take(q + 1)[p]).0 == o;
                        assert(p < q);
                        assert(l.take(q as int)[p] == l.take(q + 1)[p]);
                    }
                    if old_matched(l.take(q as int), o) {
                        let p = choose|p: int| 0 <= p < l.take(q as int).len() && (#[trigger] l.take(q as int)[p]).0 == o;
                        assert(l.take(q as int)[p] == l.take(q + 1)[p]);
                    }
                }
            }
            assert forall|n: int| 0 <= n < ns.len() implies match #[trigger] new_to_old@[n] {
                Some(o) => exists|p: int| 0 <= p < q + 1 && l[p] == (o, n as usize),
                None => !new_matched(l.take(q + 1), n),
            } by {
                if n == ni {
                    assert(l[q as int] == (oi, n as usize));
                } else {
                    if new_matched(l.take(q + 1), n) {
                        let p = choose|p: int| 0 <= p < l.take(q + 1).len() && (#[trigger] l.take(q + 1)[p]).1 == n;
                        assert(p < q);
                        assert(l.take(q as int)[p] == l.take(q + 1)[p]);
                    }
                }
            }
        }
        q = q + 1;
    }
    proof { assert(l.take(l.len() as int) == l); }
    let mut result: Vec<DiffRow<'a>> = Vec::new();
    // Emit unmatched old entries as removals (in old-file order)
    let mut k: usize = 0;
    while k < old_entries.len()
        invariant
            k <= old_entries@.len(),
            old_entries@.map_values(|s: &LineSide| *s) == os,
            matched_old@.len() == os.len(),
            forall|o: int| 0 <= o < os.len() ==> (#[trigger] matched_old@[o] <==> old_matched(l, o)),
            rows_view(result@) == unmatched_old_rows(os, l, k as int),
        decreases old_entries@.len() - k,
    {
        if !matched_old[k] {
            let ghost b = result@;
            result.push(DiffRow { lhs: Some(old_entries[k]), rhs: None });
            proof {
                assert(os[k as int] == *old_entries@[k as int]);
                assert(rows_view(result@) =~= rows_view(b).push((Some(os[k as int]), None)));
            }
        }
        k = k + 1;
    }
    // Emit new entries in order: matched as paired context, unmatched as additions
    let ghost removed = rows_view(result@);
    let mut k: usize = 0;
    while k < new_entries.len()
        invariant
            k <= new_entries@.len(),
            new_entries@.map_values(|s: &LineSide| *s) == ns,
            old_entries@.map_values(|s: &LineSide| *s) == os,
            new_to_old@.len() == ns.len(),
            is_common_subsequence(side_texts(os, old_lines@), side_texts(ns, new_lines@), l),
            side_texts(os, old_lines@).len() == os.len(),
            side_texts(ns, new_lines@).len() == ns.len(),
            forall|n: int| 0 <= n < ns.len() ==> match #[trigger] new_to_old@[n] {
                Some(o) => exists|p: int| 0 <= p < l.len() && l[p] == (o, n as usize),
                None => !new_matched(l, n),
            },
            rows_view(result@) == removed + new_rows(os, ns, l).take(k as int),
        decreases new_entries@.len() - k,
    {
        let ghost b = result@;
        match new_to_old[k] {
            Some(oi) => {
                proof {
                    let p = choose|p: int| 0 <= p < l.len() && l[p] == (oi, k);
                    assert(new_matched(l, k as int));
                    let c = choose|q: int| 0 <= q < l.len() && (#[trigger] l[q]).1 == k as int;
                    if c != p {
                        if c < p { assert(l[c].1 < l[p].1); } else { assert(l[p].1 < l[c].1); }
                    }
                    assert(oi < os.len());
                }
                result.push(DiffRow { lhs: Some(old_entries[oi]), rhs: Some(new_entries[k]) });
                proof {
                    assert(os[oi as int] == *old_entries@[oi as int]);
                    assert(ns[k as int] == *new_entries@[k as int]);
                }
            },
            None => {
                result.push(DiffRow { lhs: None, rhs: Some(new_entries[k]) });
                proof {
                    assert(ns[k as int] == *new_entries@[k as int]);
                }
            },
        }
        proof {
            assert(new_rows(os, ns, l).take(k + 1) == new_rows(os, ns, l).take(k as int).push(new_rows(os, ns, l)[k as int]));
            assert(rows_view(result@) =~= rows_view(b).push(new_rows(os, ns, l)[k as int]));
        }
        k = k + 1;
    }
    proof {
        assert(new_rows(os, ns, l).take(ns.len() as int) == new_rows(os, ns, l));
    }
    result
}

} // verus!
