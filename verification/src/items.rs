//! The items of a rendered chunk: the consolidated rows of difftastic's
//! entries plus the gap lines taken from unified diff hunks, each with a sort
//! key, and the steps that order, prune and filter them.

use vstd::prelude::*;
use crate::rows::{DiffRow, RowV, rows_view};

verus! {

/// Key spacing for sort keys: an item on new line `n` sorts around `n * KEY_SPACE`.
pub const KEY_SPACE: u64 = 10000;

/// The old and new line numbers of a row.
pub type RowNums = (Option<u64>, Option<u64>);

/// The line numbers of a row's sides.
pub open spec fn row_nums(r: RowV) -> RowNums {
    (
        match r.0 { Some(s) => Some(s.line_number), None => None },
        match r.1 { Some(s) => Some(s.line_number), None => None },
    )
}

/// The line numbers of rows.
pub open spec fn rows_nums(rs: Seq<RowV>) -> Seq<RowNums> {
    rs.map_values(|r: RowV| row_nums(r))
}

/// One rendered line or pair of lines of a chunk.
#[derive(Clone, Copy, PartialEq, Eq, Structural, Debug)]
pub enum Item {
    /// The row with this index among the chunk's rows.
    Row(usize),
    /// An old line (0-based) that a hunk marks as removed.
    GapRemoved(usize),
    /// A new line (0-based) that a hunk marks as added.
    GapAdded(usize),
    /// An old and a new line (0-based) of a hunk whose texts match.
    GapPaired(usize, usize),
}

/// An item with its sort key.
pub type Keyed = (u64, Item);

/// Gap items refer to lines below this bound (twice the line limit).
pub const GAP_LIMIT: usize = 0x2000_0000;

/// An item refers to an existing row, or to lines below [`GAP_LIMIT`].
pub open spec fn item_ok(n: nat, it: Item) -> bool {
    match it {
        Item::Row(r) => r < n,
        Item::GapRemoved(o) => o < GAP_LIMIT,
        Item::GapAdded(x) => x < GAP_LIMIT,
        Item::GapPaired(o, x) => o < GAP_LIMIT && x < GAP_LIMIT,
    }
}

/// Every item refers to an existing row, or to lines below [`GAP_LIMIT`].
pub open spec fn items_ok(n: nat, s: Seq<Keyed>) -> bool {
    forall|i: int| 0 <= i < s.len() ==> item_ok(n, (#[trigger] s[i]).1)
}

/// The old line of an item, as the sort and the ordering pass see it.
pub open spec fn item_old(rn: Seq<RowNums>, it: Item) -> Option<u64> {
    match it {
        Item::Row(i) => rn[i as int].0,
        Item::GapRemoved(o) => Some(o as u64),
        Item::GapPaired(o, _) => Some(o as u64),
        Item::GapAdded(_) => None,
    }
}

/// The old line of an item as an index.
pub open spec fn item_old_idx(rn: Seq<RowNums>, it: Item) -> Option<usize> {
    match it {
        Item::Row(i) => match rn[i as int].0 { Some(x) => Some(x as usize), None => None },
        Item::GapRemoved(o) => Some(o),
        Item::GapPaired(o, _) => Some(o),
        Item::GapAdded(_) => None,
    }
}

/// The new line of an item as an index.
pub open spec fn item_new_idx(rn: Seq<RowNums>, it: Item) -> Option<usize> {
    match it {
        Item::Row(i) => match rn[i as int].1 { Some(x) => Some(x as usize), None => None },
        Item::GapAdded(n) => Some(n),
        Item::GapPaired(_, n) => Some(n),
        Item::GapRemoved(_) => None,
    }
}

/// The line a line filter tests: the new line, else the old line.
pub open spec fn item_pos(rn: Seq<RowNums>, it: Item) -> Option<usize> {
    match it {
        Item::Row(i) => match rn[i as int].1 {
            Some(x) => Some(x as usize),
            None => match rn[i as int].0 { Some(x) => Some(x as usize), None => None },
        },
        Item::GapRemoved(o) => Some(o),
        Item::GapAdded(n) => Some(n),
        Item::GapPaired(_, n) => Some(n),
    }
}

/// Whether an item comes from the hunks rather than from a row.
pub open spec fn is_gap(it: Item) -> bool {
    !(it is Row)
}

/// The line numbers of the rows, in order.
pub fn row_nums_of(rows: &Vec<DiffRow>) -> (rn: Vec<RowNums>)
    ensures
        rn@ == rows_nums(rows_view(rows@)),
{
    let mut rn: Vec<RowNums> = Vec::new();
    let mut i: usize = 0;
    while i < rows.len()
        invariant
            i <= rows@.len(),
            rn@ == rows_nums(rows_view(rows@)).take(i as int),
        decreases rows@.len() - i,
    {
        let r = rows[i];
        let o = match r.lhs { Some(s) => Some(s.line_number), None => None };
        let n = match r.rhs { Some(s) => Some(s.line_number), None => None };
        rn.push((o, n));
        proof {
            assert(rows_nums(rows_view(rows@)).take(i + 1) == rows_nums(rows_view(rows@)).take(i as int).push(rows_nums(rows_view(rows@))[i as int]));
        }
        i = i + 1;
    }
    proof { assert(rows_nums(rows_view(rows@)).take(rows@.len() as int) == rows_nums(rows_view(rows@))); }
    rn
}

/// The old line of an item.
pub fn old_of(rn: &Vec<RowNums>, it: Item) -> (res: Option<u64>)
    requires
        it matches Item::Row(i) ==> i < rn@.len(),
    ensures
        res == item_old(rn@, it),
{
    match it {
        Item::Row(i) => rn[i].0,
        Item::GapRemoved(o) => Some(o as u64),
        Item::GapPaired(o, _) => Some(o as u64),
        Item::GapAdded(_) => None,
    }
}

/// The old line of an item as an index.
pub fn old_idx_of(rn: &Vec<RowNums>, it: Item) -> (res: Option<usize>)
    requires
        it matches Item::Row(i) ==> i < rn@.len(),
    ensures
        res == item_old_idx(rn@, it),
{
    match it {
        Item::Row(i) => match rn[i].0 { Some(x) => Some(x as usize), None => None },
        Item::GapRemoved(o) => Some(o),
        Item::GapPaired(o, _) => Some(o),
        Item::GapAdded(_) => None,
    }
}

/// The new line of an item as an index.
pub fn new_idx_of(rn: &Vec<RowNums>, it: Item) -> (res: Option<usize>)
    requires
        it matches Item::Row(i) ==> i < rn@.len(),
    ensures
        res == item_new_idx(rn@, it),
{
    match it {
        Item::Row(i) => match rn[i].1 { Some(x) => Some(x as usize), None => None },
        Item::GapAdded(n) => Some(n),
        Item::GapPaired(_, n) => Some(n),
        Item::GapRemoved(_) => None,
    }
}

/// `a < b` on optional old lines, with no line before any line.
pub open spec fn opt_lt(a: Option<u64>, b: Option<u64>) -> bool {
    match (a, b) {
        (None, Some(_)) => true,
        (Some(x), Some(y)) => x < y,
        _ => false,
    }
}

/// Items order by key, then by old line.
pub open spec fn keyed_lt(rn: Seq<RowNums>, a: Keyed, b: Keyed) -> bool {
    a.0 < b.0 || (a.0 == b.0 && opt_lt(item_old(rn, a.1), item_old(rn, b.1)))
}

/// `x` placed into the ordered `t` after every item that it does not precede.
pub open spec fn insert_keyed(rn: Seq<RowNums>, t: Seq<Keyed>, x: Keyed) -> Seq<Keyed>
    decreases t.len(),
{
    if t.len() == 0 || !keyed_lt(rn, x, t.last()) {
        t.push(x)
    } else {
        insert_keyed(rn, t.drop_last(), x).push(t.last())
    }
}

/// The items in stable order of (key, old line): items that compare equal keep
/// their relative order.
pub open spec fn sort_keyed(rn: Seq<RowNums>, s: Seq<Keyed>) -> Seq<Keyed>
    decreases s.len(),
{
    if s.len() == 0 {
        Seq::empty()
    } else {
        insert_keyed(rn, sort_keyed(rn, s.drop_last()), s.last())
    }
}

fn keyed_less(rn: &Vec<RowNums>, a: Keyed, b: Keyed) -> (res: bool)
    requires
        a.1 matches Item::Row(i) ==> i < rn@.len(),
        b.1 matches Item::Row(i) ==> i < rn@.len(),
    ensures
        res == keyed_lt(rn@, a, b),
{
    if a.0 != b.0 {
        a.0 < b.0
    } else {
        match (old_of(rn, a.1), old_of(rn, b.1)) {
            (None, Some(_)) => true,
            (Some(x), Some(y)) => x < y,
            _ => false,
        }
    }
}

proof fn lemma_insert_keyed_at(rn: Seq<RowNums>, t: Seq<Keyed>, x: Keyed, j: int)
    requires
        0 <= j <= t.len(),
        forall|q: int| j <= q < t.len() ==> keyed_lt(rn, x, #[trigger] t[q]),
        j > 0 ==> !keyed_lt(rn, x, t[j - 1]),
    ensures
        insert_keyed(rn, t, x) == t.take(j).push(x) + t.skip(j),
    decreases t.len(),
{
    if t.len() == 0 {
        assert(t.take(j).push(x) + t.skip(j) =~= seq![x]);
    } else if j == t.len() {
        assert(t.take(j) == t);
        assert(t.skip(j) =~= Seq::<Keyed>::empty());
        assert(t.take(j).push(x) + t.skip(j) =~= t.push(x));
    } else {
        assert(keyed_lt(rn, x, t[t.len() - 1]));
        let d = t.drop_last();
        assert forall|q: int| j <= q < d.len() implies keyed_lt(rn, x, #[trigger] d[q]) by {
            assert(d[q] == t[q]);
        }
        if j > 0 { assert(d[j - 1] == t[j - 1]); }
        lemma_insert_keyed_at(rn, d, x, j);
        assert(d.take(j) == t.take(j));
        assert((d.take(j).push(x) + d.skip(j)).push(t.last()) =~= t.take(j).push(x) + t.skip(j));
    }
}

/// Sorts items stably by (key, old line), with no line before any line.
pub fn sort_items(rn: &Vec<RowNums>, items: &Vec<Keyed>) -> (res: Vec<Keyed>)
    requires
        items_ok(rn@.len(), items@),
    ensures
        res@ == sort_keyed(rn@, items@),
        items_ok(rn@.len(), res@),
{
    let mut res: Vec<Keyed> = Vec::new();
    let mut i: usize = 0;
    while i < items.len()
        invariant
            i <= items@.len(),
            items_ok(rn@.len(), items@),
            items_ok(rn@.len(), res@),
            res@ == sort_keyed(rn@, items@.take(i as int)),
        decreases items@.len() - i,
    {
        let x = items[i];
        assert(items@[i as int] == x);
        let mut j: usize = res.len();
        while j > 0 && keyed_less(rn, x, res[j - 1])
            invariant
                j <= res@.len(),
                items_ok(rn@.len(), res@),
                item_ok(rn@.len(), x.1),
                forall|q: int| j <= q < res@.len() ==> keyed_lt(rn@, x, #[trigger] res@[q]),
            decreases j,
        {
            j = j - 1;
        }
        proof {
            lemma_insert_keyed_at(rn@, res@, x, j as int);
            assert(items@.take(i + 1).drop_last() == items@.take(i as int));
            assert(items@.take(i + 1).last() == x);
        }
        let ghost before = res@;
        res.insert(j, x);
        proof {
            assert(res@ =~= before.take(j as int).push(x) + before.skip(j as int));
            assert forall|q: int| 0 <= q < res@.len() implies item_ok(rn@.len(), (#[trigger] res@[q]).1) by {
                if q < j { assert(res@[q] == before[q]); } else if q > j { assert(res@[q] == before[q - 1]); }
            }
        }
        i = i + 1;
    }
    proof { assert(items@.take(items@.len() as int) == items@); }
    res
}

/// Items in order with every gap item dropped whose old line comes before the
/// largest old line kept so far; `max` is that largest old line.
pub open spec fn keep_ordered(rn: Seq<RowNums>, s: Seq<Keyed>, max: Option<u64>) -> Seq<Keyed>
    decreases s.len(),
{
    if s.len() == 0 {
        Seq::empty()
    } else {
        let rest = s.drop_first();
        match item_old(rn, s[0].1) {
            None => seq![s[0]] + keep_ordered(rn, rest, max),
            Some(o) => if max is Some && o < max->0 {
                if is_gap(s[0].1) {
                    keep_ordered(rn, rest, max)
                } else {
                    seq![s[0]] + keep_ordered(rn, rest, max)
                }
            } else {
                seq![s[0]] + keep_ordered(rn, rest, Some(o))
            },
        }
    }
}

/// Drops the gap items that would break the order of old lines.
pub fn keep_old_order(rn: &Vec<RowNums>, items: &Vec<Keyed>) -> (res: Vec<Keyed>)
    requires
        items_ok(rn@.len(), items@),
    ensures
        res@ == keep_ordered(rn@, items@, None),
        items_ok(rn@.len(), res@),
{
    let mut res: Vec<Keyed> = Vec::new();
    let mut max: Option<u64> = None;
    let mut i: usize = 0;
    proof { assert(items@.skip(0) == items@); }
    while i < items.len()
        invariant
            i <= items@.len(),
            items_ok(rn@.len(), items@),
            items_ok(rn@.len(), res@),
            res@ + keep_ordered(rn@, items@.skip(i as int), max) == keep_ordered(rn@, items@, None),
        decreases items@.len() - i,
    {
        let x = items[i];
        let ghost rest = items@.skip(i as int);
        proof {
            assert(rest[0] == x);
            assert(rest.drop_first() == items@.skip(i + 1));
        }
        let ghost before = res@;
        match old_of(rn, x.1) {
            None => {
                res.push(x);
            },
            Some(o) => {
                let behind = match max { Some(m) => o < m, None => false };
                if behind {
                    match x.1 {
                        Item::Row(_) => { res.push(x); },
                        _ => {},
                    }
                } else {
                    res.push(x);
                    max = Some(o);
                }
            },
        }
        proof {
            assert forall|q: int| 0 <= q < res@.len() implies item_ok(rn@.len(), (#[trigger] res@[q]).1) by {
                if q < before.len() { assert(res@[q] == before[q]); }
            }
            if res@.len() > before.len() {
                assert(res@ == before + seq![x]);
            }
        }
        i = i + 1;
    }
    proof { assert(items@.skip(items@.len() as int) =~= Seq::<Keyed>::empty()); }
    res
}

/// Whether an item passes the filter `[start, end]` of 0-based lines.
pub open spec fn in_filter(rn: Seq<RowNums>, it: Item, start: usize, end: usize) -> bool {
    match item_pos(rn, it) {
        Some(n) => start <= n && n <= end,
        None => false,
    }
}

/// The items that pass the filter, in order.
pub open spec fn filter_items(rn: Seq<RowNums>, s: Seq<Keyed>, start: usize, end: usize) -> Seq<Keyed>
    decreases s.len(),
{
    if s.len() == 0 {
        Seq::empty()
    } else {
        let r = filter_items(rn, s.drop_last(), start, end);
        if in_filter(rn, s.last().1, start, end) { r.push(s.last()) } else { r }
    }
}

/// Keeps the items whose filter line lies in `[start, end]`.
pub fn filter_by_lines(rn: &Vec<RowNums>, items: &Vec<Keyed>, start: usize, end: usize) -> (res: Vec<Keyed>)
    requires
        items_ok(rn@.len(), items@),
    ensures
        res@ == filter_items(rn@, items@, start, end),
        items_ok(rn@.len(), res@),
{
    let mut res: Vec<Keyed> = Vec::new();
    let mut i: usize = 0;
    while i < items.len()
        invariant
            i <= items@.len(),
            items_ok(rn@.len(), items@),
            items_ok(rn@.len(), res@),
            res@ == filter_items(rn@, items@.take(i as int), start, end),
        decreases items@.len() - i,
    {
        let x = items[i];
        proof {
            assert(items@.take(i + 1).drop_last() == items@.take(i as int));
            assert(items@.take(i + 1).last() == x);
            assert(items@[i as int] == x);
        }
        let pos = match x.1 {
            Item::Row(r) => match rn[r].1 {
                Some(v) => Some(v as usize),
                None => match rn[r].0 { Some(v) => Some(v as usize), None => None },
            },
            Item::GapRemoved(o) => Some(o),
            Item::GapAdded(n) => Some(n),
            Item::GapPaired(_, n) => Some(n),
        };
        let keep = match pos { Some(n) => start <= n && n <= end, None => false };
        if keep {
            let ghost before = res@;
            res.push(x);
            proof {
                assert forall|q: int| 0 <= q < res@.len() implies item_ok(rn@.len(), (#[trigger] res@[q]).1) by {
                    if q < before.len() { assert(res@[q] == before[q]); }
                }
            }
        }
        i = i + 1;
    }
    proof { assert(items@.take(items@.len() as int) == items@); }
    res
}

/// `min(a, b)` on indices.
pub open spec fn min_u(a: usize, b: usize) -> usize {
    if a <= b { a } else { b }
}

/// `max(a, b)` on indices.
pub open spec fn max_u(a: usize, b: usize) -> usize {
    if a >= b { a } else { b }
}

/// (first old, last old, first new, last new) line over the items, starting
/// from (`usize::MAX`, 0, `usize::MAX`, 0).
pub open spec fn extents(rn: Seq<RowNums>, s: Seq<Keyed>) -> (usize, usize, usize, usize)
    decreases s.len(),
{
    if s.len() == 0 {
        (usize::MAX, 0, usize::MAX, 0)
    } else {
        let e = extents(rn, s.drop_last());
        let it = s.last().1;
        let (of, ol) = match item_old_idx(rn, it) {
            Some(x) => (min_u(e.0, x), max_u(e.1, x)),
            None => (e.0, e.1),
        };
        let (nf, nl) = match item_new_idx(rn, it) {
            Some(x) => (min_u(e.2, x), max_u(e.3, x)),
            None => (e.2, e.3),
        };
        (of, ol, nf, nl)
    }
}

/// The first and last old and new lines of the items.
pub fn items_extents(rn: &Vec<RowNums>, items: &Vec<Keyed>) -> (res: (usize, usize, usize, usize))
    requires
        items_ok(rn@.len(), items@),
    ensures
        res == extents(rn@, items@),
{
    let mut of: usize = usize::MAX;
    let mut ol: usize = 0;
    let mut nf: usize = usize::MAX;
    let mut nl: usize = 0;
    let mut i: usize = 0;
    while i < items.len()
        invariant
            i <= items@.len(),
            items_ok(rn@.len(), items@),
            (of, ol, nf, nl) == extents(rn@, items@.take(i as int)),
        decreases items@.len() - i,
    {
        let x = items[i];
        proof {
            assert(items@.take(i + 1).drop_last() == items@.take(i as int));
            assert(items@.take(i + 1).last() == x);
            assert(items@[i as int] == x);
        }
        match old_idx_of(rn, x.1) {
            Some(v) => {
                if v < of { of = v; }
                if v > ol { ol = v; }
            },
            None => {},
        }
        match new_idx_of(rn, x.1) {
            Some(v) => {
                if v < nf { nf = v; }
                if v > nl { nl = v; }
            },
            None => {},
        }
        i = i + 1;
    }
    proof { assert(items@.take(items@.len() as int) == items@); }
    (of, ol, nf, nl)
}

/// Whether some item has old line `x`.
pub open spec fn has_old_line(rn: Seq<RowNums>, s: Seq<Keyed>, x: usize) -> bool {
    exists|i: int| 0 <= i < s.len() && item_old_idx(rn, (#[trigger] s[i]).1) == Some(x)
}

/// Whether some item has new line `x`.
pub open spec fn has_new_line(rn: Seq<RowNums>, s: Seq<Keyed>, x: usize) -> bool {
    exists|i: int| 0 <= i < s.len() && item_new_idx(rn, (#[trigger] s[i]).1) == Some(x)
}

/// Whether some item has old line `x`.
pub fn items_have_old(rn: &Vec<RowNums>, items: &Vec<Keyed>, x: usize) -> (res: bool)
    requires
        items_ok(rn@.len(), items@),
    ensures
        res == has_old_line(rn@, items@, x),
{
    let mut i: usize = 0;
    while i < items.len()
        invariant
            i <= items@.len(),
            items_ok(rn@.len(), items@),
            forall|q: int| 0 <= q < i ==> item_old_idx(rn@, (#[trigger] items@[q]).1) != Some(x),
        decreases items@.len() - i,
    {
        if old_idx_of(rn, items[i].1) == Some(x) {
            return true;
        }
        i = i + 1;
    }
    false
}

/// Whether some item has new line `x`.
pub fn items_have_new(rn: &Vec<RowNums>, items: &Vec<Keyed>, x: usize) -> (res: bool)
    requires
        items_ok(rn@.len(), items@),
    ensures
        res == has_new_line(rn@, items@, x),
{
    let mut i: usize = 0;
    while i < items.len()
        invariant
            i <= items@.len(),
            items_ok(rn@.len(), items@),
            forall|q: int| 0 <= q < i ==> item_new_idx(rn@, (#[trigger] items@[q]).1) != Some(x),
        decreases items@.len() - i,
    {
        if new_idx_of(rn, items[i].1) == Some(x) {
            return true;
        }
        i = i + 1;
    }
    false
}

/// The old line of a row item.
pub open spec fn row_item_old(rn: Seq<RowNums>, it: Item) -> Option<u64> {
    match it {
        Item::Row(i) => rn[i as int].0,
        _ => None,
    }
}

/// The distance between two lines.
pub open spec fn line_dist(a: int, b: int) -> int {
    if a >= b { a - b } else { b - a }
}

/// Among the row items with an old line, the (distance, key) of the first one
/// whose old line is nearest to `o`.
pub open spec fn nearest(rn: Seq<RowNums>, s: Seq<Keyed>, o: int) -> Option<(int, u64)>
    decreases s.len(),
{
    if s.len() == 0 {
        None
    } else {
        let b = nearest(rn, s.drop_last(), o);
        match row_item_old(rn, s.last().1) {
            None => b,
            Some(l) => {
                let d = line_dist(l as int, o);
                match b {
                    None => Some((d, s.last().0)),
                    Some(bk) => if d < bk.0 { Some((d, s.last().0)) } else { b },
                }
            },
        }
    }
}

/// The key of the row item whose old line is nearest to `o` (the first such), or 0.
pub open spec fn nearest_key(rn: Seq<RowNums>, s: Seq<Keyed>, o: int) -> u64 {
    match nearest(rn, s, o) {
        Some(b) => b.1,
        None => 0,
    }
}

/// The key of the first row item whose old line is nearest to `o`, or 0.
pub fn nearest_row_key(rn: &Vec<RowNums>, items: &Vec<Keyed>, o: usize) -> (res: u64)
    requires
        items_ok(rn@.len(), items@),
        o <= i64::MAX,
        forall|i: int| 0 <= i < rn@.len() ==> ((#[trigger] rn@[i]).0 matches Some(x) ==> x <= i64::MAX),
    ensures
        res == nearest_key(rn@, items@, o as int),
{
    let mut best: Option<(u64, u64)> = None;
    let mut i: usize = 0;
    while i < items.len()
        invariant
            i <= items@.len(),
            items_ok(rn@.len(), items@),
            o <= i64::MAX,
            forall|i: int| 0 <= i < rn@.len() ==> ((#[trigger] rn@[i]).0 matches Some(x) ==> x <= i64::MAX),
            match nearest(rn@, items@.take(i as int), o as int) {
                None => best is None,
                Some(b) => best == Some((b.0 as u64, b.1)) && b.0 >= 0 && b.0 <= u64::MAX,
            },
        decreases items@.len() - i,
    {
        let x = items[i];
        proof {
            assert(items@.take(i + 1).drop_last() == items@.take(i as int));
            assert(items@.take(i + 1).last() == x);
            assert(items@[i as int] == x);
        }
        let lo: Option<u64> = match x.1 {
            Item::Row(r) => rn[r].0,
            _ => None,
        };
        match lo {
            Some(l) => {
                let ou = o as u64;
                let d: u64 = if l >= ou { l - ou } else { ou - l };
                match best {
                    None => { best = Some((d, x.0)); },
                    Some(b) => {
                        if d < b.0 { best = Some((d, x.0)); }
                    },
                }
            },
            None => {},
        }
        i = i + 1;
    }
    proof { assert(items@.take(items@.len() as int) == items@); }
    match best {
        Some(b) => b.1,
        None => 0,
    }
}


/// Whether an item's line lies in `[start, end]`.
pub open spec fn keeps(rn: Seq<RowNums>, start: usize, end: usize) -> spec_fn(Keyed) -> bool {
    |k: Keyed| in_filter(rn, k.1, start, end)
}

/// A line filter keeps exactly the items whose line lies in its range, in
/// their order: the changed rows of a filtered block are those inside the
/// range, and no other.
pub proof fn lemma_filter_keeps_range(rn: Seq<RowNums>, s: Seq<Keyed>, start: usize, end: usize)
    ensures
        filter_items(rn, s, start, end) == s.filter(keeps(rn, start, end)),
        forall|i: int| 0 <= i < filter_items(rn, s, start, end).len()
            ==> #[trigger] in_filter(rn, filter_items(rn, s, start, end)[i].1, start, end),
    decreases s.len(),
{
    let pred = keeps(rn, start, end);
    if s.len() > 0 {
        lemma_filter_keeps_range(rn, s.drop_last(), start, end);
        reveal(Seq::filter);
        assert(s.filter(pred) == (if pred(s.last()) { s.drop_last().filter(pred).push(s.last()) } else { s.drop_last().filter(pred) }));
    }
    if s.len() == 0 {
        reveal(Seq::filter);
    }
    assert(filter_items(rn, s, start, end) == s.filter(pred));
    assert forall|i: int| 0 <= i < s.filter(pred).len() implies #[trigger] in_filter(rn, s.filter(pred)[i].1, start, end) by {
        s.lemma_filter_pred(pred, i);
    }
}

proof fn lemma_filter_mem(s: Seq<Keyed>, pred: spec_fn(Keyed) -> bool, x: Keyed)
    ensures
        s.filter(pred).contains(x) <==> s.contains(x) && pred(x),
{
    if s.filter(pred).contains(x) {
        s.lemma_filter_contains_rev(pred, x);
        let i = choose|i: int| 0 <= i < s.filter(pred).len() && s.filter(pred)[i] == x;
        s.lemma_filter_pred(pred, i);
    }
    if s.contains(x) && pred(x) {
        let i = choose|i: int| 0 <= i < s.len() && s[i] == x;
        s.lemma_filter_contains(pred, i);
    }
}

/// Line filters add up: splitting a range `a..=c` at `b` keeps, between the
/// two parts, exactly the items that the whole range keeps.
pub proof fn lemma_filter_union(rn: Seq<RowNums>, s: Seq<Keyed>, a: usize, b: usize, c: usize, x: Keyed)
    requires
        a <= b < c,
    ensures
        filter_items(rn, s, a, c).contains(x)
            <==> filter_items(rn, s, a, b).contains(x) || filter_items(rn, s, (b + 1) as usize, c).contains(x),
{
    lemma_filter_keeps_range(rn, s, a, c);
    lemma_filter_keeps_range(rn, s, a, b);
    lemma_filter_keeps_range(rn, s, (b + 1) as usize, c);
    lemma_filter_mem(s, keeps(rn, a, c), x);
    lemma_filter_mem(s, keeps(rn, a, b), x);
    lemma_filter_mem(s, keeps(rn, (b + 1) as usize, c), x);
}

} // verus!
