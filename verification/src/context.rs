//! How much unchanged context to show around a change, widened so that a
//! multi-line expression cut by the context boundary is shown whole.

use vstd::prelude::*;
use crate::text::chars_of;

verus! {

/// Number of unchanged context lines to show before/after each chunk.
pub const CONTEXT_LINES: usize = 3;

/// Total context lines captured for HTML rendering. Lines beyond CONTEXT_LINES
/// are hidden behind an expandable "show more" control.
pub const EXPANDED_CONTEXT_LINES: usize = 40;

/// Lines revealed per click on the "show more" expander.
pub const EXPAND_STEP: usize = 8;

/// Max extra context lines to add when expanding to show complete expressions.
pub const MAX_EXPRESSION_CONTEXT: usize = 8;

/// Contribution of one character to the bracket balance.
pub open spec fn char_bal(c: char) -> int {
    if c == '(' || c == '{' || c == '[' {
        1
    } else if c == ')' || c == '}' || c == ']' {
        -1
    } else {
        0
    }
}

/// Bracket balance of a line: `({[` count +1, `)}]` count -1.
pub open spec fn bal(s: Seq<char>) -> int
    decreases s.len(),
{
    if s.len() == 0 {
        0
    } else {
        bal(s.drop_last()) + char_bal(s.last())
    }
}

/// Every running balance over a prefix of the line fits in an `i32`.
pub open spec fn bal_fits(s: Seq<char>) -> bool {
    forall|k: int| 0 <= k <= s.len() ==> i32::MIN <= #[trigger] bal(s.take(k)) <= i32::MAX
}

/// Whether a character is one of `({[` or `)}]`.
pub open spec fn is_bracket(c: char) -> bool {
    char_bal(c) != 0
}

/// Number of bracket characters in a line.
pub open spec fn brk(s: Seq<char>) -> int
    decreases s.len(),
{
    if s.len() == 0 {
        0
    } else {
        brk(s.drop_last()) + if is_bracket(s.last()) { 1int } else { 0int }
    }
}

proof fn lemma_bal_brk(s: Seq<char>)
    ensures
        -brk(s) <= bal(s) <= brk(s),
        0 <= brk(s),
    decreases s.len(),
{
    if s.len() > 0 {
        lemma_bal_brk(s.drop_last());
    }
}

proof fn lemma_brk_take(s: Seq<char>, k: int)
    requires
        0 <= k <= s.len(),
    ensures
        brk(s.take(k)) <= brk(s),
    decreases s.len() - k,
{
    if k < s.len() {
        lemma_brk_take(s, k + 1);
        assert(s.take(k + 1).drop_last() =~= s.take(k));
    } else {
        assert(s.take(k) =~= s);
    }
}

/// A line with at most `i32::MAX` brackets keeps every running balance in an `i32`.
pub proof fn lemma_few_brackets_fit(s: Seq<char>)
    requires
        brk(s) <= i32::MAX,
    ensures
        bal_fits(s),
{
    assert forall|k: int| 0 <= k <= s.len() implies i32::MIN <= #[trigger] bal(s.take(k)) <= i32::MAX by {
        lemma_bal_brk(s.take(k));
        lemma_brk_take(s, k);
    }
}

/// The number of bracket characters in a line.
pub fn bracket_count(line: &str) -> (res: usize)
    ensures
        res as int == brk(line@),
{
    let cs = chars_of(line);
    let mut n: usize = 0;
    let mut i: usize = 0;
    while i < cs.len()
        invariant
            i <= cs@.len(),
            cs@ == line@,
            n as int == brk(cs@.take(i as int)),
            n <= i,
        decreases cs@.len() - i,
    {
        proof {
            assert(cs@.take(i + 1).drop_last() == cs@.take(i as int));
        }
        let c = cs[i];
        if c == '(' || c == '{' || c == '[' || c == ')' || c == '}' || c == ']' {
            n = n + 1;
        }
        i = i + 1;
    }
    assert(cs@.take(cs@.len() as int) == cs@);
    n
}

/// The balance of two pieces put together is the sum of their balances.
pub proof fn lemma_bal_concat(a: Seq<char>, b: Seq<char>)
    ensures
        bal(a + b) == bal(a) + bal(b),
    decreases b.len(),
{
    if b.len() == 0 {
        assert(a + b =~= a);
    } else {
        assert((a + b).drop_last() =~= a + b.drop_last());
        assert((a + b).last() == b.last());
        lemma_bal_concat(a, b.drop_last());
    }
}

/// Count bracket balance on a line: `({[` contribute +1, `)}]` contribute -1.
pub fn bracket_balance(line: &str) -> (res: i32)
    requires
        bal_fits(line@),
    ensures
        res as int == bal(line@),
{
    let cs = chars_of(line);
    let mut b: i32 = 0;
    let mut i: usize = 0;
    while i < cs.len()
        invariant
            i <= cs@.len(),
            cs@ == line@,
            bal_fits(line@),
            b as int == bal(cs@.take(i as int)),
        decreases cs@.len() - i,
    {
        proof {
            assert(cs@.take(i + 1).drop_last() == cs@.take(i as int));
            assert(i32::MIN <= bal(cs@.take(i + 1)) <= i32::MAX);
        }
        let c = cs[i];
        if c == '(' || c == '{' || c == '[' {
            b = b + 1;
        } else if c == ')' || c == '}' || c == ']' {
            b = b - 1;
        }
        i = i + 1;
    }
    assert(cs@.take(cs@.len() as int) == cs@);
    b
}

/// Sum of the bracket balances of `lines[lo..hi]`.
pub open spec fn bal_sum(lines: Seq<String>, lo: int, hi: int) -> int
    decreases hi - lo,
{
    if hi <= lo {
        0
    } else {
        bal_sum(lines, lo, hi - 1) + bal(lines[hi - 1]@)
    }
}

/// Total number of characters of `lines[lo..hi]`.
pub open spec fn chars_sum(lines: Seq<String>, lo: int, hi: int) -> int
    decreases hi - lo,
{
    if hi <= lo {
        0
    } else {
        chars_sum(lines, lo, hi - 1) + lines[hi - 1]@.len()
    }
}

/// Number of bracket characters of `lines[lo..hi]`.
pub open spec fn brk_sum(lines: Seq<String>, lo: int, hi: int) -> int
    decreases hi - lo,
{
    if hi <= lo {
        0
    } else {
        brk_sum(lines, lo, hi - 1) + brk(lines[hi - 1]@)
    }
}

/// Number of bracket characters over all lines.
pub open spec fn total_brackets(lines: Seq<String>) -> int {
    brk_sum(lines, 0, lines.len() as int)
}

proof fn lemma_local(lines: Seq<String>, lo: int, hi: int)
    ensures
        -brk_sum(lines, lo, hi) <= bal_sum(lines, lo, hi) <= brk_sum(lines, lo, hi),
        0 <= brk_sum(lines, lo, hi),
    decreases hi - lo,
{
    if hi > lo {
        lemma_local(lines, lo, hi - 1);
        lemma_bal_brk(lines[hi - 1]@);
    }
}

proof fn lemma_add(lines: Seq<String>, a: int, c: int, d: int)
    requires
        a <= c <= d,
    ensures
        brk_sum(lines, a, d) == brk_sum(lines, a, c) + brk_sum(lines, c, d),
        bal_sum(lines, a, d) == bal_sum(lines, a, c) + bal_sum(lines, c, d),
    decreases d - c,
{
    if d > c {
        lemma_add(lines, a, c, d - 1);
    }
}

/// Bounds of the balance and bracket count of `lines[lo..hi]`.
proof fn lemma_sum_bounds(lines: Seq<String>, lo: int, hi: int)
    requires
        0 <= lo <= hi <= lines.len(),
    ensures
        -brk_sum(lines, lo, hi) <= bal_sum(lines, lo, hi) <= brk_sum(lines, lo, hi),
        0 <= brk_sum(lines, lo, hi) <= total_brackets(lines),
{
    lemma_local(lines, lo, hi);
    lemma_local(lines, 0, lo);
    lemma_local(lines, hi, lines.len() as int);
    lemma_add(lines, 0, lo, hi);
    lemma_add(lines, 0, hi, lines.len() as int);
}

/// Two disjoint ranges together hold at most all brackets.
proof fn lemma_disjoint(lines: Seq<String>, a: int, b: int, c: int, d: int)
    requires
        0 <= a <= b <= c <= d <= lines.len(),
    ensures
        brk_sum(lines, a, b) + brk_sum(lines, c, d) <= total_brackets(lines),
{
    lemma_local(lines, b, c);
    lemma_add(lines, a, b, c);
    lemma_add(lines, a, c, d);
    lemma_sum_bounds(lines, a, d);
}

/// One line's bracket count is bounded by the total.
proof fn lemma_line(lines: Seq<String>, i: int)
    requires
        0 <= i < lines.len(),
    ensures
        brk(lines[i]@) <= total_brackets(lines),
        brk_sum(lines, i, i + 1) == brk(lines[i]@),
        bal_sum(lines, i, i + 1) == bal(lines[i]@),
        total_brackets(lines) <= i32::MAX ==> bal_fits(lines[i]@),
{
    assert(brk_sum(lines, i, i) == 0);
    assert(bal_sum(lines, i, i) == 0);
    lemma_sum_bounds(lines, i, i + 1);
    if total_brackets(lines) <= i32::MAX {
        lemma_few_brackets_fit(lines[i]@);
    }
}

/// The depth reached when scanning `lines[idx..end]` (starting at `depth`)
/// at the first line where the running depth drops below 0, or 0 when it never does.
pub open spec fn dip_scan(lines: Seq<String>, idx: int, end: int, depth: int) -> int
    decreases end - idx,
{
    if idx >= end {
        0
    } else if depth + bal(lines[idx]@) < 0 {
        depth + bal(lines[idx]@)
    } else {
        dip_scan(lines, idx + 1, end, depth + bal(lines[idx]@))
    }
}

/// Walking back from `pos` over at most `MAX_EXPRESSION_CONTEXT - extra` lines,
/// the first line index at which the accumulated balance reaches `target`.
pub open spec fn back_walk(lines: Seq<String>, pos: int, target: int, acc: int, extra: int) -> Option<int>
    decreases pos,
{
    if pos <= 0 || extra >= MAX_EXPRESSION_CONTEXT {
        None
    } else if acc + bal(lines[pos - 1]@) >= target {
        Some(pos - 1)
    } else {
        back_walk(lines, pos - 1, target, acc + bal(lines[pos - 1]@), extra + 1)
    }
}

/// Walking forward from `pos` over at most `MAX_EXPRESSION_CONTEXT - extra` lines,
/// the end index just past the first line at which `remaining` drops to 0 or below.
pub open spec fn fwd_walk(lines: Seq<String>, pos: int, remaining: int, extra: int) -> Option<int>
    decreases lines.len() - pos,
{
    if pos >= lines.len() || extra >= MAX_EXPRESSION_CONTEXT {
        None
    } else if remaining + bal(lines[pos]@) <= 0 {
        Some(pos + 1)
    } else {
        fwd_walk(lines, pos + 1, remaining + bal(lines[pos]@), extra + 1)
    }
}

/// Whether the context is left unchanged because there is no changed line
/// inside the visible range.
pub open spec fn expand_trivial(len: int, first_changed: int, last_changed: int, ctx_after: int) -> bool {
    let end = if ctx_after < len { ctx_after } else { len };
    first_changed >= end || first_changed > last_changed
}

/// The unmatched closing depth of the changed lines (and what follows them up
/// to the visible end), as seen from the first changed line.
pub open spec fn expand_dip(lines: Seq<String>, first_changed: int, ctx_after: int) -> int {
    let end = if ctx_after < lines.len() { ctx_after } else { lines.len() as int };
    dip_scan(lines, first_changed, end, 0)
}

/// The expanded start of the context.
pub open spec fn expanded_before(lines: Seq<String>, ctx_before: int, first_changed: int, ctx_after: int) -> int {
    let d = expand_dip(lines, first_changed, ctx_after);
    if d < 0 {
        match back_walk(lines, ctx_before, -d, 0, 0) {
            Some(p) => p,
            None => ctx_before,
        }
    } else {
        ctx_before
    }
}

/// The expanded end of the context.
pub open spec fn expanded_after(lines: Seq<String>, ctx_before: int, last_changed: int, ctx_after: int) -> int {
    let end = if ctx_after < lines.len() { ctx_after } else { lines.len() as int };
    let last = if last_changed < end - 1 { last_changed } else { end - 1 };
    let depth = bal_sum(lines, ctx_before, last + 1);
    if depth > 0 {
        match fwd_walk(lines, ctx_after, depth, 0) {
            Some(p) => p,
            None => ctx_after,
        }
    } else {
        ctx_after
    }
}

proof fn lemma_back_walk_range(lines: Seq<String>, pos: int, target: int, acc: int, extra: int)
    requires
        0 <= extra,
    ensures
        back_walk(lines, pos, target, acc, extra) matches Some(p) ==> pos - (MAX_EXPRESSION_CONTEXT - extra) <= p < pos,
    decreases pos,
{
    if !(pos <= 0 || extra >= MAX_EXPRESSION_CONTEXT) && !(acc + bal(lines[pos - 1]@) >= target) {
        lemma_back_walk_range(lines, pos - 1, target, acc + bal(lines[pos - 1]@), extra + 1);
    }
}

proof fn lemma_fwd_walk_range(lines: Seq<String>, pos: int, remaining: int, extra: int)
    requires
        0 <= extra,
    ensures
        fwd_walk(lines, pos, remaining, extra) matches Some(p) ==> pos < p <= pos + (MAX_EXPRESSION_CONTEXT - extra),
    decreases lines.len() - pos,
{
    if !(pos >= lines.len() || extra >= MAX_EXPRESSION_CONTEXT) && !(remaining + bal(lines[pos]@) <= 0) {
        lemma_fwd_walk_range(lines, pos + 1, remaining + bal(lines[pos]@), extra + 1);
    }
}

/// Each expansion adds at most `MAX_EXPRESSION_CONTEXT` lines: the context
/// start moves back by at most that many lines and the context end moves
/// forward by at most that many, never the other way.
pub proof fn lemma_expansion_bounded(lines: Seq<String>, ctx_before: int, first_changed: int, last_changed: int, ctx_after: int)
    ensures
        ctx_before - MAX_EXPRESSION_CONTEXT <= expanded_before(lines, ctx_before, first_changed, ctx_after) <= ctx_before,
        ctx_after <= expanded_after(lines, ctx_before, last_changed, ctx_after) <= ctx_after + MAX_EXPRESSION_CONTEXT,
{
    let d = expand_dip(lines, first_changed, ctx_after);
    lemma_back_walk_range(lines, ctx_before, -d, 0, 0);
    let end = if ctx_after < lines.len() { ctx_after } else { lines.len() as int };
    let last = if last_changed < end - 1 { last_changed } else { end - 1 };
    lemma_fwd_walk_range(lines, ctx_after, bal_sum(lines, ctx_before, last + 1), 0);
}

proof fn lemma_bal_step(lines: Seq<String>, q: int, cb: int)
    requires
        q < cb,
    ensures
        bal_sum(lines, q, cb) == bal(lines[q]@) + bal_sum(lines, q + 1, cb),
{
    lemma_add(lines, q, q + 1, cb);
    assert(bal_sum(lines, q, q) == 0);
}

proof fn lemma_back_walk_closed(lines: Seq<String>, cb: int, pos: int, t: int, extra: int)
    requires
        0 <= extra,
        pos == cb - extra,
        forall|q: int| pos <= q < cb ==> #[trigger] bal_sum(lines, q, cb) < t,
    ensures
        match back_walk(lines, pos, t, bal_sum(lines, pos, cb), extra) {
            Some(p) => 0 <= p && cb - MAX_EXPRESSION_CONTEXT <= p < cb && bal_sum(lines, p, cb) >= t
                && forall|q: int| p < q < cb ==> #[trigger] bal_sum(lines, q, cb) < t,
            None => forall|q: int| 0 <= q && cb - MAX_EXPRESSION_CONTEXT <= q < cb ==> #[trigger] bal_sum(lines, q, cb) < t,
        },
    decreases pos,
{
    if !(pos <= 0 || extra >= MAX_EXPRESSION_CONTEXT) {
        lemma_bal_step(lines, pos - 1, cb);
        if !(bal_sum(lines, pos, cb) + bal(lines[pos - 1]@) >= t) {
            lemma_back_walk_closed(lines, cb, pos - 1, t, extra + 1);
        }
    }
}

proof fn lemma_fwd_walk_closed(lines: Seq<String>, ca: int, pos: int, depth: int, extra: int)
    requires
        0 <= extra,
        pos == ca + extra,
        forall|q: int| ca < q <= pos ==> depth + #[trigger] bal_sum(lines, ca, q) > 0,
    ensures
        match fwd_walk(lines, pos, depth + bal_sum(lines, ca, pos), extra) {
            Some(p) => ca < p <= lines.len() && p <= ca + MAX_EXPRESSION_CONTEXT && depth + bal_sum(lines, ca, p) <= 0
                && forall|q: int| ca < q < p ==> depth + #[trigger] bal_sum(lines, ca, q) > 0,
            None => forall|q: int| ca < q <= lines.len() && q <= ca + MAX_EXPRESSION_CONTEXT ==> depth + #[trigger] bal_sum(lines, ca, q) > 0,
        },
    decreases lines.len() - pos,
{
    if !(pos >= lines.len() || extra >= MAX_EXPRESSION_CONTEXT) {
        assert(bal_sum(lines, ca, pos + 1) == bal_sum(lines, ca, pos) + bal(lines[pos]@));
        if !(depth + bal_sum(lines, ca, pos) + bal(lines[pos]@) <= 0) {
            lemma_fwd_walk_closed(lines, ca, pos + 1, depth, extra + 1);
        }
    }
}

/// The closed form of the expansion. Before the context: when the changed
/// lines (and what follows them up to the visible end) dip to `d < 0`, the
/// start moves back to the nearest line `p` at most `MAX_EXPRESSION_CONTEXT`
/// lines up whose balance up to the context start makes up the dip, and
/// stays put when there is none. After the context: when the lines from the
/// context start through the last changed line leave `depth > 0` open, the
/// end moves forward to the nearest end `p` (at most `MAX_EXPRESSION_CONTEXT`
/// lines on, within the file) at which the following lines close them, and
/// stays put when there is none.
pub proof fn lemma_expansion_closed_form(lines: Seq<String>, ctx_before: int, first_changed: int, last_changed: int, ctx_after: int)
    ensures
        ({
            let d = expand_dip(lines, first_changed, ctx_after);
            let p = expanded_before(lines, ctx_before, first_changed, ctx_after);
            &&& d >= 0 ==> p == ctx_before
            &&& d < 0 ==> {
                ||| (p == ctx_before && forall|q: int| 0 <= q && ctx_before - MAX_EXPRESSION_CONTEXT <= q < ctx_before
                        ==> #[trigger] bal_sum(lines, q, ctx_before) < -d)
                ||| (0 <= p && ctx_before - MAX_EXPRESSION_CONTEXT <= p < ctx_before && bal_sum(lines, p, ctx_before) >= -d
                        && forall|q: int| p < q < ctx_before ==> #[trigger] bal_sum(lines, q, ctx_before) < -d)
            }
        }),
        ({
            let end = if ctx_after < lines.len() { ctx_after } else { lines.len() as int };
            let last = if last_changed < end - 1 { last_changed } else { end - 1 };
            let depth = bal_sum(lines, ctx_before, last + 1);
            let p = expanded_after(lines, ctx_before, last_changed, ctx_after);
            &&& depth <= 0 ==> p == ctx_after
            &&& depth > 0 ==> {
                ||| (p == ctx_after && forall|q: int| ctx_after < q <= lines.len() && q <= ctx_after + MAX_EXPRESSION_CONTEXT
                        ==> depth + #[trigger] bal_sum(lines, ctx_after, q) > 0)
                ||| (ctx_after < p <= lines.len() && p <= ctx_after + MAX_EXPRESSION_CONTEXT
                        && depth + bal_sum(lines, ctx_after, p) <= 0
                        && forall|q: int| ctx_after < q < p ==> depth + #[trigger] bal_sum(lines, ctx_after, q) > 0)
            }
        }),
{
    let d = expand_dip(lines, first_changed, ctx_after);
    assert(bal_sum(lines, ctx_before, ctx_before) == 0);
    lemma_back_walk_closed(lines, ctx_before, ctx_before, -d, 0);
    let end = if ctx_after < lines.len() { ctx_after } else { lines.len() as int };
    let last = if last_changed < end - 1 { last_changed } else { end - 1 };
    let depth = bal_sum(lines, ctx_before, last + 1);
    assert(bal_sum(lines, ctx_after, ctx_after) == 0);
    lemma_fwd_walk_closed(lines, ctx_after, ctx_after, depth, 0);
    assert(depth + bal_sum(lines, ctx_after, ctx_after) == depth);
}

/// Expand context boundaries outward when the visible range cuts off a
/// multi-line expression that the changed lines participate in.
///
/// Only triggers when the *changed lines + post-context* contain unmatched
/// closers (expand before) or the *pre-context + changed lines* contain
/// unmatched openers (expand after). Each expansion adds at most
/// `MAX_EXPRESSION_CONTEXT` lines and is dropped when it does not balance.
///
/// Returns `(expanded_ctx_before, expanded_ctx_after)`.
pub fn expand_context_for_expressions(
    lines: &[String],
    ctx_before: usize,
    first_changed: usize,
    last_changed: usize,
    ctx_after: usize,
) -> (res: (usize, usize))
    requires
        total_brackets(lines@) <= i32::MAX,
        // the backward walk reads lines just before `ctx_before`
        expand_trivial(lines@.len() as int, first_changed as int, last_changed as int, ctx_after as int)
            || expand_dip(lines@, first_changed as int, ctx_after as int) >= 0
            || ctx_before <= lines@.len(),
    ensures
        expand_trivial(lines@.len() as int, first_changed as int, last_changed as int, ctx_after as int)
            ==> res == (ctx_before, ctx_after),
        !expand_trivial(lines@.len() as int, first_changed as int, last_changed as int, ctx_after as int) ==> {
            &&& res.0 as int == expanded_before(lines@, ctx_before as int, first_changed as int, ctx_after as int)
            &&& res.1 as int == expanded_after(lines@, ctx_before as int, last_changed as int, ctx_after as int)
        },
        res.0 <= ctx_before,
        ctx_before - res.0 <= MAX_EXPRESSION_CONTEXT,
        res.1 >= ctx_after,
        res.1 - ctx_after <= MAX_EXPRESSION_CONTEXT,
{
    let len = lines.len();
    let end = if ctx_after < len { ctx_after } else { len };
    if first_changed >= end || first_changed > last_changed {
        return (ctx_before, ctx_after);
    }
    let last = if last_changed < end - 1 { last_changed } else { end - 1 };

    let mut new_before = ctx_before;
    let mut new_after = ctx_after;

    // Before-expansion: the depth at the first line where it drops below 0.
    let mut depth: i32 = 0;
    let mut min_depth: i32 = 0;
    let mut idx = first_changed;
    while idx < end && min_depth == 0
        invariant
            first_changed <= idx <= end,
            end <= lines@.len(),
            total_brackets(lines@) <= i32::MAX,
            min_depth <= 0,
            min_depth == 0 ==> depth as int == bal_sum(lines@, first_changed as int, idx as int),
            min_depth == 0 ==> dip_scan(lines@, first_changed as int, end as int, 0)
                == dip_scan(lines@, idx as int, end as int, depth as int),
            min_depth < 0 ==> dip_scan(lines@, first_changed as int, end as int, 0) == min_depth,
            min_depth >= -i32::MAX,
        decreases end - idx,
    {
        proof {
            lemma_sum_bounds(lines@, first_changed as int, idx + 1);
            lemma_line(lines@, idx as int);
        }
        let b = bracket_balance(lines[idx].as_str());
        depth = depth + b;
        if depth < 0 {
            min_depth = depth;
        }
        idx = idx + 1;
    }
    assert(min_depth as int == expand_dip(lines@, first_changed as int, ctx_after as int));
    if min_depth < 0 {
        let saved = new_before;
        let mut accumulated: i32 = 0;
        let mut extra: usize = 0;
        let mut found = false;
        proof { lemma_sum_bounds(lines@, ctx_before as int, ctx_before as int); }
        while new_before > 0 && extra < MAX_EXPRESSION_CONTEXT && !found
            invariant
                new_before <= ctx_before <= lines@.len(),
                extra == ctx_before - new_before,
                extra <= MAX_EXPRESSION_CONTEXT,
                min_depth < 0,
                min_depth >= -i32::MAX,
                total_brackets(lines@) <= i32::MAX,
                accumulated as int == bal_sum(lines@, new_before as int, ctx_before as int),
                !found ==> back_walk(lines@, ctx_before as int, -min_depth, 0, 0)
                    == back_walk(lines@, new_before as int, -min_depth, accumulated as int, extra as int),
                found ==> back_walk(lines@, ctx_before as int, -min_depth, 0, 0) == Some(new_before as int),
                found == (accumulated >= -min_depth),
            decreases new_before,
        {
            proof {
                lemma_sum_bounds(lines@, new_before - 1, ctx_before as int);
                lemma_sum_bounds(lines@, new_before - 1, new_before as int);
                lemma_add(lines@, new_before - 1, new_before as int, ctx_before as int);
                lemma_line(lines@, new_before - 1);
            }
            new_before = new_before - 1;
            accumulated = accumulated + bracket_balance(lines[new_before].as_str());
            extra = extra + 1;
            if accumulated >= -min_depth {
                found = true;
            }
        }
        if accumulated < -min_depth {
            new_before = saved;
        }
    }

    // After-expansion: openers among the visible range through the last changed line.
    let mut depth2: i32 = 0;
    if ctx_before <= last {
        let mut j = ctx_before;
        proof { lemma_sum_bounds(lines@, ctx_before as int, ctx_before as int); }
        while j <= last
            invariant
                ctx_before <= j <= last + 1,
                last < end <= lines@.len(),
                total_brackets(lines@) <= i32::MAX,
                depth2 as int == bal_sum(lines@, ctx_before as int, j as int),
            decreases last + 1 - j,
        {
            proof {
                lemma_sum_bounds(lines@, ctx_before as int, j + 1);
                lemma_line(lines@, j as int);
            }
            depth2 = depth2 + bracket_balance(lines[j].as_str());
            j = j + 1;
        }
        proof { lemma_sum_bounds(lines@, ctx_before as int, last + 1); }
    }
    assert(depth2 as int == bal_sum(lines@, ctx_before as int, last + 1));
    if depth2 > 0 {
        let saved = new_after;
        let mut remaining: i32 = depth2;
        let mut extra: usize = 0;
        let mut found = false;
        while new_after < len && extra < MAX_EXPRESSION_CONTEXT && !found
            invariant
                ctx_after <= new_after,
                len == lines@.len(),
                extra == new_after - ctx_after,
                extra <= MAX_EXPRESSION_CONTEXT,
                total_brackets(lines@) <= i32::MAX,
                new_after > ctx_after ==> new_after <= len,
                0 < depth2 <= i32::MAX,
                new_after > ctx_after ==> remaining as int == depth2 + bal_sum(lines@, ctx_after as int, new_after as int),
                ctx_before <= last < end <= ctx_after,
                depth2 as int == bal_sum(lines@, ctx_before as int, last + 1),
                new_after == ctx_after ==> remaining == depth2,
                !found ==> fwd_walk(lines@, ctx_after as int, depth2 as int, 0)
                    == fwd_walk(lines@, new_after as int, remaining as int, extra as int),
                found ==> fwd_walk(lines@, ctx_after as int, depth2 as int, 0) == Some(new_after as int),
                found == (remaining <= 0),
            decreases len - new_after,
        {
            proof {
                lemma_sum_bounds(lines@, ctx_after as int, new_after + 1);
                lemma_line(lines@, new_after as int);
                lemma_sum_bounds(lines@, ctx_before as int, last + 1);
                lemma_disjoint(lines@, ctx_before as int, last + 1, ctx_after as int, new_after + 1);
                if new_after == ctx_after {
                    assert(bal_sum(lines@, ctx_after as int, new_after as int) == 0);
                }
            }
            remaining = remaining + bracket_balance(lines[new_after].as_str());
            new_after = new_after + 1;
            extra = extra + 1;
            if remaining <= 0 {
                found = true;
            }
        }
        if remaining > 0 {
            new_after = saved;
        }
    }

    (new_before, new_after)
}

} // verus!
