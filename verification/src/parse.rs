//! Small text grammars shared by the tools: unsigned numbers as Rust's
//! `str::parse` reads them, splitting on a separator, chunk selections
//! (`all` or a comma list) and `lines=START-END` ranges.

use vstd::prelude::*;
use crate::text::{trim, trim_chars};

verus! {

/// The decimal notation of a number is digits only, and reads back as the number.
pub proof fn lemma_dec_digits(n: nat)
    ensures
        crate::text::dec(n).len() >= 1,
        all_digits(crate::text::dec(n)),
        digits_value(crate::text::dec(n)) == n,
    decreases n,
{
    let d = crate::text::dec(n);
    if n < 10 {
        assert(crate::text::digit_char(n) as int == n + 48);
        assert(d[0] == crate::text::digit_char(n));
        assert(d.drop_last() =~= Seq::<char>::empty());
        assert(digits_value(Seq::<char>::empty()) == 0);
        assert(d.last() == d[0]);
    } else {
        lemma_dec_digits(n / 10);
        let p = crate::text::dec(n / 10);
        assert(crate::text::digit_char(n % 10) as int == n % 10 + 48);
        assert(d == p.push(crate::text::digit_char(n % 10)));
        assert(d.drop_last() =~= p);
        assert forall|i: int| 0 <= i < d.len() implies is_digit(#[trigger] d[i]) by {
            if i < p.len() { assert(d[i] == p[i]); }
        }
        assert(d.last() == crate::text::digit_char(n % 10));
        assert((n / 10) * 10 + n % 10 == n) by (nonlinear_arith);
    }
}

/// Whether `c` is an ASCII decimal digit.
pub open spec fn is_digit(c: char) -> bool {
    '0' <= c && c <= '9'
}

/// Every character is an ASCII decimal digit.
pub open spec fn all_digits(d: Seq<char>) -> bool {
    forall|i: int| 0 <= i < d.len() ==> is_digit(#[trigger] d[i])
}

/// The value of a string of decimal digits.
pub open spec fn digits_value(d: Seq<char>) -> int
    decreases d.len(),
{
    if d.len() == 0 {
        0
    } else {
        digits_value(d.drop_last()) * 10 + (d.last() as int - '0' as int)
    }
}

/// An unsigned number as `str::parse` reads it: an optional `+`, then at least
/// one ASCII digit, with a value of at most `max`.
pub open spec fn parse_uint(s: Seq<char>, max: int) -> Option<int> {
    if s.len() == 0 {
        None
    } else {
        let d = if s[0] == '+' { s.drop_first() } else { s };
        if d.len() == 0 || !all_digits(d) {
            None
        } else if digits_value(d) <= max {
            Some(digits_value(d))
        } else {
            None
        }
    }
}

proof fn lemma_digits_value_grows(d: Seq<char>, i: int)
    requires
        0 <= i <= d.len(),
        all_digits(d),
    ensures
        0 <= digits_value(d.take(i)) <= digits_value(d),
    decreases d.len() - i,
{
    if i < d.len() {
        lemma_digits_value_grows(d, i + 1);
        assert(d.take(i + 1).drop_last() == d.take(i));
        assert(is_digit(d[i]));
        lemma_digits_value_nonneg(d.take(i));
    } else {
        assert(d.take(i) == d);
        lemma_digits_value_nonneg(d);
    }
}

proof fn lemma_digits_value_nonneg(d: Seq<char>)
    requires
        all_digits(d),
    ensures
        digits_value(d) >= 0,
    decreases d.len(),
{
    if d.len() > 0 {
        let t = d.drop_last();
        assert forall|i: int| 0 <= i < t.len() implies is_digit(#[trigger] t[i]) by {
            assert(t[i] == d[i]);
        }
        lemma_digits_value_nonneg(t);
        assert(is_digit(d[d.len() - 1]));
    }
}

/// A parsed number is not negative.
pub proof fn lemma_parse_uint_nonneg(s: Seq<char>, max: int)
    ensures
        parse_uint(s, max) matches Some(v) ==> 0 <= v <= max,
{
    if s.len() > 0 {
        let d = if s[0] == '+' { s.drop_first() } else { s };
        if all_digits(d) {
            lemma_digits_value_nonneg(d);
        }
    }
}

/// Reads an unsigned number below `max` (inclusive) as `str::parse` does.
fn parse_uint_exec(s: &[char], max: u64) -> (res: Option<u64>)
    ensures
        res matches Some(x) ==> x <= max,
        match parse_uint(s@, max as int) {
            Some(v) => res == Some(v as u64),
            None => res is None,
        },
{
    if s.len() == 0 {
        return None;
    }
    let start: usize = if s[0] == '+' { 1 } else { 0 };
    let ghost d = if s@[0] == '+' { s@.drop_first() } else { s@ };
    proof {
        assert(d == s@.skip(start as int));
    }
    if start >= s.len() {
        return None;
    }
    let mut v: u64 = 0;
    let mut i: usize = start;
    while i < s.len()
        invariant
            start <= i <= s@.len(),
            s@.len() > 0,
            start == (if s@[0] == '+' { 1usize } else { 0usize }),
            d == (if s@[0] == '+' { s@.drop_first() } else { s@ }),
            d.len() > 0,
            d == s@.skip(start as int),
            forall|q: int| 0 <= q < i - start ==> is_digit(#[trigger] d[q]),
            v as int == digits_value(d.take(i - start)),
            v <= max,
        decreases s@.len() - i,
    {
        let c = s[i];
        assert(d[i - start] == c);
        if !('0' <= c && c <= '9') {
            assert(!is_digit(d[i - start]));
            return None;
        }
        let dv = (c as u32 - '0' as u32) as u64;
        proof {
            assert(d.take(i - start + 1).drop_last() == d.take(i - start));
            assert(d.take(i - start + 1).last() == c);
        }
        proof {
            assert(digits_value(d.take(i - start + 1)) == v * 10 + dv);
        }
        if v > max / 10 {
            proof {
                assert(v * 10 + dv > max) by (nonlinear_arith)
                    requires v > max / 10, dv >= 0;
                if all_digits(d) {
                    lemma_digits_value_grows(d, i - start + 1);
                }
            }
            return None;
        }
        proof {
            assert(v * 10 <= max) by (nonlinear_arith)
                requires v <= max / 10;
        }
        let t = v * 10;
        if dv > max || t > max - dv {
            proof {
                assert(v * 10 + dv > max);
                if all_digits(d) {
                    lemma_digits_value_grows(d, i - start + 1);
                    assert(digits_value(d) > max);
                }
            }
            return None;
        }
        v = t + dv;
        i = i + 1;
    }
    proof {
        assert(d.take(d.len() as int) == d);
    }
    Some(v)
}

/// Reads a `usize` as `str::parse::<usize>` does.
pub fn parse_usize(s: &[char]) -> (res: Option<usize>)
    ensures
        match parse_uint(s@, usize::MAX as int) {
            Some(v) => res == Some(v as usize),
            None => res is None,
        },
{
    assert((usize::MAX as u64) as int == usize::MAX as int);
    let r = parse_uint_exec(s, usize::MAX as u64);
    proof {
        let m = (usize::MAX as u64) as int;
        lemma_parse_uint_nonneg(s@, usize::MAX as int);
        assert(parse_uint(s@, m) == parse_uint(s@, usize::MAX as int));
        match parse_uint(s@, usize::MAX as int) {
            Some(v) => {
                assert(0 <= v <= usize::MAX);
                assert(r == Some(v as u64));
                assert(((v as u64) as usize) as int == v);
            },
            None => {},
        }
    }
    match r {
        Some(v) => Some(v as usize),
        None => None,
    }
}

/// Reads a `u64` as `str::parse::<u64>` does.
pub fn parse_u64(s: &[char]) -> (res: Option<u64>)
    ensures
        match parse_uint(s@, u64::MAX as int) {
            Some(v) => res == Some(v as u64),
            None => res is None,
        },
{
    parse_uint_exec(s, u64::MAX)
}

/// The pieces of `s` between occurrences of `c` (`str::split` with a
/// character): one more piece than there are separators.
pub open spec fn split_on(s: Seq<char>, c: char) -> Seq<Seq<char>>
    decreases s.len(),
{
    if s.len() == 0 {
        seq![Seq::empty()]
    } else {
        let p = split_on(s.drop_last(), c);
        if s.last() == c {
            p.push(Seq::empty())
        } else {
            p.update(p.len() - 1, p.last().push(s.last()))
        }
    }
}

/// Splitting gives at least one piece.
pub proof fn lemma_split_nonempty(s: Seq<char>, c: char)
    ensures
        split_on(s, c).len() >= 1,
    decreases s.len(),
{
    if s.len() > 0 {
        lemma_split_nonempty(s.drop_last(), c);
    }
}

/// Splits `s` at each `c`.
pub fn split_chars(s: &[char], c: char) -> (res: Vec<Vec<char>>)
    ensures
        res@.len() == split_on(s@, c).len(),
        forall|i: int| 0 <= i < res@.len() ==> (#[trigger] res@[i])@ == split_on(s@, c)[i],
{
    let mut res: Vec<Vec<char>> = Vec::new();
    let mut cur: Vec<char> = Vec::new();
    let mut i: usize = 0;
    while i < s.len()
        invariant
            i <= s@.len(),
            split_on(s@.take(i as int), c).len() == res@.len() + 1,
            forall|k: int| 0 <= k < res@.len() ==> (#[trigger] res@[k])@ == split_on(s@.take(i as int), c)[k],
            cur@ == split_on(s@.take(i as int), c).last(),
        decreases s@.len() - i,
    {
        let x = s[i];
        proof {
            assert(s@.take(i + 1).drop_last() == s@.take(i as int));
            assert(s@.take(i + 1).last() == x);
            lemma_split_nonempty(s@.take(i as int), c);
        }
        if x == c {
            let mut done: Vec<char> = Vec::new();
            std::mem::swap(&mut done, &mut cur);
            let ghost before = res@;
            res.push(done);
            proof {
                assert forall|k: int| 0 <= k < res@.len() implies (#[trigger] res@[k])@ == split_on(s@.take(i + 1), c)[k] by {
                    if k < before.len() { assert(res@[k] == before[k]); }
                }
            }
        } else {
            cur.push(x);
        }
        i = i + 1;
    }
    proof { assert(s@.take(s@.len() as int) == s@); }
    res.push(cur);
    res
}

/// A chunk selection: `all` chunks of `n`, or the comma-separated numbers that
/// parse (after trimming), in order; pieces that do not parse are skipped.
pub open spec fn parse_indices(spec: Seq<char>, n: usize) -> Seq<usize> {
    if spec == seq!['a', 'l', 'l'] {
        Seq::new(n as nat, |i: int| i as usize)
    } else {
        picked_numbers(split_on(spec, ','))
    }
}

/// The pieces that parse as numbers after trimming, in order.
pub open spec fn picked_numbers(ps: Seq<Seq<char>>) -> Seq<usize>
    decreases ps.len(),
{
    if ps.len() == 0 {
        Seq::empty()
    } else {
        let p = picked_numbers(ps.drop_last());
        match parse_uint(trim(ps.last()), usize::MAX as int) {
            Some(v) => p.push(v as usize),
            None => p,
        }
    }
}

/// Whether the characters spell `all`.
fn is_all(s: &[char]) -> (res: bool)
    ensures
        res == (s@ == seq!['a', 'l', 'l']),
{
    if s.len() == 3 && s[0] == 'a' && s[1] == 'l' && s[2] == 'l' {
        assert(s@ =~= seq!['a', 'l', 'l']);
        true
    } else {
        false
    }
}

/// The chunk indices that a selection names: `all` of `n`, or the numbers of a
/// comma-separated list.
pub fn parse_chunk_indices(spec: &[char], n: usize) -> (res: Vec<usize>)
    ensures
        res@ == parse_indices(spec@, n),
{
    if is_all(spec) {
        let mut res: Vec<usize> = Vec::new();
        let mut i: usize = 0;
        while i < n
            invariant
                i <= n,
                res@ == Seq::new(i as nat, |k: int| k as usize),
            decreases n - i,
        {
            res.push(i);
            proof { assert(res@ =~= Seq::new((i + 1) as nat, |k: int| k as usize)); }
            i = i + 1;
        }
        return res;
    }
    let pieces = split_chars(spec, ',');
    let ghost ps = split_on(spec@, ',');
    let mut res: Vec<usize> = Vec::new();
    let mut i: usize = 0;
    while i < pieces.len()
        invariant
            i <= pieces@.len() == ps.len(),
            forall|k: int| 0 <= k < pieces@.len() ==> (#[trigger] pieces@[k])@ == ps[k],
            res@ == picked_numbers(ps.take(i as int)),
        decreases pieces@.len() - i,
    {
        proof {
            assert(ps.take(i + 1).drop_last() == ps.take(i as int));
            assert(ps.take(i + 1).last() == ps[i as int]);
        }
        let t = trim_chars(pieces[i].as_slice());
        match parse_usize(t.as_slice()) {
            Some(v) => { res.push(v); },
            None => {},
        }
        i = i + 1;
    }
    proof { assert(ps.take(ps.len() as int) == ps); }
    res
}

/// A `START-END` range: exactly two pieces around `-`, both numbers.
pub open spec fn lines_pair(spec: Seq<char>) -> Option<(usize, usize)> {
    let ps = split_on(spec, '-');
    if ps.len() != 2 {
        None
    } else {
        match (parse_uint(ps[0], usize::MAX as int), parse_uint(ps[1], usize::MAX as int)) {
            (Some(a), Some(b)) => Some((a as usize, b as usize)),
            _ => None,
        }
    }
}

/// Reads a `START-END` range.
pub fn parse_lines_pair(spec: &[char]) -> (res: Option<(usize, usize)>)
    ensures
        res == lines_pair(spec@),
{
    let ps = split_chars(spec, '-');
    if ps.len() != 2 {
        return None;
    }
    let a = parse_usize(ps[0].as_slice());
    let b = parse_usize(ps[1].as_slice());
    match (a, b) {
        (Some(x), Some(y)) => Some((x, y)),
        _ => None,
    }
}

/// A line without the `\r` of a `\r\n` ending.
pub open spec fn strip_cr(l: Seq<char>) -> Seq<char> {
    if l.len() > 0 && l.last() == '\r' { l.drop_last() } else { l }
}

/// The lines of a text as `str::lines` gives them: split at `\n`, a `\r`
/// before the `\n` dropped, and no empty line after a final `\n`.
pub open spec fn lines_of(s: Seq<char>) -> Seq<Seq<char>> {
    let ps = split_on(s, '\n');
    let n = ps.len() - 1;
    let body = Seq::new(n as nat, |i: int| strip_cr(ps[i]));
    if ps[n].len() == 0 { body } else { body.push(ps[n]) }
}

/// The lines of a text, as `str::lines` gives them.
pub fn text_lines(s: &str) -> (res: Vec<Vec<char>>)
    ensures
        res@.len() == lines_of(s@).len(),
        forall|i: int| 0 <= i < res@.len() ==> (#[trigger] res@[i])@ == lines_of(s@)[i],
{
    let cs = crate::text::chars_of(s);
    let ps = split_chars(cs.as_slice(), '\n');
    proof { lemma_split_nonempty(cs@, '\n'); }
    let ghost sp = split_on(cs@, '\n');
    let n = ps.len() - 1;
    let mut res: Vec<Vec<char>> = Vec::new();
    let mut i: usize = 0;
    while i < n
        invariant
            i <= n,
            n + 1 == ps@.len() == sp.len(),
            forall|k: int| 0 <= k < ps@.len() ==> (#[trigger] ps@[k])@ == sp[k],
            res@.len() == i,
            forall|k: int| 0 <= k < i ==> (#[trigger] res@[k])@ == strip_cr(sp[k]),
        decreases n - i,
    {
        let p = &ps[i];
        let mut line: Vec<char> = Vec::new();
        let end = if p.len() > 0 && p[p.len() - 1] == '\r' { p.len() - 1 } else { p.len() };
        let mut j: usize = 0;
        while j < end
            invariant
                j <= end <= p@.len(),
                line@ == p@.take(j as int),
            decreases end - j,
        {
            line.push(p[j]);
            proof { assert(p@.take(j + 1) == p@.take(j as int).push(p@[j as int])); }
            j = j + 1;
        }
        proof {
            assert(sp[i as int] == p@);
            if p@.len() > 0 && p@.last() == '\r' {
                assert(p@.take(end as int) == p@.drop_last());
            } else {
                assert(p@.take(end as int) == p@);
            }
        }
        let ghost before = res@;
        res.push(line);
        proof {
            assert forall|k: int| 0 <= k < i + 1 implies (#[trigger] res@[k])@ == strip_cr(sp[k]) by {
                if k < i { assert(res@[k] == before[k]); }
            }
        }
        i = i + 1;
    }
    let last = &ps[n];
    if last.len() > 0 {
        let mut line: Vec<char> = Vec::new();
        let mut j: usize = 0;
        while j < last.len()
            invariant
                j <= last@.len(),
                line@ == last@.take(j as int),
            decreases last@.len() - j,
        {
            line.push(last[j]);
            proof { assert(last@.take(j + 1) == last@.take(j as int).push(last@[j as int])); }
            j = j + 1;
        }
        proof { assert(last@.take(last@.len() as int) == last@); }
        let ghost before = res@;
        res.push(line);
        proof {
            assert forall|k: int| 0 <= k < res@.len() implies (#[trigger] res@[k])@ == lines_of(s@)[k] by {
                if k < n { assert(res@[k] == before[k]); }
            }
        }
    } else {
        proof {
            assert forall|k: int| 0 <= k < res@.len() implies (#[trigger] res@[k])@ == lines_of(s@)[k] by {}
        }
    }
    res
}

} // verus!
