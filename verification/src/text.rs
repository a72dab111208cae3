//! Character-level string building blocks used by the renderers.

use vstd::prelude::*;
use vstd::utf8::encode_scalar;

verus! {

/// Appends one character to a string.
///
/// Calls `String::push`; the contract claims what its documentation says:
/// the character is appended at the end and nothing else changes.
#[verifier::external_body]
pub fn push_char(s: &mut String, c: char)
    ensures
        final(s)@ == old(s)@.push(c),
{
    s.push(c);
}

/// The characters of a string slice, in order.
pub fn chars_of(s: &str) -> (res: Vec<char>)
    ensures
        res@ == s@,
{
    let mut res: Vec<char> = Vec::new();
    for c in it: s.chars()
        invariant
            res@ == it.seq().take(it.index() as int),
            it.seq() == s@,
    {
        res.push(c);
    }
    res
}


/// Builds an owned string from a sequence of characters.
pub fn string_of_chars(cs: &[char]) -> (res: String)
    ensures
        res@ == cs@,
{
    let mut res = String::new();
    let mut i: usize = 0;
    while i < cs.len()
        invariant
            i <= cs@.len(),
            res@ == cs@.take(i as int),
        decreases cs@.len() - i,
    {
        push_char(&mut res, cs[i]);
        i = i + 1;
        assert(cs@.take(i as int) == cs@.take((i - 1) as int).push(cs@[i - 1]));
    }
    assert(cs@.take(cs@.len() as int) == cs@);
    res
}

/// The ASCII digit character for `d < 10`.
pub open spec fn digit_char(d: nat) -> char {
    ((d + 48) as u8) as char
}

/// Decimal notation of a natural number, without sign or leading zeros.
pub open spec fn dec(n: nat) -> Seq<char>
    decreases n,
{
    if n < 10 {
        seq![digit_char(n)]
    } else {
        dec(n / 10).push(digit_char(n % 10))
    }
}

/// Appends the decimal notation of `n` to `s` (what `format!("{}", n)` writes).
pub fn push_dec(s: &mut String, n: u64)
    ensures
        final(s)@ == old(s)@ + dec(n as nat),
    decreases n,
{
    if n >= 10 {
        push_dec(s, n / 10);
    }
    let d: u8 = (n % 10) as u8;
    push_char(s, (d + 48) as char);
    proof {
        if n >= 10 {
            assert(old(s)@ + dec(n as nat) == old(s)@ + dec((n / 10) as nat) + seq![digit_char((n % 10) as nat)]);
        }
    }
}

/// Appends the decimal notation of `n` to `s`.
pub fn push_dec_usize(s: &mut String, n: usize)
    ensures
        final(s)@ == old(s)@ + dec(n as nat),
{
    push_dec(s, n as u64);
}

/// The HTML entity text that stands for a character, or the character itself.
pub open spec fn escape_char(c: char) -> Seq<char> {
    if c == '&' {
        "&amp;"@
    } else if c == '<' {
        "&lt;"@
    } else if c == '>' {
        "&gt;"@
    } else if c == '"' {
        "&quot;"@
    } else {
        seq![c]
    }
}

/// HTML-escaping of a character sequence: `&`, `<`, `>` and `"` become entities.
pub open spec fn escape_html(s: Seq<char>) -> Seq<char>
    decreases s.len(),
{
    if s.len() == 0 {
        Seq::empty()
    } else {
        escape_html(s.drop_last()) + escape_char(s.last())
    }
}

/// Appends a character escaped for HTML.
pub fn push_escaped(out: &mut String, c: char)
    ensures
        final(out)@ == old(out)@ + escape_char(c),
{
    if c == '&' {
        out.append("&amp;");
    } else if c == '<' {
        out.append("&lt;");
    } else if c == '>' {
        out.append("&gt;");
    } else if c == '"' {
        out.append("&quot;");
    } else {
        push_char(out, c);
    }
}

/// Escapes `&`, `<`, `>` and `"` in `s` for inclusion in HTML.
pub fn html_escape(s: &str) -> (res: String)
    ensures
        res@ == escape_html(s@),
{
    let cs = chars_of(s);
    let mut res = String::new();
    let mut i: usize = 0;
    while i < cs.len()
        invariant
            i <= cs@.len(),
            cs@ == s@,
            res@ == escape_html(cs@.take(i as int)),
        decreases cs@.len() - i,
    {
        let c = cs[i];
        if c == '&' {
            res.append("&amp;");
        } else if c == '<' {
            res.append("&lt;");
        } else if c == '>' {
            res.append("&gt;");
        } else if c == '"' {
            res.append("&quot;");
        } else {
            push_char(&mut res, c);
        }
        assert(cs@.take(i + 1).drop_last() == cs@.take(i as int));
        i = i + 1;
    }
    assert(cs@.take(cs@.len() as int) == cs@);
    res
}


/// Whether the characters `s` begin with the characters of `p`.
pub fn has_prefix(s: &[char], p: &str) -> (res: bool)
    ensures
        res == p@.is_prefix_of(s@),
{
    let pc = chars_of(p);
    if pc.len() > s.len() {
        return false;
    }
    let mut i: usize = 0;
    while i < pc.len()
        invariant
            i <= pc@.len() <= s@.len(),
            pc@ == p@,
            forall|k: int| 0 <= k < i ==> pc@[k] == s@[k],
        decreases pc@.len() - i,
    {
        if pc[i] != s[i] {
            return false;
        }
        i = i + 1;
    }
    true
}

/// Whether two character slices are equal.
pub fn chars_eq(a: &[char], b: &[char]) -> (res: bool)
    ensures
        res == (a@ == b@),
{
    if a.len() != b.len() {
        return false;
    }
    let mut i: usize = 0;
    while i < a.len()
        invariant
            i <= a@.len() == b@.len(),
            forall|k: int| 0 <= k < i ==> a@[k] == b@[k],
        decreases a@.len() - i,
    {
        if a[i] != b[i] {
            return false;
        }
        i = i + 1;
    }
    assert(a@ =~= b@);
    true
}

/// Whether two strings hold the same characters.
pub fn str_eq(a: &str, b: &str) -> (res: bool)
    ensures
        res == (a@ == b@),
{
    let ac = chars_of(a);
    let bc = chars_of(b);
    chars_eq(ac.as_slice(), bc.as_slice())
}


/// The UTF-8 encoding of a character.
pub fn utf8_bytes(c: char) -> (res: Vec<u8>)
    ensures
        res@ == encode_scalar(c as u32),
{
    let v = c as u32;
    let mut res: Vec<u8> = Vec::new();
    if v <= 0x7F {
        res.push((v & 0x7F) as u8);
    } else if v <= 0x7FF {
        res.push(0xC0 | ((v >> 6) & 0x1F) as u8);
        res.push(0x80 | (v & 0x3F) as u8);
    } else if v <= 0xFFFF {
        res.push(0xE0 | ((v >> 12) & 0x0F) as u8);
        res.push(0x80 | ((v >> 6) & 0x3F) as u8);
        res.push(0x80 | (v & 0x3F) as u8);
    } else {
        res.push(0xF0 | ((v >> 18) & 0x7) as u8);
        res.push(0x80 | ((v >> 12) & 0x3F) as u8);
        res.push(0x80 | ((v >> 6) & 0x3F) as u8);
        res.push(0x80 | (v & 0x3F) as u8);
    }
    proof {
        vstd::utf8::char_is_scalar(c);
    }
    assert(res@ =~= encode_scalar(v));
    res
}

/// The first index `j >= i` with `h[j] == c`.
pub open spec fn find_from(h: Seq<char>, i: int, c: char) -> Option<int>
    decreases h.len() - i,
{
    if i < 0 || i >= h.len() {
        None
    } else if h[i] == c {
        Some(i)
    } else {
        find_from(h, i + 1, c)
    }
}

pub proof fn lemma_find_from(h: Seq<char>, i: int, c: char)
    requires
        0 <= i,
    ensures
        find_from(h, i, c) matches Some(j) ==> i <= j < h.len() && h[j] == c,
    decreases h.len() - i,
{
    if i < h.len() && h[i] != c {
        lemma_find_from(h, i + 1, c);
    }
}

/// Index of the first `c` at or after `i`.
pub fn find_char_from(h: &[char], i: usize, c: char) -> (res: Option<usize>)
    ensures
        match res {
            Some(j) => find_from(h@, i as int, c) == Some(j as int),
            None => find_from(h@, i as int, c) is None,
        },
{
    let mut j = i;
    while j < h.len()
        invariant
            i <= j,
            find_from(h@, i as int, c) == find_from(h@, j as int, c),
        decreases h@.len() - j,
    {
        if h[j] == c {
            return Some(j);
        }
        j = j + 1;
    }
    None
}

/// Appends the characters `h[from..to]`.
pub fn push_chars(out: &mut String, h: &[char], from: usize, to: usize)
    requires
        from <= to <= h@.len(),
    ensures
        final(out)@ == old(out)@ + h@.subrange(from as int, to as int),
{
    let mut q = from;
    while q < to
        invariant
            from <= q <= to <= h@.len(),
            out@ == old(out)@ + h@.subrange(from as int, q as int),
        decreases to - q,
    {
        push_char(out, h[q]);
        assert(h@.subrange(from as int, q + 1) == h@.subrange(from as int, q as int).push(h@[q as int]));
        q = q + 1;
    }
}


/// Unicode White_Space, the characters `char::is_whitespace` accepts.
pub open spec fn is_ws(c: char) -> bool {
    ('\t' <= c && c <= '\r') || c == ' ' || c == '\u{85}' || c == '\u{a0}' || c == '\u{1680}'
        || ('\u{2000}' <= c && c <= '\u{200a}') || c == '\u{2028}' || c == '\u{2029}'
        || c == '\u{202f}' || c == '\u{205f}' || c == '\u{3000}'
}

/// Whether `c` is Unicode white space.
pub fn is_whitespace(c: char) -> (res: bool)
    ensures
        res == is_ws(c),
{
    ('\t' <= c && c <= '\r') || c == ' ' || c == '\u{85}' || c == '\u{a0}' || c == '\u{1680}'
        || ('\u{2000}' <= c && c <= '\u{200a}') || c == '\u{2028}' || c == '\u{2029}'
        || c == '\u{202f}' || c == '\u{205f}' || c == '\u{3000}'
}

/// The text without leading white space.
pub open spec fn trim_start(s: Seq<char>) -> Seq<char>
    decreases s.len(),
{
    if s.len() > 0 && is_ws(s[0]) {
        trim_start(s.drop_first())
    } else {
        s
    }
}

/// The text without trailing white space.
pub open spec fn trim_end(s: Seq<char>) -> Seq<char>
    decreases s.len(),
{
    if s.len() > 0 && is_ws(s.last()) {
        trim_end(s.drop_last())
    } else {
        s
    }
}

/// The text without leading and trailing white space (`str::trim`).
pub open spec fn trim(s: Seq<char>) -> Seq<char> {
    trim_end(trim_start(s))
}

proof fn lemma_trim_start(s: Seq<char>, k: int)
    requires
        0 <= k <= s.len(),
        forall|q: int| 0 <= q < k ==> is_ws(s[q]),
    ensures
        trim_start(s) == trim_start(s.skip(k)),
    decreases k,
{
    if k > 0 {
        assert(s.drop_first().skip(k - 1) == s.skip(k));
        lemma_trim_start(s.drop_first(), k - 1);
    } else {
        assert(s.skip(0) == s);
    }
}

proof fn lemma_trim_end(s: Seq<char>, k: int)
    requires
        0 <= k <= s.len(),
        forall|q: int| k <= q < s.len() ==> is_ws(s[q]),
    ensures
        trim_end(s) == trim_end(s.take(k)),
    decreases s.len() - k,
{
    if k < s.len() {
        assert(s.drop_last().take(k) == s.take(k));
        lemma_trim_end(s.drop_last(), k);
    } else {
        assert(s.take(k) == s);
    }
}

/// The characters of `s` without leading white space (`str::trim_start`).
pub fn trim_start_chars(s: &[char]) -> (res: Vec<char>)
    ensures
        res@ == trim_start(s@),
{
    let mut a: usize = 0;
    while a < s.len() && is_whitespace(s[a])
        invariant
            a <= s@.len(),
            forall|q: int| 0 <= q < a ==> is_ws(s@[q]),
        decreases s@.len() - a,
    {
        a = a + 1;
    }
    proof { lemma_trim_start(s@, a as int); }
    let ghost t = s@.skip(a as int);
    assert(trim_start(t) == t);
    let mut res: Vec<char> = Vec::new();
    let mut q = a;
    while q < s.len()
        invariant
            a <= q <= s@.len(),
            res@ == s@.subrange(a as int, q as int),
        decreases s@.len() - q,
    {
        res.push(s[q]);
        assert(s@.subrange(a as int, q + 1) == s@.subrange(a as int, q as int).push(s@[q as int]));
        q = q + 1;
    }
    assert(res@ == t);
    res
}

/// Trimming leading white space does not lengthen a text.
pub proof fn lemma_trim_start_len(s: Seq<char>)
    ensures
        trim_start(s).len() <= s.len(),
    decreases s.len(),
{
    if s.len() > 0 && is_ws(s[0]) {
        lemma_trim_start_len(s.drop_first());
    }
}

/// The characters of `s` without leading and trailing white space.
pub fn trim_chars(s: &[char]) -> (res: Vec<char>)
    ensures
        res@ == trim(s@),
{
    let mut a: usize = 0;
    while a < s.len() && is_whitespace(s[a])
        invariant
            a <= s@.len(),
            forall|q: int| 0 <= q < a ==> is_ws(s@[q]),
        decreases s@.len() - a,
    {
        a = a + 1;
    }
    proof { lemma_trim_start(s@, a as int); }
    let ghost t = s@.skip(a as int);
    assert(trim_start(t) == t);
    let mut b: usize = s.len();
    while b > a && is_whitespace(s[b - 1])
        invariant
            a <= b <= s@.len(),
            t == s@.skip(a as int),
            forall|q: int| b - a <= q < t.len() ==> is_ws(t[q]),
        decreases b,
    {
        b = b - 1;
    }
    proof {
        lemma_trim_end(t, b - a);
        let u = t.take(b - a);
        if u.len() > 0 {
            assert(u.last() == s@[b - 1]);
        }
        assert(trim_end(u) == u);
        assert(u == s@.subrange(a as int, b as int));
    }
    let mut res: Vec<char> = Vec::new();
    let mut q = a;
    while q < b
        invariant
            a <= q <= b <= s@.len(),
            res@ == s@.subrange(a as int, q as int),
        decreases b - q,
    {
        res.push(s[q]);
        assert(s@.subrange(a as int, q + 1) == s@.subrange(a as int, q as int).push(s@[q as int]));
        q = q + 1;
    }
    res
}

/// White space collapsed: runs of white space between words become one space,
/// and leading and trailing white space is dropped (what joining
/// `split_whitespace` with single spaces gives).
pub open spec fn collapse_ws(s: Seq<char>) -> Seq<char>
    decreases s.len(),
{
    if s.len() == 0 {
        Seq::empty()
    } else {
        let p = collapse_ws(s.drop_last());
        let c = s.last();
        if is_ws(c) {
            p
        } else if s.len() >= 2 && !is_ws(s[s.len() - 2]) {
            p.push(c)
        } else if p.len() == 0 {
            p.push(c)
        } else {
            p.push(' ').push(c)
        }
    }
}

/// The words of `s` joined by single spaces.
pub fn collapse_whitespace(s: &[char]) -> (res: Vec<char>)
    ensures
        res@ == collapse_ws(s@),
{
    let mut res: Vec<char> = Vec::new();
    let mut i: usize = 0;
    while i < s.len()
        invariant
            i <= s@.len(),
            res@ == collapse_ws(s@.take(i as int)),
        decreases s@.len() - i,
    {
        let c = s[i];
        proof {
            assert(s@.take(i + 1).drop_last() == s@.take(i as int));
            assert(s@.take(i + 1).last() == c);
            if i >= 1 {
                assert(s@.take(i + 1)[i - 1] == s@[i - 1]);
            }
        }
        if is_whitespace(c) {
        } else if i >= 1 && !is_whitespace(s[i - 1]) {
            res.push(c);
        } else if res.len() == 0 {
            res.push(c);
        } else {
            res.push(' ');
            res.push(c);
        }
        i = i + 1;
    }
    assert(s@.take(s@.len() as int) == s@);
    res
}

} // verus!
