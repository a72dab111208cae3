//! The walkthrough page: front matter, the fenced blocks of the markdown
//! (diff references, source excerpts, notes and folds) and the passes that
//! turn the rendered markdown into the page body.

use vstd::prelude::*;
use crate::parse::{is_digit, lines_of, parse_uint, parse_usize, split_chars, split_on, text_lines};
use crate::syntax::{boff, clen, detect_language, detected_language, join_lines, join_texts, lemma_join_texts, lemma_syntax_texts, syntax_highlight_lines, syntax_lines, syntax_texts, texts, SyntaxHighlighter};
use crate::text::{trim_start, utf8_bytes};
use crate::refs::{has_at, has_lit_at, match_ref_body, ref_body, ref_of, ref_texts, ref_view, word_len, word_run, ws_len, ws_run, DifftRef};
use crate::htmldiff::opt_str;
use crate::tables::{contains_exec, contains_sub, find_sub, find_sub_exec, has_at_exec, push_range, replace_all, replace_all_exec, replace_first, replace_first_exec};
use crate::text::{chars_of, dec, escape_html, find_char_from, find_from, html_escape, lemma_find_from, push_dec, string_of_chars, trim, trim_chars};

verus! {

/// The first index of an entry with key `k`.
pub open spec fn key_index(m: Seq<(Seq<char>, Seq<char>)>, k: Seq<char>, i: int) -> Option<int>
    decreases m.len() - i,
{
    if i < 0 || i >= m.len() {
        None
    } else if m[i].0 == k {
        Some(i)
    } else {
        key_index(m, k, i + 1)
    }
}

/// `m` with the value of key `k` set to `v`: in place when `k` is present,
/// appended otherwise.
pub open spec fn fm_insert(m: Seq<(Seq<char>, Seq<char>)>, k: Seq<char>, v: Seq<char>) -> Seq<(Seq<char>, Seq<char>)> {
    match key_index(m, k, 0) {
        Some(i) => m.update(i, (k, v)),
        None => m.push((k, v)),
    }
}

/// The `key: value` entries of front-matter lines: each line with a colon
/// gives the trimmed text before its first colon and the trimmed rest; a
/// later entry for a key replaces the value of an earlier one.
pub open spec fn fm_entries(lines: Seq<Seq<char>>) -> Seq<(Seq<char>, Seq<char>)>
    decreases lines.len(),
{
    if lines.len() == 0 {
        Seq::empty()
    } else {
        let m = fm_entries(lines.drop_last());
        let l = lines.last();
        match find_from(l, 0, ':') {
            Some(i) => fm_insert(m, trim(l.take(i)), trim(l.skip(i + 1))),
            None => m,
        }
    }
}

/// The text without leading newlines.
pub open spec fn skip_nl(s: Seq<char>) -> Seq<char>
    decreases s.len(),
{
    if s.len() > 0 && s[0] == '\n' { skip_nl(s.drop_first()) } else { s }
}

/// The text without leading `\r\n` pairs.
pub open spec fn skip_crlf(s: Seq<char>) -> Seq<char>
    decreases s.len(),
{
    if s.len() >= 2 && s[0] == '\r' && s[1] == '\n' { skip_crlf(s.skip(2)) } else { s }
}

/// The front matter's entries and the markdown after it. Front matter opens
/// the text with a `---` line and closes at the next line that starts with
/// `---`; without both, there is none and the markdown is the whole text.
pub open spec fn frontmatter(raw: Seq<char>) -> (Seq<(Seq<char>, Seq<char>)>, Seq<char>) {
    let crlf = has_at(raw, 0, seq!['-', '-', '-', '\r', '\n']);
    if !(has_at(raw, 0, seq!['-', '-', '-', '\n']) || crlf) {
        (Seq::empty(), raw)
    } else {
        let marker = if crlf { seq!['\r', '\n', '-', '-', '-'] } else { seq!['\n', '-', '-', '-'] };
        match find_sub(raw, 4, marker) {
            None => (Seq::empty(), raw),
            Some(e) => (fm_entries(lines_of(raw.subrange(4, e))), skip_crlf(skip_nl(raw.skip(e + marker.len())))),
        }
    }
}

/// A front-matter entry.
pub struct MetaEntry {
    pub key: String,
    pub value: String,
}

/// The view of front-matter entries.
pub open spec fn meta_view(m: Seq<MetaEntry>) -> Seq<(Seq<char>, Seq<char>)> {
    m.map_values(|e: MetaEntry| (e.key@, e.value@))
}

fn meta_insert(m: &mut Vec<MetaEntry>, k: String, v: String)
    ensures
        meta_view(final(m)@) == fm_insert(meta_view(old(m)@), k@, v@),
{
    let ghost mv = meta_view(m@);
    let mut i: usize = 0;
    while i < m.len()
        invariant
            i <= m@.len(),
            mv == meta_view(m@),
            mv == meta_view(old(m)@),
            key_index(mv, k@, 0) == key_index(mv, k@, i as int),
        decreases m@.len() - i,
    {
        if crate::text::str_eq(m[i].key.as_str(), k.as_str()) {
            assert(mv[i as int] == (m@[i as int].key@, m@[i as int].value@));
            assert(mv[i as int].0 == k@);
            assert(key_index(mv, k@, i as int) == Some(i as int));
            m.set(i, MetaEntry { key: k, value: v });
            proof {
                assert(meta_view(m@) =~= mv.update(i as int, (k@, v@)));
            }
            return;
        }
        assert(mv[i as int] == (m@[i as int].key@, m@[i as int].value@));
        i = i + 1;
    }
    m.push(MetaEntry { key: k, value: v });
    proof {
        assert(meta_view(m@) =~= mv.push((k@, v@)));
    }
}

fn chars_string(cs: &[char], a: usize, b: usize) -> (res: String)
    requires
        a <= b <= cs@.len(),
    ensures
        res@ == cs@.subrange(a as int, b as int),
{
    let mut s = String::new();
    push_range(&mut s, cs, a, b);
    s
}

/// Splits off the front matter of a walkthrough: its `key: value` entries (a
/// later one for a key replaces the value, in the key's first place) and the
/// markdown that follows it.
pub fn parse_frontmatter(raw: &str) -> (res: (Vec<MetaEntry>, String))
    ensures
        (meta_view(res.0@), res.1@) == frontmatter(raw@),
{
    let cs = chars_of(raw);
    let total = cs.len();
    let lf: [char; 4] = ['-', '-', '-', '\n'];
    let crlf_open: [char; 5] = ['-', '-', '-', '\r', '\n'];
    let crlf = has_at_exec(cs.as_slice(), 0, crlf_open.as_slice());
    let lf_open = has_at_exec(cs.as_slice(), 0, lf.as_slice());
    proof {
        assert(crlf_open@ == seq!['-', '-', '-', '\r', '\n']);
        assert(lf@ == seq!['-', '-', '-', '\n']);
    }
    let mut meta: Vec<MetaEntry> = Vec::new();
    if !(lf_open || crlf) {
        proof { assert(meta_view(meta@) =~= Seq::<(Seq<char>, Seq<char>)>::empty()); }
        return (meta, raw.to_owned());
    }
    let m_crlf: [char; 5] = ['\r', '\n', '-', '-', '-'];
    let m_lf: [char; 4] = ['\n', '-', '-', '-'];
    proof {
        assert(m_crlf@ == seq!['\r', '\n', '-', '-', '-']);
        assert(m_lf@ == seq!['\n', '-', '-', '-']);
    }
    let mlen: usize = if crlf { 5 } else { 4 };
    let e: usize;
    if crlf {
        let mc: &[char] = m_crlf.as_slice();
        assert(mc@.len() == 5);
        match find_sub_exec(cs.as_slice(), 4, mc) {
            None => {
                proof { assert(meta_view(meta@) =~= Seq::<(Seq<char>, Seq<char>)>::empty()); }
                return (meta, raw.to_owned());
            },
            Some(x) => { e = x; },
        }
    } else {
        let ml: &[char] = m_lf.as_slice();
        assert(ml@.len() == 4);
        match find_sub_exec(cs.as_slice(), 4, ml) {
            None => {
                proof { assert(meta_view(meta@) =~= Seq::<(Seq<char>, Seq<char>)>::empty()); }
                return (meta, raw.to_owned());
            },
            Some(x) => { e = x; },
        }
    }
    assert(4 <= e && e + mlen <= cs@.len());
    let fm = chars_string(cs.as_slice(), 4, e);
    let lines = text_lines(fm.as_str());
    let ghost ls = lines_of(fm@);
    let mut k: usize = 0;
    proof { assert(meta_view(meta@) =~= fm_entries(ls.take(0))); }
    while k < lines.len()
        invariant
            k <= lines@.len(),
            lines@.len() == ls.len(),
            forall|q: int| 0 <= q < lines@.len() ==> (#[trigger] lines@[q])@ == ls[q],
            meta_view(meta@) == fm_entries(ls.take(k as int)),
        decreases lines@.len() - k,
    {
        let l = &lines[k];
        proof {
            assert(ls.take(k + 1).drop_last() == ls.take(k as int));
            assert(ls.take(k + 1).last() == l@);
        }
        match find_char_from(l.as_slice(), 0, ':') {
            Some(i) => {
                proof {
                    lemma_find_from(l@, 0, ':');
                    assert(find_from(l@, 0, ':') == Some(i as int));
                }
                let n = l.len();
                assert(i < n);
                let key_part = trim_chars(crate::tables::sub_vec(l.as_slice(), 0, i).as_slice());
                let val_part = trim_chars(crate::tables::sub_vec(l.as_slice(), i + 1, n).as_slice());
                proof {
                    assert(l@.subrange(0, i as int) == l@.take(i as int));
                    assert(l@.subrange(i + 1, l@.len() as int) == l@.skip(i + 1));
                }
                meta_insert(&mut meta, string_of_chars(key_part.as_slice()), string_of_chars(val_part.as_slice()));
            },
            None => {},
        }
        k = k + 1;
    }
    proof { assert(ls.take(lines@.len() as int) == ls); }
    let mut p = e + mlen;
    while p < cs.len() && cs[p] == '\n'
        invariant
            e + mlen <= p <= cs@.len(),
            skip_nl(cs@.skip(e + mlen)) == skip_nl(cs@.skip(p as int)),
        decreases cs@.len() - p,
    {
        proof { assert(cs@.skip(p as int).drop_first() == cs@.skip(p + 1)); }
        p = p + 1;
    }
    proof {
        if p < cs@.len() { assert(cs@.skip(p as int)[0] == cs@[p as int]); }
    }
    while cs.len() - p >= 2 && cs[p] == '\r' && cs[p + 1] == '\n'
        invariant
            e + mlen <= p <= cs@.len(),
            skip_crlf(skip_nl(cs@.skip(e + mlen))) == skip_crlf(cs@.skip(p as int)),
        decreases cs@.len() - p,
    {
        proof { assert(cs@.skip(p as int).skip(2) == cs@.skip(p + 2)); }
        p = p + 2;
    }
    proof {
        if p + 1 < cs@.len() {
            assert(cs@.skip(p as int)[0] == cs@[p as int]);
            assert(cs@.skip(p as int)[1] == cs@[p + 1]);
        }
    }
    let body = chars_string(cs.as_slice(), p, cs.len());
    proof { assert(cs@.subrange(p as int, cs@.len() as int) == cs@.skip(p as int)); }
    (meta, body)
}

/// A reference `difft FILE chunks=SPEC [lines=RANGE]` in a fence's trimmed
/// info string, as `^difft\s+(\S+)\s+chunks=(\S+)(?:\s+lines=(\S+))?` reads it.
pub open spec fn difft_info(t: Seq<char>) -> Option<(Seq<char>, Seq<char>, Option<Seq<char>>)> {
    if has_at(t, 0, "difft"@) {
        match ref_body(t, 5) {
            Some(m) => Some(ref_texts(t, m)),
            None => None,
        }
    } else {
        None
    }
}

/// Reads the diff reference in a fence's trimmed info string.
pub fn parse_difft_info(t: &[char]) -> (res: Option<DifftRef>)
    ensures
        match res {
            Some(r) => difft_info(t@) == Some(ref_view(r)),
            None => difft_info(t@) is None,
        },
{
    if !has_lit_at(t, 0, "difft") {
        return None;
    }
    proof { reveal_strlit("difft"); }
    let n = t.len();
    match match_ref_body(t, 5) {
        Some(m) => Some(ref_of(t, m)),
        None => None,
    }
}

/// The length of the run of ASCII digits from `i`.
pub open spec fn digit_run(s: Seq<char>, i: int) -> int
    decreases s.len() - i,
{
    if 0 <= i < s.len() && is_digit(s[i]) { 1 + digit_run(s, i + 1) } else { 0 }
}

/// `:(\d+)-(\d+)` at `k`, as the ranges of the two numbers.
pub open spec fn range_at(s: Seq<char>, k: int) -> Option<((int, int), (int, int))> {
    if 0 <= k < s.len() && s[k] == ':' {
        let d1 = digit_run(s, k + 1);
        let m = k + 1 + d1;
        if d1 >= 1 && m < s.len() && s[m] == '-' && digit_run(s, m + 1) >= 1 {
            Some(((k + 1, m), (m + 1, m + 1 + digit_run(s, m + 1))))
        } else {
            None
        }
    } else {
        None
    }
}

/// The longest file part `s[a..a + j]` with `1 <= j <= k` followed by `:N-M`.
pub open spec fn src_split(s: Seq<char>, a: int, k: int) -> Option<(int, ((int, int), (int, int)))>
    decreases k,
{
    if k < 1 {
        None
    } else {
        match range_at(s, a + k) {
            Some(r) => Some((a + k, r)),
            None => src_split(s, a, k - 1),
        }
    }
}

/// `(\S+):(\d+)-(\d+)` at `a`: the file's end and the number ranges.
pub open spec fn src_tail(s: Seq<char>, a: int) -> Option<(int, int, ((int, int), (int, int)))> {
    match src_split(s, a, word_run(s, a)) {
        Some(x) => Some((a, x.0, x.1)),
        None => None,
    }
}

/// A source excerpt `src [old ]FILE:START-END` in a fence's trimmed info
/// string, as `^src\s+(?:old\s+)?(\S+):(\d+)-(\d+)` reads it (digits being
/// ASCII digits): the file's range and the two numbers' ranges.
pub open spec fn src_info(s: Seq<char>) -> Option<(int, int, ((int, int), (int, int)))> {
    if !has_at(s, 0, "src"@) || ws_run(s, 3) == 0 {
        None
    } else {
        let a = 3 + ws_run(s, 3);
        let b = a + 3 + ws_run(s, a + 3);
        if has_at(s, a, "old"@) && ws_run(s, a + 3) > 0 && src_tail(s, b) is Some {
            src_tail(s, b)
        } else {
            src_tail(s, a)
        }
    }
}

/// A number of the excerpt, or 1 when it does not fit.
pub open spec fn src_number(d: Seq<char>) -> usize {
    match parse_uint(d, usize::MAX as int) {
        Some(v) => v as usize,
        None => 1,
    }
}

fn digit_len(s: &[char], i: usize) -> (n: usize)
    requires
        i <= s@.len(),
    ensures
        n as int == digit_run(s@, i as int),
        i + n <= s@.len(),
{
    let mut k: usize = i;
    while k < s.len() && '0' <= s[k] && s[k] <= '9'
        invariant
            i <= k <= s@.len(),
            digit_run(s@, i as int) == (k - i) + digit_run(s@, k as int),
        decreases s@.len() - k,
    {
        k = k + 1;
    }
    k - i
}

fn range_at_exec(s: &[char], k: usize) -> (res: Option<((usize, usize), (usize, usize))>)
    ensures
        match range_at(s@, k as int) {
            Some(r) => res == Some(((r.0.0 as usize, r.0.1 as usize), (r.1.0 as usize, r.1.1 as usize)))
                && k < r.0.0 < r.0.1 < r.1.0 < r.1.1 <= s@.len(),
            None => res is None,
        },
{
    let n = s.len();
    if k >= n || s[k] != ':' {
        return None;
    }
    let d1 = digit_len(s, k + 1);
    let m = k + 1 + d1;
    if d1 >= 1 && m < n && s[m] == '-' {
        let d2 = digit_len(s, m + 1);
        if d2 >= 1 {
            return Some(((k + 1, m), (m + 1, m + 1 + d2)));
        }
    }
    None
}

fn src_tail_exec(s: &[char], a: usize) -> (res: Option<(usize, usize, ((usize, usize), (usize, usize)))>)
    requires
        a <= s@.len(),
    ensures
        match src_tail(s@, a as int) {
            Some(r) => res == Some((r.0 as usize, r.1 as usize, ((r.2.0.0 as usize, r.2.0.1 as usize), (r.2.1.0 as usize, r.2.1.1 as usize))))
                && a == r.0 < r.1 < r.2.0.0 < r.2.0.1 < r.2.1.0 < r.2.1.1 <= s@.len(),
            None => res is None,
        },
{
    let n = s.len();
    let w = word_len(s, a);
    let mut k = w;
    while k >= 1
        invariant
            k <= w,
            n == s@.len(),
            a + w <= s@.len(),
            w as int == word_run(s@, a as int),
            src_split(s@, a as int, w as int) == src_split(s@, a as int, k as int),
        decreases k,
    {
        match range_at_exec(s, a + k) {
            Some(r) => {
                return Some((a, a + k, r));
            },
            None => {},
        }
        k = k - 1;
    }
    None
}

/// A source excerpt named in a fence's trimmed info string: the file, the
/// first and last lines (1-based), as [`src_info`] reads them.
pub fn parse_src_info(t: &[char]) -> (res: Option<(String, usize, usize)>)
    ensures
        match src_info(t@) {
            Some(m) => res matches Some(r) && r.0@ == t@.subrange(m.0, m.1)
                && r.1 == src_number(t@.subrange(m.2.0.0, m.2.0.1))
                && r.2 == src_number(t@.subrange(m.2.1.0, m.2.1.1)),
            None => res is None,
        },
{
    if !has_lit_at(t, 0, "src") {
        return None;
    }
    proof { reveal_strlit("src"); reveal_strlit("old"); }
    let n = t.len();
    let w0 = ws_len(t, 3);
    if w0 == 0 {
        return None;
    }
    let a = 3 + w0;
    let mut found: Option<(usize, usize, ((usize, usize), (usize, usize)))> = None;
    if has_lit_at(t, a, "old") {
        let w1 = ws_len(t, a + 3);
        if w1 > 0 {
            found = src_tail_exec(t, a + 3 + w1);
        }
    }
    if found.is_none() {
        found = src_tail_exec(t, a);
    }
    match found {
        None => None,
        Some((fs, fe, ((s1, e1), (s2, e2)))) => {
            let file = chars_string(t, fs, fe);
            let start = match parse_usize(crate::tables::sub_vec(t, s1, e1).as_slice()) { Some(v) => v, None => 1 };
            let end = match parse_usize(crate::tables::sub_vec(t, s2, e2).as_slice()) { Some(v) => v, None => 1 };
            Some((file, start, end))
        },
    }
}

/// The last position `i` with `i + p.len() <= end` where the non-empty `p`
/// occurs in `h` (`str::rfind` on the text before `end`).
pub open spec fn rfind_sub(h: Seq<char>, end: int, p: Seq<char>) -> Option<int>
    decreases end,
{
    if end <= 0 || end < p.len() || end > h.len() {
        None
    } else if has_at(h, end - p.len(), p) {
        Some(end - p.len())
    } else {
        rfind_sub(h, end - 1, p)
    }
}

pub(crate) fn rfind_sub_exec(h: &[char], end: usize, p: &[char]) -> (res: Option<usize>)
    requires
        end <= h@.len(),
    ensures
        match rfind_sub(h@, end as int, p@) {
            Some(x) => res == Some(x as usize) && 0 <= x && x + p@.len() <= end,
            None => res is None,
        },
{
    let mut e = end;
    while e >= p.len() && e > 0
        invariant
            e <= end <= h@.len(),
            rfind_sub(h@, end as int, p@) == rfind_sub(h@, e as int, p@),
        decreases e,
    {
        if has_at_exec(h, e - p.len(), p) {
            return Some(e - p.len());
        }
        e = e - 1;
    }
    None
}

/// Where the tag that opens at `tr` ends: at its `>`, or at `tr` when there is none.
pub open spec fn tag_close(h: Seq<char>, tr: int) -> int {
    match find_from(h, tr, '>') {
        Some(j) => j,
        None => tr,
    }
}

/// A row's opening tag with a note added: appended to the notes it has, or
/// as a new `data-notes` attribute with the row marked `annotated`.
pub open spec fn noted_tag(tag: Seq<char>, esc: Seq<char>) -> Seq<char> {
    if contains_sub(tag, "data-notes=\""@) {
        replace_all(tag, "data-notes=\""@, "data-notes=\""@ + esc + "&#x7c;"@)
    } else {
        (if contains_sub(tag, "annotated"@) { tag } else { replace_first(tag, "class=\""@, "class=\"annotated "@) })
            + " data-notes=\""@ + esc + "\""@
    }
}

/// The line-number cell `class="ln ln-SIDE">N</td>`.
pub open spec fn ln_cell(side: Seq<char>, n: nat) -> Seq<char> {
    "class=\"ln "@ + side + "\">"@ + dec(n) + "</td>"@
}

/// The block with a note on the row whose old (else new) line number is `n`;
/// unchanged when neither has such a row.
pub open spec fn note_line(h: Seq<char>, n: nat, esc: Seq<char>) -> Seq<char> {
    let l = match find_sub(h, 0, ln_cell("ln-lhs"@, n)) {
        Some(td) => rfind_sub(h, td, "<tr"@),
        None => None,
    };
    let r = match find_sub(h, 0, ln_cell("ln-rhs"@, n)) {
        Some(td) => rfind_sub(h, td, "<tr"@),
        None => None,
    };
    let tr = if l is Some { l } else { r };
    match tr {
        Some(t) => h.take(t) + noted_tag(h.subrange(t, tag_close(h, t)), esc) + h.skip(tag_close(h, t)),
        None => h,
    }
}

/// The block with a note on the rows of lines `s .. s + k`.
pub open spec fn note_run(h: Seq<char>, s: nat, k: nat, esc: Seq<char>) -> Seq<char>
    decreases k,
{
    if k == 0 { h } else { note_line(note_run(h, s, (k - 1) as nat, esc), (s + k - 1) as nat, esc) }
}

/// A note `(start, end, text)` on the rows of lines `start..=end`.
pub open spec fn note_block(h: Seq<char>, a: (u64, u64, Seq<char>)) -> Seq<char> {
    if a.0 <= a.1 { note_run(h, a.0 as nat, (a.1 - a.0 + 1) as nat, escape_html(a.2)) } else { h }
}

/// A note covers each line of its range: a note over `s..=e` is the note
/// over `s..=e-1` with the row of line `e` annotated as well, a note over a
/// single line annotates that line's row, and a note whose range is empty
/// changes nothing. So every line of `s..=e` gets the note, one by one.
pub proof fn lemma_note_block_lines(h: Seq<char>, s: u64, e: u64, t: Seq<char>)
    ensures
        s < e ==> note_block(h, (s, e, t)) == note_line(note_block(h, (s, (e - 1) as u64, t)), e as nat, escape_html(t)),
        note_block(h, (s, s, t)) == note_line(h, s as nat, escape_html(t)),
        e < s ==> note_block(h, (s, e, t)) == h,
{
    let esc = escape_html(t);
    assert(note_run(h, s as nat, 0, esc) == h);
    if s < e {
        assert((e - s + 1) as nat == ((e - 1) as u64 - s + 1) as nat + 1);
        assert((s + ((e - s + 1) as nat) - 1) as nat == e as nat);
    }
}

/// The block with the notes added in order.
pub open spec fn notes_block(h: Seq<char>, ns: Seq<(u64, u64, Seq<char>)>) -> Seq<char>
    decreases ns.len(),
{
    if ns.len() == 0 { h } else { note_block(notes_block(h, ns.drop_last()), ns.last()) }
}

fn lit_chars(s: &str) -> (res: Vec<char>)
    ensures
        res@ == s@,
{
    chars_of(s)
}

fn ln_cell_exec(side: &str, n: u64) -> (res: Vec<char>)
    ensures
        res@ == ln_cell(side@, n as nat),
{
    let mut s = String::new();
    s.append("class=\"ln ");
    s.append(side);
    s.append("\">");
    push_dec(&mut s, n);
    s.append("</td>");
    chars_of(s.as_str())
}

fn noted_tag_exec(tag: &[char], esc: &str) -> (res: String)
    ensures
        res@ == noted_tag(tag@, esc@),
{
    if contains_exec(tag, "data-notes=\"") {
        let mut rep = String::new();
        rep.append("data-notes=\"");
        rep.append(esc);
        rep.append("&#x7c;");
        let pat = lit_chars("data-notes=\"");
        replace_all_exec(tag, pat.as_slice(), rep.as_str())
    } else {
        let mut out = if contains_exec(tag, "annotated") {
            string_of_chars(tag)
        } else {
            replace_first_exec(tag, "class=\"", "class=\"annotated ")
        };
        out.append(" data-notes=\"");
        out.append(esc);
        out.append("\"");
        out
    }
}

fn tag_close_exec(h: &[char], tr: usize) -> (res: usize)
    requires
        tr <= h@.len(),
    ensures
        res as int == tag_close(h@, tr as int),
        tr <= res <= h@.len(),
{
    match find_char_from(h, tr, '>') {
        Some(j) => {
            proof { lemma_find_from(h@, tr as int, '>'); }
            j
        },
        None => tr,
    }
}

fn replace_tag(h: &[char], t: usize, c: usize, tag: &str) -> (res: Vec<char>)
    requires
        t <= c <= h@.len(),
    ensures
        res@ == h@.take(t as int) + tag@ + h@.skip(c as int),
{
    let mut s = String::new();
    push_range(&mut s, h, 0, t);
    s.append(tag);
    push_range(&mut s, h, c, h.len());
    proof {
        assert(h@.subrange(0, t as int) == h@.take(t as int));
        assert(h@.subrange(c as int, h@.len() as int) == h@.skip(c as int));
    }
    chars_of(s.as_str())
}

fn note_line_exec(h: &Vec<char>, n: u64, esc: &str) -> (res: Vec<char>)
    ensures
        res@ == note_line(h@, n as nat, esc@),
{
    proof { reveal_strlit("ln-lhs"); reveal_strlit("ln-rhs"); reveal_strlit("<tr"); }
    let total = h.len();
    let lc = ln_cell_exec("ln-lhs", n);
    let rc = ln_cell_exec("ln-rhs", n);
    let trp = lit_chars("<tr");
    let l = match find_sub_exec(h.as_slice(), 0, lc.as_slice()) {
        Some(td) => rfind_sub_exec(h.as_slice(), td, trp.as_slice()),
        None => None,
    };
    let tr = if l.is_some() {
        l
    } else {
        match find_sub_exec(h.as_slice(), 0, rc.as_slice()) {
            Some(td) => rfind_sub_exec(h.as_slice(), td, trp.as_slice()),
            None => None,
        }
    };
    match tr {
        Some(t) => {
            let c = tag_close_exec(h.as_slice(), t);
            let tag = crate::tables::sub_vec(h.as_slice(), t, c);
            let nt = noted_tag_exec(tag.as_slice(), esc);
            replace_tag(h.as_slice(), t, c, nt.as_str())
        },
        None => h.clone(),
    }
}

fn note_block_exec(h: Vec<char>, s: u64, e: u64, text: &str) -> (res: Vec<char>)
    ensures
        res@ == note_block(h@, (s, e, text@)),
{
    if s > e {
        return h;
    }
    let esc = html_escape(text);
    let ghost h0 = h@;
    let mut cur = note_line_exec(&h, s, esc.as_str());
    proof {
        assert(note_run(h0, s as nat, 1, esc@) == note_line(note_run(h0, s as nat, 0, esc@), s as nat, esc@));
    }
    let mut ln = s;
    while ln < e
        invariant
            s <= ln <= e,
            cur@ == note_run(h0, s as nat, (ln - s + 1) as nat, esc@),
        decreases e - ln,
    {
        ln = ln + 1;
        cur = note_line_exec(&cur, ln, esc.as_str());
        proof {
            assert(note_run(h0, s as nat, (ln - s + 1) as nat, esc@)
                == note_line(note_run(h0, s as nat, (ln - s) as nat, esc@), ln as nat, esc@));
        }
    }
    cur
}

/// A number, or `dflt` when it does not fit.
pub open spec fn number_or(d: Seq<char>, dflt: int) -> int {
    match parse_uint(d, usize::MAX as int) {
        Some(v) => v,
        None => dflt,
    }
}

/// `(\d+)(?:-(\d+))?:\s*` from `p0` on: the first number, the second if
/// any, and where the text after the colon and white space starts.
pub open spec fn range_head(t: Seq<char>, p0: int) -> Option<(Seq<char>, Option<Seq<char>>, int)> {
    let d1 = digit_run(t, p0);
    let a = p0 + d1;
    let g = a < t.len() && t[a] == '-' && digit_run(t, a + 1) >= 1;
    let p = if g { a + 1 + digit_run(t, a + 1) } else { a };
    if d1 == 0 || !(p < t.len() && t[p] == ':') {
        None
    } else {
        Some((t.subrange(p0, a), if g { Some(t.subrange(a + 1, p)) } else { None }, p + 1 + ws_run(t, p + 1)))
    }
}

/// A note line `N[-M]: TEXT` (trimmed), as `^(\d+)(?:-(\d+))?:\s*(.+)$` reads it.
pub open spec fn note_parts(t: Seq<char>) -> Option<(Seq<char>, Option<Seq<char>>, Seq<char>)> {
    match range_head(t, 0) {
        Some(h) => if h.2 < t.len() { Some((h.0, h.1, t.skip(h.2))) } else { None },
        None => None,
    }
}

/// The relative start and end of a `N[-M]` range: a number that does not fit
/// counts as `dflt` for the start, and as the start for the end.
pub open spec fn rel_range(a: Seq<char>, b: Option<Seq<char>>, dflt: int) -> (int, int) {
    let rs = number_or(a, dflt);
    (rs, match b { Some(x) => number_or(x, rs), None => rs })
}

/// The notes of a notes block's lines, their lines made absolute from `base`;
/// `None` when a line number overflows.
pub open spec fn notes_of(lines: Seq<Seq<char>>, base: int) -> Option<Seq<(u64, u64, Seq<char>)>>
    decreases lines.len(),
{
    if lines.len() == 0 {
        Some(Seq::empty())
    } else {
        match notes_of(lines.drop_last(), base) {
            None => None,
            Some(ns) => {
                let t = trim(lines.last());
                if t.len() == 0 {
                    Some(ns)
                } else {
                    match note_parts(t) {
                        None => Some(ns),
                        Some(m) => {
                            let r = rel_range(m.0, m.1, 0);
                            if base + r.0 > usize::MAX || base + r.1 > usize::MAX {
                                None
                            } else {
                                Some(ns.push(((base + r.0) as u64, (base + r.1) as u64, m.2)))
                            }
                        },
                    }
                }
            },
        }
    }
}

/// A note `(start, end, text)`.
pub struct Note {
    pub start: u64,
    pub end: u64,
    pub text: String,
}

/// The view of notes.
pub open spec fn notes_view(v: Seq<Note>) -> Seq<(u64, u64, Seq<char>)> {
    v.map_values(|n: Note| (n.start, n.end, n.text@))
}

fn number_or_exec(d: &[char], dflt: usize) -> (res: usize)
    ensures
        res as int == number_or(d@, dflt as int),
{
    proof { crate::parse::lemma_parse_uint_nonneg(d@, usize::MAX as int); }
    match parse_usize(d) {
        Some(v) => v,
        None => dflt,
    }
}

proof fn lemma_notes_none(ls: Seq<Seq<char>>, base: int, k: int)
    requires
        0 <= k <= ls.len(),
        notes_of(ls.take(k), base) is None,
    ensures
        notes_of(ls, base) is None,
    decreases ls.len() - k,
{
    if k < ls.len() {
        assert(ls.take(k + 1).drop_last() == ls.take(k));
        lemma_notes_none(ls, base, k + 1);
    } else {
        assert(ls.take(k) == ls);
    }
}

proof fn lemma_folds_none(ls: Seq<Seq<char>>, bn: int, bo: int, k: int)
    requires
        0 <= k <= ls.len(),
        folds_of(ls.take(k), bn, bo) is None,
    ensures
        folds_of(ls, bn, bo) is None,
    decreases ls.len() - k,
{
    if k < ls.len() {
        assert(ls.take(k + 1).drop_last() == ls.take(k));
        lemma_folds_none(ls, bn, bo, k + 1);
    } else {
        assert(ls.take(k) == ls);
    }
}

fn range_head_exec(t: &[char], p0: usize) -> (res: Option<((usize, usize), Option<(usize, usize)>, usize)>)
    requires
        p0 <= t@.len(),
    ensures
        match range_head(t@, p0 as int) {
            Some(h) => res matches Some(r) && h.0 == t@.subrange(r.0.0 as int, r.0.1 as int)
                && r.0.0 <= r.0.1 <= t@.len()
                && (match r.1 { Some(x) => x.0 <= x.1 <= t@.len() && h.1 == Some(t@.subrange(x.0 as int, x.1 as int)), None => h.1 is None })
                && h.2 == r.2 as int && r.2 <= t@.len(),
            None => res is None,
        },
{
    let n = t.len();
    let d1 = digit_len(t, p0);
    let a = p0 + d1;
    let g = a < n && t[a] == '-' && digit_len(t, a + 1) >= 1;
    let p = if g { a + 1 + digit_len(t, a + 1) } else { a };
    if d1 == 0 || !(p < n && t[p] == ':') {
        return None;
    }
    let q = p + 1 + ws_len(t, p + 1);
    Some(((p0, a), if g { Some((a + 1, p)) } else { None }, q))
}

/// The notes of a notes block's body, their line numbers made absolute from
/// `base`; `None` when a line number overflows.
pub fn parse_notes(body: &str, base: usize) -> (res: Option<Vec<Note>>)
    ensures
        match notes_of(lines_of(body@), base as int) {
            Some(ns) => res matches Some(v) && notes_view(v@) == ns,
            None => res is None,
        },
{
    let lines = text_lines(body);
    let ghost ls = lines_of(body@);
    let mut out: Vec<Note> = Vec::new();
    let mut k: usize = 0;
    proof { assert(notes_view(out@) =~= Seq::<(u64, u64, Seq<char>)>::empty()); }
    while k < lines.len()
        invariant
            k <= lines@.len(),
            lines@.len() == ls.len(),
            forall|q: int| 0 <= q < lines@.len() ==> (#[trigger] lines@[q])@ == ls[q],
            ls == lines_of(body@),
            notes_of(ls.take(k as int), base as int) == Some(notes_view(out@)),
        decreases lines@.len() - k,
    {
        proof {
            assert(ls.take(k + 1).drop_last() == ls.take(k as int));
            assert(ls.take(k + 1).last() == lines@[k as int]@);
        }
        let t = trim_chars(lines[k].as_slice());
        if t.len() > 0 {
            match range_head_exec(t.as_slice(), 0) {
                Some(((a0, a1), b, q)) => {
                    if q < t.len() {
                        let rs = number_or_exec(crate::tables::sub_vec(t.as_slice(), a0, a1).as_slice(), 0);
                        let re = match b {
                            Some((b0, b1)) => number_or_exec(crate::tables::sub_vec(t.as_slice(), b0, b1).as_slice(), rs),
                            None => rs,
                        };
                        if rs > usize::MAX - base || re > usize::MAX - base {
                            proof {
                                assert(notes_of(ls.take(k + 1), base as int) is None);
                                lemma_notes_none(ls, base as int, k + 1);
                            }
                            return None;
                        }
                        let text = chars_string(t.as_slice(), q, t.len());
                        let ghost before = notes_view(out@);
                        out.push(Note { start: (base + rs) as u64, end: (base + re) as u64, text });
                        proof {
                            assert(t@.subrange(q as int, t@.len() as int) == t@.skip(q as int));
                            assert(notes_view(out@) =~= before.push(((base + rs) as u64, (base + re) as u64, t@.skip(q as int))));
                        }
                    }
                },
                None => {},
            }
        }
        k = k + 1;
    }
    proof { assert(ls.take(lines@.len() as int) == ls); }
    Some(out)
}

/// A fold line `[old |new ]N[-M]: TEXT` (trimmed), as
/// `^(?:(old|new)\s+)?(\d+)(?:-(\d+))?:\s*(.*)$` reads it: whether it is
/// on the old side, the numbers and the text.
pub open spec fn fold_parts(t: Seq<char>) -> Option<(bool, Seq<char>, Option<Seq<char>>, Seq<char>)> {
    let side = (has_at(t, 0, "old"@) || has_at(t, 0, "new"@)) && ws_run(t, 3) > 0;
    let p0 = if side { 3 + ws_run(t, 3) } else { 0 };
    match range_head(t, p0) {
        Some(h) => Some((side && has_at(t, 0, "old"@), h.0, h.1, t.skip(h.2))),
        None => None,
    }
}

/// A fold: lines `start..=end` of one side replaced by a summary.
pub struct Fold {
    pub start: u64,
    pub end: u64,
    pub text: String,
    pub old: bool,
}

/// The view of folds.
pub open spec fn folds_view(v: Seq<Fold>) -> Seq<(u64, u64, Seq<char>, bool)> {
    v.map_values(|f: Fold| (f.start, f.end, f.text@, f.old))
}

/// The folds of a folds block's lines, their lines made absolute from
/// `base_new` (or `base_old` for old-side folds); a line that is no fold
/// continues the previous fold's text on a new line. `None` when a line
/// number overflows.
pub open spec fn folds_of(lines: Seq<Seq<char>>, base_new: int, base_old: int) -> Option<Seq<(u64, u64, Seq<char>, bool)>>
    decreases lines.len(),
{
    if lines.len() == 0 {
        Some(Seq::empty())
    } else {
        match folds_of(lines.drop_last(), base_new, base_old) {
            None => None,
            Some(fs) => {
                let l = lines.last();
                let t = trim(l);
                if t.len() == 0 {
                    Some(fs)
                } else {
                    match fold_parts(t) {
                        Some(m) => {
                            let r = rel_range(m.1, m.2, 0);
                            let base = if m.0 { base_old } else { base_new };
                            if base + r.0 > usize::MAX || base + r.1 > usize::MAX {
                                None
                            } else {
                                Some(fs.push(((base + r.0) as u64, (base + r.1) as u64, m.3, m.0)))
                            }
                        },
                        None => if fs.len() > 0 {
                            let f = fs.last();
                            let txt = if f.2.len() > 0 { f.2.push('\n') + l } else { f.2 + l };
                            Some(fs.update(fs.len() - 1, (f.0, f.1, txt, f.3)))
                        } else {
                            Some(fs)
                        },
                    }
                }
            },
        }
    }
}

/// The folds of a folds block's body (see [`folds_of`]).
pub fn parse_folds(body: &str, base_new: usize, base_old: usize) -> (res: Option<Vec<Fold>>)
    ensures
        match folds_of(lines_of(body@), base_new as int, base_old as int) {
            Some(fs) => res matches Some(v) && folds_view(v@) == fs,
            None => res is None,
        },
{
    proof { reveal_strlit("old"); reveal_strlit("new"); }
    let lines = text_lines(body);
    let ghost ls = lines_of(body@);
    let mut out: Vec<Fold> = Vec::new();
    let mut k: usize = 0;
    proof { assert(folds_view(out@) =~= Seq::<(u64, u64, Seq<char>, bool)>::empty()); }
    while k < lines.len()
        invariant
            k <= lines@.len(),
            lines@.len() == ls.len(),
            forall|q: int| 0 <= q < lines@.len() ==> (#[trigger] lines@[q])@ == ls[q],
            ls == lines_of(body@),
            folds_of(ls.take(k as int), base_new as int, base_old as int) == Some(folds_view(out@)),
        decreases lines@.len() - k,
    {
        proof {
            assert(ls.take(k + 1).drop_last() == ls.take(k as int));
            assert(ls.take(k + 1).last() == lines@[k as int]@);
        }
        let l = &lines[k];
        let t = trim_chars(l.as_slice());
        if t.len() > 0 {
            let tn = t.len();
            let is_old_w = has_lit_at(t.as_slice(), 0, "old");
            let is_new_w = has_lit_at(t.as_slice(), 0, "new");
            let side = (is_old_w || is_new_w) && tn >= 3 && ws_len(t.as_slice(), 3) > 0;
            let p0 = if side { 3 + ws_len(t.as_slice(), 3) } else { 0 };
            match range_head_exec(t.as_slice(), p0) {
                Some(((a0, a1), b, q)) => {
                    let rs = number_or_exec(crate::tables::sub_vec(t.as_slice(), a0, a1).as_slice(), 0);
                    let re = match b {
                        Some((b0, b1)) => number_or_exec(crate::tables::sub_vec(t.as_slice(), b0, b1).as_slice(), rs),
                        None => rs,
                    };
                    let is_old = side && is_old_w;
                    let base = if is_old { base_old } else { base_new };
                    if rs > usize::MAX - base || re > usize::MAX - base {
                        proof {
                            assert(folds_of(ls.take(k + 1), base_new as int, base_old as int) is None);
                            lemma_folds_none(ls, base_new as int, base_old as int, k + 1);
                        }
                        return None;
                    }
                    let text = chars_string(t.as_slice(), q, t.len());
                    let ghost before = folds_view(out@);
                    out.push(Fold { start: (base + rs) as u64, end: (base + re) as u64, text, old: is_old });
                    proof {
                        assert(t@.subrange(q as int, t@.len() as int) == t@.skip(q as int));
                        assert(folds_view(out@) =~= before.push(((base + rs) as u64, (base + re) as u64, t@.skip(q as int), is_old)));
                    }
                },
                None => {
                    if out.len() > 0 {
                        let last = out.len() - 1;
                        let ghost before = folds_view(out@);
                        let f = &out[last];
                        let mut txt = String::new();
                        txt.append(f.text.as_str());
                        if f.text.as_str().unicode_len() > 0 {
                            crate::text::push_char(&mut txt, '\n');
                        }
                        let ls_str = string_of_chars(l.as_slice());
                        txt.append(ls_str.as_str());
                        let nf = Fold { start: f.start, end: f.end, text: txt, old: f.old };
                        out.set(last, nf);
                        proof {
                            assert(folds_view(out@) =~= before.update(last as int, (before[last as int].0, before[last as int].1,
                                if before[last as int].2.len() > 0 { before[last as int].2.push('\n') + l@ } else { before[last as int].2 + l@ },
                                before[last as int].3)));
                        }
                    }
                },
            }
        }
        k = k + 1;
    }
    proof { assert(ls.take(lines@.len() as int) == ls); }
    Some(out)
}

/// The line-number cell of line `n` that a fold looks for: on its side, or
/// the single-column one.
pub open spec fn fold_needle(is_old: bool, single_cell: bool, n: nat) -> Seq<char> {
    if single_cell {
        "class=\"ln\">"@ + dec(n) + "</td>"@
    } else {
        ln_cell(if is_old { "ln-lhs"@ } else { "ln-rhs"@ }, n)
    }
}

/// The row whose tag opens at `tr` marked as hidden by fold `id`; `None` for
/// a separator or a row that another fold hides.
pub open spec fn fold_mark(h: Seq<char>, tr: int, id: Seq<char>) -> Option<Seq<char>> {
    let c = tag_close(h, tr);
    let tag = h.subrange(tr, c);
    if contains_sub(tag, "chunk-sep"@) || contains_sub(tag, "fold-line"@) {
        None
    } else {
        Some(h.take(tr) + replace_first(tag, "class=\""@, "class=\"fold-line "@)
            + " data-fold-id=\""@ + id + "\" hidden=\"until-found\""@ + h.skip(c))
    }
}

/// The row of line `n` hidden by fold `id` (the side's cell first, then the
/// single-column one), and whether a row was hidden.
pub open spec fn fold_line(h: Seq<char>, n: nat, is_old: bool, id: Seq<char>) -> (Seq<char>, bool) {
    let t1 = match find_sub(h, 0, fold_needle(is_old, false, n)) {
        Some(td) => rfind_sub(h, td, "<tr"@),
        None => None,
    };
    let t2 = match find_sub(h, 0, fold_needle(is_old, true, n)) {
        Some(td) => rfind_sub(h, td, "<tr"@),
        None => None,
    };
    let t = if t1 is Some { t1 } else { t2 };
    match t {
        Some(tr) => match fold_mark(h, tr, id) {
            Some(x) => (x, true),
            None => (h, false),
        },
        None => (h, false),
    }
}

/// The rows of lines `s .. s + k` hidden by fold `id`, and how many were hidden.
pub open spec fn fold_run(h: Seq<char>, s: nat, k: nat, is_old: bool, id: Seq<char>) -> (Seq<char>, nat)
    decreases k,
{
    if k == 0 {
        (h, 0)
    } else {
        let p = fold_run(h, s, (k - 1) as nat, is_old, id);
        let r = fold_line(p.0, (s + k - 1) as nat, is_old, id);
        (r.0, p.1 + if r.1 { 1nat } else { 0nat })
    }
}

/// The spaces and tabs from `p` on, and whether the cell has content after them.
pub open spec fn indent_at(h: Seq<char>, p: int) -> (Seq<char>, bool)
    decreases h.len() - p,
{
    if p < 0 || p >= h.len() {
        (Seq::empty(), false)
    } else if h[p] == ' ' || h[p] == '\t' {
        let r = indent_at(h, p + 1);
        (seq![h[p]] + r.0, r.1)
    } else if h[p] == '<' {
        (Seq::empty(), !has_at(h, p, "</td>"@))
    } else if h[p] == '\n' {
        (Seq::empty(), false)
    } else {
        (Seq::empty(), true)
    }
}

/// The indentation of the first code cell (opening with `cc`) with content in
/// the row between `cs` and `row_end`.
pub open spec fn cell_indent(h: Seq<char>, cs: int, row_end: int, cc: Seq<char>) -> Option<Seq<char>>
    decreases row_end - cs,
{
    if cs < 0 || cs >= row_end || row_end > h.len() {
        None
    } else {
        match find_sub(h.take(row_end), cs, cc) {
            None => None,
            Some(cp) => match find_from(h, cp, '>') {
                None => None,
                Some(gt) => {
                    let r = indent_at(h, gt + 1);
                    if r.1 {
                        Some(r.0)
                    } else if cp + cc.len() > cs && cp + cc.len() <= row_end {
                        cell_indent(h, cp + cc.len(), row_end, cc)
                    } else {
                        None
                    }
                },
            },
        }
    }
}

/// The indentation of the code in the first row marked `marker` (from `sf`
/// on) with a non-empty code cell; empty when there is none.
pub open spec fn fold_indent(h: Seq<char>, sf: int, marker: Seq<char>, cc: Seq<char>) -> Seq<char>
    decreases h.len() - sf,
{
    if sf < 0 || sf > h.len() {
        Seq::empty()
    } else {
        match find_sub(h, sf, marker) {
            None => Seq::empty(),
            Some(mp) => {
                let row_end = match find_sub(h, mp, "</tr>"@) { Some(x) => x, None => h.len() as int };
                match cell_indent(h, mp, row_end, cc) {
                    Some(ind) => ind,
                    None => if mp + marker.len() > sf && mp + marker.len() <= h.len() {
                        fold_indent(h, mp + marker.len(), marker, cc)
                    } else {
                        Seq::empty()
                    },
                }
            },
        }
    }
}

/// The number of UTF-8 bytes of leading white space.
pub open spec fn lead_bytes(p: Seq<char>) -> int {
    boff(p, p.len() - trim_start(p).len())
}

/// The smallest leading white space in bytes over the lines that are not blank.
pub open spec fn min_lead(ps: Seq<Seq<char>>) -> Option<int>
    decreases ps.len(),
{
    if ps.len() == 0 {
        None
    } else {
        let m = min_lead(ps.drop_last());
        let l = ps.last();
        if trim(l).len() == 0 {
            m
        } else {
            match m {
                None => Some(lead_bytes(l)),
                Some(x) => Some(if lead_bytes(l) < x { lead_bytes(l) } else { x }),
            }
        }
    }
}

/// The index of the character that starts at byte `b` (from character `k` on).
pub open spec fn char_at_byte(p: Seq<char>, b: int, k: int) -> Option<int>
    decreases p.len() + 1 - k,
{
    if k < 0 || k > p.len() {
        None
    } else if boff(p, k) == b {
        Some(k)
    } else {
        char_at_byte(p, b, k + 1)
    }
}

/// The lines of a multi-line fold text re-indented: blank lines empty,
/// others with their common leading bytes replaced by `indent`; `None` when
/// the cut falls inside a character.
pub open spec fn multi_lines(ps: Seq<Seq<char>>, mi: int, indent: Seq<char>) -> Option<Seq<Seq<char>>>
    decreases ps.len(),
{
    if ps.len() == 0 {
        Some(Seq::empty())
    } else {
        match multi_lines(ps.drop_last(), mi, indent) {
            None => None,
            Some(r) => {
                let l = ps.last();
                if trim(l).len() == 0 {
                    Some(r.push(Seq::empty()))
                } else {
                    let b = if mi < boff(l, l.len() as int) { mi } else { boff(l, l.len() as int) };
                    match char_at_byte(l, b, 0) {
                        Some(k) => Some(r.push(indent + l.skip(k))),
                        None => None,
                    }
                }
            },
        }
    }
}

/// The non-empty lines of a one-line fold text without leading white space.
pub open spec fn single_lines(ps: Seq<Seq<char>>) -> Seq<Seq<char>>
    decreases ps.len(),
{
    if ps.len() == 0 {
        Seq::empty()
    } else {
        let r = single_lines(ps.drop_last());
        if ps.last().len() == 0 { r } else { r.push(trim_start(ps.last())) }
    }
}

/// The lines of a fold's text as they are highlighted.
pub open spec fn fold_text_lines(text: Seq<char>, indent: Seq<char>) -> Option<Seq<Seq<char>>> {
    let ps = split_on(text, '\n');
    if ps.len() > 1 {
        multi_lines(ps, match min_lead(ps) { Some(m) => m, None => 0 }, indent)
    } else {
        Some(single_lines(ps))
    }
}

/// The highlighted fold text: lines joined with newlines, each after `indent`
/// for a one-line text.
pub open spec fn fold_content(hl: Seq<Seq<char>>, indent: Seq<char>, multi: bool) -> Seq<char>
    decreases hl.len(),
{
    if hl.len() == 0 {
        Seq::empty()
    } else {
        fold_content(hl.drop_last(), indent, multi)
            + (if hl.len() > 1 { seq!['\n'] } else { Seq::empty() })
            + (if multi { Seq::empty() } else { indent })
            + hl.last()
    }
}

/// The color class of a fold summary: added or removed code, by the block's
/// layout or the fold's side, and none for a source excerpt.
pub open spec fn fold_color(h: Seq<char>, is_old: bool) -> Seq<char> {
    if contains_sub(h, "diff-add-only"@) {
        " fold-add"@
    } else if contains_sub(h, "diff-remove-only"@) {
        " fold-del"@
    } else if contains_sub(h, "diff-sides"@) {
        if is_old { " fold-del"@ } else { " fold-add"@ }
    } else {
        Seq::empty()
    }
}

/// The summary row of a fold of `count` lines.
pub open spec fn fold_summary(color: Seq<char>, id: Seq<char>, count: nat, content: Seq<char>) -> Seq<char> {
    "<tr class=\"fold-summary"@ + color + "\" data-fold-id=\""@ + id + "\"><td class=\"ln fold-count\">"@ + dec(count)
        + " "@ + (if count == 1 { "line"@ } else { "lines"@ })
        + "</td><td class=\"sign\"><span class=\"fold-arrow\">\u{25B6}</span></td><td class=\"fold-text\">"@
        + content + "</td></tr>"@
}

/// `row` inserted before the row that holds the first `marker`.
pub open spec fn insert_before_marker(h: Seq<char>, marker: Seq<char>, row: Seq<char>) -> Seq<char> {
    match find_sub(h, 0, marker) {
        Some(mp) => match rfind_sub(h, mp, "<tr"@) {
            Some(tr) => h.take(tr) + row + h.skip(tr),
            None => h,
        },
        None => h,
    }
}

/// The first `data-row-idx="N"` in a tag, from `i` on, as the range of `N`.
pub open spec fn row_idx_from(t: Seq<char>, i: int) -> Option<(int, int)>
    decreases t.len() + 1 - i,
{
    if i < 0 || i > t.len() {
        None
    } else {
        match find_sub(t, i, "data-row-idx=\""@) {
            None => None,
            Some(p) => {
                let a = p + 14;
                let d = digit_run(t, a);
                if d >= 1 && a + d < t.len() && t[a + d] == '"' {
                    Some((a, a + d))
                } else if p + 1 > i && p + 1 <= t.len() {
                    row_idx_from(t, p + 1)
                } else {
                    None
                }
            },
        }
    }
}

/// The row index in the tag of the first row that fold `marker` hides.
pub open spec fn first_fold_idx(h: Seq<char>, sf: int, marker: Seq<char>) -> Option<usize>
    decreases h.len() - sf,
{
    if sf < 0 || sf > h.len() {
        None
    } else {
        match find_sub(h, sf, marker) {
            None => None,
            Some(pos) => {
                let next = pos + marker.len();
                let here = match rfind_sub(h, pos, "<tr"@) {
                    Some(ts) => {
                        let tag = h.subrange(ts, pos + marker.len());
                        if contains_sub(tag, "fold-line"@) { Some(tag) } else { None }
                    },
                    None => None,
                };
                match here {
                    Some(tag) => match row_idx_from(tag, 0) {
                        Some(r) => match parse_uint(tag.subrange(r.0, r.1), usize::MAX as int) {
                            Some(v) => Some(v as usize),
                            None => None,
                        },
                        None => None,
                    },
                    None => if next > sf && next <= h.len() { first_fold_idx(h, next, marker) } else { None },
                }
            },
        }
    }
}

/// The block of two side tables with an empty summary row placed in the other
/// side's table, before the row that pairs with the first hidden row.
pub open spec fn fold_placeholder(h: Seq<char>, id: Seq<char>, marker: Seq<char>, is_old: bool) -> Seq<char> {
    if !contains_sub(h, "diff-sides"@) {
        h
    } else {
        let other = if is_old { "diff-table-rhs"@ } else { "diff-table-lhs"@ };
        let ph = "<tr class=\"fold-summary placeholder\" data-fold-id=\""@ + id
            + "\"><td class=\"ln\"></td><td class=\"sign\"></td><td class=\"code\"></td></tr>"@;
        match find_sub(h, 0, other) {
            None => h,
            Some(tp) => match first_fold_idx(h, 0, marker) {
                None => h,
                Some(ti) => match find_sub(h, tp, "data-row-idx=\""@ + dec(ti as nat) + "\""@) {
                    None => h,
                    Some(op) => match rfind_sub(h, op, "<tr"@) {
                        Some(ts) => h.take(ts) + ph + h.skip(ts),
                        None => h,
                    },
                },
            },
        }
    }
}

/// The block `h1` whose `count` rows carry fold number `id`, with the summary
/// row of the fold's highlighted `text` placed before them; `None` where the
/// text cannot be cut or highlighted, or is longer than a quarter of the
/// address space.
pub open spec fn fold_finish(h1: Seq<char>, id: Seq<char>, count: nat, text: Seq<char>, is_old: bool, single: bool, lang: Option<Seq<char>>) -> Option<Seq<char>> {
    let marker = "data-fold-id=\""@ + id + "\""@;
    let cc = if is_old { "class=\"code-lhs\""@ } else if !single { "class=\"code-rhs\""@ } else { "class=\"code"@ };
    let indent = fold_indent(h1, 0, marker, cc);
    let multi = split_on(text, '\n').len() > 1;
    match fold_text_lines(text, indent) {
        None => None,
        Some(tl) => if 4 * join_texts(tl).len() >= usize::MAX {
            None
        } else {
            match syntax_texts(tl, lang) {
                None => None,
                Some(hl) => {
                    let sum = fold_summary(fold_color(h1, is_old), id, count, fold_content(hl, indent, multi));
                    Some(fold_placeholder(insert_before_marker(h1, marker, sum), id, marker, is_old))
                },
            }
        },
    }
}

/// Fold number `idx` `(start, end, text, old side)` applied to a block:
/// its rows hidden, and a summary row with the highlighted text before them
/// (see [`fold_finish`]); the block unchanged where no row is in range.
pub open spec fn fold_one(h: Seq<char>, idx: nat, f: (u64, u64, Seq<char>, bool), single: bool, lang: Option<Seq<char>>) -> Option<Seq<char>> {
    let id = dec(idx);
    let r = if f.0 <= f.1 { fold_run(h, f.0 as nat, (f.1 - f.0 + 1) as nat, f.3, id) } else { (h, 0nat) };
    if r.1 == 0 {
        Some(r.0)
    } else {
        fold_finish(r.0, id, r.1, f.2, f.3, single, lang)
    }
}

/// The folds applied in order, fold `k` with number `k`.
pub open spec fn folds_apply(h: Seq<char>, fs: Seq<(u64, u64, Seq<char>, bool)>, single: bool, lang: Option<Seq<char>>) -> Option<Seq<char>>
    decreases fs.len(),
{
    if fs.len() == 0 {
        Some(h)
    } else {
        match folds_apply(h, fs.drop_last(), single, lang) {
            None => None,
            Some(x) => fold_one(x, (fs.len() - 1) as nat, fs.last(), single, lang),
        }
    }
}

pub(crate) fn push_dec_wide(s: &mut String, n: u128)
    ensures
        final(s)@ == old(s)@ + dec(n as nat),
    decreases n,
{
    if n >= 10 {
        push_dec_wide(s, n / 10);
    }
    let d: u8 = (n % 10) as u8;
    crate::text::push_char(s, (d + 48) as char);
    proof {
        if n >= 10 {
            assert(old(s)@ + dec(n as nat) == old(s)@ + dec((n / 10) as nat) + seq![crate::text::digit_char((n % 10) as nat)]);
        }
    }
}

fn fold_needle_exec(is_old: bool, single_cell: bool, n: u64) -> (res: Vec<char>)
    ensures
        res@ == fold_needle(is_old, single_cell, n as nat),
{
    if single_cell {
        let mut s = String::new();
        s.append("class=\"ln\">");
        push_dec(&mut s, n);
        s.append("</td>");
        chars_of(s.as_str())
    } else if is_old {
        ln_cell_exec("ln-lhs", n)
    } else {
        ln_cell_exec("ln-rhs", n)
    }
}

fn fold_mark_exec(h: &Vec<char>, tr: usize, id: &str) -> (res: Option<Vec<char>>)
    requires
        tr <= h@.len(),
    ensures
        match fold_mark(h@, tr as int, id@) {
            Some(x) => res matches Some(v) && v@ == x,
            None => res is None,
        },
{
    let c = tag_close_exec(h.as_slice(), tr);
    let tag = crate::tables::sub_vec(h.as_slice(), tr, c);
    if contains_exec(tag.as_slice(), "chunk-sep") || contains_exec(tag.as_slice(), "fold-line") {
        return None;
    }
    let mut nt = replace_first_exec(tag.as_slice(), "class=\"", "class=\"fold-line ");
    nt.append(" data-fold-id=\"");
    nt.append(id);
    nt.append("\" hidden=\"until-found\"");
    let r = replace_tag(h.as_slice(), tr, c, nt.as_str());
    Some(r)
}

fn fold_line_exec(h: Vec<char>, n: u64, is_old: bool, id: &str) -> (res: (Vec<char>, bool))
    ensures
        (res.0@, res.1) == fold_line(h@, n as nat, is_old, id@),
{
    proof { reveal_strlit("<tr"); }
    let total = h.len();
    let trp = lit_chars("<tr");
    let n1 = fold_needle_exec(is_old, false, n);
    let n2 = fold_needle_exec(is_old, true, n);
    let t1 = match find_sub_exec(h.as_slice(), 0, n1.as_slice()) {
        Some(td) => rfind_sub_exec(h.as_slice(), td, trp.as_slice()),
        None => None,
    };
    let t = if t1.is_some() {
        t1
    } else {
        match find_sub_exec(h.as_slice(), 0, n2.as_slice()) {
            Some(td) => rfind_sub_exec(h.as_slice(), td, trp.as_slice()),
            None => None,
        }
    };
    match t {
        Some(tr) => match fold_mark_exec(&h, tr, id) {
            Some(x) => (x, true),
            None => (h, false),
        },
        None => (h, false),
    }
}

fn fold_run_exec(h: Vec<char>, s: u64, e: u64, is_old: bool, id: &str) -> (res: (Vec<char>, u128))
    requires
        s <= e,
    ensures
        (res.0@, res.1 as nat) == fold_run(h@, s as nat, (e - s + 1) as nat, is_old, id@),
{
    let ghost h0 = h@;
    let (mut cur, first) = fold_line_exec(h, s, is_old, id);
    let mut count: u128 = if first { 1 } else { 0 };
    proof {
        assert(fold_run(h0, s as nat, 1, is_old, id@) == (fold_line(fold_run(h0, s as nat, 0, is_old, id@).0, s as nat, is_old, id@).0,
            fold_run(h0, s as nat, 0, is_old, id@).1 + if fold_line(fold_run(h0, s as nat, 0, is_old, id@).0, s as nat, is_old, id@).1 { 1nat } else { 0nat }));
    }
    let mut ln = s;
    while ln < e
        invariant
            s <= ln <= e,
            count <= ln - s + 1,
            (cur@, count as nat) == fold_run(h0, s as nat, (ln - s + 1) as nat, is_old, id@),
        decreases e - ln,
    {
        ln = ln + 1;
        let ghost prev = (cur@, count as nat);
        let (nc, hit) = fold_line_exec(cur, ln, is_old, id);
        cur = nc;
        if hit {
            count = count + 1;
        }
        proof {
            assert(fold_run(h0, s as nat, (ln - s + 1) as nat, is_old, id@)
                == (fold_line(prev.0, ln as nat, is_old, id@).0, prev.1 + if fold_line(prev.0, ln as nat, is_old, id@).1 { 1nat } else { 0nat }));
        }
    }
    (cur, count)
}

fn indent_at_exec(h: &Vec<char>, p: usize) -> (res: (Vec<char>, bool))
    ensures
        (res.0@, res.1) == indent_at(h@, p as int),
{
    let mut ind: Vec<char> = Vec::new();
    let mut q = p;
    let n = h.len();
    while q < n && (h[q] == ' ' || h[q] == '\t')
        invariant
            p <= q,
            n == h@.len(),
            indent_at(h@, p as int) == (ind@ + indent_at(h@, q as int).0, indent_at(h@, q as int).1),
        decreases n - q,
    {
        let ghost before = ind@;
        ind.push(h[q]);
        proof {
            assert(ind@ == before + seq![h@[q as int]]);
            assert(indent_at(h@, q as int).0 == seq![h@[q as int]] + indent_at(h@, q + 1).0);
            assert(before + indent_at(h@, q as int).0 == ind@ + indent_at(h@, q + 1).0);
        }
        q = q + 1;
    }
    proof { reveal_strlit("</td>"); }
    let has = if q >= n {
        false
    } else if h[q] == '<' {
        !has_lit_at(h.as_slice(), q, "</td>")
    } else if h[q] == '\n' {
        false
    } else {
        true
    };
    proof {
        assert(indent_at(h@, q as int).0 =~= Seq::<char>::empty());
        assert(ind@ + Seq::<char>::empty() == ind@);
    }
    (ind, has)
}

fn cell_indent_exec(h: &Vec<char>, cs: usize, row_end: usize, cc: &Vec<char>) -> (res: Option<Vec<char>>)
    requires
        cc@.len() > 0,
    ensures
        match cell_indent(h@, cs as int, row_end as int, cc@) {
            Some(x) => res matches Some(v) && v@ == x,
            None => res is None,
        },
    decreases row_end - cs,
{
    if cs >= row_end || row_end > h.len() {
        return None;
    }
    let pre = crate::tables::sub_vec(h.as_slice(), 0, row_end);
    proof { assert(h@.subrange(0, row_end as int) == h@.take(row_end as int)); }
    match find_sub_exec(pre.as_slice(), cs, cc.as_slice()) {
        None => None,
        Some(cp) => match find_char_from(h.as_slice(), cp, '>') {
            None => None,
            Some(gt) => {
                proof { lemma_find_from(h@, cp as int, '>'); }
                let (ind, has) = indent_at_exec(h, gt + 1);
                if has {
                    Some(ind)
                } else if cp + cc.len() > cs && cp + cc.len() <= row_end {
                    cell_indent_exec(h, cp + cc.len(), row_end, cc)
                } else {
                    None
                }
            },
        },
    }
}

fn fold_indent_exec(h: &Vec<char>, marker: &Vec<char>, cc: &Vec<char>) -> (res: Vec<char>)
    requires
        marker@.len() > 0,
        cc@.len() > 0,
    ensures
        res@ == fold_indent(h@, 0, marker@, cc@),
{
    proof { reveal_strlit("</tr>"); }
    let n = h.len();
    let tr_end = lit_chars("</tr>");
    let mut sf: usize = 0;
    while sf <= n
        invariant
            n == h@.len(),
            marker@.len() > 0,
            cc@.len() > 0,
            tr_end@ == "</tr>"@,
            fold_indent(h@, 0, marker@, cc@) == fold_indent(h@, sf as int, marker@, cc@),
        decreases n + 1 - sf,
    {
        match find_sub_exec(h.as_slice(), sf, marker.as_slice()) {
            None => { return Vec::new(); },
            Some(mp) => {
                let row_end = match find_sub_exec(h.as_slice(), mp, tr_end.as_slice()) { Some(x) => x, None => n };
                proof {
                    let re = match find_sub(h@, mp as int, "</tr>"@) { Some(x) => x, None => h@.len() as int };
                    assert(tr_end@ == "</tr>"@);
                    assert(row_end as int == re);
                    assert(find_sub(h@, sf as int, marker@) == Some(mp as int));
                    assert(fold_indent(h@, sf as int, marker@, cc@) == match cell_indent(h@, mp as int, re, cc@) {
                        Some(ind) => ind,
                        None => if mp + marker@.len() > sf && mp + marker@.len() <= h@.len() {
                            fold_indent(h@, mp + marker@.len(), marker@, cc@)
                        } else {
                            Seq::empty()
                        },
                    });
                }
                match cell_indent_exec(h, mp, row_end, cc) {
                    Some(ind) => { return ind; },
                    None => {
                        if mp + marker.len() > sf && mp + marker.len() <= n {
                            sf = mp + marker.len();
                        } else {
                            return Vec::new();
                        }
                    },
                }
            },
        }
    }
    Vec::new()
}

fn boff_exec(p: &Vec<char>, k: usize) -> (res: u128)
    requires
        k <= p@.len(),
    ensures
        res as int == boff(p@, k as int),
        res <= 4 * k,
{
    let mut acc: u128 = 0;
    let mut i: usize = 0;
    while i < k
        invariant
            i <= k <= p@.len(),
            acc as int == boff(p@, i as int),
            acc <= 4 * i,
        decreases k - i,
    {
        let n = utf8_bytes(p[i]).len();
        proof {
            assert(clen(p@[i as int]) == n);
            assert(1 <= n <= 4);
        }
        acc = acc + n as u128;
        i = i + 1;
    }
    acc
}

fn lead_bytes_exec(p: &Vec<char>) -> (res: u128)
    ensures
        res as int == lead_bytes(p@),
{
    let t = crate::text::trim_start_chars(p.as_slice());
    proof { crate::text::lemma_trim_start_len(p@); }
    boff_exec(p, p.len() - t.len())
}

fn min_lead_exec(ps: &Vec<Vec<char>>) -> (res: Option<u128>)
    ensures
        match min_lead(texts_of(ps@)) {
            Some(m) => res matches Some(r) && r as int == m,
            None => res is None,
        },
{
    let mut best: Option<u128> = None;
    let mut i: usize = 0;
    while i < ps.len()
        invariant
            i <= ps@.len(),
            match min_lead(texts_of(ps@).take(i as int)) {
                Some(m) => best == Some(m as u128) && m >= 0 && m <= u128::MAX,
                None => best is None,
            },
        decreases ps@.len() - i,
    {
        proof {
            assert(texts_of(ps@).take(i + 1).drop_last() == texts_of(ps@).take(i as int));
            assert(texts_of(ps@).take(i + 1).last() == ps@[i as int]@);
        }
        let l = &ps[i];
        let t = trim_chars(l.as_slice());
        if t.len() > 0 {
            let lb = lead_bytes_exec(l);
            best = match best {
                None => Some(lb),
                Some(x) => Some(if lb < x { lb } else { x }),
            };
        }
        i = i + 1;
    }
    proof { assert(texts_of(ps@).take(ps@.len() as int) == texts_of(ps@)); }
    best
}

/// The texts of character vectors.
pub open spec fn texts_of(ps: Seq<Vec<char>>) -> Seq<Seq<char>> {
    ps.map_values(|v: Vec<char>| v@)
}

fn char_at_byte_exec(p: &Vec<char>, b: u128) -> (res: Option<usize>)
    ensures
        match char_at_byte(p@, b as int, 0) {
            Some(k) => res == Some(k as usize) && 0 <= k <= p@.len(),
            None => res is None,
        },
{
    let mut acc: u128 = 0;
    let mut k: usize = 0;
    let n = p.len();
    loop
        invariant
            k <= n == p@.len(),
            acc as int == boff(p@, k as int),
            acc <= 4 * k,
            char_at_byte(p@, b as int, 0) == char_at_byte(p@, b as int, k as int),
        decreases n - k,
    {
        if acc == b {
            return Some(k);
        }
        if k >= n {
            proof {
                assert(char_at_byte(p@, b as int, n + 1) is None);
                assert(char_at_byte(p@, b as int, k as int) == char_at_byte(p@, b as int, n + 1));
            }
            return None;
        }
        let c = utf8_bytes(p[k]).len();
        proof {
            assert(clen(p@[k as int]) == c);
            assert(1 <= c <= 4);
        }
        acc = acc + c as u128;
        k = k + 1;
    }
}

fn multi_lines_exec(ps: &Vec<Vec<char>>, mi: u128, indent: &Vec<char>) -> (res: Option<Vec<String>>)
    ensures
        match multi_lines(texts_of(ps@), mi as int, indent@) {
            Some(v) => res matches Some(r) && texts(r@) == v,
            None => res is None,
        },
{
    let mut out: Vec<String> = Vec::new();
    let mut i: usize = 0;
    proof { assert(texts(out@) =~= Seq::<Seq<char>>::empty()); }
    while i < ps.len()
        invariant
            i <= ps@.len(),
            multi_lines(texts_of(ps@).take(i as int), mi as int, indent@) == Some(texts(out@)),
        decreases ps@.len() - i,
    {
        proof {
            assert(texts_of(ps@).take(i + 1).drop_last() == texts_of(ps@).take(i as int));
            assert(texts_of(ps@).take(i + 1).last() == ps@[i as int]@);
        }
        let l = &ps[i];
        let t = trim_chars(l.as_slice());
        let ghost before = texts(out@);
        if t.len() == 0 {
            out.push(String::new());
            proof { assert(texts(out@) =~= before.push(Seq::empty())); }
        } else {
            let total = boff_exec(l, l.len());
            let b = if mi < total { mi } else { total };
            match char_at_byte_exec(l, b) {
                Some(k) => {
                    let mut line = string_of_chars(indent.as_slice());
                    push_range(&mut line, l.as_slice(), k, l.len());
                    out.push(line);
                    proof {
                        assert(l@.subrange(k as int, l@.len() as int) == l@.skip(k as int));
                        assert(texts(out@) =~= before.push(indent@ + l@.skip(k as int)));
                    }
                },
                None => {
                    proof {
                        assert(multi_lines(texts_of(ps@).take(i + 1), mi as int, indent@) is None);
                        lemma_multi_none(texts_of(ps@), mi as int, indent@, i + 1);
                        assert(texts_of(ps@).take(ps@.len() as int) == texts_of(ps@));
                    }
                    return None;
                },
            }
        }
        i = i + 1;
    }
    proof { assert(texts_of(ps@).take(ps@.len() as int) == texts_of(ps@)); }
    Some(out)
}

proof fn lemma_multi_none(ps: Seq<Seq<char>>, mi: int, indent: Seq<char>, k: int)
    requires
        0 <= k <= ps.len(),
        multi_lines(ps.take(k), mi, indent) is None,
    ensures
        multi_lines(ps, mi, indent) is None,
    decreases ps.len() - k,
{
    if k < ps.len() {
        assert(ps.take(k + 1).drop_last() == ps.take(k));
        lemma_multi_none(ps, mi, indent, k + 1);
    } else {
        assert(ps.take(k) == ps);
    }
}

fn single_lines_exec(ps: &Vec<Vec<char>>) -> (res: Vec<String>)
    ensures
        texts(res@) == single_lines(texts_of(ps@)),
{
    let mut out: Vec<String> = Vec::new();
    let mut i: usize = 0;
    proof { assert(texts(out@) =~= Seq::<Seq<char>>::empty()); }
    while i < ps.len()
        invariant
            i <= ps@.len(),
            single_lines(texts_of(ps@).take(i as int)) == texts(out@),
        decreases ps@.len() - i,
    {
        proof {
            assert(texts_of(ps@).take(i + 1).drop_last() == texts_of(ps@).take(i as int));
            assert(texts_of(ps@).take(i + 1).last() == ps@[i as int]@);
        }
        if ps[i].len() > 0 {
            let t = crate::text::trim_start_chars(ps[i].as_slice());
            let ghost before = texts(out@);
            out.push(string_of_chars(t.as_slice()));
            proof { assert(texts(out@) =~= before.push(trim_start(ps@[i as int]@))); }
        }
        i = i + 1;
    }
    proof { assert(texts_of(ps@).take(ps@.len() as int) == texts_of(ps@)); }
    out
}

fn fold_content_exec(hl: &Vec<String>, indent: &Vec<char>, multi: bool) -> (res: String)
    ensures
        res@ == fold_content(texts(hl@), indent@, multi),
{
    let mut out = String::new();
    let mut i: usize = 0;
    while i < hl.len()
        invariant
            i <= hl@.len(),
            out@ == fold_content(texts(hl@).take(i as int), indent@, multi),
        decreases hl@.len() - i,
    {
        proof {
            assert(texts(hl@).take(i + 1).drop_last() == texts(hl@).take(i as int));
            assert(texts(hl@).take(i + 1).last() == hl@[i as int]@);
        }
        let ghost before = out@;
        if i > 0 {
            crate::text::push_char(&mut out, '\n');
        }
        if !multi {
            push_range(&mut out, indent.as_slice(), 0, indent.len());
            proof { assert(indent@.subrange(0, indent@.len() as int) == indent@); }
        }
        out.append(hl[i].as_str());
        proof {
            assert(out@ =~= before + (if i + 1 > 1 { seq!['\n'] } else { Seq::empty() })
                + (if multi { Seq::empty() } else { indent@ }) + hl@[i as int]@);
        }
        i = i + 1;
    }
    proof { assert(texts(hl@).take(hl@.len() as int) == texts(hl@)); }
    out
}

fn fold_color_exec(h: &Vec<char>, is_old: bool) -> (res: &'static str)
    ensures
        res@ == fold_color(h@, is_old),
{
    if contains_exec(h.as_slice(), "diff-add-only") {
        " fold-add"
    } else if contains_exec(h.as_slice(), "diff-remove-only") {
        " fold-del"
    } else if contains_exec(h.as_slice(), "diff-sides") {
        if is_old { " fold-del" } else { " fold-add" }
    } else {
        proof { reveal_strlit(""); }
        ""
    }
}

fn fold_summary_exec(color: &str, id: &str, count: u128, content: &str) -> (res: String)
    ensures
        res@ == fold_summary(color@, id@, count as nat, content@),
{
    let mut s = String::new();
    s.append("<tr class=\"fold-summary");
    s.append(color);
    s.append("\" data-fold-id=\"");
    s.append(id);
    s.append("\"><td class=\"ln fold-count\">");
    push_dec_wide(&mut s, count);
    s.append(" ");
    if count == 1 {
        s.append("line");
    } else {
        s.append("lines");
    }
    s.append("</td><td class=\"sign\"><span class=\"fold-arrow\">\u{25B6}</span></td><td class=\"fold-text\">");
    s.append(content);
    s.append("</td></tr>");
    proof { assert(s@ =~= fold_summary(color@, id@, count as nat, content@)); }
    s
}

fn insert_before_marker_exec(h: Vec<char>, marker: &Vec<char>, row: &str) -> (res: Vec<char>)
    ensures
        res@ == insert_before_marker(h@, marker@, row@),
{
    proof { reveal_strlit("<tr"); }
    let total = h.len();
    let trp = lit_chars("<tr");
    match find_sub_exec(h.as_slice(), 0, marker.as_slice()) {
        Some(mp) => match rfind_sub_exec(h.as_slice(), mp, trp.as_slice()) {
            Some(tr) => replace_tag(h.as_slice(), tr, tr, row),
            None => h,
        },
        None => h,
    }
}

fn row_idx_exec(t: &Vec<char>) -> (res: Option<(usize, usize)>)
    ensures
        match row_idx_from(t@, 0) {
            Some(r) => res == Some((r.0 as usize, r.1 as usize)) && 0 <= r.0 <= r.1 <= t@.len(),
            None => res is None,
        },
{
    proof { reveal_strlit("data-row-idx=\""); }
    let n = t.len();
    let pat = lit_chars("data-row-idx=\"");
    let mut i: usize = 0;
    while i <= n
        invariant
            n == t@.len(),
            pat@ == "data-row-idx=\""@,
            pat@.len() == 14,
            row_idx_from(t@, 0) == row_idx_from(t@, i as int),
        decreases n + 1 - i,
    {
        match find_sub_exec(t.as_slice(), i, pat.as_slice()) {
            None => { return None; },
            Some(p) => {
                let a = p + 14;
                let d = digit_len(t.as_slice(), a);
                if d >= 1 && a + d < n && t[a + d] == '"' {
                    return Some((a, a + d));
                } else if p + 1 > i && p + 1 <= n {
                    i = p + 1;
                } else {
                    return None;
                }
            },
        }
    }
    None
}

fn first_fold_idx_exec(h: &Vec<char>, marker: &Vec<char>) -> (res: Option<usize>)
    requires
        marker@.len() > 0,
    ensures
        res == first_fold_idx(h@, 0, marker@),
{
    proof { reveal_strlit("<tr"); }
    let n = h.len();
    let trp = lit_chars("<tr");
    let mut sf: usize = 0;
    while sf <= n
        invariant
            n == h@.len(),
            marker@.len() > 0,
            trp@ == "<tr"@,
            first_fold_idx(h@, 0, marker@) == first_fold_idx(h@, sf as int, marker@),
        decreases n + 1 - sf,
    {
        match find_sub_exec(h.as_slice(), sf, marker.as_slice()) {
            None => { return None; },
            Some(pos) => {
                let next = pos + marker.len();
                let here = match rfind_sub_exec(h.as_slice(), pos, trp.as_slice()) {
                    Some(ts) => {
                        let tag = crate::tables::sub_vec(h.as_slice(), ts, pos + marker.len());
                        if contains_exec(tag.as_slice(), "fold-line") { Some(tag) } else { None }
                    },
                    None => None,
                };
                match here {
                    Some(tag) => {
                        return match row_idx_exec(&tag) {
                            Some((a, b)) => parse_usize(crate::tables::sub_vec(tag.as_slice(), a, b).as_slice()),
                            None => None,
                        };
                    },
                    None => {
                        if next > sf && next <= n {
                            sf = next;
                        } else {
                            return None;
                        }
                    },
                }
            },
        }
    }
    None
}

fn fold_placeholder_exec(h: Vec<char>, id: &str, marker: &Vec<char>, is_old: bool) -> (res: Vec<char>)
    requires
        marker@.len() > 0,
    ensures
        res@ == fold_placeholder(h@, id@, marker@, is_old),
{
    proof { reveal_strlit("<tr"); }
    if !contains_exec(h.as_slice(), "diff-sides") {
        return h;
    }
    let total = h.len();
    let other = if is_old { lit_chars("diff-table-rhs") } else { lit_chars("diff-table-lhs") };
    let mut ph = String::new();
    ph.append("<tr class=\"fold-summary placeholder\" data-fold-id=\"");
    ph.append(id);
    ph.append("\"><td class=\"ln\"></td><td class=\"sign\"></td><td class=\"code\"></td></tr>");
    let tp = match find_sub_exec(h.as_slice(), 0, other.as_slice()) {
        None => { return h; },
        Some(x) => x,
    };
    let ti = match first_fold_idx_exec(&h, marker) {
        None => { return h; },
        Some(x) => x,
    };
    let mut needle = String::new();
    needle.append("data-row-idx=\"");
    push_dec(&mut needle, ti as u64);
    needle.append("\"");
    let nv = chars_of(needle.as_str());
    let op = match find_sub_exec(h.as_slice(), tp, nv.as_slice()) {
        None => { return h; },
        Some(x) => x,
    };
    let trp = lit_chars("<tr");
    match rfind_sub_exec(h.as_slice(), op, trp.as_slice()) {
        Some(ts) => replace_tag(h.as_slice(), ts, ts, ph.as_str()),
        None => h,
    }
}

fn joined_len_exec(v: &Vec<String>) -> (res: u128)
    ensures
        res as int == join_texts(texts(v@)).len(),
{
    let mut acc: u128 = 0;
    let mut i: usize = 0;
    while i < v.len()
        invariant
            i <= v@.len(),
            acc as int == join_texts(texts(v@).take(i as int)).len(),
            acc <= i * 0x1_0000_0000_0000_0000,
        decreases v@.len() - i,
    {
        let ghost t = texts(v@);
        proof {
            assert(t.take(i + 1).drop_last() == t.take(i as int));
            assert(t.take(i + 1).last() == v@[i as int]@);
            if i == 0 {
                assert(t.take(1)[0] == v@[0]@);
            }
        }
        let n = v[i].as_str().unicode_len();
        if i > 0 {
            acc = acc + 1;
        }
        acc = acc + n as u128;
        i = i + 1;
    }
    proof { assert(texts(v@).take(v@.len() as int) == texts(v@)); }
    acc
}

fn fold_lines_exec(text: &str, indent: &Vec<char>) -> (res: Option<(Vec<String>, bool)>)
    ensures
        match fold_text_lines(text@, indent@) {
            Some(x) => res matches Some(v) && texts(v.0@) == x && v.1 == (split_on(text@, '\n').len() > 1),
            None => res is None,
        },
{
    let tchars = chars_of(text);
    let parts = split_chars(tchars.as_slice(), '\n');
    proof {
        assert(texts_of(parts@) =~= split_on(text@, '\n'));
    }
    let multi = parts.len() > 1;
    if multi {
        let mi = match min_lead_exec(&parts) { Some(m) => m, None => 0 };
        match multi_lines_exec(&parts, mi, indent) {
            None => None,
            Some(v) => Some((v, true)),
        }
    } else {
        Some((single_lines_exec(&parts), false))
    }
}

fn fold_finish_exec(h1: Vec<char>, id: &str, count: u128, text: &str, is_old: bool, single: bool, lang: Option<&str>, hl: &mut SyntaxHighlighter) -> (res: Option<Vec<char>>)
    ensures
        match fold_finish(h1@, id@, count as nat, text@, is_old, single, opt_str(lang)) {
            Some(x) => res matches Some(v) && v@ == x,
            None => res is None,
        },
{
    let mut mk = String::new();
    mk.append("data-fold-id=\"");
    mk.append(id);
    mk.append("\"");
    let marker = chars_of(mk.as_str());
    proof {
        reveal_strlit("data-fold-id=\"");
        reveal_strlit("\"");
        assert(marker@ == "data-fold-id=\""@ + id@ + "\""@);
    }
    let cc = if is_old {
        lit_chars("class=\"code-lhs\"")
    } else if !single {
        lit_chars("class=\"code-rhs\"")
    } else {
        lit_chars("class=\"code")
    };
    proof {
        reveal_strlit("class=\"code-lhs\"");
        reveal_strlit("class=\"code-rhs\"");
        reveal_strlit("class=\"code");
    }
    let indent = fold_indent_exec(&h1, &marker, &cc);
    let (tl, multi) = match fold_lines_exec(text, &indent) {
        None => { return None; },
        Some(v) => v,
    };
    let jl = joined_len_exec(&tl);
    if jl >= usize::MAX as u128 || 4 * jl >= usize::MAX as u128 {
        return None;
    }
    proof { lemma_join_texts(tl@); }
    let hl_lines = match syntax_highlight_lines(tl.as_slice(), hl, lang) {
        None => {
            proof { lemma_syntax_texts(tl@, opt_str(lang)); }
            return None;
        },
        Some(v) => v,
    };
    proof {
        lemma_syntax_texts(tl@, opt_str(lang));
        assert(texts(hl_lines@) == hl_lines@.map_values(|x: String| x@));
    }
    let content = fold_content_exec(&hl_lines, &indent, multi);
    let color = fold_color_exec(&h1, is_old);
    let sum = fold_summary_exec(color, id, count, content.as_str());
    let h2 = insert_before_marker_exec(h1, &marker, sum.as_str());
    Some(fold_placeholder_exec(h2, id, &marker, is_old))
}

fn fold_one_exec(h: Vec<char>, idx: usize, f: &Fold, single: bool, lang: Option<&str>, hl: &mut SyntaxHighlighter) -> (res: Option<Vec<char>>)
    ensures
        match fold_one(h@, idx as nat, (f.start, f.end, f.text@, f.old), single, opt_str(lang)) {
            Some(x) => res matches Some(v) && v@ == x,
            None => res is None,
        },
{
    let mut id = String::new();
    push_dec(&mut id, idx as u64);
    let (h1, count) = if f.start <= f.end {
        fold_run_exec(h, f.start, f.end, f.old, id.as_str())
    } else {
        (h, 0)
    };
    if count == 0 {
        return Some(h1);
    }
    fold_finish_exec(h1, id.as_str(), count, f.text.as_str(), f.old, single, lang, hl)
}

/// The folds of a folds block applied in order to the latest block (see
/// [`fold_one`]), their texts highlighted in the language of `file`.
pub fn apply_folds(block: &str, folds: &Vec<Fold>, single: bool, file: &str, hl: &mut SyntaxHighlighter) -> (res: Option<String>)
    ensures
        match folds_apply(block@, folds_view(folds@), single, detected_language(file@)) {
            Some(x) => res matches Some(v) && v@ == x,
            None => res is None,
        },
{
    let lang = detect_language(file);
    assert(opt_str(lang) == detected_language(file@));
    let mut cur = chars_of(block);
    let mut i: usize = 0;
    while i < folds.len()
        invariant
            i <= folds@.len(),
            opt_str(lang) == detected_language(file@),
            folds_apply(block@, folds_view(folds@).take(i as int), single, detected_language(file@)) == Some(cur@),
        decreases folds@.len() - i,
    {
        proof {
            assert(folds_view(folds@).take(i + 1).drop_last() == folds_view(folds@).take(i as int));
            assert(folds_view(folds@).take(i + 1).last() == (folds@[i as int].start, folds@[i as int].end, folds@[i as int].text@, folds@[i as int].old));
        }
        match fold_one_exec(cur, i, &folds[i], single, lang, hl) {
            None => {
                proof { lemma_folds_apply_none(block@, folds_view(folds@), single, detected_language(file@), i + 1); }
                return None;
            },
            Some(x) => { cur = x; },
        }
        i = i + 1;
    }
    proof { assert(folds_view(folds@).take(folds@.len() as int) == folds_view(folds@)); }
    Some(string_of_chars(cur.as_slice()))
}

proof fn lemma_folds_apply_none(h: Seq<char>, fs: Seq<(u64, u64, Seq<char>, bool)>, single: bool, lang: Option<Seq<char>>, k: int)
    requires
        0 <= k <= fs.len(),
        folds_apply(h, fs.take(k), single, lang) is None,
    ensures
        folds_apply(h, fs, single, lang) is None,
    decreases fs.len() - k,
{
    if k < fs.len() {
        assert(fs.take(k + 1).drop_last() == fs.take(k));
        lemma_folds_apply_none(h, fs, single, lang, k + 1);
    } else {
        assert(fs.take(k) == fs);
    }
}


/// The notes of a notes block added in order to the latest block (see
/// [`notes_block`]).
pub fn apply_notes(block: &str, notes: &Vec<Note>) -> (res: String)
    ensures
        res@ == notes_block(block@, notes_view(notes@)),
{
    let mut cur = chars_of(block);
    let mut i: usize = 0;
    while i < notes.len()
        invariant
            i <= notes@.len(),
            cur@ == notes_block(block@, notes_view(notes@).take(i as int)),
        decreases notes@.len() - i,
    {
        proof {
            assert(notes_view(notes@).take(i + 1).drop_last() == notes_view(notes@).take(i as int));
            assert(notes_view(notes@).take(i + 1).last() == (notes@[i as int].start, notes@[i as int].end, notes@[i as int].text@));
        }
        let n = &notes[i];
        cur = note_block_exec(cur, n.start, n.end, n.text.as_str());
        i = i + 1;
    }
    proof { assert(notes_view(notes@).take(notes@.len() as int) == notes_view(notes@)); }
    string_of_chars(cur.as_slice())
}

} // verus!
