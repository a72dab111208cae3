//! Syntax highlighting of source lines: the spans that tree-sitter reports
//! (through arborium) become per-line HTML with GitHub-like colors.

use vstd::prelude::*;
use vstd::utf8::encode_scalar;
use crate::highlight::{capture_color, capture_rank, capture_priority, github_color_for_capture};
use crate::text::{chars_of, escape_char, escape_html, html_escape, push_char, push_escaped, str_eq, utf8_bytes};

verus! {

/// A highlighted byte range of the joined source and its capture name.
pub struct HlSpan {
    pub start: u32,
    pub end: u32,
    pub capture: String,
}

/// A span as values.
pub type SpanV = (u32, u32, Seq<char>);

/// The view of a span.
pub open spec fn span_view(s: HlSpan) -> SpanV {
    (s.start, s.end, s.capture@)
}

/// The color of plain text, which gets no span.
pub open spec fn default_color() -> Seq<char> {
    "#1f2328"@
}

/// The lines joined with newlines.
pub open spec fn join_lines(ls: Seq<String>) -> Seq<char>
    decreases ls.len(),
{
    if ls.len() == 0 {
        Seq::empty()
    } else if ls.len() == 1 {
        ls[0]@
    } else {
        join_lines(ls.drop_last()) + seq!['\n'] + ls.last()@
    }
}

/// The number of UTF-8 bytes of a character.
pub open spec fn clen(c: char) -> int {
    encode_scalar(c as u32).len() as int
}

/// The byte offset of character `i` in `t`.
pub open spec fn boff(t: Seq<char>, i: int) -> int
    decreases i,
{
    if i <= 0 { 0 } else { boff(t, i - 1) + clen(t[i - 1]) }
}

/// Whether a span colors byte `b` of a text of `len` bytes: within its range
/// (clamped to the text), and with a color other than plain text.
pub open spec fn span_colors(sp: SpanV, b: int, len: int) -> bool {
    let s = if sp.0 < len { sp.0 as int } else { len };
    let e = if sp.1 < len { sp.1 as int } else { len };
    s <= b < e && capture_color(sp.2) != default_color()
}

/// The (color, priority) of byte `b` after the spans in order: a span
/// overrides what is there when its priority is at least as high.
pub open spec fn byte_style(spans: Seq<SpanV>, b: int, len: int) -> Option<(Seq<char>, u8)>
    decreases spans.len(),
{
    if spans.len() == 0 {
        None
    } else {
        let p = byte_style(spans.drop_last(), b, len);
        let sp = spans.last();
        if span_colors(sp, b, len) {
            let pr = capture_rank(sp.2);
            match p {
                None => Some((capture_color(sp.2), pr)),
                Some(x) => if pr >= x.1 { Some((capture_color(sp.2), pr)) } else { p },
            }
        } else {
            p
        }
    }
}

/// The color of byte `b`, if any.
pub open spec fn color_at(spans: Seq<SpanV>, b: int, len: int) -> Option<Seq<char>> {
    match byte_style(spans, b, len) {
        Some(x) => Some(x.0),
        None => None,
    }
}

/// The color of byte `k` of character `i` of `t`.
pub open spec fn inner_color(t: Seq<char>, spans: Seq<SpanV>, i: int, k: int) -> Option<Seq<char>> {
    color_at(spans, boff(t, i) + k, boff(t, t.len() as int))
}

/// Every character's bytes share one color, so colored runs never split a character.
pub open spec fn uniform(t: Seq<char>, spans: Seq<SpanV>) -> bool {
    forall|i: int, k: int| 0 <= i < t.len() && 0 <= k < clen(t[i])
        ==> #[trigger] inner_color(t, spans, i, k) == inner_color(t, spans, i, 0)
}

/// The color of character `i` of `t`.
pub open spec fn char_color(t: Seq<char>, spans: Seq<SpanV>, i: int) -> Option<Seq<char>> {
    color_at(spans, boff(t, i), boff(t, t.len() as int))
}

/// The tag that opens a colored run.
pub open spec fn open_tag(c: Option<Seq<char>>) -> Seq<char> {
    match c {
        Some(col) => "<span style=\"color:"@ + col + "\">"@,
        None => Seq::empty(),
    }
}

/// The tag that closes a colored run.
pub open spec fn close_tag(c: Option<Seq<char>>) -> Seq<char> {
    match c {
        Some(_) => "</span>"@,
        None => Seq::empty(),
    }
}

/// The HTML of character `j` of the line at `a` of `n` characters: escaped,
/// with a run's opening tag before its first character and closing tag after
/// its last.
pub open spec fn char_html(t: Seq<char>, spans: Seq<SpanV>, a: int, n: int, j: int) -> Seq<char> {
    let i = a + j;
    let c = char_color(t, spans, i);
    (if j == 0 || char_color(t, spans, i - 1) != c { open_tag(c) } else { Seq::empty() })
        + escape_char(t[i])
        + (if j == n - 1 || char_color(t, spans, i + 1) != c { close_tag(c) } else { Seq::empty() })
}

/// The HTML of the first `k` characters of the line at `a` of `n` characters.
pub open spec fn line_html(t: Seq<char>, spans: Seq<SpanV>, a: int, n: int, k: int) -> Seq<char>
    decreases k,
{
    if k <= 0 { Seq::empty() } else { line_html(t, spans, a, n, k - 1) + char_html(t, spans, a, n, k - 1) }
}

/// Where line `k` starts in the joined text.
pub open spec fn line_start(ls: Seq<String>, k: int) -> int
    decreases k,
{
    if k <= 0 { 0 } else { line_start(ls, k - 1) + ls[k - 1]@.len() + 1 }
}

/// The highlighted HTML of each line, given the spans over the joined text.
pub open spec fn highlighted(ls: Seq<String>, spans: Seq<SpanV>) -> Seq<Seq<char>> {
    let t = join_lines(ls);
    Seq::new(ls.len(), |k: int| line_html(t, spans, line_start(ls, k), ls[k]@.len() as int, ls[k]@.len() as int))
}

/// Each line escaped for HTML.
pub open spec fn escaped(ls: Seq<String>) -> Seq<Seq<char>> {
    Seq::new(ls.len(), |k: int| escape_html(ls[k]@))
}

proof fn lemma_join_layout(ls: Seq<String>)
    ensures
        join_lines(ls).len() == if ls.len() == 0 { 0 } else { line_start(ls, ls.len() - 1) + ls.last()@.len() },
        forall|k: int, j: int| 0 <= k < ls.len() && 0 <= j < ls[k]@.len()
            ==> join_lines(ls)[#[trigger] (line_start(ls, k) + j)] == ls[k]@[j],
        forall|k: int| 0 <= k < ls.len() - 1 ==> join_lines(ls)[#[trigger] (line_start(ls, k) + ls[k]@.len())] == '\n',
        forall|k: int| 0 <= k < ls.len() ==> line_start(ls, k) + ls[k]@.len() <= join_lines(ls).len(),
        forall|k: int| 0 <= k <= ls.len() ==> #[trigger] line_start(ls, k) >= 0,
    decreases ls.len(),
{
    if ls.len() > 1 {
        let d = ls.drop_last();
        lemma_join_layout(d);
        assert forall|k: int| 0 <= k <= d.len() implies line_start(d, k) == line_start(ls, k) by {
            lemma_line_start_prefix(ls, k);
        }
        let t = join_lines(ls);
        let td = join_lines(d);
        assert forall|k: int, j: int| 0 <= k < ls.len() && 0 <= j < ls[k]@.len()
            implies t[#[trigger] (line_start(ls, k) + j)] == ls[k]@[j] by {
            if k < d.len() {
                assert(d[k] == ls[k]);
                assert(td[line_start(d, k) + j] == d[k]@[j]);
            } else {
                assert(line_start(ls, k) == td.len() + 1);
            }
        }
        assert forall|k: int| 0 <= k < ls.len() - 1 implies t[#[trigger] (line_start(ls, k) + ls[k]@.len())] == '\n' by {
            if k < d.len() - 1 {
                assert(d[k] == ls[k]);
            } else {
                assert(d[k] == ls[k]);
            }
        }
        assert forall|k: int| 0 <= k <= ls.len() implies #[trigger] line_start(ls, k) >= 0 by {
            lemma_line_start_nonneg(ls, k);
        }
    } else if ls.len() == 1 {
        assert(line_start(ls, 0) == 0);
        assert forall|k: int| 0 <= k <= ls.len() implies #[trigger] line_start(ls, k) >= 0 by {
            lemma_line_start_nonneg(ls, k);
        }
    }
}

proof fn lemma_line_start_prefix(ls: Seq<String>, k: int)
    requires
        ls.len() > 0,
        0 <= k <= ls.len() - 1,
    ensures
        line_start(ls.drop_last(), k) == line_start(ls, k),
    decreases k,
{
    if k > 0 {
        lemma_line_start_prefix(ls, k - 1);
        assert(ls.drop_last()[k - 1] == ls[k - 1]);
    }
}

proof fn lemma_line_start_nonneg(ls: Seq<String>, k: int)
    requires
        0 <= k <= ls.len(),
    ensures
        line_start(ls, k) >= 0,
    decreases k,
{
    if k > 0 {
        lemma_line_start_nonneg(ls, k - 1);
    }
}

/// The characters of the lines joined with newlines, and where each line starts.
fn join_chars(lines: &[String]) -> (res: (Vec<char>, Vec<usize>))
    requires
        join_lines(lines@).len() < usize::MAX,
    ensures
        res.0@ == join_lines(lines@),
        res.1@.len() == lines@.len(),
        forall|k: int| 0 <= k < lines@.len() ==> res.1@[k] as int == line_start(lines@, k),
{
    let mut t: Vec<char> = Vec::new();
    let mut starts: Vec<usize> = Vec::new();
    let mut k: usize = 0;
    proof { lemma_join_layout(lines@); }
    while k < lines.len()
        invariant
            k <= lines@.len(),
            join_lines(lines@).len() < usize::MAX,
            t@ == join_lines(lines@.take(k as int)),
            starts@.len() == k,
            forall|q: int| 0 <= q < k ==> starts@[q] as int == line_start(lines@, q),
            k > 0 ==> t@.len() + 1 == line_start(lines@, k as int),
            k == 0 ==> t@.len() == 0,
            k > 0 ==> line_start(lines@, k as int) <= join_lines(lines@).len() + 1,
        decreases lines@.len() - k,
    {
        proof {
            assert(lines@.take(k + 1).drop_last() == lines@.take(k as int));
            assert(lines@.take(k + 1).last() == lines@[k as int]);
            lemma_line_start_take(lines@, k as int + 1);
            lemma_join_layout(lines@);
            lemma_join_layout(lines@.take(k + 1));
        }
        if k > 0 {
            t.push('\n');
        }
        starts.push(t.len());
        let cs = chars_of(lines[k].as_str());
        let mut j: usize = 0;
        let ghost base = t@;
        while j < cs.len()
            invariant
                j <= cs@.len(),
                t@ == base + cs@.take(j as int),
                base.len() + cs@.len() <= join_lines(lines@).len(),
            decreases cs@.len() - j,
        {
            t.push(cs[j]);
            proof { assert(cs@.take(j + 1) == cs@.take(j as int).push(cs@[j as int])); }
            j = j + 1;
        }
        proof {
            assert(cs@.take(cs@.len() as int) == cs@);
            if k > 0 {
                assert(t@ =~= join_lines(lines@.take(k + 1)));
            } else {
                assert(t@ =~= join_lines(lines@.take(k + 1)));
            }
        }
        k = k + 1;
    }
    proof { assert(lines@.take(lines@.len() as int) == lines@); }
    (t, starts)
}

proof fn lemma_line_start_take(ls: Seq<String>, n: int)
    requires
        0 <= n <= ls.len(),
    ensures
        forall|k: int| 0 <= k <= n ==> #[trigger] line_start(ls.take(n), k) == line_start(ls, k),
{
    assert forall|k: int| 0 <= k <= n implies #[trigger] line_start(ls.take(n), k) == line_start(ls, k) by {
        lemma_line_start_take_one(ls, n, k);
    }
}

proof fn lemma_line_start_take_one(ls: Seq<String>, n: int, k: int)
    requires
        0 <= k <= n <= ls.len(),
    ensures
        line_start(ls.take(n), k) == line_start(ls, k),
    decreases k,
{
    if k > 0 {
        lemma_line_start_take_one(ls, n, k - 1);
        assert(ls.take(n)[k - 1] == ls[k - 1]);
    }
}

/// The byte offset of each character, and the total.
fn byte_offsets(t: &Vec<char>) -> (off: Vec<usize>)
    requires
        4 * t@.len() < usize::MAX,
    ensures
        off@.len() == t@.len() + 1,
        forall|i: int| 0 <= i <= t@.len() ==> off@[i] as int == boff(t@, i),
        forall|i: int| 0 <= i <= t@.len() ==> boff(t@, i) <= 4 * i,
{
    let mut off: Vec<usize> = Vec::new();
    off.push(0);
    let mut b: usize = 0;
    let mut i: usize = 0;
    while i < t.len()
        invariant
            i <= t@.len(),
            4 * t@.len() < usize::MAX,
            off@.len() == i + 1,
            b as int == boff(t@, i as int),
            b <= 4 * i,
            forall|q: int| 0 <= q <= i ==> off@[q] as int == boff(t@, q),
            forall|q: int| 0 <= q <= i ==> boff(t@, q) <= 4 * q,
        decreases t@.len() - i,
    {
        let n = utf8_bytes(t[i]).len();
        proof {
            assert(clen(t@[i as int]) == n);
            assert(1 <= n <= 4);
        }
        b = b + n;
        off.push(b);
        i = i + 1;
    }
    off
}

/// The color (and priority) of every byte after the spans.
fn byte_colors(spans: &Vec<HlSpan>, len: usize) -> (colors: Vec<Option<(&'static str, u8)>>)
    ensures
        colors@.len() == len,
        forall|b: int| 0 <= b < len ==> match (#[trigger] colors@[b]) {
            None => byte_style(spans@.map_values(|s: HlSpan| span_view(s)), b, len as int) is None,
            Some(x) => byte_style(spans@.map_values(|s: HlSpan| span_view(s)), b, len as int) == Some((x.0@, x.1)),
        },
{
    let ghost sv = spans@.map_values(|s: HlSpan| span_view(s));
    let mut colors: Vec<Option<(&'static str, u8)>> = Vec::new();
    let mut b: usize = 0;
    while b < len
        invariant
            b <= len,
            colors@.len() == b,
            forall|q: int| 0 <= q < b ==> colors@[q] is None,
        decreases len - b,
    {
        colors.push(None);
        b = b + 1;
    }
    let mut k: usize = 0;
    while k < spans.len()
        invariant
            k <= spans@.len(),
            sv == spans@.map_values(|s: HlSpan| span_view(s)),
            colors@.len() == len,
            forall|q: int| 0 <= q < len ==> match (#[trigger] colors@[q]) {
                None => byte_style(sv.take(k as int), q, len as int) is None,
                Some(x) => byte_style(sv.take(k as int), q, len as int) == Some((x.0@, x.1)),
            },
        decreases spans@.len() - k,
    {
        let sp = &spans[k];
        let ghost svk = sv[k as int];
        proof {
            assert(sv.take(k + 1).drop_last() == sv.take(k as int));
            assert(sv.take(k + 1).last() == svk);
            assert(svk == span_view(*sp));
        }
        let (color, _italic) = github_color_for_capture(sp.capture.as_str());
        let prio = capture_priority(sp.capture.as_str());
        let plain = str_eq(color, "#1f2328");
        let s = if (sp.start as usize) < len { sp.start as usize } else { len };
        let e = if (sp.end as usize) < len { sp.end as usize } else { len };
        if plain {
            proof {
                assert forall|q: int| 0 <= q < len implies match (#[trigger] colors@[q]) {
                    None => byte_style(sv.take(k + 1), q, len as int) is None,
                    Some(x) => byte_style(sv.take(k + 1), q, len as int) == Some((x.0@, x.1)),
                } by {
                    assert(!span_colors(svk, q, len as int));
                }
            }
        } else {
            let mut q: usize = s;
            let ghost before = colors@;
            while q < e
                invariant
                    s <= q,
                    q <= e || q == s,
                    e <= len,
                    colors@.len() == len,
                    color@ == capture_color(svk.2),
                    color@ != default_color(),
                    prio == capture_rank(svk.2),
                    k < sv.len(),
                    sv.take(k + 1).len() == k + 1,
                    sv.take(k + 1).drop_last() == sv.take(k as int),
                    sv.take(k + 1).last() == svk,
                    svk.0 as int == sp.start as int,
                    svk.1 as int == sp.end as int,
                    s as int == (if svk.0 < len { svk.0 as int } else { len as int }),
                    e as int == (if svk.1 < len { svk.1 as int } else { len as int }),
                    forall|r: int| 0 <= r < len && !(s <= r < q) ==> colors@[r] == before[r],
                    forall|r: int| s <= r < q && r < len ==> match (#[trigger] colors@[r]) {
                        None => byte_style(sv.take(k + 1), r, len as int) is None,
                        Some(x) => byte_style(sv.take(k + 1), r, len as int) == Some((x.0@, x.1)),
                    },
                    forall|r: int| 0 <= r < len ==> match (#[trigger] before[r]) {
                        None => byte_style(sv.take(k as int), r, len as int) is None,
                        Some(x) => byte_style(sv.take(k as int), r, len as int) == Some((x.0@, x.1)),
                    },
                decreases e - q,
            {
                let cur = colors[q];
                let take = match cur { None => true, Some((_, p)) => prio >= p };
                proof {
                    assert(cur == before[q as int]);
                    assert(span_colors(svk, q as int, len as int));
                }
                let ghost prev = colors@;
                if take {
                    colors.set(q, Some((color, prio)));
                }
                proof {
                    let bs = byte_style(sv.take(k + 1), q as int, len as int);
                    assert(bs == match byte_style(sv.take(k as int), q as int, len as int) {
                        None => Some((capture_color(svk.2), capture_rank(svk.2))),
                        Some(x) => if capture_rank(svk.2) >= x.1 { Some((capture_color(svk.2), capture_rank(svk.2))) } else { byte_style(sv.take(k as int), q as int, len as int) },
                    });
                    assert(match colors@[q as int] {
                        None => bs is None,
                        Some(x) => bs == Some((x.0@, x.1)),
                    });
                    assert forall|r: int| s <= r < q && r < len implies colors@[r] == prev[r] by {}
                }
                q = q + 1;
            }
            proof {
                assert forall|r: int| 0 <= r < len implies match (#[trigger] colors@[r]) {
                    None => byte_style(sv.take(k + 1), r, len as int) is None,
                    Some(x) => byte_style(sv.take(k + 1), r, len as int) == Some((x.0@, x.1)),
                } by {
                    if !(s <= r < q) {
                        assert(!span_colors(svk, r, len as int));
                        assert(colors@[r] == before[r]);
                    }
                }
            }
        }
        k = k + 1;
    }
    proof { assert(sv.take(spans@.len() as int) == sv); }
    colors
}

/// The color of a byte's entry.
spec fn entry_color(x: Option<(&'static str, u8)>) -> Option<Seq<char>> {
    match x {
        Some(y) => Some(y.0@),
        None => None,
    }
}

/// The colors of the bytes match the spans.
spec fn colors_match(colors: Seq<Option<(&'static str, u8)>>, sv: Seq<SpanV>, len: int) -> bool {
    &&& colors.len() == len
    &&& forall|b: int| 0 <= b < len ==> entry_color(#[trigger] colors[b]) == color_at(sv, b, len)
}

fn same_color(a: Option<(&'static str, u8)>, b: Option<(&'static str, u8)>) -> (res: bool)
    ensures
        res == (entry_color(a) == entry_color(b)),
{
    match (a, b) {
        (None, None) => true,
        (Some(x), Some(y)) => str_eq(x.0, y.0),
        _ => false,
    }
}

/// Whether every character's bytes share one color.
fn check_uniform(t: &Vec<char>, off: &Vec<usize>, colors: &Vec<Option<(&'static str, u8)>>, Ghost(sv): Ghost<Seq<SpanV>>) -> (res: bool)
    requires
        off@.len() == t@.len() + 1,
        forall|i: int| 0 <= i <= t@.len() ==> off@[i] as int == boff(t@, i),
        colors_match(colors@, sv, boff(t@, t@.len() as int)),
    ensures
        res == uniform(t@, sv),
{
    let ghost len = boff(t@, t@.len() as int);
    let cl = colors.len();
    let mut i: usize = 0;
    while i < t.len()
        invariant
            i <= t@.len(),
            cl as int == len,
            off@.len() == t@.len() + 1,
            forall|q: int| 0 <= q <= t@.len() ==> off@[q] as int == boff(t@, q),
            colors_match(colors@, sv, len),
            len == boff(t@, t@.len() as int),
            forall|q: int, k: int| 0 <= q < i && 0 <= k < clen(t@[q]) ==> #[trigger] inner_color(t@, sv, q, k) == inner_color(t@, sv, q, 0),
        decreases t@.len() - i,
    {
        let n = utf8_bytes(t[i]).len();
        let b0 = off[i];
        proof {
            lemma_boff_mono(t@, i as int + 1, t@.len() as int);
            assert(off@[i + 1] as int == b0 + n);
        }
        let c0 = colors[b0];
        let mut k: usize = 1;
        while k < n
            invariant
                1 <= k <= n,
                i < t@.len(),
                cl as int == len,
                n as int == clen(t@[i as int]),
                b0 as int == boff(t@, i as int),
                b0 + n <= len,
                colors_match(colors@, sv, len),
                len == boff(t@, t@.len() as int),
                c0 == colors@[b0 as int],
                forall|q: int| 0 <= q < k ==> #[trigger] inner_color(t@, sv, i as int, q) == inner_color(t@, sv, i as int, 0),
            decreases n - k,
        {
            if !same_color(colors[b0 + k], c0) {
                proof {
                    assert(inner_color(t@, sv, i as int, k as int) != inner_color(t@, sv, i as int, 0));
                    assert(!uniform(t@, sv));
                }
                return false;
            }
            k = k + 1;
        }
        i = i + 1;
    }
    true
}

proof fn lemma_boff_mono(t: Seq<char>, a: int, b: int)
    requires
        0 <= a <= b <= t.len(),
    ensures
        boff(t, a) <= boff(t, b),
    decreases b - a,
{
    if a < b {
        lemma_boff_mono(t, a, b - 1);
        assert(clen(t[b - 1]) >= 1);
    }
}

/// The color of a character from the byte colors.
fn color_of_char(off: &Vec<usize>, colors: &Vec<Option<(&'static str, u8)>>, i: usize, Ghost(t): Ghost<Seq<char>>, Ghost(sv): Ghost<Seq<SpanV>>) -> (res: Option<(&'static str, u8)>)
    requires
        i < t.len(),
        off@.len() == t.len() + 1,
        forall|q: int| 0 <= q <= t.len() ==> off@[q] as int == boff(t, q),
        colors_match(colors@, sv, boff(t, t.len() as int)),
    ensures
        entry_color(res) == char_color(t, sv, i as int),
{
    proof {
        lemma_boff_mono(t, i as int + 1, t.len() as int);
        assert(clen(t[i as int]) >= 1);
    }
    colors[off[i]]
}

fn push_open(out: &mut String, c: Option<(&'static str, u8)>)
    ensures
        final(out)@ == old(out)@ + open_tag(entry_color(c)),
{
    match c {
        Some((col, _)) => {
            out.append("<span style=\"color:");
            out.append(col);
            out.append("\">");
        },
        None => {},
    }
}

fn push_close(out: &mut String, c: Option<(&'static str, u8)>)
    ensures
        final(out)@ == old(out)@ + close_tag(entry_color(c)),
{
    match c {
        Some(_) => { out.append("</span>"); },
        None => {},
    }
}

/// The HTML of the line of `n` characters at `a`.
fn render_line(t: &Vec<char>, off: &Vec<usize>, colors: &Vec<Option<(&'static str, u8)>>, a: usize, n: usize, Ghost(sv): Ghost<Seq<SpanV>>) -> (res: String)
    requires
        a + n <= t@.len(),
        off@.len() == t@.len() + 1,
        forall|q: int| 0 <= q <= t@.len() ==> off@[q] as int == boff(t@, q),
        colors_match(colors@, sv, boff(t@, t@.len() as int)),
    ensures
        res@ == line_html(t@, sv, a as int, n as int, n as int),
{
    let mut out = String::new();
    let tl = t.len();
    let mut j: usize = 0;
    while j < n
        invariant
            j <= n,
            tl == t@.len(),
            a + n <= t@.len(),
            off@.len() == t@.len() + 1,
            forall|q: int| 0 <= q <= t@.len() ==> off@[q] as int == boff(t@, q),
            colors_match(colors@, sv, boff(t@, t@.len() as int)),
            out@ == line_html(t@, sv, a as int, n as int, j as int),
        decreases n - j,
    {
        let i = a + j;
        let c = color_of_char(off, colors, i, Ghost(t@), Ghost(sv));
        let ghost start = out@;
        let opens = if j == 0 { true } else { !same_color(color_of_char(off, colors, i - 1, Ghost(t@), Ghost(sv)), c) };
        if opens {
            push_open(&mut out, c);
        }
        push_escaped(&mut out, t[i]);
        let closes = if j + 1 == n { true } else { !same_color(color_of_char(off, colors, i + 1, Ghost(t@), Ghost(sv)), c) };
        if closes {
            push_close(&mut out, c);
        }
        proof {
            assert(out@ =~= start + char_html(t@, sv, a as int, n as int, j as int));
        }
        j = j + 1;
    }
    out
}

/// Highlights lines with the spans reported over the lines joined by
/// newlines; `None` when a colored run would split a character.
pub fn highlight_with_spans(lines: &[String], spans: &Vec<HlSpan>) -> (res: Option<Vec<String>>)
    requires
        4 * join_lines(lines@).len() < usize::MAX,
    ensures
        res is None <==> !uniform(join_lines(lines@), spans@.map_values(|s: HlSpan| span_view(s))),
        res matches Some(v) ==> v@.map_values(|x: String| x@) == highlighted(lines@, spans@.map_values(|s: HlSpan| span_view(s))),
{
    let ghost sv = spans@.map_values(|s: HlSpan| span_view(s));
    let (t, starts) = join_chars(lines);
    let off = byte_offsets(&t);
    let len = off[t.len()];
    let colors = byte_colors(spans, len);
    proof {
        assert forall|b: int| 0 <= b < len implies entry_color(#[trigger] colors@[b]) == color_at(sv, b, len as int) by {
            match colors@[b] {
                None => {},
                Some(x) => {},
            }
        }
    }
    if !check_uniform(&t, &off, &colors, Ghost(sv)) {
        return None;
    }
    let mut res: Vec<String> = Vec::new();
    let mut k: usize = 0;
    proof { lemma_join_layout(lines@); }
    while k < lines.len()
        invariant
            k <= lines@.len(),
            t@ == join_lines(lines@),
            starts@.len() == lines@.len(),
            forall|q: int| 0 <= q < lines@.len() ==> starts@[q] as int == line_start(lines@, q),
            forall|q: int| 0 <= q < lines@.len() ==> line_start(lines@, q) + lines@[q]@.len() <= join_lines(lines@).len(),
            off@.len() == t@.len() + 1,
            forall|q: int| 0 <= q <= t@.len() ==> off@[q] as int == boff(t@, q),
            colors_match(colors@, sv, boff(t@, t@.len() as int)),
            res@.map_values(|x: String| x@) == highlighted(lines@, sv).take(k as int),
        decreases lines@.len() - k,
    {
        let n = lines[k].as_str().unicode_len();
        let line = render_line(&t, &off, &colors, starts[k], n, Ghost(sv));
        let ghost before = res@;
        res.push(line);
        proof {
            assert(res@.map_values(|x: String| x@) =~= before.map_values(|x: String| x@).push(line@));
            assert(highlighted(lines@, sv).take(k + 1) =~= highlighted(lines@, sv).take(k as int).push(highlighted(lines@, sv)[k as int]));
            assert(lines@[k as int]@.len() == n);
        }
        k = k + 1;
    }
    proof { assert(highlighted(lines@, sv).take(lines@.len() as int) == highlighted(lines@, sv)); }
    Some(res)
}

#[verifier::external_type_specification]
#[verifier::external_body]
pub struct ExHighlighter(arborium::Highlighter);

/// A syntax highlighter made with arborium's default configuration.
pub struct SyntaxHighlighter {
    hl: arborium::Highlighter,
}

/// The spans that arborium reports for `text` in `lang` with its default
/// configuration, as (start byte, end byte, capture); `None` when it reports
/// an error (an unsupported language or a failed parse).
pub uninterp spec fn highlight_result(lang: Seq<char>, text: Seq<char>) -> Option<Seq<SpanV>>;

/// The language that arborium assigns to a path by its extension, if any.
pub uninterp spec fn detected_language(path: Seq<char>) -> Option<Seq<char>>;

/// Calls `arborium::Highlighter::new`: a highlighter with the default
/// configuration. Nothing is claimed of it.
#[verifier::external_body]
fn new_arborium_highlighter() -> arborium::Highlighter {
    arborium::Highlighter::new()
}

/// Calls `arborium::Highlighter::highlight_spans`. The contract claims that
/// the spans (or the error) depend only on the language and the text, which
/// it names; what they are is not stated.
#[verifier::external_body]
fn highlight_spans_call(hl: &mut arborium::Highlighter, lang: &str, text: &str) -> (res: Option<Vec<HlSpan>>)
    ensures
        match res {
            Some(v) => highlight_result(lang@, text@) == Some(v@.map_values(|s: HlSpan| span_view(s))),
            None => highlight_result(lang@, text@) is None,
        },
{
    match hl.highlight_spans(lang, text) {
        Ok(spans) => Some(spans.into_iter().map(|s| HlSpan { start: s.start, end: s.end, capture: s.capture }).collect()),
        Err(_) => None,
    }
}

/// Calls `arborium::detect_language`. The contract claims that the result
/// depends only on the path, which it names; the extension table is not stated.
#[verifier::external_body]
fn detect_language_call(path: &str) -> (res: Option<&'static str>)
    ensures
        match res {
            Some(l) => detected_language(path@) == Some(l@),
            None => detected_language(path@) is None,
        },
{
    arborium::detect_language(path)
}

impl SyntaxHighlighter {
    /// A highlighter with arborium's default configuration.
    pub fn new() -> Self {
        SyntaxHighlighter { hl: new_arborium_highlighter() }
    }
}

/// The language of a file path, by its extension.
pub fn detect_language(path: &str) -> (res: Option<&'static str>)
    ensures
        match res {
            Some(l) => detected_language(path@) == Some(l@),
            None => detected_language(path@) is None,
        },
{
    detect_language_call(path)
}

/// The lines joined with newlines.
fn join_string(lines: &[String]) -> (res: String)
    requires
        join_lines(lines@).len() < usize::MAX,
    ensures
        res@ == join_lines(lines@),
{
    let (t, _starts) = join_chars(lines);
    crate::text::string_of_chars(t.as_slice())
}

/// Each line escaped for HTML.
fn escape_lines(lines: &[String]) -> (res: Vec<String>)
    ensures
        res@.map_values(|x: String| x@) == escaped(lines@),
{
    let mut res: Vec<String> = Vec::new();
    let mut k: usize = 0;
    while k < lines.len()
        invariant
            k <= lines@.len(),
            res@.map_values(|x: String| x@) == escaped(lines@).take(k as int),
        decreases lines@.len() - k,
    {
        let ghost before = res@;
        let e = html_escape(lines[k].as_str());
        res.push(e);
        proof {
            assert(res@.map_values(|x: String| x@) =~= before.map_values(|x: String| x@).push(e@));
            assert(escaped(lines@).take(k + 1) =~= escaped(lines@).take(k as int).push(escape_html(lines@[k as int]@)));
        }
        k = k + 1;
    }
    proof { assert(escaped(lines@).take(lines@.len() as int) == escaped(lines@)); }
    res
}

/// The highlighted HTML of source lines in a language, as the renderer shows
/// them: escaped lines without a language or when highlighting fails,
/// otherwise colored runs; `None` when a colored run would split a character.
pub open spec fn syntax_lines(lines: Seq<String>, lang: Option<Seq<char>>) -> Option<Seq<Seq<char>>> {
    match lang {
        None => Some(escaped(lines)),
        Some(l) => match highlight_result(l, join_lines(lines)) {
            None => Some(escaped(lines)),
            Some(sp) => if uniform(join_lines(lines), sp) { Some(highlighted(lines, sp)) } else { None },
        },
    }
}

/// Highlighting gives one HTML line per source line; without a language, or
/// when the highlighter gives no spans, each line is just the escaped text.
pub proof fn lemma_syntax_lines_shape(lines: Seq<String>, lang: Option<Seq<char>>)
    ensures
        syntax_lines(lines, lang) matches Some(v) ==> v.len() == lines.len(),
        lang is None ==> syntax_lines(lines, lang) == Some(escaped(lines)),
        lang matches Some(l) && highlight_result(l, join_lines(lines)) is None
            ==> syntax_lines(lines, lang) == Some(escaped(lines)),
{
}

/// The texts of strings.
pub open spec fn texts(ls: Seq<String>) -> Seq<Seq<char>> {
    ls.map_values(|x: String| x@)
}

/// Texts joined with newlines.
pub open spec fn join_texts(ls: Seq<Seq<char>>) -> Seq<char>
    decreases ls.len(),
{
    if ls.len() == 0 {
        Seq::empty()
    } else if ls.len() == 1 {
        ls[0]
    } else {
        join_texts(ls.drop_last()) + seq!['\n'] + ls.last()
    }
}

/// Where text `k` starts in the joined texts.
pub open spec fn text_start(ls: Seq<Seq<char>>, k: int) -> int
    decreases k,
{
    if k <= 0 { 0 } else { text_start(ls, k - 1) + ls[k - 1].len() + 1 }
}

/// The highlighted HTML of texts, as [`syntax_lines`] gives it for strings
/// with these texts.
pub open spec fn syntax_texts(ls: Seq<Seq<char>>, lang: Option<Seq<char>>) -> Option<Seq<Seq<char>>> {
    let esc = Seq::new(ls.len(), |k: int| escape_html(ls[k]));
    match lang {
        None => Some(esc),
        Some(l) => match highlight_result(l, join_texts(ls)) {
            None => Some(esc),
            Some(sp) => if uniform(join_texts(ls), sp) {
                let t = join_texts(ls);
                Some(Seq::new(ls.len(), |k: int| line_html(t, sp, text_start(ls, k), ls[k].len() as int, ls[k].len() as int)))
            } else {
                None
            },
        },
    }
}

/// Joining strings joins their texts, line by line.
pub proof fn lemma_join_texts(ls: Seq<String>)
    ensures
        join_lines(ls) == join_texts(texts(ls)),
        forall|k: int| 0 <= k <= ls.len() ==> #[trigger] line_start(ls, k) == text_start(texts(ls), k),
    decreases ls.len(),
{
    if ls.len() > 0 {
        lemma_join_texts(ls.drop_last());
        assert(texts(ls.drop_last()) =~= texts(ls).drop_last());
        assert forall|k: int| 0 <= k <= ls.len() implies #[trigger] line_start(ls, k) == text_start(texts(ls), k) by {
            lemma_start_views(ls, k);
        }
    }
}

proof fn lemma_start_views(ls: Seq<String>, k: int)
    requires
        0 <= k <= ls.len(),
    ensures
        line_start(ls, k) == text_start(texts(ls), k),
    decreases k,
{
    if k > 0 {
        lemma_start_views(ls, k - 1);
    }
}

/// The highlighted HTML of strings depends on their texts alone.
pub proof fn lemma_syntax_texts(ls: Seq<String>, lang: Option<Seq<char>>)
    ensures
        match syntax_lines(ls, lang) {
            Some(v) => syntax_texts(texts(ls), lang) == Some(v),
            None => syntax_texts(texts(ls), lang) is None,
        },
{
    lemma_join_texts(ls);
    let tv = texts(ls);
    assert(escaped(ls) =~= Seq::new(tv.len(), |k: int| escape_html(tv[k])));
    match lang {
        None => {},
        Some(l) => {
            match highlight_result(l, join_lines(ls)) {
                None => {},
                Some(sp) => {
                    if uniform(join_lines(ls), sp) {
                        let t = join_lines(ls);
                        assert(highlighted(ls, sp) =~= Seq::new(tv.len(), |k: int| line_html(t, sp, text_start(tv, k), tv[k].len() as int, tv[k].len() as int)));
                    }
                },
            }
        },
    }
}

/// Syntax-highlight all lines of a file. Returns one HTML string per line with
/// `<span style="...">` tokens, or `None` when the reported spans would split
/// a character.
pub fn syntax_highlight_lines(lines: &[String], hl: &mut SyntaxHighlighter, lang: Option<&str>) -> (res: Option<Vec<String>>)
    requires
        4 * join_lines(lines@).len() < usize::MAX,
    ensures
        match syntax_lines(lines@, match lang { Some(l) => Some(l@), None => None }) {
            Some(v) => res matches Some(r) && r@.map_values(|x: String| x@) == v,
            None => res is None,
        },
{
    let lang = match lang {
        Some(l) => l,
        None => return Some(escape_lines(lines)),
    };
    let full_text = join_string(lines);
    match highlight_spans_call(&mut hl.hl, lang, full_text.as_str()) {
        None => Some(escape_lines(lines)),
        Some(spans) => highlight_with_spans(lines, &spans),
    }
}

} // verus!
