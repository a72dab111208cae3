//! The passes that turn the processed markdown into the page: markdown to
//! HTML, the blocks put in place of their placeholders, fenced code checked
//! and highlighted, service badges, heading anchors, the coverage badge and
//! the subtitle.

use vstd::prelude::*;
use crate::pass::placeholder;
use crate::difft_json::DifftOutput;
use crate::text::escape_html;
use crate::tables::{contains_exec, contains_sub, find_sub, find_sub_exec, has_at_exec, replace_all, replace_all_exec};
use crate::text::{chars_of, dec, find_char_from, find_from, lemma_find_from, push_dec_usize, string_of_chars};
use crate::refs::has_at;
use crate::parse::{lines_of, split_on};
use crate::syntax::{detected_language, join_texts, syntax_texts, SyntaxHighlighter};

verus! {

/// The HTML that pulldown-cmark renders for markdown, with tables and task
/// lists enabled.
pub uninterp spec fn markdown_html(md: Seq<char>) -> Seq<char>;

/// Calls `pulldown_cmark::html::push_html` on `Parser::new_ext(md, options)`
/// with tables and task lists enabled. The contract claims that the HTML
/// depends on the markdown alone, which it names; its form is not stated.
#[verifier::external_body]
fn push_markdown_html(md: &str) -> (res: String)
    ensures
        res@ == markdown_html(md@),
{
    let mut options = pulldown_cmark::Options::empty();
    options.insert(pulldown_cmark::Options::ENABLE_TABLES);
    options.insert(pulldown_cmark::Options::ENABLE_TASKLISTS);
    let parser = pulldown_cmark::Parser::new_ext(md, options);
    let mut out = String::new();
    pulldown_cmark::html::push_html(&mut out, parser);
    out
}

/// Renders the processed markdown to HTML (see [`markdown_html`]).
pub fn markdown_to_html(md: &str) -> (res: String)
    ensures
        res@ == markdown_html(md@),
{
    push_markdown_html(md)
}

/// Block `i` put in place of its placeholder: in place of the paragraph
/// that holds just the placeholder where there is one, else in place of
/// each bare placeholder.
pub open spec fn place_block(h: Seq<char>, i: nat, block: Seq<char>) -> Seq<char> {
    let ph = placeholder(i);
    let pp = "<p>"@ + ph + "</p>"@;
    if contains_sub(h, pp) { replace_all(h, pp, block) } else { replace_all(h, ph, block) }
}

/// The blocks put in place in order.
pub open spec fn place_blocks(h: Seq<char>, blocks: Seq<Seq<char>>) -> Seq<char>
    decreases blocks.len(),
{
    if blocks.len() == 0 {
        h
    } else {
        place_block(place_blocks(h, blocks.drop_last()), (blocks.len() - 1) as nat, blocks.last())
    }
}

/// Puts the rendered blocks in place of their placeholders (see
/// [`place_blocks`]).
pub fn place_rendered_blocks(html: &str, blocks: &Vec<String>) -> (res: String)
    ensures
        res@ == place_blocks(html@, crate::syntax::texts(blocks@)),
{
    let mut cur = String::new();
    cur.append(html);
    let ghost bv = crate::syntax::texts(blocks@);
    let mut i: usize = 0;
    while i < blocks.len()
        invariant
            i <= blocks@.len(),
            bv == crate::syntax::texts(blocks@),
            cur@ == place_blocks(html@, bv.take(i as int)),
        decreases blocks@.len() - i,
    {
        proof {
            assert(bv.take(i + 1).drop_last() == bv.take(i as int));
            assert(bv.take(i + 1).last() == blocks@[i as int]@);
        }
        let mut ph = String::new();
        ph.append("<!-- DIFF_PLACEHOLDER_");
        push_dec_usize(&mut ph, i);
        ph.append(" -->");
        let mut pp = String::new();
        pp.append("<p>");
        pp.append(ph.as_str());
        pp.append("</p>");
        proof {
            reveal_strlit("<!-- DIFF_PLACEHOLDER_");
            reveal_strlit(" -->");
            reveal_strlit("<p>");
            reveal_strlit("</p>");
            assert(ph@ =~= placeholder(i as nat));
        }
        let phc = chars_of(ph.as_str());
        let ppc = chars_of(pp.as_str());
        let cc = chars_of(cur.as_str());
        cur = if contains_exec(cc.as_slice(), pp.as_str()) {
            replace_all_exec(cc.as_slice(), ppc.as_slice(), blocks[i].as_str())
        } else {
            replace_all_exec(cc.as_slice(), phc.as_slice(), blocks[i].as_str())
        };
        i = i + 1;
    }
    proof { assert(bv.take(blocks@.len() as int) == bv); }
    cur
}


/// A fenced code block without a language starts at `p`: `<pre><code>`,
/// text without `<`, then `</code></pre>`.
pub open spec fn bare_code_at(h: Seq<char>, p: int) -> bool {
    has_at(h, p, "<pre><code>"@) && match find_from(h, p + 11, '<') {
        Some(q) => has_at(h, q, "</code></pre>"@),
        None => false,
    }
}

/// The first fenced code block without a language, from `i` on.
pub open spec fn first_bare(h: Seq<char>, i: int) -> Option<int>
    decreases h.len() + 1 - i,
{
    if i < 0 || i > h.len() {
        None
    } else {
        match find_sub(h, i, "<pre><code>"@) {
            None => None,
            Some(p) => if bare_code_at(h, p) {
                Some(p)
            } else if p + 1 > i && p + 1 <= h.len() {
                first_bare(h, p + 1)
            } else {
                None
            },
        }
    }
}

/// The entities `&amp;`, `&lt;` and `&gt;` decoded, in that order.
pub open spec fn decode3(s: Seq<char>) -> Seq<char> {
    replace_all(replace_all(replace_all(s, "&amp;"@, "&"@), "&lt;"@, "<"@), "&gt;"@, ">"@)
}

/// The start of a code block's text for a message: up to 60 characters after
/// `<pre><code>`, decoded, up to the end of its first line.
pub open spec fn bare_snippet(h: Seq<char>, p: int) -> Seq<char> {
    let a = p + 11;
    let b = if a + 60 < h.len() { a + 60 } else { h.len() as int };
    let s = decode3(h.subrange(a, b));
    if lines_of(s).len() > 0 { lines_of(s)[0] } else { s }
}

/// The message for a fenced code block without a language.
pub open spec fn bare_message(snippet: Seq<char>) -> Seq<char> {
    "Fenced code block without a language tag:\n\n  ```\n  "@ + snippet
        + "...\n  ```\n\nAll code blocks must specify a language (e.g. ```typescript, ```rust, ```bash). Use ```plain for blocks with no syntax highlighting."@
}

fn bare_code_at_exec(h: &[char], p: usize, open: &Vec<char>, close: &Vec<char>) -> (res: bool)
    requires
        open@ == "<pre><code>"@,
        close@ == "</code></pre>"@,
    ensures
        res == bare_code_at(h@, p as int),
{
    proof { reveal_strlit("<pre><code>"); }
    let n = h.len();
    if !has_at_exec(h, p, open.as_slice()) {
        return false;
    }
    assert(open@.len() == 11);
    match find_char_from(h, p + 11, '<') {
        Some(q) => has_at_exec(h, q, close.as_slice()),
        None => false,
    }
}

fn decode3_exec(s: &[char]) -> (res: String)
    ensures
        res@ == decode3(s@),
{
    let a = replace_all_exec(s, chars_of("&amp;").as_slice(), "&");
    let ac = chars_of(a.as_str());
    let b = replace_all_exec(ac.as_slice(), chars_of("&lt;").as_slice(), "<");
    let bc = chars_of(b.as_str());
    replace_all_exec(bc.as_slice(), chars_of("&gt;").as_slice(), ">")
}

/// Rejects a page with a fenced code block that names no language: the
/// error carries the start of the first such block's text (see
/// [`bare_message`]).
pub fn check_code_languages(html: &str) -> (res: Result<(), String>)
    ensures
        match first_bare(html@, 0) {
            None => res is Ok,
            Some(p) => res matches Err(m) && m@ == bare_message(bare_snippet(html@, p)),
        },
{
    let h = chars_of(html);
    let open = chars_of("<pre><code>");
    let close = chars_of("</code></pre>");
    proof { reveal_strlit("<pre><code>"); }
    assert(open@.len() == 11);
    let mut i: usize = 0;
    loop
        invariant
            i <= h@.len(),
            h@ == html@,
            open@ == "<pre><code>"@,
            close@ == "</code></pre>"@,
            first_bare(h@, 0) == first_bare(h@, i as int),
        decreases h@.len() + 1 - i,
    {
        match find_sub_exec(h.as_slice(), i, open.as_slice()) {
            None => { return Ok(()); },
            Some(p) => {
                if bare_code_at_exec(h.as_slice(), p, &open, &close) {
                    let n = h.len();
                    assert(p + 11 <= n);
                    let a = p + 11;
                    let b = if h.len() - a > 60 { a + 60 } else { h.len() };
                    let sub = crate::tables::sub_vec(h.as_slice(), a, b);
                    let dec = decode3_exec(sub.as_slice());
                    let ls = crate::parse::text_lines(dec.as_str());
                    let first = if ls.len() > 0 { string_of_chars(ls[0].as_slice()) } else { dec };
                    let mut m = String::new();
                    m.append("Fenced code block without a language tag:\n\n  ```\n  ");
                    m.append(first.as_str());
                    m.append("...\n  ```\n\nAll code blocks must specify a language (e.g. ```typescript, ```rust, ```bash). Use ```plain for blocks with no syntax highlighting.");
                    proof {
                        assert(sub@ == h@.subrange(a as int, b as int));
                    }
                    return Err(m);
                }
                let n = h.len();
                if p >= n {
                    return Ok(());
                }
                i = p + 1;
            },
        }
    }
}


/// The opening of a fenced code block with a language.
pub open spec fn code_open() -> Seq<char> {
    "<pre><code class=\"language-"@
}

/// The number of characters other than `c` from `i` on.
pub open spec fn run_until(h: Seq<char>, i: int, c: char) -> int
    decreases h.len() - i,
{
    if 0 <= i < h.len() && h[i] != c { 1 + run_until(h, i + 1, c) } else { 0 }
}

/// A code block with a language starts at `p`: the end of the language, the
/// start and end of the text and the end of the block.
pub open spec fn code_match_at(h: Seq<char>, p: int) -> Option<(int, int, int, int)> {
    if !has_at(h, p, code_open()) {
        None
    } else {
        let a = p + 27;
        let b = a + run_until(h, a, '"');
        if b > a && has_at(h, b, "\">"@) {
            match find_sub(h, b + 2, "</code></pre>"@) {
                Some(d) => Some((b, b + 2, d, d + 13)),
                None => None,
            }
        } else {
            None
        }
    }
}

/// The first code block with a language from `i` on.
pub open spec fn next_code(h: Seq<char>, i: int) -> Option<(int, (int, int, int, int))>
    decreases h.len() + 1 - i,
{
    if i < 0 || i > h.len() {
        None
    } else {
        match find_sub(h, i, code_open()) {
            None => None,
            Some(p) => match code_match_at(h, p) {
                Some(m) => Some((p, m)),
                None => if p + 1 > i && p + 1 <= h.len() { next_code(h, p + 1) } else { None },
            },
        }
    }
}

/// A fence's language as a file extension.
pub open spec fn fence_ext(t: Seq<char>) -> Seq<char> {
    if t == "typescript"@ || t == "ts"@ { "ts"@ }
    else if t == "tsx"@ { "tsx"@ }
    else if t == "javascript"@ || t == "js"@ { "js"@ }
    else if t == "jsx"@ { "jsx"@ }
    else if t == "rust"@ || t == "rs"@ { "rs"@ }
    else if t == "python"@ || t == "py"@ { "py"@ }
    else if t == "go"@ || t == "golang"@ { "go"@ }
    else if t == "ruby"@ || t == "rb"@ { "rb"@ }
    else if t == "java"@ { "java"@ }
    else if t == "c"@ { "c"@ }
    else if t == "cpp"@ || t == "c++"@ || t == "cxx"@ { "cpp"@ }
    else if t == "css"@ { "css"@ }
    else if t == "html"@ { "html"@ }
    else if t == "json"@ { "json"@ }
    else if t == "yaml"@ || t == "yml"@ { "yaml"@ }
    else if t == "toml"@ { "toml"@ }
    else if t == "bash"@ || t == "sh"@ || t == "shell"@ || t == "zsh"@ { "sh"@ }
    else if t == "sql"@ { "sql"@ }
    else if t == "swift"@ { "swift"@ }
    else if t == "kotlin"@ || t == "kt"@ { "kt"@ }
    else { t }
}

/// A fence language that asks for no highlighting.
pub open spec fn plain_tag(t: Seq<char>) -> bool {
    t == "plain"@ || t == "text"@ || t == "txt"@
}

/// A code block's HTML text decoded back to source.
pub open spec fn code_decode(b: Seq<char>) -> Seq<char> {
    replace_all(decode3(b), "&quot;"@, "\""@)
}

/// What a code block with a language becomes: the text as it is for a plain
/// language; the block unchanged where the language is not known; else the
/// decoded source highlighted line by line. `None` where the source is
/// longer than a quarter of the address space or highlighting fails.
pub open spec fn code_repl(h: Seq<char>, p: int, m: (int, int, int, int)) -> Option<Seq<char>> {
    let t = h.subrange(p + 27, m.0);
    let body = h.subrange(m.1, m.2);
    if plain_tag(t) {
        Some("<pre><code>"@ + body + "</code></pre>"@)
    } else {
        match detected_language("file."@ + fence_ext(t)) {
            None => Some(h.subrange(p, m.3)),
            Some(l) => {
                let ls = lines_of(code_decode(body));
                if 4 * join_texts(ls).len() >= usize::MAX {
                    None
                } else {
                    match syntax_texts(ls, Some(l)) {
                        None => None,
                        Some(hl) => Some("<pre><code>"@ + join_texts(hl) + "</code></pre>"@),
                    }
                }
            },
        }
    }
}

/// The code blocks from `i` on replaced (see [`code_repl`]).
pub open spec fn code_scan(h: Seq<char>, i: int) -> Option<Seq<char>>
    decreases h.len() + 1 - i,
{
    if i < 0 || i > h.len() {
        None
    } else {
        match next_code(h, i) {
            None => Some(h.skip(i)),
            Some(pm) => {
                let p = pm.0;
                let m = pm.1;
                if i <= p && i < m.3 <= h.len() {
                    match code_repl(h, p, m) {
                        None => None,
                        Some(r) => match code_scan(h, m.3) {
                            None => None,
                            Some(rest) => Some(h.subrange(i, p) + r + rest),
                        },
                    }
                } else {
                    None
                }
            },
        }
    }
}

fn run_until_exec(h: &[char], i: usize, c: char) -> (n: usize)
    requires
        i <= h@.len(),
    ensures
        n as int == run_until(h@, i as int, c),
        i + n <= h@.len(),
{
    let mut k = i;
    while k < h.len() && h[k] != c
        invariant
            i <= k <= h@.len(),
            run_until(h@, i as int, c) == (k - i) + run_until(h@, k as int, c),
        decreases h@.len() - k,
    {
        k = k + 1;
    }
    k - i
}

fn code_match_exec(h: &[char], p: usize) -> (res: Option<(usize, usize, usize, usize)>)
    ensures
        match code_match_at(h@, p as int) {
            Some(m) => res == Some((m.0 as usize, m.1 as usize, m.2 as usize, m.3 as usize))
                && p + 27 < m.0 && m.0 + 2 == m.1 <= m.2 && m.2 + 13 == m.3 <= h@.len(),
            None => res is None,
        },
{
    let open = chars_of("<pre><code class=\"language-");
    proof { reveal_strlit("<pre><code class=\"language-"); }
    let n = h.len();
    if !has_at_exec(h, p, open.as_slice()) {
        return None;
    }
    assert(open@.len() == 27);
    let a = p + 27;
    let b = a + run_until_exec(h, a, '"');
    let q = chars_of("\">");
    if !(b > a && has_at_exec(h, b, q.as_slice())) {
        return None;
    }
    proof { reveal_strlit("\">"); }
    assert(q@.len() == 2);
    let close = chars_of("</code></pre>");
    proof { reveal_strlit("</code></pre>"); }
    assert(close@.len() == 13);
    match find_sub_exec(h, b + 2, close.as_slice()) {
        Some(d) => Some((b, b + 2, d, d + 13)),
        None => None,
    }
}

fn next_code_exec(h: &[char], i: usize) -> (res: Option<(usize, (usize, usize, usize, usize))>)
    requires
        i <= h@.len(),
    ensures
        match next_code(h@, i as int) {
            Some(pm) => res == Some((pm.0 as usize, (pm.1.0 as usize, pm.1.1 as usize, pm.1.2 as usize, pm.1.3 as usize)))
                && i <= pm.0 && pm.0 + 27 < pm.1.0 && pm.1.0 + 2 == pm.1.1 <= pm.1.2 && pm.1.2 + 13 == pm.1.3 <= h@.len(),
            None => res is None,
        },
{
    let open = chars_of("<pre><code class=\"language-");
    let n = h.len();
    let mut k = i;
    loop
        invariant
            i <= k <= n,
            n == h@.len(),
            open@ == code_open(),
            next_code(h@, i as int) == next_code(h@, k as int),
        decreases n + 1 - k,
    {
        match find_sub_exec(h, k, open.as_slice()) {
            None => { return None; },
            Some(p) => {
                match code_match_exec(h, p) {
                    Some(m) => { return Some((p, m)); },
                    None => {
                        if p >= n {
                            return None;
                        }
                        k = p + 1;
                    },
                }
            },
        }
    }
}

fn lines_strings(s: &str) -> (res: Vec<String>)
    ensures
        crate::syntax::texts(res@) == lines_of(s@),
{
    let ls = crate::parse::text_lines(s);
    let mut out: Vec<String> = Vec::new();
    let mut i: usize = 0;
    while i < ls.len()
        invariant
            i <= ls@.len(),
            ls@.len() == lines_of(s@).len(),
            forall|k: int| 0 <= k < ls@.len() ==> (#[trigger] ls@[k])@ == lines_of(s@)[k],
            crate::syntax::texts(out@) == lines_of(s@).take(i as int),
        decreases ls@.len() - i,
    {
        let ghost o0 = out@;
        out.push(string_of_chars(ls[i].as_slice()));
        proof {
            assert(crate::syntax::texts(out@) =~= crate::syntax::texts(o0).push(ls@[i as int]@));
            assert(lines_of(s@).take(i + 1) =~= lines_of(s@).take(i as int).push(lines_of(s@)[i as int]));
        }
        i = i + 1;
    }
    proof { assert(lines_of(s@).take(ls@.len() as int) =~= lines_of(s@)); }
    out
}

fn fence_ext_exec(t: &Vec<char>) -> (res: Vec<char>)
    ensures
        res@ == fence_ext(t@),
{
    let ts = string_of_chars(t.as_slice());
    let s = ts.as_str();
    let e: &str = if crate::text::str_eq(s, "typescript") || crate::text::str_eq(s, "ts") { "ts" }
        else if crate::text::str_eq(s, "tsx") { "tsx" }
        else if crate::text::str_eq(s, "javascript") || crate::text::str_eq(s, "js") { "js" }
        else if crate::text::str_eq(s, "jsx") { "jsx" }
        else if crate::text::str_eq(s, "rust") || crate::text::str_eq(s, "rs") { "rs" }
        else if crate::text::str_eq(s, "python") || crate::text::str_eq(s, "py") { "py" }
        else if crate::text::str_eq(s, "go") || crate::text::str_eq(s, "golang") { "go" }
        else if crate::text::str_eq(s, "ruby") || crate::text::str_eq(s, "rb") { "rb" }
        else if crate::text::str_eq(s, "java") { "java" }
        else if crate::text::str_eq(s, "c") { "c" }
        else if crate::text::str_eq(s, "cpp") || crate::text::str_eq(s, "c++") || crate::text::str_eq(s, "cxx") { "cpp" }
        else if crate::text::str_eq(s, "css") { "css" }
        else if crate::text::str_eq(s, "html") { "html" }
        else if crate::text::str_eq(s, "json") { "json" }
        else if crate::text::str_eq(s, "yaml") || crate::text::str_eq(s, "yml") { "yaml" }
        else if crate::text::str_eq(s, "toml") { "toml" }
        else if crate::text::str_eq(s, "bash") || crate::text::str_eq(s, "sh") || crate::text::str_eq(s, "shell") || crate::text::str_eq(s, "zsh") { "sh" }
        else if crate::text::str_eq(s, "sql") { "sql" }
        else if crate::text::str_eq(s, "swift") { "swift" }
        else if crate::text::str_eq(s, "kotlin") || crate::text::str_eq(s, "kt") { "kt" }
        else { return t.clone(); };
    chars_of(e)
}

fn code_repl_exec(h: &[char], p: usize, m: (usize, usize, usize, usize), hl: &mut SyntaxHighlighter) -> (res: Option<String>)
    requires
        p + 27 < m.0 && m.0 + 2 == m.1 <= m.2 && m.2 + 13 == m.3 <= h@.len(),
    ensures
        match code_repl(h@, p as int, (m.0 as int, m.1 as int, m.2 as int, m.3 as int)) {
            Some(x) => res matches Some(r) && r@ == x,
            None => res is None,
        },
{
    let t = crate::tables::sub_vec(h, p + 27, m.0);
    let body = crate::tables::sub_vec(h, m.1, m.2);
    let ts = string_of_chars(t.as_slice());
    let bs = string_of_chars(body.as_slice());
    if crate::text::str_eq(ts.as_str(), "plain") || crate::text::str_eq(ts.as_str(), "text") || crate::text::str_eq(ts.as_str(), "txt") {
        let mut out = String::new();
        out.append("<pre><code>");
        out.append(bs.as_str());
        out.append("</code></pre>");
        return Some(out);
    }
    let ext = fence_ext_exec(&t);
    let mut fake = String::new();
    fake.append("file.");
    fake.append(string_of_chars(ext.as_slice()).as_str());
    let lang = crate::syntax::detect_language(fake.as_str());
    if lang.is_none() {
        let whole = crate::tables::sub_vec(h, p, m.3);
        return Some(string_of_chars(whole.as_slice()));
    }
    let d = decode3_exec(body.as_slice());
    let dc = chars_of(d.as_str());
    let src = replace_all_exec(dc.as_slice(), chars_of("&quot;").as_slice(), "\"");
    let ls = lines_strings(src.as_str());
    let jl = crate::fits::joined_len(&ls);
    proof { crate::syntax::lemma_join_texts(ls@); }
    if jl >= usize::MAX as u128 || 4 * jl >= usize::MAX as u128 {
        return None;
    }
    proof { crate::syntax::lemma_syntax_texts(ls@, detected_language(fake@)); }
    let hls = match crate::syntax::syntax_highlight_lines(ls.as_slice(), hl, lang) {
        None => { return None; },
        Some(v) => v,
    };
    proof {
        assert(crate::syntax::texts(hls@) == hls@.map_values(|x: String| x@));
        crate::syntax::lemma_join_texts(hls@);
    }
    let mut out = String::new();
    out.append("<pre><code>");
    let mut i: usize = 0;
    while i < hls.len()
        invariant
            i <= hls@.len(),
            out@ == "<pre><code>"@ + crate::syntax::join_lines(hls@.take(i as int)),
        decreases hls@.len() - i,
    {
        proof {
            assert(hls@.take(i + 1).drop_last() == hls@.take(i as int));
            assert(hls@.take(i + 1).last() == hls@[i as int]);
            if i == 0 { assert(hls@.take(1)[0] == hls@[0]); }
        }
        if i > 0 {
            crate::text::push_char(&mut out, '\n');
        }
        out.append(hls[i].as_str());
        i = i + 1;
    }
    proof { assert(hls@.take(hls@.len() as int) == hls@); }
    out.append("</code></pre>");
    Some(out)
}

/// Highlights the fenced code blocks that name a language (see
/// [`code_scan`]).
pub fn highlight_code_blocks(html: &str, hl: &mut SyntaxHighlighter) -> (res: Option<String>)
    ensures
        match code_scan(html@, 0) {
            Some(x) => res matches Some(r) && r@ == x,
            None => res is None,
        },
{
    let h = chars_of(html);
    let n = h.len();
    let mut out = String::new();
    let mut i: usize = 0;
    loop
        invariant
            i <= n,
            n == h@.len(),
            h@ == html@,
            code_scan(h@, 0) == match code_scan(h@, i as int) { Some(rest) => Some(out@ + rest), None => None },
        decreases n + 1 - i,
    {
        match next_code_exec(h.as_slice(), i) {
            None => {
                crate::tables::push_range(&mut out, h.as_slice(), i, n);
                proof { assert(crate::tables::part_of(h@, i as int, n as int) == h@.skip(i as int)); }
                return Some(out);
            },
            Some((p, m)) => {
                let r = match code_repl_exec(h.as_slice(), p, m, hl) {
                    None => { return None; },
                    Some(r) => r,
                };
                let ghost o0 = out@;
                crate::tables::push_range(&mut out, h.as_slice(), i, p);
                out.append(r.as_str());
                proof {
                    assert(crate::tables::part_of(h@, i as int, p as int) == h@.subrange(i as int, p as int));
                    assert(out@ == o0 + h@.subrange(i as int, p as int) + r@);
                    match code_scan(h@, m.3 as int) {
                        Some(rest) => { assert(o0 + (h@.subrange(i as int, p as int) + r@ + rest) == out@ + rest); },
                        None => {},
                    }
                }
                i = m.3;
            },
        }
    }
}


/// At `p`: `open`, a non-empty run of characters other than `stop`, then
/// `close`; the end of the run.
pub open spec fn wrapped_at(h: Seq<char>, p: int, open: Seq<char>, stop: char, close: Seq<char>) -> Option<int> {
    if has_at(h, p, open) {
        let a = p + open.len();
        let b = a + run_until(h, a, stop);
        if b > a && has_at(h, b, close) { Some(b) } else { None }
    } else {
        None
    }
}

/// The first such run from `i` on: where it starts and where its text ends.
pub open spec fn next_wrapped(h: Seq<char>, i: int, open: Seq<char>, stop: char, close: Seq<char>) -> Option<(int, int)>
    decreases h.len() + 1 - i,
{
    if i < 0 || i > h.len() {
        None
    } else {
        match find_sub(h, i, open) {
            None => None,
            Some(p) => match wrapped_at(h, p, open, stop, close) {
                Some(b) => Some((p, b)),
                None => if p + 1 > i && p + 1 <= h.len() { next_wrapped(h, p + 1, open, stop, close) } else { None },
            },
        }
    }
}

/// Each such run from `i` on rewritten as `pre`, its text and `post`.
pub open spec fn rewrap(h: Seq<char>, i: int, open: Seq<char>, stop: char, close: Seq<char>, pre: Seq<char>, post: Seq<char>) -> Seq<char>
    decreases h.len() + 1 - i,
{
    if i < 0 || i > h.len() {
        Seq::empty()
    } else {
        match next_wrapped(h, i, open, stop, close) {
            None => h.skip(i),
            Some(pb) => {
                let e = pb.1 + close.len();
                if i <= pb.0 && pb.0 + open.len() <= pb.1 && i < e <= h.len() {
                    h.subrange(i, pb.0) + pre + h.subrange(pb.0 + open.len(), pb.1) + post
                        + rewrap(h, e, open, stop, close, pre, post)
                } else {
                    h.skip(i)
                }
            },
        }
    }
}

/// Inline code `@name` as a service badge; `\@name` stays inline code
/// `@name`.
pub open spec fn service_badges(h: Seq<char>) -> Seq<char> {
    let esc = rewrap(h, 0, "<code>\\@"@, '<', "</code>"@, "\u{0}ESCAPED_AT"@, "\u{0}"@);
    let badged = rewrap(esc, 0, "<code>@"@, '<', "</code>"@, "<span class=\"service-badge\">"@, "</span>"@);
    rewrap(badged, 0, "\u{0}ESCAPED_AT"@, '\u{0}', "\u{0}"@, "<code>@"@, "</code>"@)
}

fn wrapped_exec(h: &[char], p: usize, open: &Vec<char>, stop: char, close: &Vec<char>) -> (res: Option<usize>)
    ensures
        match wrapped_at(h@, p as int, open@, stop, close@) {
            Some(b) => res == Some(b as usize) && p + open@.len() < b && b + close@.len() <= h@.len(),
            None => res is None,
        },
{
    let n = h.len();
    if !has_at_exec(h, p, open.as_slice()) {
        return None;
    }
    let a = p + open.len();
    let b = a + run_until_exec(h, a, stop);
    if b > a && has_at_exec(h, b, close.as_slice()) { Some(b) } else { None }
}

fn next_wrapped_exec(h: &[char], i: usize, open: &Vec<char>, stop: char, close: &Vec<char>) -> (res: Option<(usize, usize)>)
    requires
        i <= h@.len(),
        open@.len() > 0,
    ensures
        match next_wrapped(h@, i as int, open@, stop, close@) {
            Some(pb) => res == Some((pb.0 as usize, pb.1 as usize)) && i <= pb.0 && pb.0 + open@.len() < pb.1
                && pb.1 + close@.len() <= h@.len(),
            None => res is None,
        },
{
    let n = h.len();
    let mut k = i;
    loop
        invariant
            i <= k <= n,
            n == h@.len(),
            next_wrapped(h@, i as int, open@, stop, close@) == next_wrapped(h@, k as int, open@, stop, close@),
        decreases n + 1 - k,
    {
        match find_sub_exec(h, k, open.as_slice()) {
            None => { return None; },
            Some(p) => {
                match wrapped_exec(h, p, open, stop, close) {
                    Some(b) => { return Some((p, b)); },
                    None => {
                        if p >= n {
                            return None;
                        }
                        k = p + 1;
                    },
                }
            },
        }
    }
}

fn rewrap_exec(h: &[char], open: &str, stop: char, close: &str, pre: &str, post: &str) -> (res: String)
    requires
        open@.len() > 0,
    ensures
        res@ == rewrap(h@, 0, open@, stop, close@, pre@, post@),
{
    let oc = chars_of(open);
    let cc = chars_of(close);
    let n = h.len();
    let mut out = String::new();
    let mut i: usize = 0;
    loop
        invariant
            i <= n,
            n == h@.len(),
            oc@ == open@,
            cc@ == close@,
            open@.len() > 0,
            rewrap(h@, 0, open@, stop, close@, pre@, post@) == out@ + rewrap(h@, i as int, open@, stop, close@, pre@, post@),
        decreases n + 1 - i,
    {
        match next_wrapped_exec(h, i, &oc, stop, &cc) {
            None => {
                crate::tables::push_range(&mut out, h, i, n);
                proof { assert(crate::tables::part_of(h@, i as int, n as int) == h@.skip(i as int)); }
                return out;
            },
            Some((p, b)) => {
                let ghost o0 = out@;
                crate::tables::push_range(&mut out, h, i, p);
                out.append(pre);
                crate::tables::push_range(&mut out, h, p + oc.len(), b);
                out.append(post);
                proof {
                    assert(crate::tables::part_of(h@, i as int, p as int) == h@.subrange(i as int, p as int));
                    assert(crate::tables::part_of(h@, p + oc@.len(), b as int) == h@.subrange(p + open@.len(), b as int));
                    let e = b + close@.len();
                    assert(out@ == o0 + h@.subrange(i as int, p as int) + pre@ + h@.subrange(p + open@.len(), b as int) + post@);
                    assert(o0 + (h@.subrange(i as int, p as int) + pre@ + h@.subrange(p + open@.len(), b as int) + post@
                        + rewrap(h@, e, open@, stop, close@, pre@, post@)) == out@ + rewrap(h@, e, open@, stop, close@, pre@, post@));
                }
                i = b + cc.len();
            },
        }
    }
}

/// Turns inline code `@name` into service badges (see [`service_badges`]).
pub fn render_service_badges(html: &str) -> (res: String)
    ensures
        res@ == service_badges(html@),
{
    proof {
        reveal_strlit("<code>\\@");
        reveal_strlit("<code>@");
        reveal_strlit("\u{0}ESCAPED_AT");
    }
    let h = chars_of(html);
    let a = rewrap_exec(h.as_slice(), "<code>\\@", '<', "</code>", "\u{0}ESCAPED_AT", "\u{0}");
    let ac = chars_of(a.as_str());
    let b = rewrap_exec(ac.as_slice(), "<code>@", '<', "</code>", "<span class=\"service-badge\">", "</span>");
    let bc = chars_of(b.as_str());
    rewrap_exec(bc.as_slice(), "\u{0}ESCAPED_AT", '\u{0}', "\u{0}", "<code>@", "</code>")
}


/// `str::to_lowercase`: the lowercase of a text by Unicode's rules.
pub uninterp spec fn lowercase(s: Seq<char>) -> Seq<char>;

/// `char::is_alphanumeric`: a character that Unicode counts as alphabetic
/// or numeric.
pub uninterp spec fn alnum(c: char) -> bool;

/// Calls `str::to_lowercase`. The contract claims that the result depends
/// on the text alone, which it names; Unicode's case mapping is not stated.
#[verifier::external_body]
fn to_lowercase_call(s: &str) -> (res: String)
    ensures
        res@ == lowercase(s@),
{
    s.to_lowercase()
}

/// Calls `char::is_alphanumeric`. The contract names the result; Unicode's
/// tables are not stated.
#[verifier::external_body]
fn is_alphanumeric_call(c: char) -> (res: bool)
    ensures
        res == alnum(c),
{
    c.is_alphanumeric()
}

/// A digit `1` to `6`.
pub open spec fn level_digit(c: char) -> bool {
    '1' <= c && c <= '6'
}

/// A closing heading tag `</hN>` at `r`.
pub open spec fn heading_close_at(h: Seq<char>, r: int) -> bool {
    has_at(h, r, "</h"@) && r + 4 < h.len() && level_digit(h[r + 3]) && h[r + 4] == '>'
}

/// The first closing heading tag from `q` on, before any newline.
pub open spec fn heading_close(h: Seq<char>, q: int) -> Option<int>
    decreases h.len() - q,
{
    if q < 0 || q >= h.len() {
        None
    } else if heading_close_at(h, q) {
        Some(q)
    } else if h[q] == '\n' {
        None
    } else {
        heading_close(h, q + 1)
    }
}

/// A heading `<hN>` at `p` with its closing tag on the same line.
pub open spec fn heading_at(h: Seq<char>, p: int) -> Option<int> {
    if has_at(h, p, "<h"@) && p + 3 < h.len() && level_digit(h[p + 2]) && h[p + 3] == '>' {
        heading_close(h, p + 4)
    } else {
        None
    }
}

/// The first heading from `i` on: its start and the start of its closing tag.
pub open spec fn next_heading(h: Seq<char>, i: int) -> Option<(int, int)>
    decreases h.len() + 1 - i,
{
    if i < 0 || i > h.len() {
        None
    } else {
        match find_sub(h, i, "<h"@) {
            None => None,
            Some(p) => match heading_at(h, p) {
                Some(r) => Some((p, r)),
                None => if p + 1 > i && p + 1 <= h.len() { next_heading(h, p + 1) } else { None },
            },
        }
    }
}

/// A tag `<...>` with something inside at `p`: where it ends.
pub open spec fn tag_end(c: Seq<char>, p: int) -> Option<int> {
    if 0 <= p < c.len() && c[p] == '<' {
        match find_from(c, p + 1, '>') {
            Some(q) => if q > p + 1 { Some(q) } else { None },
            None => None,
        }
    } else {
        None
    }
}

/// The text from `i` on without its tags.
pub open spec fn strip_tags(c: Seq<char>, i: int) -> Seq<char>
    decreases c.len() - i,
{
    if i < 0 || i >= c.len() {
        Seq::empty()
    } else {
        match tag_end(c, i) {
            Some(q) => if i <= q < c.len() { strip_tags(c, q + 1) } else { Seq::empty() },
            None => seq![c[i]] + strip_tags(c, i + 1),
        }
    }
}

/// The plain text of a heading: without tags, trimmed.
pub open spec fn heading_plain(content: Seq<char>) -> Seq<char> {
    crate::text::trim(strip_tags(content, 0))
}

/// Non-empty pieces joined with dashes.
pub open spec fn dash_join(ps: Seq<Seq<char>>) -> Seq<char>
    decreases ps.len(),
{
    if ps.len() == 0 {
        Seq::empty()
    } else {
        let r = dash_join(ps.drop_last());
        let l = ps.last();
        if l.len() == 0 { r } else if r.len() == 0 { l } else { r + seq!['-'] + l }
    }
}

/// A heading's anchor: its plain text in lowercase, each character that is
/// not alphanumeric a separator, the non-empty pieces joined with dashes.
pub open spec fn slug(plain: Seq<char>) -> Seq<char> {
    let low = lowercase(plain);
    let mapped = Seq::new(low.len(), |k: int| if alnum(low[k]) { low[k] } else { '-' });
    dash_join(crate::parse::split_on(mapped, '-'))
}

/// The headings from `i` on with anchors: each as its own tag with an `id`,
/// closed by the tag it opened with.
pub open spec fn heading_scan(h: Seq<char>, i: int) -> Seq<char>
    decreases h.len() + 1 - i,
{
    if i < 0 || i > h.len() {
        Seq::empty()
    } else {
        match next_heading(h, i) {
            None => h.skip(i),
            Some(pr) => {
                let p = pr.0;
                let r = pr.1;
                if i <= p && p + 4 <= r && r + 5 <= h.len() {
                    let tag = h.subrange(p + 1, p + 3);
                    let content = h.subrange(p + 4, r);
                    h.subrange(i, p) + "<"@ + tag + " id=\""@ + slug(heading_plain(content)) + "\">"@ + content
                        + "</"@ + tag + ">"@ + heading_scan(h, r + 5)
                } else {
                    h.skip(i)
                }
            },
        }
    }
}

/// The plain text of the first `h1` heading from `i` on.
pub open spec fn first_h1(h: Seq<char>, i: int) -> Option<Seq<char>>
    decreases h.len() + 1 - i,
{
    if i < 0 || i > h.len() {
        None
    } else {
        match next_heading(h, i) {
            None => None,
            Some(pr) => if i <= pr.0 && pr.0 + 4 <= pr.1 && pr.1 + 5 <= h.len() {
                if h[pr.0 + 2] == '1' {
                    Some(heading_plain(h.subrange(pr.0 + 4, pr.1)))
                } else {
                    first_h1(h, pr.1 + 5)
                }
            } else {
                None
            },
        }
    }
}

/// The page title: the first `h1`, or `Walkthrough`.
pub open spec fn page_title(h: Seq<char>) -> Seq<char> {
    match first_h1(h, 0) {
        Some(t) => t,
        None => "Walkthrough"@,
    }
}

fn heading_close_exec(h: &[char], q: usize) -> (res: Option<usize>)
    requires
        q <= h@.len(),
    ensures
        match heading_close(h@, q as int) {
            Some(r) => res == Some(r as usize) && q <= r && r + 5 <= h@.len(),
            None => res is None,
        },
{
    let n = h.len();
    let close = chars_of("</h");
    proof { reveal_strlit("</h"); }
    let mut k = q;
    while k < n
        invariant
            q <= k <= n,
            n == h@.len(),
            close@ == "</h"@,
            heading_close(h@, q as int) == heading_close(h@, k as int),
        decreases n - k,
    {
        if has_at_exec(h, k, close.as_slice()) && n - k > 4 && '1' <= h[k + 3] && h[k + 3] <= '6' && h[k + 4] == '>' {
            return Some(k);
        }
        if h[k] == '\n' {
            return None;
        }
        k = k + 1;
    }
    None
}

fn next_heading_exec(h: &[char], i: usize) -> (res: Option<(usize, usize)>)
    requires
        i <= h@.len(),
    ensures
        match next_heading(h@, i as int) {
            Some(pr) => res == Some((pr.0 as usize, pr.1 as usize)) && i <= pr.0 && pr.0 + 4 <= pr.1 && pr.1 + 5 <= h@.len(),
            None => res is None,
        },
{
    let n = h.len();
    let open = chars_of("<h");
    proof { reveal_strlit("<h"); }
    let mut k = i;
    loop
        invariant
            i <= k <= n,
            n == h@.len(),
            open@ == "<h"@,
            next_heading(h@, i as int) == next_heading(h@, k as int),
        decreases n + 1 - k,
    {
        match find_sub_exec(h, k, open.as_slice()) {
            None => { return None; },
            Some(p) => {
                let r = if has_at_exec(h, p, open.as_slice()) && n - p > 3 && '1' <= h[p + 2] && h[p + 2] <= '6' && h[p + 3] == '>' {
                    heading_close_exec(h, p + 4)
                } else {
                    None
                };
                match r {
                    Some(r) => { return Some((p, r)); },
                    None => {
                        if p >= n {
                            return None;
                        }
                        k = p + 1;
                    },
                }
            },
        }
    }
}

fn strip_tags_exec(c: &[char]) -> (res: Vec<char>)
    ensures
        res@ == strip_tags(c@, 0),
{
    let n = c.len();
    let mut out: Vec<char> = Vec::new();
    let mut i: usize = 0;
    while i < n
        invariant
            i <= n,
            n == c@.len(),
            strip_tags(c@, 0) == out@ + strip_tags(c@, i as int),
        decreases n - i,
    {
        let te = if c[i] == '<' {
            match find_char_from(c, i + 1, '>') {
                Some(q) => if q > i + 1 { Some(q) } else { None },
                None => None,
            }
        } else {
            None
        };
        proof { lemma_find_from(c@, i + 1, '>'); }
        match te {
            Some(q) => {
                i = q + 1;
            },
            None => {
                let ghost o0 = out@;
                out.push(c[i]);
                proof { assert(o0 + (seq![c@[i as int]] + strip_tags(c@, i + 1)) == out@ + strip_tags(c@, i + 1)); }
                i = i + 1;
            },
        }
    }
    proof { assert(out@ + strip_tags(c@, i as int) == out@); }
    out
}

fn slug_exec(plain: &[char]) -> (res: String)
    ensures
        res@ == slug(plain@),
{
    let ps = string_of_chars(plain);
    let low = to_lowercase_call(ps.as_str());
    let lc = chars_of(low.as_str());
    let mut mapped: Vec<char> = Vec::new();
    let mut k: usize = 0;
    while k < lc.len()
        invariant
            k <= lc@.len(),
            lc@ == lowercase(plain@),
            mapped@ == Seq::new(k as nat, |j: int| if alnum(lc@[j]) { lc@[j] } else { '-' }),
        decreases lc@.len() - k,
    {
        let c = lc[k];
        let m = if is_alphanumeric_call(c) { c } else { '-' };
        mapped.push(m);
        proof { assert(mapped@ =~= Seq::new((k + 1) as nat, |j: int| if alnum(lc@[j]) { lc@[j] } else { '-' })); }
        k = k + 1;
    }
    let pieces = crate::parse::split_chars(mapped.as_slice(), '-');
    let ghost pv = crate::parse::split_on(mapped@, '-');
    let mut out = String::new();
    let mut i: usize = 0;
    while i < pieces.len()
        invariant
            i <= pieces@.len(),
            pieces@.len() == pv.len(),
            forall|q: int| 0 <= q < pieces@.len() ==> (#[trigger] pieces@[q])@ == pv[q],
            out@ == dash_join(pv.take(i as int)),
        decreases pieces@.len() - i,
    {
        proof {
            assert(pv.take(i + 1).drop_last() == pv.take(i as int));
            assert(pv.take(i + 1).last() == pv[i as int]);
        }
        let piece = &pieces[i];
        if piece.len() > 0 {
            if out.as_str().unicode_len() > 0 {
                crate::text::push_char(&mut out, '-');
            }
            crate::text::push_chars(&mut out, piece.as_slice(), 0, piece.len());
            proof { assert(piece@.subrange(0, piece@.len() as int) == piece@); }
        }
        i = i + 1;
    }
    proof {
        assert(pv.take(pieces@.len() as int) == pv);
        assert(mapped@ =~= Seq::new(lowercase(plain@).len(), |j: int| if alnum(lowercase(plain@)[j]) { lowercase(plain@)[j] } else { '-' }));
    }
    out
}

fn push_heading(out: &mut String, h: &[char], i: usize, p: usize, r: usize, sl: &str)
    requires
        i <= p,
        p + 4 <= r,
        r <= h@.len(),
    ensures
        final(out)@ == old(out)@ + (h@.subrange(i as int, p as int) + "<"@ + h@.subrange(p + 1, p + 3) + " id=\""@ + sl@ + "\">"@
            + h@.subrange(p + 4, r as int) + "</"@ + h@.subrange(p + 1, p + 3) + ">"@),
{
    let ghost o0 = out@;
    crate::tables::push_range(out, h, i, p);
    crate::text::push_char(out, '<');
    crate::tables::push_range(out, h, p + 1, p + 3);
    out.append(" id=\"");
    out.append(sl);
    out.append("\">");
    crate::tables::push_range(out, h, p + 4, r);
    out.append("</");
    crate::tables::push_range(out, h, p + 1, p + 3);
    crate::text::push_char(out, '>');
    proof {
        reveal_strlit("<");
        reveal_strlit(" id=\"");
        reveal_strlit("\">");
        reveal_strlit("</");
        reveal_strlit(">");
        assert(out@ =~= o0 + (h@.subrange(i as int, p as int) + "<"@ + h@.subrange(p + 1, p + 3) + " id=\""@ + sl@ + "\">"@
            + h@.subrange(p + 4, r as int) + "</"@ + h@.subrange(p + 1, p + 3) + ">"@));
    }
}

/// Anchors the headings and finds the page title (see [`heading_scan`] and
/// [`page_title`]).
pub fn anchor_headings(html: &str) -> (res: (String, String))
    ensures
        res.0@ == heading_scan(html@, 0),
        res.1@ == page_title(html@),
{
    let h = chars_of(html);
    let n = h.len();
    let mut out = String::new();
    let mut title: Option<String> = None;
    let mut i: usize = 0;
    loop
        invariant
            i <= n,
            n == h@.len(),
            h@ == html@,
            heading_scan(h@, 0) == out@ + heading_scan(h@, i as int),
            match title {
                Some(t) => first_h1(h@, 0) == Some(t@),
                None => first_h1(h@, 0) == first_h1(h@, i as int),
            },
        decreases n + 1 - i,
    {
        match next_heading_exec(h.as_slice(), i) {
            None => {
                crate::tables::push_range(&mut out, h.as_slice(), i, n);
                proof { assert(crate::tables::part_of(h@, i as int, n as int) == h@.skip(i as int)); }
                let t = match title {
                    Some(t) => t,
                    None => {
                        let mut w = String::new();
                        w.append("Walkthrough");
                        w
                    },
                };
                return (out, t);
            },
            Some((p, r)) => {
                let content = crate::tables::sub_vec(h.as_slice(), p + 4, r);
                let stripped = strip_tags_exec(content.as_slice());
                let plain = crate::text::trim_chars(stripped.as_slice());
                let sl = slug_exec(plain.as_slice());
                if title.is_none() && h[p + 2] == '1' {
                    title = Some(string_of_chars(plain.as_slice()));
                }
                let ghost o0 = out@;
                push_heading(&mut out, h.as_slice(), i, p, r, sl.as_str());
                proof {
                    let tag = h@.subrange(p + 1, p + 3);
                    let cv = h@.subrange(p + 4, r as int);
                    assert(content@ == cv);
                    let piece = h@.subrange(i as int, p as int) + "<"@ + tag + " id=\""@ + slug(heading_plain(cv)) + "\">"@ + cv
                        + "</"@ + tag + ">"@;
                    assert(o0 + (piece + heading_scan(h@, r + 5)) == out@ + heading_scan(h@, r + 5));
                }
                i = r + 5;
            },
        }
    }
}


/// The path of file data, empty where it has none.
pub open spec fn path_text(d: DifftOutput) -> Seq<char> {
    match d.path {
        Some(p) => p@,
        None => Seq::empty(),
    }
}

/// The number of chunks over all files.
pub open spec fn chunk_total(data: Seq<DifftOutput>) -> nat
    decreases data.len(),
{
    if data.len() == 0 { 0 } else { chunk_total(data.drop_last()) + data.last().chunks@.len() }
}

/// The number of chunks below `n` of file `f` that no reference names.
pub open spec fn missing_in(f: Seq<char>, n: nat, refs: Seq<(Seq<char>, usize)>) -> nat
    decreases n,
{
    if n == 0 {
        0
    } else {
        missing_in(f, (n - 1) as nat, refs) + if refs.contains((f, (n - 1) as usize)) { 0nat } else { 1nat }
    }
}

/// The number of chunks over all files that no reference names.
pub open spec fn uncovered_total(data: Seq<DifftOutput>, refs: Seq<(Seq<char>, usize)>) -> nat
    decreases data.len(),
{
    if data.len() == 0 {
        0
    } else {
        uncovered_total(data.drop_last(), refs) + missing_in(path_text(data.last()), data.last().chunks@.len(), refs)
    }
}

/// The chunk indices below `n` of file `f` that no reference names, in order.
pub open spec fn unreferenced_chunks(f: Seq<char>, n: nat, refs: Seq<(Seq<char>, usize)>) -> Seq<usize> {
    Seq::new(n, |i: int| i as usize).filter(|i: usize| !refs.contains((f, i)))
}

proof fn lemma_missing_in_counts(f: Seq<char>, n: nat, refs: Seq<(Seq<char>, usize)>)
    ensures
        missing_in(f, n, refs) == unreferenced_chunks(f, n, refs).len(),
        missing_in(f, n, refs) <= n,
    decreases n,
{
    reveal(Seq::filter);
    let p = |i: usize| !refs.contains((f, i));
    if n > 0 {
        lemma_missing_in_counts(f, (n - 1) as nat, refs);
        let all = Seq::new(n, |i: int| i as usize);
        assert(all.drop_last() =~= Seq::new((n - 1) as nat, |i: int| i as usize));
        assert(all.last() == (n - 1) as usize);
        assert(all.filter(p) == if p(all.last()) { all.drop_last().filter(p).push(all.last()) } else { all.drop_last().filter(p) });
    } else {
        assert(Seq::new(0, |i: int| i as usize) =~= Seq::<usize>::empty());
    }
}

/// The badge counts chunks, not files: the uncovered number is the number of
/// chunks over the data that no reference names, so it never exceeds the
/// number of chunks; with no references every chunk counts; for one file it
/// is the number of its chunk indices that no reference names; and the
/// count of several files adds up.
pub proof fn lemma_uncovered_counts_chunks(data: Seq<DifftOutput>, more: Seq<DifftOutput>, refs: Seq<(Seq<char>, usize)>)
    ensures
        uncovered_total(data, refs) <= chunk_total(data),
        uncovered_total(data, Seq::empty()) == chunk_total(data),
        data.len() == 1 ==> uncovered_total(data, refs)
            == unreferenced_chunks(path_text(data[0]), data[0].chunks@.len(), refs).len(),
        uncovered_total(data + more, refs) == uncovered_total(data, refs) + uncovered_total(more, refs),
        chunk_total(data + more) == chunk_total(data) + chunk_total(more),
    decreases more.len(), data.len(),
{
    if more.len() > 0 {
        lemma_uncovered_counts_chunks(data, more.drop_last(), refs);
        assert((data + more).drop_last() =~= data + more.drop_last());
        assert((data + more).last() == more.last());
    } else {
        assert(data + more =~= data);
        if data.len() > 0 {
            lemma_uncovered_counts_chunks(data.drop_last(), more, refs);
            let d = data.last();
            lemma_missing_in_counts(path_text(d), d.chunks@.len(), refs);
            lemma_missing_none(path_text(d), d.chunks@.len());
            if data.len() == 1 {
                assert(data.drop_last() =~= Seq::<DifftOutput>::empty());
                assert(d == data[0]);
            }
        }
    }
}

proof fn lemma_missing_none(f: Seq<char>, n: nat)
    ensures
        missing_in(f, n, Seq::empty()) == n,
    decreases n,
{
    if n > 0 {
        lemma_missing_none(f, (n - 1) as nat);
        assert(!Seq::<(Seq<char>, usize)>::empty().contains((f, (n - 1) as usize)));
    }
}

/// Where the diff came from, as the badge names it.
pub open spec fn source_note(src: Seq<char>) -> Seq<char> {
    if src.len() == 0 { Seq::empty() } else { " in <code>"@ + escape_html(src) + "</code>"@ }
}

/// The coverage badge: a pass when every chunk is referenced, else how many
/// are not.
pub open spec fn coverage_badge(total: nat, unc: nat, files: nat, src: Seq<char>) -> Seq<char> {
    if unc == 0 {
        "<div class=\"coverage-badge pass\">\u{2705} All "@ + dec(total) + " chunks across "@ + dec(files) + " files"@
            + source_note(src) + " are present</div>"@
    } else {
        "<div class=\"coverage-badge fail\">\u{274c} "@ + dec(unc) + " uncovered chunks (out of "@ + dec(total) + " across "@
            + dec(files) + " files"@ + source_note(src) + ")</div>"@
    }
}

/// `x` on a line of its own after the first `</h1>`.
pub open spec fn insert_after_h1(h: Seq<char>, x: Seq<char>) -> Seq<char> {
    match find_sub(h, 0, "</h1>"@) {
        Some(p) => h.take(p + 5) + seq!['\n'] + x + h.skip(p + 5),
        None => h,
    }
}

/// The page with its coverage badge, where there is diff data.
pub open spec fn with_coverage(h: Seq<char>, data: Seq<DifftOutput>, refs: Seq<(Seq<char>, usize)>, src: Seq<char>) -> Seq<char> {
    if data.len() == 0 {
        h
    } else {
        insert_after_h1(h, coverage_badge(chunk_total(data), uncovered_total(data, refs), data.len(), src))
    }
}

fn refs_contain(refs: &Vec<(String, usize)>, f: &str, i: usize) -> (res: bool)
    ensures
        res == crate::pass::refs_view(refs@).contains((f@, i)),
{
    let ghost rv = crate::pass::refs_view(refs@);
    let mut k: usize = 0;
    while k < refs.len()
        invariant
            k <= refs@.len(),
            rv == crate::pass::refs_view(refs@),
            rv.len() == refs@.len(),
            forall|j: int| 0 <= j < k ==> rv[j] != (f@, i),
        decreases refs@.len() - k,
    {
        proof { assert(rv[k as int] == (refs@[k as int].0@, refs@[k as int].1)); }
        if refs[k].1 == i && crate::text::str_eq(refs[k].0.as_str(), f) {
            proof { assert(rv[k as int] == (f@, i)); }
            return true;
        }
        k = k + 1;
    }
    false
}

fn missing_exec(f: &str, n: usize, refs: &Vec<(String, usize)>) -> (res: u128)
    ensures
        res as int == missing_in(f@, n as nat, crate::pass::refs_view(refs@)),
        res <= n,
{
    let mut c: u128 = 0;
    let mut i: usize = 0;
    while i < n
        invariant
            i <= n,
            c as int == missing_in(f@, i as nat, crate::pass::refs_view(refs@)),
            c <= i,
        decreases n - i,
    {
        if !refs_contain(refs, f, i) {
            c = c + 1;
        }
        i = i + 1;
    }
    c
}

/// Adds the coverage badge where there is diff data (see
/// [`with_coverage`]); `src` is the diff command that the data came from.
pub fn add_coverage_badge(html: &str, data: &Vec<DifftOutput>, refs: &Vec<(String, usize)>, src: &str) -> (res: String)
    ensures
        res@ == with_coverage(html@, data@, crate::pass::refs_view(refs@), src@),
{
    if data.len() == 0 {
        let mut out = String::new();
        out.append(html);
        return out;
    }
    let mut total: u128 = 0;
    let mut unc: u128 = 0;
    let mut k: usize = 0;
    while k < data.len()
        invariant
            k <= data@.len(),
            total as int == chunk_total(data@.take(k as int)),
            unc as int == uncovered_total(data@.take(k as int), crate::pass::refs_view(refs@)),
            total <= k * 0x1_0000_0000_0000_0000,
            unc <= total,
        decreases data@.len() - k,
    {
        proof {
            assert(data@.take(k + 1).drop_last() == data@.take(k as int));
            assert(data@.take(k + 1).last() == data@[k as int]);
        }
        let d = &data[k];
        let f: &str = match &d.path {
            Some(p) => p.as_str(),
            None => {
                proof { reveal_strlit(""); }
                ""
            },
        };
        assert(f@ == path_text(data@[k as int]));
        let m = missing_exec(f, d.chunks.len(), refs);
        total = total + d.chunks.len() as u128;
        unc = unc + m;
        k = k + 1;
    }
    proof { assert(data@.take(data@.len() as int) == data@); }
    let mut badge = String::new();
    if unc == 0 {
        badge.append("<div class=\"coverage-badge pass\">\u{2705} All ");
        crate::page::push_dec_wide(&mut badge, total);
        badge.append(" chunks across ");
        push_dec_usize(&mut badge, data.len());
        badge.append(" files");
    } else {
        badge.append("<div class=\"coverage-badge fail\">\u{274c} ");
        crate::page::push_dec_wide(&mut badge, unc);
        badge.append(" uncovered chunks (out of ");
        crate::page::push_dec_wide(&mut badge, total);
        badge.append(" across ");
        push_dec_usize(&mut badge, data.len());
        badge.append(" files");
    }
    if src.unicode_len() > 0 {
        badge.append(" in <code>");
        badge.append(crate::text::html_escape(src).as_str());
        badge.append("</code>");
    }
    if unc == 0 {
        badge.append(" are present</div>");
    } else {
        badge.append(")</div>");
    }
    let h = chars_of(html);
    let hn = h.len();
    let close = chars_of("</h1>");
    proof { reveal_strlit("</h1>"); assert(close@.len() == 5); }
    match find_sub_exec(h.as_slice(), 0, close.as_slice()) {
        Some(p) => {
            let mut out = String::new();
            crate::tables::push_range(&mut out, h.as_slice(), 0, p + 5);
            crate::text::push_char(&mut out, '\n');
            out.append(badge.as_str());
            crate::tables::push_range(&mut out, h.as_slice(), p + 5, h.len());
            proof {
                assert(crate::tables::part_of(h@, 0, p + 5) == h@.take(p + 5));
                assert(crate::tables::part_of(h@, p + 5, h@.len() as int) == h@.skip(p + 5));
                reveal_strlit(" in <code>");
                reveal_strlit("</code>");
            }
            out
        },
        None => {
            let mut out = String::new();
            out.append(html);
            out
        },
    }
}


/// The value of key `k`, where it is present.
pub open spec fn meta_get(m: Seq<(Seq<char>, Seq<char>)>, k: Seq<char>) -> Option<Seq<char>> {
    match crate::page::key_index(m, k, 0) {
        Some(i) => Some(m[i].1),
        None => None,
    }
}

/// The last index of `c` before `j`.
pub open spec fn last_index(s: Seq<char>, c: char, j: int) -> Option<int>
    decreases j,
{
    if j <= 0 || j > s.len() {
        None
    } else if s[j - 1] == c {
        Some(j - 1)
    } else {
        last_index(s, c, j - 1)
    }
}

/// The text after the last `/`, or all of it.
pub open spec fn after_last_slash(s: Seq<char>) -> Seq<char> {
    match last_index(s, '/', s.len() as int) {
        Some(i) => s.skip(i + 1),
        None => s,
    }
}

/// A pull request in the subtitle: a link named by its last path segment
/// for a URL, else its number after `#`.
pub open spec fn pr_html(pr: Seq<char>) -> Seq<char> {
    if has_at(pr, 0, "http"@) {
        "<a href=\""@ + escape_html(pr) + "\">#"@ + escape_html(after_last_slash(pr)) + "</a>"@
    } else if pr.len() > 0 && pr[0] == '#' {
        seq!['#'] + pr.skip(1)
    } else {
        seq!['#'] + pr
    }
}

/// The entries other than `pr` and `author` that have a value, as
/// `key: value`.
pub open spec fn other_parts(m: Seq<(Seq<char>, Seq<char>)>) -> Seq<Seq<char>>
    decreases m.len(),
{
    if m.len() == 0 {
        Seq::empty()
    } else {
        let r = other_parts(m.drop_last());
        let e = m.last();
        if e.0 != "pr"@ && e.0 != "author"@ && e.1.len() > 0 {
            r.push(escape_html(e.0) + ": "@ + escape_html(e.1))
        } else {
            r
        }
    }
}

/// The parts of the subtitle: the pull request, the author, then the other
/// entries, each where it has a value.
pub open spec fn subtitle_parts(m: Seq<(Seq<char>, Seq<char>)>) -> Seq<Seq<char>> {
    let pr = match meta_get(m, "pr"@) {
        Some(v) => if v.len() > 0 { seq![pr_html(v)] } else { Seq::empty() },
        None => Seq::empty(),
    };
    let au = match meta_get(m, "author"@) {
        Some(v) => if v.len() > 0 { seq![escape_html(v)] } else { Seq::empty() },
        None => Seq::empty(),
    };
    pr + au + other_parts(m)
}

/// Parts joined with a middle dot between spaces.
pub open spec fn join_dot(ps: Seq<Seq<char>>) -> Seq<char>
    decreases ps.len(),
{
    if ps.len() == 0 {
        Seq::empty()
    } else if ps.len() == 1 {
        ps[0]
    } else {
        join_dot(ps.drop_last()) + " \u{b7} "@ + ps.last()
    }
}

/// The page with the front matter's subtitle inside its first `h1`.
pub open spec fn with_subtitle(h: Seq<char>, m: Seq<(Seq<char>, Seq<char>)>) -> Seq<char> {
    let ps = subtitle_parts(m);
    if ps.len() == 0 {
        h
    } else {
        match find_sub(h, 0, "</h1>"@) {
            Some(p) => h.take(p) + "<span class=\"subtitle\">"@ + join_dot(ps) + "</span>"@ + h.skip(p),
            None => h,
        }
    }
}

fn meta_get_exec<'a>(m: &'a Vec<crate::page::MetaEntry>, k: &str) -> (res: Option<&'a str>)
    ensures
        match meta_get(crate::page::meta_view(m@), k@) {
            Some(v) => res matches Some(r) && r@ == v,
            None => res is None,
        },
{
    let ghost mv = crate::page::meta_view(m@);
    let mut i: usize = 0;
    while i < m.len()
        invariant
            i <= m@.len(),
            mv == crate::page::meta_view(m@),
            crate::page::key_index(mv, k@, 0) == crate::page::key_index(mv, k@, i as int),
        decreases m@.len() - i,
    {
        if crate::text::str_eq(m[i].key.as_str(), k) {
            return Some(m[i].value.as_str());
        }
        i = i + 1;
    }
    None
}

fn after_last_slash_exec(s: &[char]) -> (res: Vec<char>)
    ensures
        res@ == after_last_slash(s@),
{
    let n = s.len();
    let mut j = n;
    while j > 0 && s[j - 1] != '/'
        invariant
            j <= n,
            n == s@.len(),
            last_index(s@, '/', n as int) == last_index(s@, '/', j as int),
        decreases j,
    {
        j = j - 1;
    }
    if j == 0 {
        let mut v: Vec<char> = Vec::new();
        let mut k: usize = 0;
        while k < n
            invariant
                k <= n,
                n == s@.len(),
                v@ == s@.take(k as int),
            decreases n - k,
        {
            v.push(s[k]);
            proof { assert(v@ =~= s@.take(k + 1)); }
            k = k + 1;
        }
        proof { assert(s@.take(n as int) == s@); }
        v
    } else {
        let v = crate::tables::sub_vec(s, j, n);
        proof { assert(crate::tables::part_of(s@, j as int, n as int) == s@.skip(j as int)); }
        v
    }
}

fn pr_html_exec(pr: &str) -> (res: String)
    ensures
        res@ == pr_html(pr@),
{
    let pc = chars_of(pr);
    let mut out = String::new();
    if crate::refs::has_lit_at(pc.as_slice(), 0, "http") {
        out.append("<a href=\"");
        out.append(crate::text::html_escape(pr).as_str());
        out.append("\">#");
        let tail = after_last_slash_exec(pc.as_slice());
        out.append(crate::text::html_escape(string_of_chars(tail.as_slice()).as_str()).as_str());
        out.append("</a>");
        proof { reveal_strlit("<a href=\""); reveal_strlit("\">#"); reveal_strlit("</a>"); }
    } else if pc.len() > 0 && pc[0] == '#' {
        crate::text::push_char(&mut out, '#');
        crate::tables::push_range(&mut out, pc.as_slice(), 1, pc.len());
        proof { assert(crate::tables::part_of(pc@, 1, pc@.len() as int) == pc@.skip(1)); }
    } else {
        crate::text::push_char(&mut out, '#');
        out.append(pr);
    }
    out
}

proof fn lemma_join_dot_push(p: Seq<Seq<char>>, x: Seq<char>)
    ensures
        join_dot(p.push(x)) == join_dot(p) + (if p.len() > 0 { " \u{b7} "@ } else { Seq::empty() }) + x,
{
    assert(p.push(x).drop_last() == p);
    if p.len() == 0 {
        assert(p.push(x)[0] == x);
        assert(join_dot(p) == Seq::<char>::empty());
    }
}

fn push_part(out: &mut String, any: bool, part: &str)
    ensures
        final(out)@ == old(out)@ + (if any { " \u{b7} "@ } else { Seq::empty() }) + part@,
{
    if any {
        out.append(" \u{b7} ");
    }
    out.append(part);
}

/// Adds the front matter's subtitle inside the first `h1` (see
/// [`with_subtitle`]).
pub fn add_subtitle(html: &str, meta: &Vec<crate::page::MetaEntry>) -> (res: String)
    ensures
        res@ == with_subtitle(html@, crate::page::meta_view(meta@)),
{
    let ghost mv = crate::page::meta_view(meta@);
    let mut sub = String::new();
    let mut any = false;
    let ghost mut parts: Seq<Seq<char>> = Seq::empty();
    match meta_get_exec(meta, "pr") {
        Some(v) => {
            if v.unicode_len() > 0 {
                let ph = pr_html_exec(v);
                push_part(&mut sub, any, ph.as_str());
                proof { lemma_join_dot_push(parts, ph@); parts = parts.push(ph@); }
                any = true;
            }
        },
        None => {},
    }
    match meta_get_exec(meta, "author") {
        Some(v) => {
            if v.unicode_len() > 0 {
                let e = crate::text::html_escape(v);
                push_part(&mut sub, any, e.as_str());
                proof { lemma_join_dot_push(parts, e@); parts = parts.push(e@); }
                any = true;
            }
        },
        None => {},
    }
    let ghost head = parts;
    proof {
        assert(head.len() <= 2);
        assert(head + other_parts(mv) =~= subtitle_parts(mv));
        assert(mv.take(0) =~= Seq::<(Seq<char>, Seq<char>)>::empty());
        assert(parts =~= head + other_parts(mv.take(0)));
    }
    let mut i: usize = 0;
    while i < meta.len()
        invariant
            i <= meta@.len(),
            mv == crate::page::meta_view(meta@),
            head.len() <= 2,
            head + other_parts(mv) == subtitle_parts(mv),
            parts == head + other_parts(mv.take(i as int)),
            any == (parts.len() > 0),
            sub@ == join_dot(parts),
        decreases meta@.len() - i,
    {
        proof {
            assert(mv.take(i + 1).drop_last() == mv.take(i as int));
            assert(mv.take(i + 1).last() == (meta@[i as int].key@, meta@[i as int].value@));
        }
        let e = &meta[i];
        let k = e.key.as_str();
        if !crate::text::str_eq(k, "pr") && !crate::text::str_eq(k, "author") && e.value.as_str().unicode_len() > 0 {
            let mut part = crate::text::html_escape(k);
            part.append(": ");
            part.append(crate::text::html_escape(e.value.as_str()).as_str());
            push_part(&mut sub, any, part.as_str());
            proof {
                lemma_join_dot_push(parts, part@);
                parts = parts.push(part@);
                assert(parts =~= head + other_parts(mv.take(i + 1)));
            }
            any = true;
        } else {
            proof { assert(parts =~= head + other_parts(mv.take(i + 1))); }
        }
        i = i + 1;
    }
    proof {
        assert(mv.take(meta@.len() as int) == mv);
        assert(parts == subtitle_parts(mv));
    }
    if !any {
        let mut out = String::new();
        out.append(html);
        return out;
    }
    let h = chars_of(html);
    let hn = h.len();
    let close = chars_of("</h1>");
    proof { reveal_strlit("</h1>"); assert(close@.len() == 5); }
    match find_sub_exec(h.as_slice(), 0, close.as_slice()) {
        Some(p) => {
            let mut out = String::new();
            crate::tables::push_range(&mut out, h.as_slice(), 0, p);
            out.append("<span class=\"subtitle\">");
            out.append(sub.as_str());
            out.append("</span>");
            crate::tables::push_range(&mut out, h.as_slice(), p, h.len());
            proof {
                assert(crate::tables::part_of(h@, 0, p as int) == h@.take(p as int));
                assert(crate::tables::part_of(h@, p as int, h@.len() as int) == h@.skip(p as int));
            }
            out
        },
        None => {
            let mut out = String::new();
            out.append(html);
            out
        },
    }
}

/// The page around its body: the title escaped, the style sheet and the
/// script inlined.
pub open spec fn page_html(title: Seq<char>, body: Seq<char>, css: Seq<char>, js: Seq<char>) -> Seq<char> {
    "<!DOCTYPE html>\n<html lang=\"en\">\n<head>\n<meta charset=\"utf-8\">\n<meta name=\"viewport\" content=\"width=device-width, initial-scale=1\">\n<link rel=\"icon\" href=\"data:image/svg+xml,<svg xmlns='http://www.w3.org/2000/svg' viewBox='0 0 100 100'><text y='.9em' font-size='90'>\u{1F4D6}</text></svg>\">\n<title>"@
        + escape_html(title) + "</title>\n<style>\n"@ + css + "\n</style>\n</head>\n<body>\n<article>\n"@ + body
        + "\n</article>\n<script>\n"@ + js + "\n</script>\n</body>\n</html>"@
}

/// Assembles the page (see [`page_html`]).
pub fn render_page(title: &str, body: &str, css: &str, js: &str) -> (res: String)
    ensures
        res@ == page_html(title@, body@, css@, js@),
{
    let mut out = String::new();
    out.append("<!DOCTYPE html>\n<html lang=\"en\">\n<head>\n<meta charset=\"utf-8\">\n<meta name=\"viewport\" content=\"width=device-width, initial-scale=1\">\n<link rel=\"icon\" href=\"data:image/svg+xml,<svg xmlns='http://www.w3.org/2000/svg' viewBox='0 0 100 100'><text y='.9em' font-size='90'>\u{1F4D6}</text></svg>\">\n<title>");
    out.append(crate::text::html_escape(title).as_str());
    out.append("</title>\n<style>\n");
    out.append(css);
    out.append("\n</style>\n</head>\n<body>\n<article>\n");
    out.append(body);
    out.append("\n</article>\n<script>\n");
    out.append(js);
    out.append("\n</script>\n</body>\n</html>");
    out
}


proof fn lemma_missing_zero(f: Seq<char>, n: nat, refs: Seq<(Seq<char>, usize)>)
    requires
        n <= usize::MAX + 1,
    ensures
        (missing_in(f, n, refs) == 0) <==> (forall|i: int| 0 <= i < n ==> #[trigger] refs.contains((f, i as usize))),
    decreases n,
{
    if n > 0 {
        lemma_missing_zero(f, (n - 1) as nat, refs);
        if missing_in(f, n, refs) == 0 {
            assert forall|i: int| 0 <= i < n implies #[trigger] refs.contains((f, i as usize)) by {
                if i == n - 1 {
                    assert(refs.contains((f, (n - 1) as usize)));
                }
            }
        } else {
            if missing_in(f, (n - 1) as nat, refs) == 0 {
                assert(!refs.contains((f, (n - 1) as usize)));
                let w: int = n - 1;
                assert(!refs.contains((f, w as usize)));
            }
        }
    }
}

/// The coverage badge passes exactly when every chunk of every file is
/// referenced: no chunk is left uncovered if and only if each one is named
/// by a reference.
pub proof fn lemma_badge_passes_iff_covered(data: Seq<DifftOutput>, refs: Seq<(Seq<char>, usize)>)
    requires
        forall|f: int| 0 <= f < data.len() ==> (#[trigger] data[f]).chunks@.len() <= usize::MAX,
    ensures
        (uncovered_total(data, refs) == 0) <==> (forall|f: int, i: int| 0 <= f < data.len() && 0 <= i < data[f].chunks@.len()
            ==> #[trigger] refs.contains((path_text(data[f]), i as usize))),
    decreases data.len(),
{
    if data.len() > 0 {
        let init = data.drop_last();
        let last = data.last();
        assert forall|f: int| 0 <= f < init.len() implies (#[trigger] init[f]).chunks@.len() <= usize::MAX by {
            assert(init[f] == data[f]);
        }
        assert(data[data.len() - 1] == last);
        lemma_badge_passes_iff_covered(init, refs);
        lemma_missing_zero(path_text(last), last.chunks@.len(), refs);
        if uncovered_total(data, refs) == 0 {
            assert forall|f: int, i: int| 0 <= f < data.len() && 0 <= i < data[f].chunks@.len()
                implies #[trigger] refs.contains((path_text(data[f]), i as usize)) by {
                if f < data.len() - 1 {
                    assert(data[f] == init[f]);
                } else {
                    assert(data[f] == last);
                }
            }
        } else {
            if uncovered_total(init, refs) == 0 {
                let i = choose|i: int| 0 <= i < last.chunks@.len() && !#[trigger] refs.contains((path_text(last), i as usize));
                let f = data.len() - 1;
                assert(data[f] == last);
                assert(!refs.contains((path_text(data[f]), i as usize)));
            } else {
                let (f, i) = choose|f: int, i: int| 0 <= f < init.len() && 0 <= i < init[f].chunks@.len()
                    && !#[trigger] refs.contains((path_text(init[f]), i as usize));
                assert(data[f] == init[f]);
                assert(!refs.contains((path_text(data[f]), i as usize)));
            }
        }
    }
}


/// No dash at either end and no two dashes in a row.
pub open spec fn dash_clean(s: Seq<char>) -> bool {
    &&& s.len() > 0 ==> s[0] != '-' && s.last() != '-'
    &&& forall|j: int| 0 <= j < s.len() - 1 ==> !(#[trigger] s[j] == '-' && s[j + 1] == '-')
}

proof fn lemma_split_pieces_free(s: Seq<char>, c: char)
    ensures
        forall|k: int, j: int| 0 <= k < split_on(s, c).len() && 0 <= j < split_on(s, c)[k].len()
            ==> #[trigger] split_on(s, c)[k][j] != c,
    decreases s.len(),
{
    crate::parse::lemma_split_nonempty(s, c);
    if s.len() > 0 {
        lemma_split_pieces_free(s.drop_last(), c);
        crate::parse::lemma_split_nonempty(s.drop_last(), c);
        let p = split_on(s.drop_last(), c);
        let q = split_on(s, c);
        assert forall|k: int, j: int| 0 <= k < q.len() && 0 <= j < q[k].len() implies #[trigger] q[k][j] != c by {
            if s.last() == c {
                if k < p.len() {
                    assert(q[k] == p[k]);
                }
            } else {
                if k < p.len() - 1 {
                    assert(q[k] == p[k]);
                } else {
                    assert(q[k] == p.last().push(s.last()));
                    if j < p.last().len() {
                        assert(q[k][j] == p[p.len() - 1][j]);
                    }
                }
            }
        }
    }
}

proof fn lemma_dash_join_clean(ps: Seq<Seq<char>>)
    requires
        forall|k: int, j: int| 0 <= k < ps.len() && 0 <= j < ps[k].len() ==> #[trigger] ps[k][j] != '-',
    ensures
        dash_clean(dash_join(ps)),
    decreases ps.len(),
{
    if ps.len() > 0 {
        let init = ps.drop_last();
        assert forall|k: int, j: int| 0 <= k < init.len() && 0 <= j < init[k].len() implies #[trigger] init[k][j] != '-' by {
            assert(init[k] == ps[k]);
        }
        lemma_dash_join_clean(init);
        let r = dash_join(init);
        let l = ps.last();
        assert(forall|j: int| 0 <= j < l.len() ==> l[j] == ps[ps.len() - 1][j]);
        if l.len() > 0 {
            if r.len() == 0 {
                assert(dash_join(ps) == l);
            } else {
                let x = r + seq!['-'] + l;
                assert(dash_join(ps) == x);
                assert forall|j: int| 0 <= j < x.len() - 1 implies !(#[trigger] x[j] == '-' && x[j + 1] == '-') by {
                    if j < r.len() - 1 {
                        assert(x[j] == r[j] && x[j + 1] == r[j + 1]);
                    } else if j == r.len() - 1 {
                        assert(x[j] == r.last());
                    } else if j == r.len() {
                        assert(x[j + 1] == l[0]);
                    } else {
                        assert(x[j] == l[j - r.len() - 1]);
                    }
                }
                assert(x[0] == r[0]);
                assert(x.last() == l.last());
            }
        }
    }
}

/// A heading's anchor never starts or ends with a dash and never holds two
/// dashes in a row.
pub proof fn lemma_slug_clean(plain: Seq<char>)
    ensures
        dash_clean(slug(plain)),
{
    let low = lowercase(plain);
    let mapped = Seq::new(low.len(), |k: int| if alnum(low[k]) { low[k] } else { '-' });
    lemma_split_pieces_free(mapped, '-');
    lemma_dash_join_clean(crate::parse::split_on(mapped, '-'));
}

} // verus!
