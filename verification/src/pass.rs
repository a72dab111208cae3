//! The first pass over a walkthrough's markdown: fenced diff references and
//! source excerpts become HTML blocks behind placeholders, notes and folds
//! blocks are applied to the latest block, and an enriched copy of the
//! markdown carries the text of every block.

use vstd::prelude::*;
use crate::difft_json::{DifftOutput, LineEntry};
use crate::fits::{check_renderable, renderable};
use crate::html::opt_is;
use crate::parse::{lines_pair, parse_chunk_indices, parse_indices, parse_lines_pair};
use crate::syntax::{join_texts, syntax_texts};
use crate::text::{chars_of, dec, escape_html, html_escape, push_dec_usize};
use crate::textdiff::{base_raw, pad4, render_chunks_text, text_base, text_fold};
use crate::htmldiff::{chunks_html, render_chunks, CollapseMode};
use crate::page::{apply_folds, apply_notes, difft_info, folds_apply, folds_of, meta_view, notes_block, notes_of,
    parse_difft_info, parse_folds, parse_notes, parse_src_info, src_info, src_number, MetaEntry};
use crate::parse::lines_of;
use crate::refs::{has_at, ref_view};
use crate::syntax::{detect_language, detected_language, syntax_highlight_lines, texts, SyntaxHighlighter};
use crate::tables::contains_sub;
use crate::text::{trim, trim_start};

verus! {

/// The first file data whose path is `file`, from `i` on.
pub open spec fn data_index(data: Seq<DifftOutput>, file: Seq<char>, i: int) -> Option<int>
    decreases data.len() - i,
{
    if i < 0 || i >= data.len() {
        None
    } else if data[i].path matches Some(p) && p@ == file {
        Some(i)
    } else {
        data_index(data, file, i + 1)
    }
}

/// Finds the data of a file by its path.
pub fn find_data(data: &Vec<DifftOutput>, file: &str) -> (res: Option<usize>)
    ensures
        match data_index(data@, file@, 0) {
            Some(k) => res matches Some(r) && r == k && k < data@.len(),
            None => res is None,
        },
{
    let mut i: usize = 0;
    while i < data.len()
        invariant
            i <= data@.len(),
            data_index(data@, file@, 0) == data_index(data@, file@, i as int),
        decreases data@.len() - i,
    {
        let hit = match &data[i].path {
            Some(p) => crate::text::str_eq(p.as_str(), file),
            None => false,
        };
        if hit {
            return Some(i);
        }
        i = i + 1;
    }
    None
}

/// The smallest old line of the entries, starting from `m`.
pub open spec fn lhs_min(es: Seq<LineEntry>, m: usize) -> usize
    decreases es.len(),
{
    if es.len() == 0 {
        m
    } else {
        let p = lhs_min(es.drop_last(), m);
        match es.last().lhs {
            Some(s) => if (s.line_number as usize) < p { s.line_number as usize } else { p },
            None => p,
        }
    }
}

/// The smallest old line over the selected chunks, or `usize::MAX`.
pub open spec fn old_base_raw(d: DifftOutput, idx: Seq<usize>) -> usize
    decreases idx.len(),
{
    if idx.len() == 0 {
        usize::MAX
    } else {
        let p = old_base_raw(d, idx.drop_last());
        if idx.last() < d.chunks@.len() { lhs_min(d.chunks@[idx.last() as int]@, p) } else { p }
    }
}

/// The old line (0-based) that relative old-side numbering starts from.
pub open spec fn old_base(d: DifftOutput, idx: Seq<usize>) -> usize {
    let b = old_base_raw(d, idx);
    if b == usize::MAX { 0 } else { b }
}

fn chunk_mins(es: &Vec<LineEntry>, bn: usize, bo: usize) -> (res: (usize, usize))
    ensures
        res == (crate::textdiff::rhs_min(es@, bn), lhs_min(es@, bo)),
{
    let mut n = bn;
    let mut o = bo;
    let mut i: usize = 0;
    while i < es.len()
        invariant
            i <= es@.len(),
            n == crate::textdiff::rhs_min(es@.take(i as int), bn),
            o == lhs_min(es@.take(i as int), bo),
        decreases es@.len() - i,
    {
        proof {
            assert(es@.take(i + 1).drop_last() == es@.take(i as int));
            assert(es@.take(i + 1).last() == es@[i as int]);
        }
        match &es[i].rhs {
            Some(s) => {
                if (s.line_number as usize) < n {
                    n = s.line_number as usize;
                }
            },
            None => {},
        }
        match &es[i].lhs {
            Some(s) => {
                if (s.line_number as usize) < o {
                    o = s.line_number as usize;
                }
            },
            None => {},
        }
        i = i + 1;
    }
    proof { assert(es@.take(es@.len() as int) == es@); }
    (n, o)
}

/// The smallest new and old lines of the selected chunks, each `usize::MAX`
/// when there is none.
fn bases_raw(d: &DifftOutput, idx: &Vec<usize>) -> (res: (usize, usize))
    ensures
        res == (base_raw(*d, idx@), old_base_raw(*d, idx@)),
{
    let mut n: usize = usize::MAX;
    let mut o: usize = usize::MAX;
    let mut k: usize = 0;
    while k < idx.len()
        invariant
            k <= idx@.len(),
            n == base_raw(*d, idx@.take(k as int)),
            o == old_base_raw(*d, idx@.take(k as int)),
        decreases idx@.len() - k,
    {
        proof {
            assert(idx@.take(k + 1).drop_last() == idx@.take(k as int));
            assert(idx@.take(k + 1).last() == idx@[k as int]);
        }
        let c = idx[k];
        if c < d.chunks.len() {
            let (a, b) = chunk_mins(&d.chunks[c], n, o);
            n = a;
            o = b;
        }
        k = k + 1;
    }
    proof { assert(idx@.take(idx@.len() as int) == idx@); }
    (n, o)
}

/// The line filter of a diff reference: a `lines=START-END` range (1-based,
/// relative to the first new line of the selected chunks) made absolute and
/// 0-based. No filter without a well-formed range, without data for the file
/// or without a new line in the selected chunks; `None` where the arithmetic
/// leaves the machine integers.
pub open spec fn line_filter_of(data: Seq<DifftOutput>, file: Seq<char>, chunks: Seq<char>, lines: Option<Seq<char>>)
    -> Option<Option<(usize, usize)>> {
    match lines {
        None => Some(None),
        Some(l) => match lines_pair(l) {
            None => Some(None),
            Some(p) => match data_index(data, file, 0) {
                None => Some(None),
                Some(k) => {
                    let d = data[k];
                    let base = base_raw(d, parse_indices(chunks, d.chunks@.len() as usize));
                    if base == usize::MAX {
                        Some(None)
                    } else if base + p.0 > usize::MAX || base + p.0 == 0 || base + p.1 > usize::MAX || base + p.1 == 0 {
                        None
                    } else {
                        Some(Some(((base + p.0 - 1) as usize, (base + p.1 - 1) as usize)))
                    }
                },
            },
        },
    }
}

/// Resolves the line filter of a diff reference (see [`line_filter_of`]).
pub fn resolve_line_filter(data: &Vec<DifftOutput>, file: &str, chunks: &str, lines: &Option<String>)
    -> (res: Option<Option<(usize, usize)>>)
    ensures
        res == line_filter_of(data@, file@, chunks@, match lines { Some(l) => Some(l@), None => None }),
{
    let l = match lines {
        None => { return Some(None); },
        Some(l) => l,
    };
    let lc = chars_of(l.as_str());
    let (a, b) = match parse_lines_pair(lc.as_slice()) {
        None => { return Some(None); },
        Some(p) => p,
    };
    let k = match find_data(data, file) {
        None => { return Some(None); },
        Some(k) => k,
    };
    let d = &data[k];
    let cc = chars_of(chunks);
    let idx = parse_chunk_indices(cc.as_slice(), d.chunks.len());
    let (base, _) = bases_raw(d, &idx);
    if base == usize::MAX {
        return Some(None);
    }
    if a > usize::MAX - base || base + a == 0 || b > usize::MAX - base || base + b == 0 {
        return None;
    }
    Some(Some((base + a - 1, base + b - 1)))
}

/// The lines of an excerpt `s..=e` with line `ln` at index `ln - 1`
/// (saturating), empty past the end.
pub open spec fn line_or_empty(ls: Seq<Seq<char>>, ln: nat) -> Seq<char> {
    let i = if ln == 0 { 0 } else { ln - 1 };
    if i < ls.len() { ls[i] } else { Seq::empty() }
}

/// One row of a source excerpt.
pub open spec fn src_row(ln: nat, h: Seq<Seq<char>>) -> Seq<char> {
    "<tr class=\"line-context\"><td class=\"ln\">"@ + dec(ln) + "</td><td class=\"sign\"></td><td class=\"code\">"@
        + line_or_empty(h, ln) + "</td></tr>"@
}

/// The rows of lines `s .. s + k`.
pub open spec fn src_rows(s: nat, k: nat, h: Seq<Seq<char>>) -> Seq<char>
    decreases k,
{
    if k == 0 { Seq::empty() } else { src_rows(s, (k - 1) as nat, h) + src_row((s + k - 1) as nat, h) }
}

/// The number of lines of `s..=e`.
pub open spec fn span_count(s: usize, e: usize) -> nat {
    if s <= e { (e - s + 1) as nat } else { 0 }
}

/// The block of a source excerpt of lines `s..=e` of `file` (highlighted
/// lines `h`), in the single-column style of added code.
pub open spec fn src_html(file: Seq<char>, use_old: bool, s: usize, e: usize, h: Seq<Seq<char>>) -> Seq<char> {
    let label = if use_old { escape_html(file) + " (old)"@ } else { escape_html(file) };
    "<div class=\"diff-block\" data-collapse=\"none\"><div class=\"diff-header\"><span class=\"collapse-arrow\">\u{25B6}</span> "@
        + label
        + "<label class=\"viewed-label\"><input type=\"checkbox\" class=\"viewed-check\"><span>Viewed</span></label></div><div class=\"diff-body\">"@
        + "<table class=\"diff-table diff-single diff-add-only\"><colgroup><col class=\"ln-col\"><col class=\"sign-col\"><col class=\"code-col\"></colgroup><tbody>"@
        + src_rows(s as nat, span_count(s, e), h)
        + "</tbody></table></div></div>"@
}

/// One line of an excerpt's text: the number right-aligned in four columns,
/// a space, the line and a newline.
pub open spec fn src_text_line(ln: nat, ls: Seq<Seq<char>>) -> Seq<char> {
    pad4(dec(ln)) + seq![' '] + line_or_empty(ls, ln) + seq!['\n']
}

/// The text lines of `s .. s + k`.
pub open spec fn src_text_lines(s: nat, k: nat, ls: Seq<Seq<char>>) -> Seq<char>
    decreases k,
{
    if k == 0 { Seq::empty() } else { src_text_lines(s, (k - 1) as nat, ls) + src_text_line((s + k - 1) as nat, ls) }
}

fn line_or_empty_exec(ls: &Vec<String>, ln: usize) -> (res: &str)
    ensures
        res@ == line_or_empty(crate::syntax::texts(ls@), ln as nat),
{
    let i = if ln == 0 { 0 } else { ln - 1 };
    if i < ls.len() {
        proof { assert(crate::syntax::texts(ls@)[i as int] == ls@[i as int]@); }
        ls[i].as_str()
    } else {
        proof { reveal_strlit(""); }
        ""
    }
}

fn push_pad4(out: &mut String, n: usize)
    ensures
        final(out)@ == old(out)@ + pad4(dec(n as nat)),
{
    let mut d = String::new();
    push_dec_usize(&mut d, n);
    let k = d.as_str().unicode_len();
    let mut j = k;
    let ghost start = out@;
    while j < 4
        invariant
            k <= j <= 4 || (k > 4 && j == k),
            k as int == dec(n as nat).len(),
            d@ == dec(n as nat),
            out@ == start + Seq::new((j - k) as nat, |i: int| ' '),
        decreases 4 - j,
    {
        crate::text::push_char(out, ' ');
        proof { assert(out@ =~= start + Seq::new((j + 1 - k) as nat, |i: int| ' ')); }
        j = j + 1;
    }
    proof {
        if k >= 4 { assert(out@ =~= start); }
    }
    out.append(d.as_str());
}

/// The block of a source excerpt (see [`src_html`]).
#[verifier::spinoff_prover]
#[verifier::rlimit(40)]
pub fn render_src_block(file: &str, use_old: bool, s: usize, e: usize, h: &Vec<String>) -> (res: String)
    ensures
        res@ == src_html(file@, use_old, s, e, crate::syntax::texts(h@)),
{
    let mut out = String::new();
    out.append("<div class=\"diff-block\" data-collapse=\"none\"><div class=\"diff-header\"><span class=\"collapse-arrow\">\u{25B6}</span> ");
    let esc = html_escape(file);
    out.append(esc.as_str());
    if use_old {
        out.append(" (old)");
    }
    out.append("<label class=\"viewed-label\"><input type=\"checkbox\" class=\"viewed-check\"><span>Viewed</span></label></div><div class=\"diff-body\">");
    out.append("<table class=\"diff-table diff-single diff-add-only\"><colgroup><col class=\"ln-col\"><col class=\"sign-col\"><col class=\"code-col\"></colgroup><tbody>");
    let ghost head = out@;
    if s <= e {
        let mut ln = s;
        let ghost hv = crate::syntax::texts(h@);
        loop
            invariant_except_break
                out@ == head + src_rows(s as nat, (ln - s) as nat, hv),
            invariant
                s <= ln <= e,
                hv == crate::syntax::texts(h@),
            ensures
                out@ == head + src_rows(s as nat, (e - s + 1) as nat, hv),
            decreases e - ln,
        {
            out.append("<tr class=\"line-context\"><td class=\"ln\">");
            push_dec_usize(&mut out, ln);
            out.append("</td><td class=\"sign\"></td><td class=\"code\">");
            out.append(line_or_empty_exec(h, ln));
            out.append("</td></tr>");
            proof {
                assert(src_rows(s as nat, (ln - s + 1) as nat, hv) == src_rows(s as nat, (ln - s) as nat, hv) + src_row(ln as nat, hv));
            }
            if ln == e {
                break;
            }
            ln = ln + 1;
        }
    }
    out.append("</tbody></table></div></div>");
    out
}

/// The text lines of a source excerpt (see [`src_text_lines`]).
pub fn render_src_text(s: usize, e: usize, ls: &Vec<String>) -> (res: String)
    ensures
        res@ == src_text_lines(s as nat, span_count(s, e), crate::syntax::texts(ls@)),
{
    let mut out = String::new();
    if s > e {
        return out;
    }
    let ghost lv = crate::syntax::texts(ls@);
    let mut ln = s;
    loop
        invariant_except_break
            out@ == src_text_lines(s as nat, (ln - s) as nat, lv),
        invariant
            s <= ln <= e,
            lv == crate::syntax::texts(ls@),
        ensures
            out@ == src_text_lines(s as nat, (e - s + 1) as nat, lv),
        decreases e - ln,
    {
        push_pad4(&mut out, ln);
        crate::text::push_char(&mut out, ' ');
        out.append(line_or_empty_exec(ls, ln));
        crate::text::push_char(&mut out, '\n');
        proof {
            assert(src_text_lines(s as nat, (ln - s + 1) as nat, lv) == src_text_lines(s as nat, (ln - s) as nat, lv) + src_text_line(ln as nat, lv));
        }
        if ln == e {
            break;
        }
        ln = ln + 1;
    }
    out
}


/// Where the first pass stands in the markdown.
#[derive(Clone, Copy, PartialEq, Eq, Structural, Debug)]
pub enum Mode {
    /// Between blocks.
    Normal,
    /// Inside a diff reference or source excerpt, up to its closing fence.
    InBlock,
    /// Inside a notes block.
    InNotes,
    /// Inside a folds block.
    InFolds,
}

/// The state of the first pass as values.
pub struct PassV {
    pub mode: Mode,
    pub body: Seq<char>,
    pub processed: Seq<char>,
    pub enriched: Seq<char>,
    pub blocks: Seq<Seq<char>>,
    pub base_new: usize,
    pub base_old: usize,
    pub file: Seq<char>,
    pub referenced: Seq<(Seq<char>, usize)>,
}

/// A line and its newline.
pub open spec fn nl(l: Seq<char>) -> Seq<char> {
    l.push('\n')
}

/// `n` backticks.
pub open spec fn ticks(n: nat) -> Seq<char> {
    Seq::new(n, |i: int| '`')
}

/// The number of backticks from `i` on.
pub open spec fn tick_run(l: Seq<char>, i: int) -> int
    decreases l.len() - i,
{
    if i < 0 || i >= l.len() || l[i] != '`' { 0 } else { 1 + tick_run(l, i + 1) }
}

/// A line that opens a fence.
pub open spec fn is_fence(l: Seq<char>) -> bool {
    has_at(l, 0, "```"@)
}

/// A line that closes a fence: backticks after leading white space.
pub open spec fn is_closing(l: Seq<char>) -> bool {
    has_at(trim_start(l), 0, "```"@)
}

/// The placeholder comment of block `i`.
pub open spec fn placeholder(i: nat) -> Seq<char> {
    "<!-- DIFF_PLACEHOLDER_"@ + dec(i) + " -->"@
}

/// The source excerpt named in a trimmed info string: file and lines.
pub open spec fn src_ref(t: Seq<char>) -> Option<(Seq<char>, usize, usize)> {
    match src_info(t) {
        Some(m) => Some((t.subrange(m.0, m.1), src_number(t.subrange(m.2.0.0, m.2.0.1)), src_number(t.subrange(m.2.1.0, m.2.1.1)))),
        None => None,
    }
}

/// How a referenced diff starts: hidden for generated code, collapsed for a
/// deleted file, expanded otherwise.
pub open spec fn collapse_for(info: Seq<char>, d: DifftOutput) -> CollapseMode {
    if contains_sub(info, " generated"@) {
        CollapseMode::Hidden
    } else if opt_is(d.status, "deleted"@) {
        CollapseMode::Searchable
    } else {
        CollapseMode::Expanded
    }
}

/// The (file, chunk) pairs that a reference names.
pub open spec fn refs_of(file: Seq<char>, idx: Seq<usize>) -> Seq<(Seq<char>, usize)> {
    idx.map_values(|i: usize| (file, i))
}

/// The front matter as the enriched markdown repeats it.
pub open spec fn fm_lines(meta: Seq<(Seq<char>, Seq<char>)>) -> Seq<char>
    decreases meta.len(),
{
    if meta.len() == 0 {
        Seq::empty()
    } else {
        fm_lines(meta.drop_last()) + meta.last().0 + ": "@ + meta.last().1 + seq!['\n']
    }
}

/// The state before the first line.
pub open spec fn pass_init(meta: Seq<(Seq<char>, Seq<char>)>) -> PassV {
    PassV {
        mode: Mode::Normal,
        body: Seq::empty(),
        processed: Seq::empty(),
        enriched: if meta.len() > 0 { "---\n"@ + fm_lines(meta) + "---\n\n"@ } else { Seq::empty() },
        blocks: Seq::empty(),
        base_new: 0,
        base_old: 0,
        file: Seq::empty(),
        referenced: Seq::empty(),
    }
}

/// A line that passes through to both outputs.
pub open spec fn pass_plain(st: PassV, line: Seq<char>) -> PassV {
    PassV { processed: st.processed + nl(line), enriched: st.enriched + nl(line), ..st }
}

/// A block's opening line passed through (no data for it), its body skipped:
/// the body lines and the block's closing fence are dropped from both
/// outputs, so the opening fence is left without its closing fence.
pub open spec fn pass_skip(st: PassV, line: Seq<char>) -> PassV {
    PassV { mode: Mode::InBlock, ..pass_plain(st, line) }
}

/// The closing fence of a notes block: its notes added to the latest block.
pub open spec fn notes_closed(st: PassV, line: Seq<char>) -> Option<PassV> {
    match notes_of(lines_of(st.body), st.base_new as int) {
        None => None,
        Some(ns) => Some(PassV {
            mode: Mode::Normal,
            enriched: st.enriched + nl(line),
            blocks: if ns.len() > 0 && st.blocks.len() > 0 {
                st.blocks.update(st.blocks.len() - 1, notes_block(st.blocks.last(), ns))
            } else {
                st.blocks
            },
            ..st
        }),
    }
}

/// The closing fence of a folds block: its folds applied to the latest block.
pub open spec fn folds_closed(st: PassV, line: Seq<char>) -> Option<PassV> {
    match folds_of(lines_of(st.body), st.base_new as int, st.base_old as int) {
        None => None,
        Some(fs) => if fs.len() > 0 && st.blocks.len() > 0 {
            let last = st.blocks.last();
            match folds_apply(last, fs, contains_sub(last, "diff-single"@), detected_language(st.file)) {
                None => None,
                Some(x) => Some(PassV {
                    mode: Mode::Normal,
                    enriched: st.enriched + nl(line),
                    blocks: st.blocks.update(st.blocks.len() - 1, x),
                    ..st
                }),
            }
        } else {
            Some(PassV { mode: Mode::Normal, enriched: st.enriched + nl(line), ..st })
        },
    }
}

/// The diff block that reference `dr` asks for (with the fence's info string
/// `info`): the data of the file, the selected chunks, the path, the line
/// filter and how it starts; none where the filter overflows, there is no
/// data, or the data is beyond the renderer's limits.
pub open spec fn ref_request(info: Seq<char>, dr: (Seq<char>, Seq<char>, Option<Seq<char>>), data: Seq<DifftOutput>)
    -> Option<(DifftOutput, Seq<usize>, Seq<char>, Option<(usize, usize)>, CollapseMode)> {
    match line_filter_of(data, dr.0, dr.1, dr.2) {
        Some(filter) => match data_index(data, dr.0, 0) {
            Some(k) => if renderable(data[k]) {
                let d = data[k];
                Some((d, parse_indices(dr.1, d.chunks@.len() as usize), dr.0, filter, collapse_for(info, d)))
            } else {
                None
            },
            None => None,
        },
        None => None,
    }
}

/// The diff block that a line asks for: a reference on an opening fence
/// between blocks (see [`ref_request`]).
pub open spec fn difft_request(st: PassV, line: Seq<char>, data: Seq<DifftOutput>)
    -> Option<(DifftOutput, Seq<usize>, Seq<char>, Option<(usize, usize)>, CollapseMode)> {
    let info = line.skip(tick_run(line, 0));
    if st.mode == Mode::Normal && is_fence(line) {
        match difft_info(trim(info)) {
            Some(dr) => ref_request(info, dr, data),
            None => None,
        }
    } else {
        None
    }
}

/// The rendered block `r` is what rendering gives for the line's request,
/// and nothing when the line asks for none.
pub open spec fn step_renders(st: PassV, line: Seq<char>, data: Seq<DifftOutput>, r: Option<Seq<char>>) -> bool {
    match difft_request(st, line, data) {
        Some(q) => chunks_html(q.0, q.1, q.2, q.3, q.4, r),
        None => r is None,
    }
}

/// A diff reference `dr` opens a block: the rendered block `r` (see
/// [`step_renders`]) behind a placeholder, the text diff in the enriched
/// markdown. `None` where the line filter overflows, the data is beyond the
/// renderer's limits, or rendering fails.
pub open spec fn difft_opened(st: PassV, line: Seq<char>, bc: int, info: Seq<char>, dr: (Seq<char>, Seq<char>, Option<Seq<char>>),
    data: Seq<DifftOutput>, r: Option<Seq<char>>) -> Option<PassV> {
    match line_filter_of(data, dr.0, dr.1, dr.2) {
        None => None,
        Some(filter) => match data_index(data, dr.0, 0) {
            None => Some(pass_skip(st, line)),
            Some(k) => {
                let d = data[k];
                let idx = parse_indices(dr.1, d.chunks@.len() as usize);
                if !renderable(d) {
                    None
                } else {
                    match r {
                        None => None,
                        Some(html) => Some(PassV {
                            mode: Mode::InBlock,
                            processed: st.processed + nl(placeholder(st.blocks.len())),
                            enriched: st.enriched + nl(line) + text_fold(d, idx, filter, text_base(d, idx) as int).0
                                + ticks(bc as nat) + seq!['\n'],
                            blocks: st.blocks.push(html),
                            base_new: text_base(d, idx),
                            base_old: old_base(d, idx),
                            file: dr.0,
                            referenced: st.referenced + refs_of(dr.0, idx),
                            body: st.body,
                        }),
                    }
                }
            },
        },
    }
}

/// A source excerpt of lines `sr.1..=sr.2` of file `sr.0` with the lines
/// `ls` becomes a block: highlighted in the file's language behind a
/// placeholder, the numbered lines in the enriched markdown. `None` where the
/// text is longer than a quarter of the address space or highlighting fails.
pub open spec fn src_committed(st: PassV, line: Seq<char>, bc: int, use_old: bool, sr: (Seq<char>, usize, usize),
    ls: Seq<Seq<char>>) -> Option<PassV> {
    if 4 * join_texts(ls).len() >= usize::MAX {
        None
    } else {
        match syntax_texts(ls, detected_language(sr.0)) {
            None => None,
            Some(h) => {
                let b = if sr.1 == 0 { 0usize } else { (sr.1 - 1) as usize };
                Some(PassV {
                    mode: Mode::InBlock,
                    processed: st.processed + nl(placeholder(st.blocks.len())),
                    enriched: st.enriched + nl(line) + src_text_lines(sr.1 as nat, span_count(sr.1, sr.2), ls)
                        + ticks(bc as nat) + seq!['\n'],
                    blocks: st.blocks.push(src_html(sr.0, use_old, sr.1, sr.2, h)),
                    base_new: b,
                    base_old: b,
                    file: sr.0,
                    ..st
                })
            },
        }
    }
}

/// A source excerpt `sr` opens a block (see [`src_committed`]) with the lines
/// from the file's data (the old version where the info string says ` old`,
/// else the new one), or else `fsl` as read from disk; with neither, the line
/// passes through.
pub open spec fn src_opened(st: PassV, line: Seq<char>, bc: int, info: Seq<char>, sr: (Seq<char>, usize, usize),
    data: Seq<DifftOutput>, fsl: Option<Seq<Seq<char>>>) -> Option<PassV> {
    let use_old = contains_sub(info, " old"@);
    let lines = match data_index(data, sr.0, 0) {
        Some(k) => Some(if use_old { texts(data[k].old_lines@) } else { texts(data[k].new_lines@) }),
        None => fsl,
    };
    match lines {
        None => Some(pass_skip(st, line)),
        Some(ls) => src_committed(st, line, bc, use_old, sr, ls),
    }
}

/// An opening fence between blocks.
pub open spec fn fence_opened(st: PassV, line: Seq<char>, data: Seq<DifftOutput>, fsl: Option<Seq<Seq<char>>>,
    r: Option<Seq<char>>) -> Option<PassV> {
    let bc = tick_run(line, 0);
    let info = line.skip(bc);
    let t = trim(info);
    match difft_info(t) {
        Some(dr) => difft_opened(st, line, bc, info, dr, data, r),
        None => match src_ref(t) {
            Some(sr) => src_opened(st, line, bc, info, sr, data, fsl),
            None => if t == "notes"@ {
                Some(PassV { mode: Mode::InNotes, body: Seq::empty(), enriched: st.enriched + nl(line), ..st })
            } else if t == "folds"@ {
                Some(PassV { mode: Mode::InFolds, body: Seq::empty(), enriched: st.enriched + nl(line), ..st })
            } else {
                Some(pass_plain(st, line))
            },
        },
    }
}

/// One line of the markdown through the first pass. `fsl` is the file that a
/// source excerpt without data reads from disk (see [`file_request`]); `r`
/// the block rendered for a diff reference (see [`step_renders`]). `None`
/// where the pass fails.
pub open spec fn pass_step(st: PassV, line: Seq<char>, data: Seq<DifftOutput>, fsl: Option<Seq<Seq<char>>>,
    r: Option<Seq<char>>) -> Option<PassV> {
    match st.mode {
        Mode::InNotes => if is_closing(line) {
            notes_closed(st, line)
        } else {
            Some(PassV { body: st.body + nl(line), enriched: st.enriched + nl(line), ..st })
        },
        Mode::InFolds => if is_closing(line) {
            folds_closed(st, line)
        } else {
            Some(PassV { body: st.body + nl(line), enriched: st.enriched + nl(line), ..st })
        },
        Mode::InBlock => if is_closing(line) { Some(PassV { mode: Mode::Normal, ..st }) } else { Some(st) },
        Mode::Normal => if is_fence(line) { fence_opened(st, line, data, fsl, r) } else { Some(pass_plain(st, line)) },
    }
}

/// The file that a line's source excerpt reads from disk: named by an
/// excerpt between blocks, with no data for it.
pub open spec fn file_request(st: PassV, line: Seq<char>, data: Seq<DifftOutput>) -> Option<Seq<char>> {
    let t = trim(line.skip(tick_run(line, 0)));
    if st.mode == Mode::Normal && is_fence(line) && difft_info(t) is None {
        match src_ref(t) {
            Some(sr) => if data_index(data, sr.0, 0) is None { Some(sr.0) } else { None },
            None => None,
        }
    } else {
        None
    }
}


/// The view of referenced (file, chunk) pairs.
pub open spec fn refs_view(v: Seq<(String, usize)>) -> Seq<(Seq<char>, usize)> {
    v.map_values(|p: (String, usize)| (p.0@, p.1))
}

/// The first pass over a walkthrough's markdown, fed line by line (see
/// [`pass_step`]).
pub struct FirstPass {
    pub mode: Mode,
    /// The body of the open notes or folds block.
    pub body: String,
    /// The markdown with placeholders in place of the blocks.
    pub processed: String,
    /// The markdown with the text of each block inside its fence.
    pub enriched: String,
    /// The HTML blocks, in order.
    pub blocks: Vec<String>,
    /// The first new and old lines (0-based) of the latest block.
    pub base_new: usize,
    pub base_old: usize,
    /// The file of the latest block.
    pub file: String,
    /// The (file, chunk) pairs that diff references named.
    pub referenced: Vec<(String, usize)>,
}

impl View for FirstPass {
    type V = PassV;

    open spec fn view(&self) -> PassV {
        PassV {
            mode: self.mode,
            body: self.body@,
            processed: self.processed@,
            enriched: self.enriched@,
            blocks: texts(self.blocks@),
            base_new: self.base_new,
            base_old: self.base_old,
            file: self.file@,
            referenced: refs_view(self.referenced@),
        }
    }
}

/// The file lines as values.
pub open spec fn fs_view(fs: Option<Vec<String>>) -> Option<Seq<Seq<char>>> {
    match fs {
        Some(v) => Some(texts(v@)),
        None => None,
    }
}

fn tick_len(l: &[char]) -> (n: usize)
    ensures
        n as int == tick_run(l@, 0),
        n <= l@.len(),
{
    let mut i: usize = 0;
    while i < l.len() && l[i] == '`'
        invariant
            i <= l@.len(),
            tick_run(l@, 0) == i + tick_run(l@, i as int),
        decreases l@.len() - i,
    {
        i = i + 1;
    }
    i
}

fn push_line(s: &mut String, line: &str)
    ensures
        final(s)@ == old(s)@ + nl(line@),
{
    s.append(line);
    crate::text::push_char(s, '\n');
}

fn push_ticks(s: &mut String, bc: usize)
    ensures
        final(s)@ == old(s)@ + ticks(bc as nat) + seq!['\n'],
{
    let mut j: usize = 0;
    let ghost e0 = s@;
    while j < bc
        invariant
            j <= bc,
            s@ == e0 + ticks(j as nat),
        decreases bc - j,
    {
        crate::text::push_char(s, '`');
        proof { assert(s@ =~= e0 + ticks((j + 1) as nat)); }
        j = j + 1;
    }
    crate::text::push_char(s, '\n');
}

fn push_placeholder(s: &mut String, n: usize)
    ensures
        final(s)@ == old(s)@ + nl(placeholder(n as nat)),
{
    let ghost p0 = s@;
    s.append("<!-- DIFF_PLACEHOLDER_");
    push_dec_usize(s, n);
    s.append(" -->\n");
    proof {
        reveal_strlit("<!-- DIFF_PLACEHOLDER_");
        reveal_strlit(" -->\n");
        reveal_strlit(" -->");
        assert(s@ =~= p0 + nl(placeholder(n as nat)));
    }
}

fn push_refs(v: &mut Vec<(String, usize)>, file: &String, idx: &Vec<usize>)
    ensures
        refs_view(final(v)@) == refs_view(old(v)@) + refs_of(file@, idx@),
{
    let ghost r0 = v@;
    let mut i: usize = 0;
    while i < idx.len()
        invariant
            i <= idx@.len(),
            refs_view(v@) == refs_view(r0) + refs_of(file@, idx@.take(i as int)),
        decreases idx@.len() - i,
    {
        let ghost rb = v@;
        v.push((file.clone(), idx[i]));
        proof {
            assert(refs_view(v@) =~= refs_view(rb).push((file@, idx@[i as int])));
            assert(refs_of(file@, idx@.take(i + 1)) =~= refs_of(file@, idx@.take(i as int)).push((file@, idx@[i as int])));
        }
        i = i + 1;
    }
    proof { assert(idx@.take(idx@.len() as int) == idx@); }
}

fn lit_is(t: &Vec<char>, lit: &str) -> (res: bool)
    ensures
        res == (t@ == lit@),
{
    let l = chars_of(lit);
    crate::text::chars_eq(t.as_slice(), l.as_slice())
}

impl FirstPass {
    /// The pass before the first line of markdown that follows the front
    /// matter `meta`.
    pub fn new(meta: &Vec<MetaEntry>) -> (res: Self)
        ensures
            res@ == pass_init(meta_view(meta@)),
    {
        let mut enriched = String::new();
        if meta.len() > 0 {
            enriched.append("---\n");
            let mut i: usize = 0;
            while i < meta.len()
                invariant
                    i <= meta@.len(),
                    enriched@ == "---\n"@ + fm_lines(meta_view(meta@).take(i as int)),
                decreases meta@.len() - i,
            {
                proof {
                    assert(meta_view(meta@).take(i + 1).drop_last() == meta_view(meta@).take(i as int));
                    assert(meta_view(meta@).take(i + 1).last() == (meta@[i as int].key@, meta@[i as int].value@));
                }
                enriched.append(meta[i].key.as_str());
                enriched.append(": ");
                enriched.append(meta[i].value.as_str());
                crate::text::push_char(&mut enriched, '\n');
                i = i + 1;
            }
            proof { assert(meta_view(meta@).take(meta@.len() as int) == meta_view(meta@)); }
            enriched.append("---\n\n");
        }
        let res = FirstPass {
            mode: Mode::Normal,
            body: String::new(),
            processed: String::new(),
            enriched,
            blocks: Vec::new(),
            base_new: 0,
            base_old: 0,
            file: String::new(),
            referenced: Vec::new(),
        };
        proof {
            assert(texts(res.blocks@) =~= Seq::<Seq<char>>::empty());
            assert(refs_view(res.referenced@) =~= Seq::<(Seq<char>, usize)>::empty());
        }
        res
    }

    fn close_notes(&mut self, line: &str) -> (ok: bool)
        ensures
            match notes_closed(old(self)@, line@) {
                Some(v) => ok && final(self)@ == v,
                None => !ok,
            },
    {
        let ns = match parse_notes(self.body.as_str(), self.base_new) {
            None => { return false; },
            Some(v) => v,
        };
        push_line(&mut self.enriched, line);
        self.mode = Mode::Normal;
        let n = self.blocks.len();
        if ns.len() > 0 && n > 0 {
            let nb = apply_notes(self.blocks[n - 1].as_str(), &ns);
            let ghost b0 = self.blocks@;
            let _ = self.blocks.pop();
            self.blocks.push(nb);
            proof {
                assert(self.blocks@ == b0.update(n - 1, nb));
                assert(texts(self.blocks@) =~= texts(b0).update(n - 1, nb@));
            }
        }
        true
    }

    fn close_folds(&mut self, line: &str, hl: &mut SyntaxHighlighter) -> (ok: bool)
        ensures
            match folds_closed(old(self)@, line@) {
                Some(v) => ok && final(self)@ == v,
                None => !ok,
            },
    {
        let fs = match parse_folds(self.body.as_str(), self.base_new, self.base_old) {
            None => { return false; },
            Some(v) => v,
        };
        let n = self.blocks.len();
        if fs.len() > 0 && n > 0 {
            let last = self.blocks[n - 1].as_str();
            let lc = chars_of(last);
            let single = crate::tables::contains_exec(lc.as_slice(), "diff-single");
            let nb = match apply_folds(last, &fs, single, self.file.as_str(), hl) {
                None => { return false; },
                Some(x) => x,
            };
            let ghost b0 = self.blocks@;
            let _ = self.blocks.pop();
            self.blocks.push(nb);
            proof {
                assert(self.blocks@ == b0.update(n - 1, nb));
                assert(texts(self.blocks@) =~= texts(b0).update(n - 1, nb@));
            }
        }
        push_line(&mut self.enriched, line);
        self.mode = Mode::Normal;
        true
    }

    fn commit_difft(&mut self, line: &str, bc: usize, d: &DifftOutput, idx: &Vec<usize>, file: &String,
        filter: Option<(usize, usize)>, html: String)
        requires
            renderable(*d),
        ensures
            final(self)@ == (PassV {
                mode: Mode::InBlock,
                processed: old(self)@.processed + nl(placeholder(old(self)@.blocks.len())),
                enriched: old(self)@.enriched + nl(line@) + text_fold(*d, idx@, filter, text_base(*d, idx@) as int).0
                    + ticks(bc as nat) + seq!['\n'],
                blocks: old(self)@.blocks.push(html@),
                base_new: text_base(*d, idx@),
                base_old: old_base(*d, idx@),
                file: file@,
                referenced: old(self)@.referenced + refs_of(file@, idx@),
                body: old(self)@.body,
            }),
    {
        let n = self.blocks.len();
        push_placeholder(&mut self.processed, n);
        let ghost b0 = self.blocks@;
        self.blocks.push(html);
        proof { assert(texts(self.blocks@) =~= texts(b0).push(html@)); }
        let (bn, bo) = bases_raw(d, idx);
        self.base_new = if bn == usize::MAX { 0 } else { bn };
        self.base_old = if bo == usize::MAX { 0 } else { bo };
        self.file = file.clone();
        let text = render_chunks_text(d, idx.as_slice(), filter);
        push_line(&mut self.enriched, line);
        self.enriched.append(text.as_str());
        push_ticks(&mut self.enriched, bc);
        push_refs(&mut self.referenced, file, idx);
        self.mode = Mode::InBlock;
    }

    fn open_difft(&mut self, line: &str, bc: usize, info: &Vec<char>, dr: crate::refs::DifftRef, data: &Vec<DifftOutput>,
        hl: &mut SyntaxHighlighter) -> (res: (bool, Ghost<Option<Seq<char>>>))
        ensures
            match ref_request(info@, ref_view(dr), data@) {
                Some(q) => chunks_html(q.0, q.1, q.2, q.3, q.4, res.1@),
                None => res.1@ is None,
            },
            match difft_opened(old(self)@, line@, bc as int, info@, ref_view(dr), data@, res.1@) {
                Some(v) => res.0 && final(self)@ == v,
                None => !res.0,
            },
    {
        let filter = match resolve_line_filter(data, dr.file.as_str(), dr.chunks.as_str(), &dr.lines) {
            None => { return (false, Ghost(None)); },
            Some(f) => f,
        };
        let k = match find_data(data, dr.file.as_str()) {
            None => {
                push_line(&mut self.processed, line);
                push_line(&mut self.enriched, line);
                self.mode = Mode::InBlock;
                return (true, Ghost(None));
            },
            Some(k) => k,
        };
        let d = &data[k];
        if !check_renderable(d) {
            return (false, Ghost(None));
        }
        let cc = chars_of(dr.chunks.as_str());
        let idx = parse_chunk_indices(cc.as_slice(), d.chunks.len());
        let collapse = if crate::tables::contains_exec(info.as_slice(), " generated") {
            CollapseMode::Hidden
        } else if crate::html::opt_str_is(&d.status, "deleted") {
            CollapseMode::Searchable
        } else {
            CollapseMode::Expanded
        };
        let rendered = render_chunks(d, idx.as_slice(), dr.file.as_str(), filter, hl, collapse);
        let ghost rv = match &rendered { Some(x) => Some(x@), None => None };
        let html = match rendered {
            None => { return (false, Ghost(rv)); },
            Some(x) => x,
        };
        self.commit_difft(line, bc, d, &idx, &dr.file, filter, html);
        (true, Ghost(rv))
    }

    fn commit_src(&mut self, line: &str, bc: usize, use_old: bool, file: &String, s: usize, e: usize,
        ls: &Vec<String>, hl: &mut SyntaxHighlighter) -> (ok: bool)
        ensures
            match src_committed(old(self)@, line@, bc as int, use_old, (file@, s, e), texts(ls@)) {
                Some(v) => ok && final(self)@ == v,
                None => !ok,
            },
    {
        let jl = crate::fits::joined_len(ls);
        proof { crate::syntax::lemma_join_texts(ls@); }
        if jl >= usize::MAX as u128 || 4 * jl >= usize::MAX as u128 {
            return false;
        }
        let lang = detect_language(file.as_str());
        proof { crate::syntax::lemma_syntax_texts(ls@, detected_language(file@)); }
        let h = match syntax_highlight_lines(ls.as_slice(), hl, lang) {
            None => { return false; },
            Some(h) => h,
        };
        proof { assert(texts(h@) == h@.map_values(|x: String| x@)); }
        let html = render_src_block(file.as_str(), use_old, s, e, &h);
        let text = render_src_text(s, e, ls);
        let n = self.blocks.len();
        push_placeholder(&mut self.processed, n);
        let ghost b0 = self.blocks@;
        self.blocks.push(html);
        proof { assert(texts(self.blocks@) =~= texts(b0).push(html@)); }
        let b = if s == 0 { 0 } else { s - 1 };
        self.base_new = b;
        self.base_old = b;
        self.file = file.clone();
        push_line(&mut self.enriched, line);
        self.enriched.append(text.as_str());
        push_ticks(&mut self.enriched, bc);
        self.mode = Mode::InBlock;
        true
    }

    fn open_src(&mut self, line: &str, bc: usize, info: &Vec<char>, file: String, s: usize, e: usize,
        data: &Vec<DifftOutput>, fs: Option<Vec<String>>, hl: &mut SyntaxHighlighter) -> (ok: bool)
        ensures
            match src_opened(old(self)@, line@, bc as int, info@, (file@, s, e), data@, fs_view(fs)) {
                Some(v) => ok && final(self)@ == v,
                None => !ok,
            },
    {
        let use_old = crate::tables::contains_exec(info.as_slice(), " old");
        match find_data(data, file.as_str()) {
            Some(k) => {
                let d = &data[k];
                if use_old {
                    self.commit_src(line, bc, use_old, &file, s, e, &d.old_lines, hl)
                } else {
                    self.commit_src(line, bc, use_old, &file, s, e, &d.new_lines, hl)
                }
            },
            None => match fs {
                Some(v) => self.commit_src(line, bc, use_old, &file, s, e, &v, hl),
                None => {
                    push_line(&mut self.processed, line);
                    push_line(&mut self.enriched, line);
                    self.mode = Mode::InBlock;
                    true
                },
            },
        }
    }

    fn open_fence(&mut self, line: &str, lc: &Vec<char>, data: &Vec<DifftOutput>, fs: Option<Vec<String>>,
        hl: &mut SyntaxHighlighter) -> (res: (bool, Ghost<Option<Seq<char>>>))
        requires
            lc@ == line@,
        ensures
            ({
                let info = line@.skip(tick_run(line@, 0));
                match difft_info(trim(info)) {
                    Some(dr) => match ref_request(info, dr, data@) {
                        Some(q) => chunks_html(q.0, q.1, q.2, q.3, q.4, res.1@),
                        None => res.1@ is None,
                    },
                    None => res.1@ is None,
                }
            }),
            match fence_opened(old(self)@, line@, data@, fs_view(fs), res.1@) {
                Some(v) => res.0 && final(self)@ == v,
                None => !res.0,
            },
    {
        let bc = tick_len(lc.as_slice());
        let info = crate::tables::sub_vec(lc.as_slice(), bc, lc.len());
        proof { assert(info@ =~= line@.skip(bc as int)); }
        let t = crate::text::trim_chars(info.as_slice());
        match parse_difft_info(t.as_slice()) {
            Some(dr) => self.open_difft(line, bc, &info, dr, data, hl),
            None => match parse_src_info(t.as_slice()) {
                Some((file, s, e)) => {
                    let ok = self.open_src(line, bc, &info, file, s, e, data, fs, hl);
                    (ok, Ghost(None))
                },
                None => {
                    if lit_is(&t, "notes") {
                        self.mode = Mode::InNotes;
                        self.body = String::new();
                        push_line(&mut self.enriched, line);
                    } else if lit_is(&t, "folds") {
                        self.mode = Mode::InFolds;
                        self.body = String::new();
                        push_line(&mut self.enriched, line);
                    } else {
                        push_line(&mut self.processed, line);
                        push_line(&mut self.enriched, line);
                    }
                    (true, Ghost(None))
                },
            },
        }
    }

    /// Feeds one line of the markdown (see [`pass_step`]): `fs` holds the
    /// lines of the file that [`FirstPass::wants_file`] names for this line,
    /// read from disk, where it could be read. `false` where the pass fails;
    /// the state is then left as far as the step got.
    pub fn feed(&mut self, line: &str, data: &Vec<DifftOutput>, fs: Option<Vec<String>>, hl: &mut SyntaxHighlighter) -> (ok: bool)
        ensures
            exists|r: Option<Seq<char>>|
                #![trigger pass_step(old(self)@, line@, data@, fs_view(fs), r)]
                step_renders(old(self)@, line@, data@, r)
                && match pass_step(old(self)@, line@, data@, fs_view(fs), r) {
                    Some(v) => ok && final(self)@ == v,
                    None => !ok,
                },
    {
        let lc = chars_of(line);
        let ghost fsv = fs_view(fs);
        match self.mode {
            Mode::InNotes => {
                let tl = crate::text::trim_start_chars(lc.as_slice());
                let ok = if crate::refs::has_lit_at(tl.as_slice(), 0, "```") {
                    self.close_notes(line)
                } else {
                    push_line(&mut self.body, line);
                    push_line(&mut self.enriched, line);
                    true
                };
                proof {
                    assert(step_renders(old(self)@, line@, data@, None));
                    assert(match pass_step(old(self)@, line@, data@, fsv, None) {
                        Some(v) => ok && self@ == v,
                        None => !ok,
                    });
                }
                ok
            },
            Mode::InFolds => {
                let tl = crate::text::trim_start_chars(lc.as_slice());
                let ok = if crate::refs::has_lit_at(tl.as_slice(), 0, "```") {
                    self.close_folds(line, hl)
                } else {
                    push_line(&mut self.body, line);
                    push_line(&mut self.enriched, line);
                    true
                };
                proof {
                    assert(step_renders(old(self)@, line@, data@, None));
                    assert(match pass_step(old(self)@, line@, data@, fsv, None) {
                        Some(v) => ok && self@ == v,
                        None => !ok,
                    });
                }
                ok
            },
            Mode::InBlock => {
                let tl = crate::text::trim_start_chars(lc.as_slice());
                if crate::refs::has_lit_at(tl.as_slice(), 0, "```") {
                    self.mode = Mode::Normal;
                }
                proof {
                    assert(step_renders(old(self)@, line@, data@, None));
                    assert(match pass_step(old(self)@, line@, data@, fsv, None) {
                        Some(v) => self@ == v,
                        None => false,
                    });
                }
                true
            },
            Mode::Normal => {
                if crate::refs::has_lit_at(lc.as_slice(), 0, "```") {
                    let (ok, r) = self.open_fence(line, &lc, data, fs, hl);
                    proof {
                        assert(step_renders(old(self)@, line@, data@, r@));
                        assert(match pass_step(old(self)@, line@, data@, fsv, r@) {
                            Some(v) => ok && self@ == v,
                            None => !ok,
                        });
                    }
                    ok
                } else {
                    push_line(&mut self.processed, line);
                    push_line(&mut self.enriched, line);
                    proof {
                        assert(step_renders(old(self)@, line@, data@, None));
                        assert(match pass_step(old(self)@, line@, data@, fsv, None) {
                            Some(v) => self@ == v,
                            None => false,
                        });
                    }
                    true
                }
            },
        }
    }

    /// The file whose lines the next line needs from disk (see
    /// [`file_request`]).
    pub fn wants_file(&self, line: &str, data: &Vec<DifftOutput>) -> (res: Option<String>)
        ensures
            match file_request(self@, line@, data@) {
                Some(f) => res matches Some(x) && x@ == f,
                None => res is None,
            },
    {
        if self.mode != Mode::Normal {
            return None;
        }
        let lc = chars_of(line);
        if !crate::refs::has_lit_at(lc.as_slice(), 0, "```") {
            return None;
        }
        let bc = tick_len(lc.as_slice());
        let info = crate::tables::sub_vec(lc.as_slice(), bc, lc.len());
        proof { assert(info@ =~= line@.skip(bc as int)); }
        let t = crate::text::trim_chars(info.as_slice());
        if parse_difft_info(t.as_slice()).is_some() {
            return None;
        }
        match parse_src_info(t.as_slice()) {
            Some((file, _, _)) => {
                if find_data(data, file.as_str()).is_none() { Some(file) } else { None }
            },
            None => None,
        }
    }
}


/// `b` begins with `a`.
pub open spec fn extends(a: Seq<char>, b: Seq<char>) -> bool {
    a.len() <= b.len() && b.take(a.len() as int) == a
}

/// The blocks after a step: the same blocks, or one more at the end, and
/// at most the latest one changed.
pub open spec fn blocks_kept(a: Seq<Seq<char>>, b: Seq<Seq<char>>) -> bool {
    &&& (b.len() == a.len() || b.len() == a.len() + 1)
    &&& forall|i: int| 0 <= i < a.len() && (i + 1 < a.len() || b.len() > a.len()) ==> #[trigger] b[i] == a[i]
}

proof fn lemma_extends_append(a: Seq<char>, t: Seq<char>)
    ensures
        extends(a, a + t),
{
    assert((a + t).take(a.len() as int) =~= a);
}

/// Earlier output is never rewritten: a step of the first pass only appends
/// to the processed and the enriched markdown and to the referenced chunks,
/// adds at most one block, and changes no block but the latest one (notes
/// and folds apply to the latest block only).
#[verifier::spinoff_prover]
#[verifier::rlimit(60)]
pub proof fn lemma_step_keeps_output(st: PassV, line: Seq<char>, data: Seq<DifftOutput>, fsl: Option<Seq<Seq<char>>>,
    r: Option<Seq<char>>)
    ensures
        pass_step(st, line, data, fsl, r) matches Some(v) ==> {
            &&& extends(st.processed, v.processed)
            &&& extends(st.enriched, v.enriched)
            &&& st.referenced.len() <= v.referenced.len()
            &&& v.referenced.take(st.referenced.len() as int) == st.referenced
            &&& blocks_kept(st.blocks, v.blocks)
        },
{
    let nline = nl(line);
    lemma_extends_append(st.processed, nline);
    lemma_extends_append(st.enriched, nline);
    assert(st.processed.take(st.processed.len() as int) =~= st.processed);
    assert(st.enriched.take(st.enriched.len() as int) =~= st.enriched);
    assert(st.referenced.take(st.referenced.len() as int) =~= st.referenced);
    match pass_step(st, line, data, fsl, r) {
        None => {},
        Some(v) => {
            lemma_extends_append(st.processed, nl(placeholder(st.blocks.len())));
            let bc = tick_run(line, 0);
            let info = line.skip(bc);
            let t = trim(info);
            if st.mode == Mode::Normal && is_fence(line) {
                match difft_info(t) {
                    Some(dr) => {
                        match line_filter_of(data, dr.0, dr.1, dr.2) {
                            Some(filter) => match data_index(data, dr.0, 0) {
                                Some(k) => {
                                    let d = data[k];
                                    let idx = parse_indices(dr.1, d.chunks@.len() as usize);
                                    lemma_extends_append(st.enriched, nline + text_fold(d, idx, filter, text_base(d, idx) as int).0
                                        + ticks(bc as nat) + seq!['\n']);
                                    assert(st.enriched + nline + text_fold(d, idx, filter, text_base(d, idx) as int).0
                                        + ticks(bc as nat) + seq!['\n'] == st.enriched + (nline + text_fold(d, idx, filter, text_base(d, idx) as int).0
                                        + ticks(bc as nat) + seq!['\n']));
                                    assert((st.referenced + refs_of(dr.0, idx)).take(st.referenced.len() as int) =~= st.referenced);
                                },
                                None => {},
                            },
                            None => {},
                        }
                    },
                    None => match src_ref(t) {
                        Some(sr) => {
                            let use_old = contains_sub(info, " old"@);
                            let lines = match data_index(data, sr.0, 0) {
                                Some(k) => Some(if use_old { texts(data[k].old_lines@) } else { texts(data[k].new_lines@) }),
                                None => fsl,
                            };
                            match lines {
                                Some(ls) => {
                                    let tl = src_text_lines(sr.1 as nat, span_count(sr.1, sr.2), ls);
                                    lemma_extends_append(st.enriched, nline + tl + ticks(bc as nat) + seq!['\n']);
                                    assert(st.enriched + nline + tl + ticks(bc as nat) + seq!['\n']
                                        == st.enriched + (nline + tl + ticks(bc as nat) + seq!['\n']));
                                },
                                None => {},
                            }
                        },
                        None => {},
                    },
                }
            }
        },
    }
}

/// The disk is read only when a step asks for a file: where
/// [`file_request`] names none, what was read makes no difference.
pub proof fn lemma_disk_only_when_asked(st: PassV, line: Seq<char>, data: Seq<DifftOutput>, f1: Option<Seq<Seq<char>>>,
    f2: Option<Seq<Seq<char>>>, r: Option<Seq<char>>)
    requires
        file_request(st, line, data) is None,
    ensures
        pass_step(st, line, data, f1, r) == pass_step(st, line, data, f2, r),
{
}


/// Each block so far has its placeholder in the processed markdown.
pub open spec fn placeholders_present(st: PassV) -> bool {
    forall|i: int| 0 <= i < st.blocks.len() ==> #[trigger] contains_sub(st.processed, placeholder(i as nat))
}

proof fn lemma_find_sub_has_at(h: Seq<char>, i: int, p: Seq<char>)
    ensures
        crate::tables::find_sub(h, i, p) matches Some(k) ==> has_at(h, k, p),
    decreases h.len() + 1 - i,
{
    if !(i < 0 || i + p.len() > h.len()) && !has_at(h, i, p) {
        lemma_find_sub_has_at(h, i + 1, p);
    }
}

proof fn lemma_has_at_found(h: Seq<char>, i: int, k: int, p: Seq<char>)
    requires
        0 <= i <= k,
        has_at(h, k, p),
    ensures
        crate::tables::find_sub(h, i, p) is Some,
    decreases k - i,
{
    if !has_at(h, i, p) {
        lemma_has_at_found(h, i + 1, k, p);
    }
}

proof fn lemma_contains_append(a: Seq<char>, t: Seq<char>, p: Seq<char>)
    requires
        contains_sub(a, p),
    ensures
        contains_sub(a + t, p),
{
    lemma_find_sub_has_at(a, 0, p);
    let k = crate::tables::find_sub(a, 0, p)->0;
    assert((a + t).subrange(k, k + p.len()) =~= a.subrange(k, k + p.len()));
    lemma_has_at_found(a + t, 0, k, p);
}

proof fn lemma_contains_suffix(a: Seq<char>, p: Seq<char>)
    ensures
        contains_sub(a + nl(p), p),
{
    let h = a + nl(p);
    assert(h.subrange(a.len() as int, (a.len() + p.len()) as int) =~= p);
    lemma_has_at_found(h, 0, a.len() as int, p);
}

/// The pass starts with every block behind its placeholder (there is none).
pub proof fn lemma_init_placeholders(meta: Seq<(Seq<char>, Seq<char>)>)
    ensures
        placeholders_present(pass_init(meta)),
{
}

/// Every block stands behind its own placeholder: each step of the first
/// pass keeps the placeholder of each block so far in the processed
/// markdown, and adds the placeholder of a block it adds.
pub proof fn lemma_step_keeps_placeholders(st: PassV, line: Seq<char>, data: Seq<DifftOutput>, fsl: Option<Seq<Seq<char>>>,
    r: Option<Seq<char>>)
    requires
        placeholders_present(st),
    ensures
        pass_step(st, line, data, fsl, r) matches Some(v) ==> placeholders_present(v),
{
    lemma_step_keeps_output(st, line, data, fsl, r);
    match pass_step(st, line, data, fsl, r) {
        None => {},
        Some(v) => {
            let n = st.blocks.len();
            if v.processed != st.processed {
                let t = v.processed.skip(st.processed.len() as int);
                assert(v.processed =~= st.processed + t);
                assert forall|i: int| 0 <= i < n implies #[trigger] contains_sub(v.processed, placeholder(i as nat)) by {
                    lemma_contains_append(st.processed, t, placeholder(i as nat));
                }
                if v.blocks.len() > n {
                    assert(v.processed == st.processed + nl(placeholder(n)));
                    lemma_contains_suffix(st.processed, placeholder(n));
                }
            } else {
                assert(v.blocks.len() == n);
            }
        },
    }
}


/// Without diff data the pass renders plain markdown: the opening line of a
/// diff reference between blocks passes through to both outputs, and its body
/// and closing fence are skipped (dropped from both outputs).
pub proof fn lemma_no_data_passes_references(st: PassV, line: Seq<char>, fsl: Option<Seq<Seq<char>>>, r: Option<Seq<char>>)
    requires
        st.mode == Mode::Normal,
        is_fence(line),
        difft_info(trim(line.skip(tick_run(line, 0)))) is Some,
    ensures
        pass_step(st, line, Seq::empty(), fsl, r) == Some(pass_skip(st, line)),
{
}


/// A source excerpt marked ` old` shows the pre-change version of a file
/// that has data: its lines are the data's old lines.
pub proof fn lemma_old_excerpt_shows_old_version(st: PassV, line: Seq<char>, bc: int, info: Seq<char>,
    sr: (Seq<char>, usize, usize), data: Seq<DifftOutput>, fsl: Option<Seq<Seq<char>>>, k: int)
    requires
        data_index(data, sr.0, 0) == Some(k),
        contains_sub(info, " old"@),
    ensures
        src_opened(st, line, bc, info, sr, data, fsl) == src_committed(st, line, bc, true, sr, texts(data[k].old_lines@)),
{
}

/// Diff blocks of generated code start hidden, those of deleted files
/// start collapsed, all others expanded.
pub proof fn lemma_collapse_rules(info: Seq<char>, d: DifftOutput)
    ensures
        contains_sub(info, " generated"@) ==> collapse_for(info, d) == CollapseMode::Hidden,
        !contains_sub(info, " generated"@) && opt_is(d.status, "deleted"@) ==> collapse_for(info, d) == CollapseMode::Searchable,
        !contains_sub(info, " generated"@) && !opt_is(d.status, "deleted"@) ==> collapse_for(info, d) == CollapseMode::Expanded,
{
}

} // verus!
