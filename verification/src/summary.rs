//! The walkthrough-ready markdown summary of collected diffs, with every
//! chunk as a `difft` code block that the narrative can start from.

use vstd::prelude::*;
use crate::difft_json::DifftOutput;
use crate::fits::difft_fits;
use crate::linemap::{chunk_line_range, lemma_side_range_unique, side_range_of};
use crate::text::{dec, push_dec, push_dec_usize};
use crate::textdiff::{render_chunks_text, text_base, text_fold};

verus! {

/// The text rendering of the selected chunks, without a line filter.
#[verifier::opaque]
pub open spec fn chunks_text(d: DifftOutput, idx: Seq<usize>) -> Seq<char> {
    text_fold(d, idx, None, text_base(d, idx) as int).0
}

/// A file's status, "changed" when unknown.
pub open spec fn status_or_changed(d: DifftOutput) -> Seq<char> {
    match d.status {
        Some(s) => s@,
        None => "changed"@,
    }
}

/// The line span noted for a chunk: its new lines (1-based), else its old
/// lines, else nothing.
pub open spec fn line_info(d: DifftOutput, i: int) -> Seq<char> {
    let chunk = d.chunks@[i]@;
    match side_range_of(chunk, false) {
        Some(r) => " (new lines "@ + dec((r.0 + 1) as nat) + "-"@ + dec((r.1 + 1) as nat) + ")"@,
        None => match side_range_of(chunk, true) {
            Some(r) => " (old lines "@ + dec((r.0 + 1) as nat) + "-"@ + dec((r.1 + 1) as nat) + ")"@,
            None => Seq::empty(),
        },
    }
}

/// The block of chunk `i` of a larger file.
pub open spec fn chunk_block(file: Seq<char>, d: DifftOutput, i: int) -> Seq<char> {
    "<!-- chunk "@ + dec(i as nat) + line_info(d, i) + " -->\n\n"@
        + "```difft "@ + file + " chunks="@ + dec(i as nat) + "\n"@
        + chunks_text(d, seq![i as usize]) + "```\n\n"@
}

/// The blocks of the first `k` chunks of a larger file.
pub open spec fn chunk_blocks(file: Seq<char>, d: DifftOutput, k: int) -> Seq<char>
    decreases k,
{
    if k <= 0 { Seq::empty() } else { chunk_blocks(file, d, k - 1) + chunk_block(file, d, k - 1) }
}

/// The section of one file: files with at most two chunks get one block with
/// `chunks=all`; larger files get one block per chunk, each with its line span.
pub open spec fn file_section(file: Seq<char>, d: DifftOutput) -> Seq<char> {
    let n = d.chunks@.len();
    if n <= 2 {
        "## "@ + file + "\n\n"@ + "<!-- "@ + status_or_changed(d) + ", "@ + dec(n) + " -->\n\n"@
            + "```difft "@ + file + " chunks=all\n"@
            + chunks_text(d, Seq::new(n, |i: int| i as usize)) + "```\n\n"@
    } else {
        "## "@ + file + "\n\n"@ + "<!-- "@ + status_or_changed(d) + " -->\n\n"@
            + chunk_blocks(file, d, n as int)
    }
}

/// The sections of the first `k` files.
pub open spec fn sections(data: Seq<(String, DifftOutput)>, k: int) -> Seq<char>
    decreases k,
{
    if k <= 0 { Seq::empty() } else { sections(data, k - 1) + file_section(data[k - 1].0@, data[k - 1].1) }
}

/// The whole summary: frontmatter with the PR link and author, a title and
/// overview to fill in, then every file's section in order.
pub open spec fn summary(data: Seq<(String, DifftOutput)>, pr_url: Seq<char>, author: Seq<char>) -> Seq<char> {
    "---\n"@ + "pr: "@ + pr_url + "\n"@ + "author: "@ + author + "\n"@ + "---\n\n"@
        + "# TODO: title\n\nTODO: overview\n\n"@ + sections(data, data.len() as int)
}

/// Appends the line span noted for chunk `i`.
fn push_line_info(out: &mut String, d: &DifftOutput, i: usize)
    requires
        difft_fits(*d),
        i < d.chunks@.len(),
    ensures
        final(out)@ == old(out)@ + line_info(*d, i as int),
{
    let chunk = &d.chunks[i];
    let (lr, rr) = chunk_line_range(chunk.as_slice());
    proof {
        lemma_side_range_unique(chunk@, true, lr);
        lemma_side_range_unique(chunk@, false, rr);
    }
    let ghost start = out@;
    match rr {
        Some((mn, mx)) => {
            proof { lemma_range_small(d, i as int, false); }
            out.append(" (new lines ");
            push_dec(out, mn + 1);
            out.append("-");
            push_dec(out, mx + 1);
            out.append(")");
            proof { assert(out@ =~= start + line_info(*d, i as int)); }
        },
        None => match lr {
            Some((mn, mx)) => {
                proof { lemma_range_small(d, i as int, true); }
                out.append(" (old lines ");
                push_dec(out, mn + 1);
                out.append("-");
                push_dec(out, mx + 1);
                out.append(")");
                proof { assert(out@ =~= start + line_info(*d, i as int)); }
            },
            None => {
                proof { assert(out@ =~= start + line_info(*d, i as int)); }
            },
        },
    }
}

/// Appends the block of chunk `i` of a larger file.
fn push_chunk_block(out: &mut String, file: &str, d: &DifftOutput, i: usize)
    requires
        difft_fits(*d),
        i < d.chunks@.len(),
    ensures
        final(out)@ == old(out)@ + chunk_block(file@, *d, i as int),
{
    let ghost start = out@;
    out.append("<!-- chunk ");
    push_dec_usize(out, i);
    push_line_info(out, d, i);
    out.append(" -->\n\n");
    let ghost mid = out@;
    out.append("```difft ");
    out.append(file);
    out.append(" chunks=");
    push_dec_usize(out, i);
    out.append("\n");
    let one = vec![i];
    let text = render_chunks_text(d, one.as_slice(), None);
    proof {
        assert(one@ =~= seq![i]);
        assert(text@ == chunks_text(*d, seq![i])) by { reveal(chunks_text); }
    }
    out.append(text.as_str());
    out.append("```\n\n");
    proof {
        assert(mid == start + ("<!-- chunk "@ + dec(i as nat) + line_info(*d, i as int) + " -->\n\n"@));
        assert(out@ =~= start + chunk_block(file@, *d, i as int));
    }
}

/// Appends the section of a file with at most two chunks.
fn push_small_section(out: &mut String, file: &str, d: &DifftOutput)
    requires
        difft_fits(*d),
        d.chunks@.len() <= 2,
    ensures
        final(out)@ == old(out)@ + file_section(file@, *d),
{
    let ghost start = out@;
    let n = d.chunks.len();
    let status: &str = match &d.status {
        Some(s) => s.as_str(),
        None => "changed",
    };
    out.append("## ");
    out.append(file);
    out.append("\n\n");
    out.append("<!-- ");
    out.append(status);
    out.append(", ");
    push_dec_usize(out, n);
    out.append(" -->\n\n");
    let ghost head = out@;
    let mut idx: Vec<usize> = Vec::new();
    let mut i: usize = 0;
    while i < n
        invariant
            i <= n,
            idx@ == Seq::new(i as nat, |k: int| k as usize),
        decreases n - i,
    {
        idx.push(i);
        proof { assert(idx@ =~= Seq::new((i + 1) as nat, |k: int| k as usize)); }
        i = i + 1;
    }
    let text = render_chunks_text(d, idx.as_slice(), None);
    proof {
        assert(text@ == chunks_text(*d, Seq::new(n as nat, |k: int| k as usize))) by { reveal(chunks_text); }
    }
    out.append("```difft ");
    out.append(file);
    out.append(" chunks=all\n");
    out.append(text.as_str());
    out.append("```\n\n");
    proof {
        assert(head == start + ("## "@ + file@ + "\n\n"@ + "<!-- "@ + status_or_changed(*d) + ", "@ + dec(n as nat) + " -->\n\n"@));
        assert(out@ =~= start + file_section(file@, *d));
    }
}

/// Appends the section of one file.
fn push_file_section(out: &mut String, file: &str, d: &DifftOutput)
    requires
        difft_fits(*d),
    ensures
        final(out)@ == old(out)@ + file_section(file@, *d),
{
    let n = d.chunks.len();
    if n <= 2 {
        push_small_section(out, file, d);
        return;
    }
    let ghost start = out@;
    let status: &str = match &d.status {
        Some(s) => s.as_str(),
        None => "changed",
    };
    out.append("## ");
    out.append(file);
    out.append("\n\n");
    out.append("<!-- ");
    out.append(status);
    out.append(" -->\n\n");
    let ghost head = out@;
    let mut i: usize = 0;
    while i < n
        invariant
            i <= n == d.chunks@.len(),
            difft_fits(*d),
            out@ == head + chunk_blocks(file@, *d, i as int),
        decreases n - i,
    {
        push_chunk_block(out, file, d, i);
        proof {
            assert(head + chunk_blocks(file@, *d, i + 1) =~= head + chunk_blocks(file@, *d, i as int) + chunk_block(file@, *d, i as int));
        }
        i = i + 1;
    }
    proof {
        assert(head == start + ("## "@ + file@ + "\n\n"@ + "<!-- "@ + status_or_changed(*d) + " -->\n\n"@));
        assert(out@ =~= start + file_section(file@, *d));
    }
}

/// The line numbers of a chunk side fit in `u64` after adding one.
proof fn lemma_range_small(d: &DifftOutput, i: int, left: bool)
    requires
        difft_fits(*d),
        0 <= i < d.chunks@.len(),
    ensures
        side_range_of(d.chunks@[i]@, left) matches Some(r) ==> r.0 < u64::MAX && r.1 < u64::MAX,
{
    let c = d.chunks@[i]@;
    crate::linemap::lemma_side_range_of_is(c, left);
    match side_range_of(c, left) {
        Some(r) => {
            let w = choose|j: int| 0 <= j < c.len() && crate::linemap::side_line(#[trigger] c[j], left) == Some(r.1);
            assert(crate::rows::entries_below(c, crate::fits::LINE_LIMIT as int));
            assert(c[w].lhs matches Some(x) ==> x.line_number < crate::fits::LINE_LIMIT);
            assert(c[w].rhs matches Some(x) ==> x.line_number < crate::fits::LINE_LIMIT);
        },
        None => {},
    }
}

/// Generate a walkthrough-ready markdown with all diffs as difft code blocks,
/// for the files in the given order, with the PR link and author in the
/// frontmatter (empty when unknown).
pub fn summary_markdown(data: &Vec<(String, DifftOutput)>, pr_url: &str, author: &str) -> (res: String)
    requires
        forall|k: int| 0 <= k < data@.len() ==> difft_fits((#[trigger] data@[k]).1),
    ensures
        res@ == summary(data@, pr_url@, author@),
{
    let mut out = String::new();
    out.append("---\n");
    out.append("pr: ");
    out.append(pr_url);
    out.append("\n");
    out.append("author: ");
    out.append(author);
    out.append("\n");
    out.append("---\n\n");
    out.append("# TODO: title\n\nTODO: overview\n\n");
    let ghost head = out@;
    let mut k: usize = 0;
    while k < data.len()
        invariant
            k <= data@.len(),
            forall|j: int| 0 <= j < data@.len() ==> difft_fits((#[trigger] data@[j]).1),
            out@ == head + sections(data@, k as int),
        decreases data@.len() - k,
    {
        let (file, d) = &data[k];
        assert(data@[k as int].1 == *d);
        push_file_section(&mut out, file.as_str(), d);
        k = k + 1;
    }
    proof {
        assert(out@ =~= summary(data@, pr_url@, author@));
    }
    out
}

} // verus!
