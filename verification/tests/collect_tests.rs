use walkthrough::collect::{generate_chunks_from_hunks, ParsedHunk};
use walkthrough::difft_json::LineEntry;

/// A hunk whose body is given as one prefix character per line.
fn hunk(old_start: u64, old_count: u64, new_start: u64, new_count: u64, body: &str) -> ParsedHunk {
    ParsedHunk {
        old_start,
        old_count,
        new_start,
        new_count,
        body: body.chars().map(|c| (c, String::new())).collect(),
    }
}

/// The line numbers on one side of every chunk, one inner Vec per chunk.
fn side_numbers(chunks: &[Vec<LineEntry>], old_side: bool) -> Vec<Vec<u64>> {
    chunks
        .iter()
        .map(|c| {
            c.iter()
                .filter_map(|e| if old_side { e.lhs.as_ref() } else { e.rhs.as_ref() })
                .map(|s| s.line_number)
                .collect()
        })
        .collect()
}

#[test]
fn context_lines_split_chunks_so_no_line_is_elided() {
    let chunks = generate_chunks_from_hunks(&[hunk(166, 4, 224, 12, "-++++   +++++")]);
    assert_eq!(chunks.len(), 2, "context lines should split into 2 chunks");

    let rhs = side_numbers(&chunks, false);
    let lhs = side_numbers(&chunks, true);

    assert_eq!(lhs[0], vec![165], "chunk 0 lhs");
    assert_eq!(rhs[0], vec![223, 224, 225, 226], "chunk 0 rhs");
    assert_eq!(lhs[1], Vec::<u64>::new(), "chunk 1 lhs");
    assert_eq!(rhs[1], vec![230, 231, 232, 233, 234], "chunk 1 rhs");

    for per_chunk in [&rhs, &lhs] {
        for nums in per_chunk.iter() {
            for w in nums.windows(2) {
                assert_eq!(w[1], w[0] + 1, "a chunk skips a line");
            }
        }
    }
}

#[test]
fn removed_and_added_runs_pair_positionally() {
    let chunks = generate_chunks_from_hunks(&[hunk(10, 3, 20, 2, "---++")]);
    assert_eq!(chunks.len(), 1);
    let c = &chunks[0];
    assert_eq!(c.len(), 3);
    assert_eq!(c[0].lhs.as_ref().unwrap().line_number, 9);
    assert_eq!(c[0].rhs.as_ref().unwrap().line_number, 19);
    assert_eq!(c[1].lhs.as_ref().unwrap().line_number, 10);
    assert_eq!(c[1].rhs.as_ref().unwrap().line_number, 20);
    assert_eq!(c[2].lhs.as_ref().unwrap().line_number, 11);
    assert!(c[2].rhs.is_none());
    assert!(c.iter().all(|e| e.lhs.iter().chain(e.rhs.iter()).all(|s| s.changes.is_empty())));
}

#[test]
fn pure_addition_at_file_start_and_ignored_prefixes() {
    // A start of 0 (new file) counts from line 0; unknown prefixes are skipped.
    let chunks = generate_chunks_from_hunks(&[hunk(0, 0, 1, 2, "+\\+")]);
    assert_eq!(side_numbers(&chunks, false), vec![vec![0, 1]]);
    assert_eq!(side_numbers(&chunks, true), vec![Vec::<u64>::new()]);
}

#[test]
fn each_hunk_gives_its_own_chunks() {
    let chunks = generate_chunks_from_hunks(&[hunk(3, 1, 3, 0, "-"), hunk(9, 0, 8, 1, "+")]);
    assert_eq!(side_numbers(&chunks, true), vec![vec![2], vec![]]);
    assert_eq!(side_numbers(&chunks, false), vec![vec![], vec![7]]);
    assert!(generate_chunks_from_hunks(&[hunk(5, 0, 5, 0, "   ")]).is_empty());
}
