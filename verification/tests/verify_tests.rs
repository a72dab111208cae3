use walkthrough::coverage::{check_coverage, chunk_meta, CoverageError, FileChunks};
use walkthrough::difft_json::{LineEntry, LineSide};
use walkthrough::refs::find_difft_refs;

fn side(n: u64) -> Option<LineSide> {
    Some(LineSide { line_number: n, changes: Vec::new() })
}

fn file(path: &str, chunks: Vec<Vec<(Option<u64>, Option<u64>)>>) -> FileChunks {
    let metas = chunks
        .iter()
        .map(|c| {
            let entries: Vec<LineEntry> = c
                .iter()
                .map(|(l, r)| LineEntry { lhs: l.and_then(side), rhs: r.and_then(side) })
                .collect();
            chunk_meta(&entries)
        })
        .collect();
    FileChunks { path: path.to_string(), metas }
}

fn complete(files: Vec<FileChunks>, md: &str) -> bool {
    let refs = find_difft_refs(md);
    check_coverage(&files, &refs).unwrap().complete
}

#[test]
fn full_coverage_without_lines() {
    let files = vec![file("src/foo.rs", vec![vec![(None, Some(10)), (None, Some(15)), (None, Some(20))]])];
    assert!(complete(files, "# Test\n\n```difft src/foo.rs chunks=0\n```\n"));
}

#[test]
fn lines_covers_all_entries() {
    let files = vec![file("src/foo.rs", vec![vec![(None, Some(100)), (None, Some(105)), (None, Some(110))]])];
    assert!(complete(files, "# Test\n\n```difft src/foo.rs chunks=0 lines=1-11\n```\n"));
}

#[test]
fn lines_misses_tail_entries() {
    let files = vec![file(
        "src/foo.rs",
        vec![vec![(None, Some(100)), (None, Some(105)), (None, Some(110)), (None, Some(120)), (None, Some(130))]],
    )];
    assert!(!complete(files, "# Test\n\n```difft src/foo.rs chunks=0 lines=1-11\n```\n"));
}

#[test]
fn split_lines_covers_all() {
    let files = vec![file(
        "src/foo.rs",
        vec![vec![(None, Some(100)), (None, Some(105)), (None, Some(110)), (None, Some(120)), (None, Some(130))]],
    )];
    let md = "# Test\n\n```difft src/foo.rs chunks=0 lines=1-11\n```\n\n```difft src/foo.rs chunks=0 lines=21-31\n```\n";
    assert!(complete(files, md));
}

#[test]
fn unreferenced_chunk_still_detected() {
    let files = vec![file("src/foo.rs", vec![vec![(None, Some(10))], vec![(None, Some(50))]])];
    assert!(!complete(files, "# Test\n\n```difft src/foo.rs chunks=0\n```\n"));
}

#[test]
fn report_lists_uncovered_lines_relative_to_chunk() {
    let files = vec![file(
        "src/foo.rs",
        vec![
            vec![(None, Some(100)), (None, Some(105)), (None, Some(110)), (None, Some(120)), (None, Some(121))],
            vec![(Some(7), None)],
        ],
    )];
    let refs = find_difft_refs("```difft src/foo.rs chunks=0 lines=1-11\n```\n");
    let rep = check_coverage(&files, &refs).unwrap();
    assert!(!rep.complete);
    assert_eq!(rep.total_chunks, 2);
    assert_eq!(rep.referenced_chunks, 1);
    assert_eq!(rep.uncovered.len(), 2);
    assert_eq!(rep.uncovered[0].chunk, 0);
    assert_eq!(rep.uncovered[0].uncovered_lines.as_deref(), Some("21-22"));
    assert_eq!(rep.uncovered[1].chunk, 1);
    assert_eq!(rep.uncovered[1].file, "src/foo.rs");
    assert!(rep.uncovered[1].uncovered_lines.is_none());
}

#[test]
fn all_and_lists_and_diff_fence_select_chunks() {
    let files = vec![file("a.rs", vec![vec![(None, Some(1))], vec![(None, Some(2))], vec![(None, Some(3))]])];
    assert!(complete(files, "```difft a.rs chunks=all\n```"));
    let files = vec![file("a.rs", vec![vec![(None, Some(1))], vec![(None, Some(2))], vec![(None, Some(3))]])];
    assert!(complete(files, "```diff a.rs chunks=0,+1,2\n```"));
    let files = vec![file("a.rs", vec![vec![(None, Some(1))], vec![(None, Some(2))]])];
    assert!(!complete(files, "```difft a.rs chunks=0,x\n```"));
}

#[test]
fn references_parse_file_chunks_and_lines() {
    let refs = find_difft_refs("text ```difft  src/a.rs\tchunks=1,2 lines=3-4 tail\n```diff b chunks=all\n```difftx c chunks=0");
    assert_eq!(refs.len(), 2);
    assert_eq!(refs[0].file, "src/a.rs");
    assert_eq!(refs[0].chunks, "1,2");
    assert_eq!(refs[0].lines.as_deref(), Some("3-4"));
    assert_eq!(refs[1].file, "b");
    assert_eq!(refs[1].chunks, "all");
    assert!(refs[1].lines.is_none());
}

#[test]
fn removed_lines_before_base_overflow() {
    // A removed line before the chunk's first new line has no relative number.
    let files = vec![file("a.rs", vec![vec![(Some(3), None), (None, Some(50))]])];
    let refs = find_difft_refs("```difft a.rs chunks=0 lines=5-6\n```");
    assert_eq!(check_coverage(&files, &refs).err(), Some(CoverageError::Overflow));
    let refs = find_difft_refs("```difft a.rs chunks=0 lines=0-6\n```");
    let files2 = vec![file("a.rs", vec![vec![(None, Some(0))]])];
    assert_eq!(check_coverage(&files2, &refs).err(), Some(CoverageError::Overflow));
}

#[test]
fn chunk_meta_sorts_and_dedups_positions() {
    let entries = vec![
        LineEntry { lhs: side(9), rhs: side(12) },
        LineEntry { lhs: side(4), rhs: None },
        LineEntry { lhs: None, rhs: side(12) },
        LineEntry { lhs: None, rhs: side(10) },
    ];
    let m = chunk_meta(&entries);
    assert_eq!(m.base_rhs, Some(10));
    assert_eq!(m.positions, vec![4, 10, 12]);
}
