use regex::Regex;
use walkthrough::context::CONTEXT_LINES;
use walkthrough::difft_json::{ChangeSpan, DiffHunk, DifftOutput, LineEntry, LineSide};
use walkthrough::htmldiff::{render_chunks, CollapseMode};
use walkthrough::syntax::SyntaxHighlighter;

type LineFilter = Option<(usize, usize)>;

/// Build a simple LineSide with optional change spans.
fn side(line: u64, spans: Vec<ChangeSpan>) -> LineSide {
    LineSide { line_number: line, changes: spans }
}

fn span(content: &str, start: usize, end: usize) -> ChangeSpan {
    ChangeSpan { content: content.to_string(), highlight: "normal".to_string(), start, end }
}

/// Build a DifftOutput from old/new lines, chunks, and hunks.
/// Helper to call render_chunks with default syntax highlighting.
fn test_render_chunks(difft: &DifftOutput, chunk_indices: &[usize], file_path: &str, line_filter: LineFilter) -> String {
    let mut hl = SyntaxHighlighter::new();
    render_chunks(difft, chunk_indices, file_path, line_filter, &mut hl, CollapseMode::Expanded).unwrap()
}

fn make_difft(
    old_lines: Vec<&str>,
    new_lines: Vec<&str>,
    chunks: Vec<Vec<LineEntry>>,
    hunks: Vec<DiffHunk>,
) -> DifftOutput {
    DifftOutput {
        chunks,
        language: None,
        path: Some("test.ts".to_string()),
        status: Some("changed".to_string()),
        old_lines: old_lines.into_iter().map(String::from).collect(),
        new_lines: new_lines.into_iter().map(String::from).collect(),
        hunks,
    }
}

/// Extract all (class, old_ln, new_ln) tuples from rendered HTML table rows.
/// Supports three layouts:
///   - Two-table mode (diff-table-lhs + diff-table-rhs): 3-cell rows paired by data-row-idx
///   - Single-column mode (diff-single): 1 ln cell mapped to the active side
///   - Legacy 6-column mode: first 2 ln cells are old/new
fn extract_rows(html: &str) -> Vec<(String, Option<u64>, Option<u64>)> {
    // Strip hidden expandable context rows and expander buttons before parsing.
    let expand_re = Regex::new(r#"(?s)<tr [^>]*class="[^"]*expand-(line|summary)[^"]*"[^>]*>.*?</tr>"#).unwrap();
    let html = &expand_re.replace_all(html, "");

    let is_two_table = html.contains("diff-table-lhs") && html.contains("diff-table-rhs");
    let is_single = html.contains("diff-single");
    let single_is_add = html.contains("diff-add-only");

    if is_two_table {
        // Two-table mode: parse each table separately, pair rows by data-row-idx
        let row_re = Regex::new(r#"<tr ([^>]*class="([^"]+)"[^>]*)>"#).unwrap();
        let td_re = Regex::new(r#"<td class="ln[^"]*"[^>]*>(\d*)</td>"#).unwrap();
        let idx_re = Regex::new(r#"data-row-idx="(\d+)""#).unwrap();

        // Find LHS table content
        let lhs_start = html.find("diff-table-lhs").unwrap_or(0);
        let lhs_end = html[lhs_start..].find("</table>").map(|p| lhs_start + p).unwrap_or(html.len());
        let lhs_html = &html[lhs_start..lhs_end];

        // Find RHS table content
        let rhs_start = html.find("diff-table-rhs").unwrap_or(0);
        let rhs_end = html[rhs_start..].find("</table>").map(|p| rhs_start + p).unwrap_or(html.len());
        let rhs_html = &html[rhs_start..rhs_end];

        // Parse LHS rows into a map: row_idx -> (class, ln)
        let mut lhs_map: std::collections::HashMap<usize, (String, Option<u64>)> = std::collections::HashMap::new();
        let mut lhs_order: Vec<usize> = Vec::new();
        for row_cap in row_re.captures_iter(lhs_html) {
            let attrs = &row_cap[1];
            let class = row_cap[2].to_string()
                .replace("placeholder ", "")
                .replace("line-paired-full", "line-paired")
                .replace("line-added-partial", "line-added")
                .replace("line-removed-partial", "line-removed");
            if let Some(idx_cap) = idx_re.captures(attrs) {
                let idx: usize = idx_cap[1].parse().unwrap_or(0);
                let match_end = row_cap.get(0).unwrap().end();
                let rest = &lhs_html[match_end..];
                let end = rest.find("</tr>").unwrap_or(rest.len());
                let row_html = &rest[..end];
                let lns: Vec<Option<u64>> = td_re.captures_iter(row_html)
                    .map(|c| {
                        let s = &c[1];
                        if s.is_empty() { None } else { s.parse().ok() }
                    })
                    .collect();
                let old_ln = lns.first().copied().flatten();
                lhs_map.insert(idx, (class, old_ln));
                lhs_order.push(idx);
            }
        }

        // Parse RHS rows
        let mut rhs_map: std::collections::HashMap<usize, Option<u64>> = std::collections::HashMap::new();
        for row_cap in row_re.captures_iter(rhs_html) {
            let attrs = &row_cap[1];
            if let Some(idx_cap) = idx_re.captures(attrs) {
                let idx: usize = idx_cap[1].parse().unwrap_or(0);
                let abs_start = row_cap.get(0).unwrap().end();
                let rest = &rhs_html[abs_start..];
                let end = rest.find("</tr>").unwrap_or(rest.len());
                let row_html = &rest[..end];
                let lns: Vec<Option<u64>> = td_re.captures_iter(row_html)
                    .map(|c| {
                        let s = &c[1];
                        if s.is_empty() { None } else { s.parse().ok() }
                    })
                    .collect();
                let new_ln = lns.first().copied().flatten();
                rhs_map.insert(idx, new_ln);
            }
        }

        // Parse RHS rows with class info for added-only rows
        let mut rhs_class_map: std::collections::HashMap<usize, String> = std::collections::HashMap::new();
        let mut rhs_order: Vec<usize> = Vec::new();
        for row_cap in row_re.captures_iter(rhs_html) {
            let attrs = &row_cap[1];
            let class = row_cap[2].to_string()
                .replace("placeholder ", "")
                .replace("line-paired-full", "line-paired")
                .replace("line-added-partial", "line-added")
                .replace("line-removed-partial", "line-removed");
            if let Some(idx_cap) = idx_re.captures(attrs) {
                let idx: usize = idx_cap[1].parse().unwrap_or(0);
                rhs_class_map.insert(idx, class);
                rhs_order.push(idx);
            }
        }

        // Merge LHS and RHS indices in order, deduplicating
        let mut all_indices: Vec<usize> = Vec::new();
        let mut seen = std::collections::HashSet::new();
        let mut li = 0;
        let mut ri = 0;
        loop {
            let l = lhs_order.get(li).copied();
            let r = rhs_order.get(ri).copied();
            match (l, r) {
                (Some(lv), Some(rv)) => {
                    if lv <= rv {
                        if seen.insert(lv) { all_indices.push(lv); }
                        li += 1;
                        if lv == rv { ri += 1; }
                    } else {
                        if seen.insert(rv) { all_indices.push(rv); }
                        ri += 1;
                    }
                }
                (Some(lv), None) => {
                    if seen.insert(lv) { all_indices.push(lv); }
                    li += 1;
                }
                (None, Some(rv)) => {
                    if seen.insert(rv) { all_indices.push(rv); }
                    ri += 1;
                }
                (None, None) => break,
            }
        }

        // Combine by row_idx
        let mut rows = Vec::new();
        for idx in &all_indices {
            let (class, old_ln) = lhs_map.get(idx)
                .map(|(c, l)| (c.clone(), *l))
                .unwrap_or_else(|| {
                    (rhs_class_map.get(idx).cloned().unwrap_or_default(), None)
                });
            let new_ln = rhs_map.get(idx).copied().flatten();
            rows.push((class, old_ln, new_ln));
        }
        rows
    } else {
        // Single-table mode (single-column or legacy 6-column)
        let row_re = Regex::new(r#"<tr class="([^"]+)">"#).unwrap();
        let td_re = Regex::new(r#"<td class="ln[^"]*"[^>]*>(\d*)</td>"#).unwrap();

        let mut rows = Vec::new();
        for row_cap in row_re.captures_iter(html) {
            let class = row_cap[1].to_string()
                .replace("line-paired-full", "line-paired")
                .replace("line-added-partial", "line-added")
                .replace("line-removed-partial", "line-removed");
            let start = row_cap.get(0).unwrap().end();
            let rest = &html[start..];
            let end = rest.find("</tr>").unwrap_or(rest.len());
            let row_html = &rest[..end];

            let lns: Vec<Option<u64>> = td_re.captures_iter(row_html)
                .map(|c| {
                    let s = &c[1];
                    if s.is_empty() { None } else { s.parse().ok() }
                })
                .collect();

            if is_single && lns.len() == 1 {
                let ln = lns[0];
                if single_is_add {
                    rows.push((class, None, ln));
                } else {
                    rows.push((class, ln, None));
                }
            } else {
                let old_ln = lns.first().copied().flatten();
                let new_ln = lns.get(1).copied().flatten();
                rows.push((class, old_ln, new_ln));
            }
        }
        rows
    }
}

#[test]
fn no_duplicate_line_numbers() {
    // Simulate the scenario that caused duplicate line 411:
    // Difft pairs old lines 316-324 with new lines 406-424, but some
    // old-only entries exist (e.g. lhs=320 with no rhs). The sort key
    // must map old lines to new-file positions to avoid gap-filler dupes.
    let old_lines: Vec<&str> = (0..330).map(|_| "old line").collect();
    let new_lines: Vec<&str> = (0..425).map(|_| "new line").collect();

    let chunk = vec![
        // added-only entries
        LineEntry { lhs: None, rhs: Some(side(413, vec![])) },
        LineEntry { lhs: None, rhs: Some(side(414, vec![])) },
        // paired entries
        LineEntry { lhs: Some(side(316, vec![])), rhs: Some(side(406, vec![])) },
        LineEntry { lhs: Some(side(317, vec![])), rhs: Some(side(407, vec![])) },
        LineEntry { lhs: Some(side(318, vec![])), rhs: Some(side(408, vec![])) },
        LineEntry { lhs: Some(side(319, vec![])), rhs: Some(side(409, vec![])) },
        // removed-only (this was the problematic case)
        LineEntry { lhs: Some(side(320, vec![])), rhs: None },
        // paired
        LineEntry { lhs: Some(side(321, vec![])), rhs: Some(side(410, vec![])) },
        LineEntry { lhs: Some(side(322, vec![])), rhs: Some(side(411, vec![])) },
        LineEntry { lhs: Some(side(323, vec![])), rhs: Some(side(412, vec![])) },
        LineEntry { lhs: Some(side(324, vec![])), rhs: Some(side(420, vec![])) },
    ];

    let hunks = vec![DiffHunk { old_start: 317, old_count: 13, new_start: 407, new_count: 18 }];
    let difft = make_difft(old_lines, new_lines, vec![chunk], hunks);

    let html = test_render_chunks(&difft, &[0], "test.ts", None);
    let rows = extract_rows(&html);

    // Check no new-side line number appears more than once
    let new_lns: Vec<u64> = rows.iter().filter_map(|(_, _, n)| *n).collect();
    let mut seen = std::collections::HashSet::new();
    for ln in &new_lns {
        assert!(seen.insert(ln), "duplicate new-side line number: {}", ln);
    }

    // Check no old-side line number appears more than once
    let old_lns: Vec<u64> = rows.iter().filter_map(|(_, o, _)| *o).collect();
    seen.clear();
    for ln in &old_lns {
        assert!(seen.insert(ln), "duplicate old-side line number: {}", ln);
    }
}

#[test]
fn added_only_rows_have_no_token_highlights() {
    let old_lines = vec!["line 0", "line 1", "line 2", "line 3"];
    let new_lines = vec!["line 0", "line 1", "ADDED LINE", "line 2", "line 3"];

    let chunk = vec![
        LineEntry {
            lhs: None,
            rhs: Some(side(2, vec![span("ADDED", 0, 5), span("LINE", 6, 10)])),
        },
    ];

    let hunks = vec![DiffHunk { old_start: 3, old_count: 0, new_start: 3, new_count: 1 }];
    let difft = make_difft(old_lines, new_lines, vec![chunk], hunks);

    let html = test_render_chunks(&difft, &[0], "test.ts", None);

    // The added-only row should NOT contain hl-add spans
    // (the row background is sufficient)
    let added_row_re = Regex::new(r#"(?s)<tr class="line-added">.*?</tr>"#).unwrap();
    for m in added_row_re.find_iter(&html) {
        let row_html = m.as_str();
        assert!(!row_html.contains("hl-add"),
            "added-only row should not contain hl-add token highlights: {}", row_html);
    }
}

#[test]
fn removed_only_rows_have_no_token_highlights() {
    let old_lines = vec!["line 0", "line 1", "REMOVED LINE", "line 2", "line 3"];
    let new_lines = vec!["line 0", "line 1", "line 2", "line 3"];

    let chunk = vec![
        LineEntry {
            lhs: Some(side(2, vec![span("REMOVED", 0, 7), span("LINE", 8, 12)])),
            rhs: None,
        },
    ];

    let hunks = vec![DiffHunk { old_start: 3, old_count: 1, new_start: 3, new_count: 0 }];
    let difft = make_difft(old_lines, new_lines, vec![chunk], hunks);

    let html = test_render_chunks(&difft, &[0], "test.ts", None);

    let removed_row_re = Regex::new(r#"(?s)<tr class="line-removed">.*?</tr>"#).unwrap();
    for m in removed_row_re.find_iter(&html) {
        let row_html = m.as_str();
        assert!(!row_html.contains("hl-del"),
            "removed-only row should not contain hl-del token highlights: {}", row_html);
    }
}

#[test]
fn paired_rows_have_token_highlights() {
    let old_lines = vec!["line 0", "let x = foo()", "line 2"];
    let new_lines = vec!["line 0", "let x = bar()", "line 2"];

    let chunk = vec![
        LineEntry {
            lhs: Some(side(1, vec![span("foo", 8, 11)])),
            rhs: Some(side(1, vec![span("bar", 8, 11)])),
        },
    ];

    let hunks = vec![DiffHunk { old_start: 2, old_count: 1, new_start: 2, new_count: 1 }];
    let difft = make_difft(old_lines, new_lines, vec![chunk], hunks);

    let html = test_render_chunks(&difft, &[0], "test.ts", None);

    assert!(html.contains("line-paired"), "HTML should contain line-paired row");
    // In two-table mode, paired rows are split across LHS and RHS tables.
    // LHS rows contain hl-del, RHS rows contain hl-add.
    let paired_row_re = Regex::new(r#"(?s)<tr [^>]*class="line-paired"[^>]*>.*?</tr>"#).unwrap();
    let matched: Vec<_> = paired_row_re.find_iter(&html).collect();
    assert!(!matched.is_empty(), "should have at least one paired row");

    let has_hl_del = matched.iter().any(|m| m.as_str().contains("hl-del"));
    let has_hl_add = matched.iter().any(|m| m.as_str().contains("hl-add"));
    assert!(has_hl_del, "paired rows should contain hl-del highlight in LHS table");
    assert!(has_hl_add, "paired rows should contain hl-add highlight in RHS table");
}

#[test]
fn line_filter_restricts_output() {
    // Chunk with changes at lines 5, 10, 15 (0-based new-side)
    let old_lines: Vec<&str> = (0..20).map(|_| "old").collect();
    let new_lines: Vec<&str> = (0..20).map(|_| "new").collect();

    let chunk = vec![
        LineEntry { lhs: Some(side(5, vec![])), rhs: Some(side(5, vec![])) },
        LineEntry { lhs: Some(side(10, vec![])), rhs: Some(side(10, vec![])) },
        LineEntry { lhs: Some(side(15, vec![])), rhs: Some(side(15, vec![])) },
    ];

    // Use per-line hunks so only the 3 changed lines are in the diff
    let hunks = vec![
        DiffHunk { old_start: 6, old_count: 1, new_start: 6, new_count: 1 },
        DiffHunk { old_start: 11, old_count: 1, new_start: 11, new_count: 1 },
        DiffHunk { old_start: 16, old_count: 1, new_start: 16, new_count: 1 },
    ];
    let difft = make_difft(old_lines, new_lines, vec![chunk], hunks);

    // No filter: all 3 changed lines present
    let html_all = test_render_chunks(&difft, &[0], "test.ts", None);
    let rows_all = extract_rows(&html_all);
    let changed_all: Vec<_> = rows_all.iter()
        .filter(|(c, _, _)| c == "line-paired")
        .collect();
    assert_eq!(changed_all.len(), 3, "should have 3 paired rows without filter");

    // Filter to 0-based 8-12. Only line 10 (new-side) should match.
    let html_filtered = test_render_chunks(&difft, &[0], "test.ts", Some((8, 12)));
    let rows_filtered = extract_rows(&html_filtered);
    let changed_filtered: Vec<_> = rows_filtered.iter()
        .filter(|(c, _, _)| c == "line-paired")
        .collect();
    assert_eq!(changed_filtered.len(), 1, "should have 1 paired row with filter");
    assert_eq!(changed_filtered[0].2, Some(11), "filtered row should be new-side line 11 (1-based)");

    // Lines outside any change should produce no changed rows
    let html_empty = test_render_chunks(&difft, &[0], "test.ts", Some((0, 3)));
    let rows_empty = extract_rows(&html_empty);
    let changed_empty: Vec<_> = rows_empty.iter()
        .filter(|(c, _, _)| c == "line-paired")
        .collect();
    assert_eq!(changed_empty.len(), 0, "should have 0 paired rows when filter misses all changes");
}

#[test]
fn line_filter_excludes_out_of_range_changes_from_context() {
    // A chunk with changes at lines 50, 60, 70 (0-based new-side).
    // When filtering to only line 60, lines 50 and 70 should NOT appear
    // as context rows (they're changed lines outside the filter).
    let old_lines: Vec<&str> = (0..80).map(|_| "old").collect();
    let new_lines: Vec<&str> = (0..80).map(|_| "new").collect();

    let chunk = vec![
        LineEntry { lhs: Some(side(50, vec![])), rhs: Some(side(50, vec![])) },
        LineEntry { lhs: Some(side(60, vec![])), rhs: Some(side(60, vec![])) },
        LineEntry { lhs: Some(side(70, vec![])), rhs: Some(side(70, vec![])) },
    ];

    let hunks = vec![
        DiffHunk { old_start: 51, old_count: 1, new_start: 51, new_count: 1 },
        DiffHunk { old_start: 61, old_count: 1, new_start: 61, new_count: 1 },
        DiffHunk { old_start: 71, old_count: 1, new_start: 71, new_count: 1 },
    ];
    let difft = make_difft(old_lines, new_lines, vec![chunk], hunks);

    // Filter to 0-based 58-62 (only line 60 is a change)
    let html = test_render_chunks(&difft, &[0], "test.ts", Some((58, 62)));
    let rows = extract_rows(&html);

    // Should have exactly 1 paired row (line 60)
    let changed: Vec<_> = rows.iter()
        .filter(|(c, _, _)| c == "line-paired")
        .collect();
    assert_eq!(changed.len(), 1, "should have 1 paired row");
    assert_eq!(changed[0].2, Some(61), "should be new-side line 61 (1-based)");

    // Context rows should NOT include lines 50 or 70
    let context_new_lns: Vec<u64> = rows.iter()
        .filter(|(c, _, _)| c == "line-context")
        .filter_map(|(_, _, n)| *n)
        .collect();
    assert!(!context_new_lns.contains(&51), "line 51 (changed, out of range) should not appear as context");
    assert!(!context_new_lns.contains(&71), "line 71 (changed, out of range) should not appear as context");

    // Context should be within CONTEXT_LINES of line 60
    for ln in &context_new_lns {
        assert!(
            (*ln as i64 - 61).unsigned_abs() <= CONTEXT_LINES as u64,
            "context line {} is too far from filtered change at 61", ln
        );
    }
}

/// Helper: extract changed (non-context) new-side line numbers from rendered HTML.
fn extract_changed_new_lines(html: &str) -> std::collections::HashSet<u64> {
    let rows = extract_rows(html);
    rows.iter()
        .filter(|(c, _, _)| c != "line-context" && c != "chunk-sep")
        .filter_map(|(_, _, n)| *n)
        .collect()
}

#[test]
fn split_union_covers_all_changed_lines() {
    // A chunk with 10 consecutive changed lines (0-based 20-29).
    // Split into three blocks: 20-22, 23-26, 27-29.
    // The union of changed lines across all blocks must equal the
    // unsplit chunk's changed lines.
    let old_lines: Vec<&str> = (0..40).map(|_| "old").collect();
    let mut new_lines_vec: Vec<String> = (0..40).map(|_| "old".to_string()).collect();
    for i in 20..30 {
        new_lines_vec[i] = format!("new line {}", i);
    }
    let new_lines: Vec<&str> = new_lines_vec.iter().map(|s| s.as_str()).collect();

    let chunk = vec![
        LineEntry { lhs: Some(side(20, vec![])), rhs: Some(side(20, vec![])) },
        LineEntry { lhs: Some(side(21, vec![])), rhs: Some(side(21, vec![])) },
        LineEntry { lhs: Some(side(22, vec![])), rhs: Some(side(22, vec![])) },
        LineEntry { lhs: Some(side(23, vec![])), rhs: Some(side(23, vec![])) },
        LineEntry { lhs: Some(side(24, vec![])), rhs: Some(side(24, vec![])) },
        LineEntry { lhs: Some(side(25, vec![])), rhs: Some(side(25, vec![])) },
        LineEntry { lhs: Some(side(26, vec![])), rhs: Some(side(26, vec![])) },
        LineEntry { lhs: Some(side(27, vec![])), rhs: Some(side(27, vec![])) },
        LineEntry { lhs: Some(side(28, vec![])), rhs: Some(side(28, vec![])) },
        LineEntry { lhs: Some(side(29, vec![])), rhs: Some(side(29, vec![])) },
    ];

    let hunks = vec![DiffHunk { old_start: 21, old_count: 10, new_start: 21, new_count: 10 }];
    let difft = make_difft(old_lines, new_lines, vec![chunk], hunks);

    // Unsplit: all changed lines
    let all_lines = extract_changed_new_lines(
        &test_render_chunks(&difft, &[0], "test.ts", None)
    );

    // Split into three non-overlapping ranges
    let split1 = extract_changed_new_lines(
        &test_render_chunks(&difft, &[0], "test.ts", Some((20, 22)))
    );
    let split2 = extract_changed_new_lines(
        &test_render_chunks(&difft, &[0], "test.ts", Some((23, 26)))
    );
    let split3 = extract_changed_new_lines(
        &test_render_chunks(&difft, &[0], "test.ts", Some((27, 29)))
    );

    let union: std::collections::HashSet<u64> = split1.iter()
        .chain(split2.iter())
        .chain(split3.iter())
        .copied()
        .collect();

    assert_eq!(union, all_lines,
        "union of splits must equal unsplit changed lines.\n  unsplit: {:?}\n  union: {:?}\n  split1: {:?}\n  split2: {:?}\n  split3: {:?}",
        all_lines, union, split1, split2, split3);
}

#[test]
fn overlapping_splits_still_cover_all_lines() {
    // Same chunk but with overlapping split ranges.
    let old_lines: Vec<&str> = (0..40).map(|_| "old").collect();
    let mut new_lines_vec: Vec<String> = (0..40).map(|_| "old".to_string()).collect();
    for i in 20..30 {
        new_lines_vec[i] = format!("new line {}", i);
    }
    let new_lines: Vec<&str> = new_lines_vec.iter().map(|s| s.as_str()).collect();

    let chunk = vec![
        LineEntry { lhs: Some(side(20, vec![])), rhs: Some(side(20, vec![])) },
        LineEntry { lhs: Some(side(21, vec![])), rhs: Some(side(21, vec![])) },
        LineEntry { lhs: Some(side(22, vec![])), rhs: Some(side(22, vec![])) },
        LineEntry { lhs: Some(side(23, vec![])), rhs: Some(side(23, vec![])) },
        LineEntry { lhs: Some(side(24, vec![])), rhs: Some(side(24, vec![])) },
        LineEntry { lhs: Some(side(25, vec![])), rhs: Some(side(25, vec![])) },
        LineEntry { lhs: Some(side(26, vec![])), rhs: Some(side(26, vec![])) },
        LineEntry { lhs: Some(side(27, vec![])), rhs: Some(side(27, vec![])) },
        LineEntry { lhs: Some(side(28, vec![])), rhs: Some(side(28, vec![])) },
        LineEntry { lhs: Some(side(29, vec![])), rhs: Some(side(29, vec![])) },
    ];

    let hunks = vec![DiffHunk { old_start: 21, old_count: 10, new_start: 21, new_count: 10 }];
    let difft = make_difft(old_lines, new_lines, vec![chunk], hunks);

    let all_lines = extract_changed_new_lines(
        &test_render_chunks(&difft, &[0], "test.ts", None)
    );

    // Overlapping ranges: 20-25, 23-29
    let split1 = extract_changed_new_lines(
        &test_render_chunks(&difft, &[0], "test.ts", Some((20, 25)))
    );
    let split2 = extract_changed_new_lines(
        &test_render_chunks(&difft, &[0], "test.ts", Some((23, 29)))
    );

    let union: std::collections::HashSet<u64> = split1.iter()
        .chain(split2.iter())
        .copied()
        .collect();

    assert_eq!(union, all_lines,
        "overlapping union must cover all.\n  unsplit: {:?}\n  union: {:?}", all_lines, union);
}

#[test]
fn single_line_splits_cover_all() {
    // Extreme: split every changed line into its own block.
    let old_lines: Vec<&str> = (0..20).map(|_| "old").collect();
    let mut new_lines_vec: Vec<String> = (0..20).map(|_| "old".to_string()).collect();
    for i in 5..10 {
        new_lines_vec[i] = format!("changed {}", i);
    }
    let new_lines: Vec<&str> = new_lines_vec.iter().map(|s| s.as_str()).collect();

    let chunk = vec![
        LineEntry { lhs: Some(side(5, vec![])), rhs: Some(side(5, vec![])) },
        LineEntry { lhs: Some(side(6, vec![])), rhs: Some(side(6, vec![])) },
        LineEntry { lhs: Some(side(7, vec![])), rhs: Some(side(7, vec![])) },
        LineEntry { lhs: Some(side(8, vec![])), rhs: Some(side(8, vec![])) },
        LineEntry { lhs: Some(side(9, vec![])), rhs: Some(side(9, vec![])) },
    ];

    let hunks = vec![DiffHunk { old_start: 6, old_count: 5, new_start: 6, new_count: 5 }];
    let difft = make_difft(old_lines, new_lines, vec![chunk], hunks);

    let all_lines = extract_changed_new_lines(
        &test_render_chunks(&difft, &[0], "test.ts", None)
    );

    // One block per line
    let mut union = std::collections::HashSet::new();
    for line_0 in 5..10 {
        let lines = extract_changed_new_lines(
            &test_render_chunks(&difft, &[0], "test.ts", Some((line_0, line_0)))
        );
        assert_eq!(lines.len(), 1,
            "single-line filter at {} should produce 1 changed line, got {:?}", line_0, lines);
        union.extend(lines);
    }

    assert_eq!(union, all_lines,
        "single-line splits union must cover all.\n  unsplit: {:?}\n  union: {:?}", all_lines, union);
}

#[test]
fn function_names_are_purple() {
    // Function names should be #6639ba (GitHub's --color-prettylights-syntax-entity).
    // Tree-sitter emits both "function" and "variable" captures for function names;
    // "function" should win via priority and map to purple.
    // Note: tree-sitter needs the full function body to classify the name as "function".
    let old_lines = vec!["// old"];
    let new_lines = vec![
        "async function bootstrapViaWorkspaceCreate(",
        "  sboxdUrl: string,",
        ") {",
        "  const x = getSettings()",
        "}",
    ];

    let chunk = vec![
        LineEntry { lhs: None, rhs: Some(side(0, vec![])) },
        LineEntry { lhs: None, rhs: Some(side(1, vec![])) },
        LineEntry { lhs: None, rhs: Some(side(2, vec![])) },
        LineEntry { lhs: None, rhs: Some(side(3, vec![])) },
        LineEntry { lhs: None, rhs: Some(side(4, vec![])) },
    ];
    let hunks = vec![DiffHunk { old_start: 1, old_count: 0, new_start: 1, new_count: 5 }];
    let difft = make_difft(old_lines, new_lines, vec![chunk], hunks);

    let html = test_render_chunks(&difft, &[0], "test.ts", None);

    // bootstrapViaWorkspaceCreate should be purple (#6639ba)
    assert!(html.contains("color:#6025cd"),
        "function name should be purple (#6639ba) in HTML:\n{}",
        &html[..html.len().min(2000)]);
}

#[test]
fn property_names_are_blue() {
    // In `workloadName: workloadConfig.workloadName,`:
    // - property key (workloadName:) should be blue (#0550ae)
    // - dot-access property (.workloadName) should be blue (#0550ae)
    // - the object (workloadConfig) should be default text
    let old_lines = vec!["// old"];
    let new_lines = vec![
        "const x = {",
        "  workloadName: workloadConfig.workloadName,",
        "}",
    ];

    let chunk = vec![
        LineEntry { lhs: None, rhs: Some(side(0, vec![])) },
        LineEntry { lhs: None, rhs: Some(side(1, vec![])) },
        LineEntry { lhs: None, rhs: Some(side(2, vec![])) },
    ];
    let hunks = vec![DiffHunk { old_start: 1, old_count: 0, new_start: 1, new_count: 3 }];
    let difft = make_difft(old_lines, new_lines, vec![chunk], hunks);

    let html = test_render_chunks(&difft, &[0], "test.ts", None);

    // Property names (workloadName) should be blue, variable (workloadConfig) default text
    assert!(html.contains("color:#004fb3\">workloadName"),
        "property key should be blue (#0550ae):\n{}",
        &html[..html.len().min(2000)]);
    // Variables should be default text (#1f2328), which means no span wrapper
    assert!(!html.contains("color:#953800\">workloadConfig"),
        "variable should not be orange (#953800), should be default text:\n{}",
        &html[..html.len().min(2000)]);
}

#[test]
fn type_annotations_are_default_text() {
    // Type annotations like `string`, `boolean`, `Record` should be default text,
    // matching GitHub's rendering.
    let old_lines = vec!["// old"];
    let new_lines = vec![
        "interface Foo {",
        "  name: string",
        "  enabled: boolean",
        "}",
    ];

    let chunk = vec![
        LineEntry { lhs: None, rhs: Some(side(0, vec![])) },
        LineEntry { lhs: None, rhs: Some(side(1, vec![])) },
        LineEntry { lhs: None, rhs: Some(side(2, vec![])) },
        LineEntry { lhs: None, rhs: Some(side(3, vec![])) },
    ];
    let hunks = vec![DiffHunk { old_start: 1, old_count: 0, new_start: 1, new_count: 4 }];
    let difft = make_difft(old_lines, new_lines, vec![chunk], hunks);

    let html = test_render_chunks(&difft, &[0], "test.ts", None);

    // `string`, `boolean`, and user-defined types should NOT have a colored span
    assert!(!html.contains("color:#004fb3\">string"),
        "type 'string' should be default text, not blue:\n{}",
        &html[..html.len().min(2000)]);
    assert!(!html.contains("color:#004fb3\">boolean"),
        "type 'boolean' should be default text, not blue:\n{}",
        &html[..html.len().min(2000)]);
    assert!(!html.contains("color:#004fb3\">Foo"),
        "user-defined type 'Foo' should be default text, not blue:\n{}",
        &html[..html.len().min(2000)]);
}

#[test]
fn constructor_names_are_orange() {
    // In `CortexStatsig.checkGate(...)`, CortexStatsig is a class/constructor
    // and should be orange (#953800).
    let old_lines = vec!["// old"];
    let new_lines = vec![
        "CortexStatsig.checkGate(context, 'flag', false)",
    ];

    let chunk = vec![
        LineEntry { lhs: None, rhs: Some(side(0, vec![])) },
    ];
    let hunks = vec![DiffHunk { old_start: 1, old_count: 0, new_start: 1, new_count: 1 }];
    let difft = make_difft(old_lines, new_lines, vec![chunk], hunks);

    let html = test_render_chunks(&difft, &[0], "test.ts", None);

    assert!(html.contains("color:#953800\">CortexStatsig"),
        "constructor/class name should be orange (#953800):\n{}",
        &html[..html.len().min(2000)]);
}

#[test]
fn line_numbers_are_consecutive_on_each_side() {
    // New-side line numbers among non-context changed rows must be
    // non-decreasing. Old-side may have gap-caused disorder (logged as
    // warning) but new-side must be correct since that's what humans read.
    let html = extract_rows_html_from_real_data();
    let rows = extract_rows(&html);

    let non_context: Vec<_> = rows.iter()
        .filter(|(c, _, _)| c != "line-context" && c != "chunk-sep")
        .collect();

    let new_lns: Vec<u64> = non_context.iter().filter_map(|(_, _, n)| *n).collect();
    for i in 1..new_lns.len() {
        assert!(new_lns[i] >= new_lns[i-1],
            "new-side line numbers out of order: {} followed by {} (at position {})\nall new: {:?}",
            new_lns[i-1], new_lns[i], i, new_lns);
    }

    // Also check no duplicate line numbers
    let mut seen = std::collections::HashSet::new();
    for &ln in &new_lns {
        assert!(seen.insert(ln), "duplicate new-side line number: {}", ln);
    }
}

/// Build render output from the problematic chunk pattern:
/// difft pairs old comments with new comments non-consecutively,
/// leaving gaps that cause sort-key collisions.
fn extract_rows_html_from_real_data() -> String {
    let old_lines: Vec<&str> = (0..335).map(|_| "old line").collect();
    let mut new_lines_vec: Vec<String> = (0..400).map(|_| "new line".to_string()).collect();
    // Make some lines distinct so we can trace them
    for i in 376..396 {
        new_lines_vec[i] = format!("new content {}", i);
    }
    let new_lines: Vec<&str> = new_lines_vec.iter().map(|s| s.as_str()).collect();

    // Reproduce the problematic chunk: difft pairs old 316-324 with new 376-394,
    // but skips old 320 (removed-only) which maps to the same new-side position
    // as paired entry [7].
    let chunk = vec![
        LineEntry { lhs: None, rhs: Some(side(383, vec![])) },
        LineEntry { lhs: None, rhs: Some(side(384, vec![])) },
        LineEntry { lhs: None, rhs: Some(side(385, vec![])) },
        LineEntry { lhs: None, rhs: Some(side(387, vec![])) },
        LineEntry { lhs: None, rhs: Some(side(388, vec![])) },
        LineEntry { lhs: None, rhs: Some(side(389, vec![])) },
        LineEntry { lhs: None, rhs: Some(side(394, vec![])) },
        LineEntry { lhs: Some(side(316, vec![])), rhs: Some(side(376, vec![])) },
        LineEntry { lhs: Some(side(317, vec![])), rhs: Some(side(377, vec![])) },
        LineEntry { lhs: Some(side(318, vec![])), rhs: Some(side(378, vec![])) },
        LineEntry { lhs: Some(side(319, vec![])), rhs: Some(side(379, vec![])) },
        LineEntry { lhs: Some(side(320, vec![])), rhs: None },  // removed-only
        LineEntry { lhs: Some(side(321, vec![])), rhs: Some(side(380, vec![])) },
        LineEntry { lhs: Some(side(322, vec![])), rhs: Some(side(381, vec![])) },
        LineEntry { lhs: Some(side(323, vec![])), rhs: Some(side(382, vec![])) },
        LineEntry { lhs: Some(side(324, vec![])), rhs: Some(side(390, vec![])) },
    ];

    let hunks = vec![DiffHunk { old_start: 317, old_count: 13, new_start: 377, new_count: 18 }];
    let difft = make_difft(old_lines, new_lines, vec![chunk], hunks);

    test_render_chunks(&difft, &[0], "test.ts", None)
}

#[test]
fn foundry_api_chunk2_matches_difft_cli_layout() {
    // Verify that the rendered row layout for the problematic foundry_api.ts
    // chunk 2 matches difft CLI's side-by-side output.
    //
    // Expected layout (from `difft --display side-by-side`):
    //   old:317 ↔ new:377  (paired)
    //   old:318 ↔ new:378  (paired)
    //   old:319 ↔ new:379  (paired)
    //   old:320 ↔ new:380  (paired)
    //   old:321 ↔ (none)   (removed-only)
    //   old:322 ↔ new:381  (paired)
    //   old:323 ↔ new:382  (paired)
    //   old:324 ↔ new:383  (paired, note: 383 was a NEW-only entry in difft JSON)
    //   (none)  ↔ new:384  (added)
    //   (none)  ↔ new:385  (added)
    //   ...gap-filled new lines...
    //   old:325 ↔ new:391  (paired, from hunk gap)
    //   ...more...
    let html = extract_rows_html_from_real_data();
    let rows = extract_rows(&html);

    // Extract (old_ln, new_ln) pairs for non-context rows
    let changed: Vec<(Option<u64>, Option<u64>)> = rows.iter()
        .filter(|(c, _, _)| c != "line-context" && c != "chunk-sep")
        .map(|(_, o, n)| (*o, *n))
        .collect();

    // New-side line numbers must be non-decreasing
    let new_lns_all: Vec<u64> = changed.iter().filter_map(|(_, n)| *n).collect();
    for i in 1..new_lns_all.len() {
        assert!(new_lns_all[i] >= new_lns_all[i-1],
            "new-side out of order: {} then {} at pos {}\nall new: {:?}",
            new_lns_all[i-1], new_lns_all[i], i, new_lns_all);
    }

    // Key difft entries should be present
    let old_lns: Vec<u64> = changed.iter().filter_map(|(o, _)| *o).collect();
    assert!(old_lns.contains(&321), "old line 321 (removed) should be present");

    // Added-only lines (383-389) should appear between paired entries
    // for old:324↔new:382 and wherever old:325↔new:391 ends up
    let new_lns: Vec<u64> = changed.iter().filter_map(|(_, n)| *n).collect();
    assert!(new_lns.contains(&384), "new line 384 should be present");
    assert!(new_lns.contains(&388), "new line 388 should be present");

    // new:383 should come after new:382 (paired with old:324)
    let new_382_pos = new_lns.iter().position(|&l| l == 382);
    let new_383_pos = new_lns.iter().position(|&l| l == 383);
    if let (Some(p382), Some(p383)) = (new_382_pos, new_383_pos) {
        assert!(p382 < p383,
            "new 382 should come before new 383, got pos {} vs {}",
            p382, p383);
    }
}

// ── Fixture-based rendering tests ──────────────────────────────────
//
// Each subdirectory of `test_fixtures/` is a fixture set (usually one
// commit). It contains `*.json` files produced by `walkthrough collect`
// and optional `*.difft.txt` files (difft CLI text for LLM reference).
//
// Tests load every JSON file, render every chunk, and verify:
//   1. Row layout matches consolidate_chunk + sort output
//   2. Old-side line numbers are non-decreasing
//   3. No duplicate line numbers on either side
//   4. Added-only rows have no hl-add token highlights
//   5. Removed-only rows have no hl-del token highlights
//   6. Text rendering changed-line count matches HTML

/// Context lines should expand beyond CONTEXT_LINES when the boundary
/// cuts off a multi-line expression (e.g. a function call). The expansion
/// uses bracket nesting to find the enclosing opener/closer, capped at
/// MAX_EXPRESSION_CONTEXT extra lines.
#[test]
fn context_expands_to_show_enclosing_expression() {
    // Simulate a file where a changed line sits inside a multi-line
    // function call. With CONTEXT_LINES=3, the call opener would be
    // cut off. The renderer should expand to include it.
    //
    //  0: function deploy() {
    //  1:   const result = await sendEvent(context, {
    //  2:     cluster: env,
    //  3:     service: 'web',
    //  4:     orchestrator: 'N/A',
    //  5:     manuallyTriggered: true,     <-- CHANGED (old: false)
    //  6:     additionalEventTags: tags,
    //  7:   });
    //  8:   if (result.ok) {
    //  9:     return true;
    // 10:   }
    // 11: }
    let old_lines = vec![
        "function deploy() {",
        "  const result = await sendEvent(context, {",
        "    cluster: env,",
        "    service: 'web',",
        "    orchestrator: 'N/A',",
        "    manuallyTriggered: false,",
        "    additionalEventTags: tags,",
        "  });",
        "  if (result.ok) {",
        "    return true;",
        "  }",
        "}",
    ];
    let new_lines = vec![
        "function deploy() {",
        "  const result = await sendEvent(context, {",
        "    cluster: env,",
        "    service: 'web',",
        "    orchestrator: 'N/A',",
        "    manuallyTriggered: true,",
        "    additionalEventTags: tags,",
        "  });",
        "  if (result.ok) {",
        "    return true;",
        "  }",
        "}",
    ];

    // Changed line is index 5 (0-based). difft uses 0-based line numbers.
    let chunk = vec![
        LineEntry {
            lhs: Some(side(5, vec![span("false", 25, 30)])),
            rhs: Some(side(5, vec![span("true", 25, 29)])),
        },
    ];

    // Hunk: the change is at old line 6, new line 6 (1-based for git hunks)
    let hunks = vec![DiffHunk { old_start: 6, old_count: 1, new_start: 6, new_count: 1 }];
    let difft = make_difft(old_lines, new_lines, vec![chunk], hunks);

    let html = test_render_chunks(&difft, &[0], "test.ts", None);
    let rows = extract_rows(&html);

    let rendered_new_lines: Vec<u64> = rows.iter()
        .filter_map(|(_, _, n)| *n)
        .collect();

    // With plain CONTEXT_LINES=3, we'd see display lines 3..9.
    // Display line 2 ("const result = await sendEvent(context, {")
    // would be cut off (0-based index 1, display = index+1 = 2).
    // The expression-aware expansion should include it because the
    // visible range contains a closer without the matching opener.
    assert!(
        rendered_new_lines.contains(&2),
        "Expected the function call opener (display line 2) to be included \
         via expression-aware context expansion.\n\
         Rendered new lines: {:?}\n\
         Rows: {:?}",
        rendered_new_lines, rows,
    );
}

/// When an entire new function is added, the pre-context shows the end of
/// the previous function. Expression expansion should NOT pull in unrelated
/// code from the previous function just because the context has a closing
/// brace.
#[test]
fn added_function_does_not_expand_into_previous_function() {
    //  0: async function previousFunction() {
    //  1:   const x = await fetch(url, {
    //  2:     method: 'POST',
    //  3:     body: JSON.stringify(data),
    //  4:   });
    //  5:   return x;
    //  6: }
    //  7:
    //  8: /**                                          <-- ADDED from here
    //  9:  * Bootstrap via workspace/create.
    // 10:  */
    // 11: async function bootstrapViaWorkspaceCreate(
    // 12:   context: Context,
    // 13:   config: BootstrapConfig,
    // 14: ) {
    // 15:   const ws = await createWorkspace(context, {
    // 16:     bootstrap: config,
    // 17:   });
    // 18:   return ws;
    // 19: }
    let old_lines: Vec<&str> = vec![
        "async function previousFunction() {",
        "  const x = await fetch(url, {",
        "    method: 'POST',",
        "    body: JSON.stringify(data),",
        "  });",
        "  return x;",
        "}",
        "",
    ];
    let new_lines: Vec<&str> = vec![
        "async function previousFunction() {",
        "  const x = await fetch(url, {",
        "    method: 'POST',",
        "    body: JSON.stringify(data),",
        "  });",
        "  return x;",
        "}",
        "",
        "/**",
        " * Bootstrap via workspace/create.",
        " */",
        "async function bootstrapViaWorkspaceCreate(",
        "  context: Context,",
        "  config: BootstrapConfig,",
        ") {",
        "  const ws = await createWorkspace(context, {",
        "    bootstrap: config,",
        "  });",
        "  return ws;",
        "}",
    ];

    // Added lines: 0-based indices 8..19 on the new side.
    let chunk: Vec<LineEntry> = (8..20).map(|i| {
        LineEntry { lhs: None, rhs: Some(side(i, vec![])) }
    }).collect();

    // Hunk: insertion after old line 8, adding 12 new lines starting at new line 9
    let hunks = vec![DiffHunk { old_start: 9, old_count: 0, new_start: 9, new_count: 12 }];
    let difft = make_difft(old_lines, new_lines, vec![chunk], hunks);

    let html = test_render_chunks(&difft, &[0], "test.ts", None);
    let rows = extract_rows(&html);

    let rendered_new_lines: Vec<u64> = rows.iter()
        .filter_map(|(_, _, n)| *n)
        .collect();

    // Pre-context should be at most 3 lines (display lines 6, 7, 8 =
    // 0-based 5, 6, 7). The expansion should NOT reach back to display
    // line 2 ("const x = await fetch(url, {") or earlier, because the
    // added function's brackets are self-contained.
    let min_new = rendered_new_lines.iter().copied().min().unwrap_or(0);
    assert!(
        min_new >= 6,
        "Expression expansion reached into the previous function. \
         Earliest rendered new line is display {}, expected >= 6.\n\
         Rendered new lines: {:?}\n\
         Rows: {:?}",
        min_new, rendered_new_lines, rows,
    );
}

/// When expression expansion hits MAX_EXPRESSION_CONTEXT without finding
/// the matching bracket, the extra lines are mid-expression noise. The
/// expansion should be abandoned entirely, falling back to CONTEXT_LINES.
#[test]
fn incomplete_expression_expansion_falls_back_to_normal_context() {
    // A long array literal where the changed line is near the end.
    // The `]` closer is within post-context, triggering before-expansion,
    // but the `[` opener is 12+ lines above, unreachable within
    // MAX_EXPRESSION_CONTEXT=8. The expansion should give up and use
    // normal 3-line context rather than showing 8 random mid-array lines.
    //
    //  0: const FLAGS = [
    //  1:   'flag_a',
    //  ...  (many flags)
    // 13:   'flag_n',
    // 14:   'flag_changed',          <-- CHANGED
    // 15: ] as const;               <-- closer in post-context
    // 16:
    // 17: export default FLAGS;
    let mut old_lines: Vec<&str> = vec!["const FLAGS = ["];
    for i in 0..13 {
        old_lines.push(match i {
            0 => "  'flag_a',",
            1 => "  'flag_b',",
            2 => "  'flag_c',",
            3 => "  'flag_d',",
            4 => "  'flag_e',",
            5 => "  'flag_f',",
            6 => "  'flag_g',",
            7 => "  'flag_h',",
            8 => "  'flag_i',",
            9 => "  'flag_j',",
            10 => "  'flag_k',",
            11 => "  'flag_l',",
            _ => "  'flag_m',",
        });
    }
    old_lines.push("  'flag_old',");   // index 14
    old_lines.push("] as const;");     // index 15
    old_lines.push("");                // index 16
    old_lines.push("export default FLAGS;"); // index 17

    let mut new_lines = old_lines.clone();
    new_lines[14] = "  'flag_changed',";

    let chunk = vec![
        LineEntry {
            lhs: Some(side(14, vec![span("flag_old", 3, 11)])),
            rhs: Some(side(14, vec![span("flag_changed", 3, 15)])),
        },
    ];

    let hunks = vec![DiffHunk { old_start: 15, old_count: 1, new_start: 15, new_count: 1 }];
    let difft = make_difft(old_lines, new_lines, vec![chunk], hunks);

    let html = test_render_chunks(&difft, &[0], "test.ts", None);
    let rows = extract_rows(&html);

    let rendered_new_lines: Vec<u64> = rows.iter()
        .filter_map(|(_, _, n)| *n)
        .collect();

    let min_new = rendered_new_lines.iter().copied().min().unwrap_or(0);

    // Normal 3-line context: display lines 12..18 (0-based 11..17).
    // The `[` opener is at display line 1, unreachable within 8 extra lines
    // from display line 12. Since expansion can't complete the expression,
    // it should not expand at all.
    assert!(
        min_new >= 12,
        "Incomplete expression expansion should fall back to normal context. \
         Earliest rendered line is display {}, expected >= 12.\n\
         Rendered new lines: {:?}",
        min_new, rendered_new_lines,
    );
}

/// When an added line is inside a function call and the post-context
/// contains `});` (closing the call) followed by `}` (closing an outer
/// if/else block), the expansion should only account for the immediate
/// enclosing call's brackets, not the outer block's closer. Otherwise
/// it expands past the enclosing call into unrelated code above.
#[test]
fn expansion_stops_at_nearest_enclosing_call() {
    //  0: if (condition) {
    //  1:   await sendDeployRollbackEventStep(context, {
    //  2:     manuallyTriggered,
    //  3:     successfullyRolledBack: endState === 'rollback',
    //  4:     deployEndState: endState,
    //  5:     additionalEventTags: commitTags,
    //  6:   });
    //  7: } else {
    //  8:   await sendDeploySuccessEventStep(context, {
    //  9:     cluster: env,
    // 10:     service: 'web',
    // 11:     orchestrator: 'N/A',
    // 12:     branch,
    // 13:     additionalEventTags: commitTags,   <-- ADDED
    // 14:   });
    // 15: }
    // 16: if (endState === 'success') {
    let old_lines = vec![
        "if (condition) {",
        "  await sendDeployRollbackEventStep(context, {",
        "    manuallyTriggered,",
        "    successfullyRolledBack: endState === 'rollback',",
        "    deployEndState: endState,",
        "    additionalEventTags: commitTags,",
        "  });",
        "} else {",
        "  await sendDeploySuccessEventStep(context, {",
        "    cluster: env,",
        "    service: 'web',",
        "    orchestrator: 'N/A',",
        "    branch,",
        "  });",
        "}",
        "if (endState === 'success') {",
    ];
    let new_lines = vec![
        "if (condition) {",
        "  await sendDeployRollbackEventStep(context, {",
        "    manuallyTriggered,",
        "    successfullyRolledBack: endState === 'rollback',",
        "    deployEndState: endState,",
        "    additionalEventTags: commitTags,",
        "  });",
        "} else {",
        "  await sendDeploySuccessEventStep(context, {",
        "    cluster: env,",
        "    service: 'web',",
        "    orchestrator: 'N/A',",
        "    branch,",
        "    additionalEventTags: commitTags,",
        "  });",
        "}",
        "if (endState === 'success') {",
    ];

    // Added line at new-side index 13 (inside sendDeploySuccessEventStep)
    let chunk = vec![
        LineEntry {
            lhs: None,
            rhs: Some(side(13, vec![])),
        },
    ];

    // Hunk: insertion at new line 14, adding 1 line
    let hunks = vec![DiffHunk { old_start: 13, old_count: 0, new_start: 14, new_count: 1 }];
    let difft = make_difft(old_lines, new_lines, vec![chunk], hunks);

    let html = test_render_chunks(&difft, &[0], "test.ts", None);
    let rows = extract_rows(&html);

    let rendered_new_lines: Vec<u64> = rows.iter()
        .filter_map(|(_, _, n)| *n)
        .collect();

    let min_new = rendered_new_lines.iter().copied().min().unwrap_or(0);

    // The added line (display 14) is inside sendDeploySuccessEventStep
    // at display 9. Expansion should reach display 9 at most.
    // It should NOT go past "} else {" (display 8) into the rollback
    // call. The `}` at display 16 closes the if/else block, not the
    // function call, and shouldn't inflate the expansion.
    assert!(
        min_new >= 9,
        "Expansion went past the enclosing function call into the \
         rollback branch. Earliest rendered line is display {}, \
         expected >= 9.\n\
         Rendered new lines: {:?}",
        min_new, rendered_new_lines,
    );

    // Verify the enclosing call IS included
    assert!(
        rendered_new_lines.contains(&9),
        "Expected sendDeploySuccessEventStep call opener (display 9) \
         to be included.\n\
         Rendered new lines: {:?}",
        rendered_new_lines,
    );
}

/// Difft sometimes includes unchanged lines in a chunk when the
/// surrounding syntactic structure changed (e.g. a JSDoc comment grew
/// from 4 to 7 lines). The change spans cover the full line on both
/// sides (syntax highlighting), but the content is identical. These
/// should render as context rows, not as paired changes or separate
/// removed + added rows.
#[test]
fn identical_content_entries_render_as_context() {

    // Simulate a JSDoc comment that grew: old has `/**` through `*/`,
    // new has the same lines plus extra comment lines before `*/`.
    let old_lines: Vec<String> = vec![
        "/**",
        " * Calls workspace/create with structured config.",
        " * Bootstrap is idempotent.",
        " */",
        "async function bootstrap() {",
    ].into_iter().map(String::from).collect();
    let new_lines: Vec<String> = vec![
        "/**",
        " * Calls workspace/create with structured config.",
        " * Bootstrap is idempotent.",
        " *",
        " * Returns immediately; bootstrap runs async.",
        " */",
        "async function bootstrap() {",
    ].into_iter().map(String::from).collect();

    // Build a chunk that mirrors what difft produces: paired entries
    // for the identical lines (full-line change spans), plus added-only
    // entries for the new lines.
    let make_full_span = |line: &str| -> Vec<ChangeSpan> {
        vec![ChangeSpan {
            content: line.to_string(),
            start: 0,
            end: line.len(),
            highlight: "comment".to_string(),
        }]
    };

    let chunks = vec![vec![
        // Added-only entries for truly new comment lines
        LineEntry {
            lhs: None,
            rhs: Some(LineSide { line_number: 4, changes: make_full_span(" * Returns immediately; bootstrap runs async.") }),
        },
        LineEntry {
            lhs: None,
            rhs: Some(LineSide { line_number: 5, changes: make_full_span(" */") }),
        },
        // Paired entries with identical content (difft structural match)
        LineEntry {
            lhs: Some(LineSide { line_number: 0, changes: make_full_span("/**") }),
            rhs: Some(LineSide { line_number: 0, changes: make_full_span("/**") }),
        },
        LineEntry {
            lhs: Some(LineSide { line_number: 1, changes: make_full_span(" * Calls workspace/create with structured config.") }),
            rhs: Some(LineSide { line_number: 1, changes: make_full_span(" * Calls workspace/create with structured config.") }),
        },
        LineEntry {
            lhs: Some(LineSide { line_number: 2, changes: make_full_span(" * Bootstrap is idempotent.") }),
            rhs: Some(LineSide { line_number: 2, changes: make_full_span(" * Bootstrap is idempotent.") }),
        },
        // Paired entry where content actually differs
        // (" */" → " *", partial change on lhs only)
        LineEntry {
            lhs: Some(LineSide { line_number: 3, changes: vec![
                ChangeSpan { content: "/".to_string(), start: 2, end: 3, highlight: "comment".to_string() },
            ] }),
            rhs: Some(LineSide { line_number: 3, changes: vec![] }),
        },
    ]];

    let difft = DifftOutput {
        chunks,
        language: Some("TypeScript".to_string()),
        path: Some("test.ts".to_string()),
        status: None,
        old_lines,
        new_lines,
        hunks: vec![DiffHunk { old_start: 1, old_count: 5, new_start: 1, new_count: 7 }],
    };

    let mut hl = SyntaxHighlighter::new();
    let html = render_chunks(&difft, &[0], "test.ts", None, &mut hl, CollapseMode::Expanded).unwrap();
    let rows = extract_rows(&html);

    // Lines 0-2 (display 1-3) have identical content. They must render
    // as context, not as removed/added or paired changes.
    for display_ln in 1..=3u64 {
        let is_context = rows.iter().any(|(c, o, n)| {
            c == "line-context"
                && (*o == Some(display_ln) || *n == Some(display_ln))
        });
        let is_changed = rows.iter().any(|(c, o, n)| {
            c != "line-context" && c != "chunk-sep"
                && (*o == Some(display_ln) || *n == Some(display_ln))
        });
        assert!(
            is_context && !is_changed,
            "Identical-content line {} should be context, not changed.\nRows: {:?}",
            display_ln,
            rows.iter()
                .filter(|(_, o, n)| *o == Some(display_ln) || *n == Some(display_ln))
                .collect::<Vec<_>>(),
        );
    }

    // Line 4 (display) on the old side (` */`) should be changed since
    // it differs from new line 4 (` *`).
    let old_4_changed = rows.iter().any(|(c, o, _)| {
        c != "line-context" && c != "chunk-sep" && *o == Some(4)
    });
    assert!(old_4_changed, "Differing line old=4 should be changed, not context");
}

/// Runs the first pass and the markdown and placeholder passes of a render
/// over a walkthrough, with the given collected data.
fn render_body(md: &str, data: &Vec<DifftOutput>) -> String {
    let mut hl = SyntaxHighlighter::new();
    let (meta, content) = walkthrough::page::parse_frontmatter(md);
    let mut pass = walkthrough::pass::FirstPass::new(&meta);
    for line in content.lines() {
        assert!(pass.wants_file(line, data).is_none());
        assert!(pass.feed(line, data, None, &mut hl));
    }
    let html = walkthrough::finish::markdown_to_html(&pass.processed);
    walkthrough::finish::place_rendered_blocks(&html, &pass.blocks)
}

#[test]
fn relative_line_filter_via_run() {
    // Relative lines= in markdown get converted to absolute new-file lines
    // using the chunk's first new-file line.
    let old_lines: Vec<&str> = (0..130).map(|_| "old").collect();
    let new_lines: Vec<&str> = (0..130).map(|_| "new").collect();

    let chunk = vec![
        LineEntry { lhs: Some(side(100, vec![])), rhs: Some(side(100, vec![])) },
        LineEntry { lhs: Some(side(110, vec![])), rhs: Some(side(110, vec![])) },
        LineEntry { lhs: Some(side(120, vec![])), rhs: Some(side(120, vec![])) },
    ];

    let hunks = vec![
        DiffHunk { old_start: 101, old_count: 1, new_start: 101, new_count: 1 },
        DiffHunk { old_start: 111, old_count: 1, new_start: 111, new_count: 1 },
        DiffHunk { old_start: 121, old_count: 1, new_start: 121, new_count: 1 },
    ];
    let difft = make_difft(old_lines, new_lines, vec![chunk], hunks);
    let data = vec![difft];

    let html = render_body("# Test\n\n```difft test.ts chunks=0 lines=1-5\n```\n", &data);
    let rows = extract_rows(&html);
    let changed: Vec<_> = rows.iter().filter(|(c, _, _)| c == "line-paired").collect();
    assert_eq!(changed.len(), 1, "relative lines=1-5 should include only 1 changed line");
    assert_eq!(changed[0].2, Some(101), "should be new-side line 101 (1-based)");

    let html = render_body("# Test\n\n```difft test.ts chunks=0 lines=8-15\n```\n", &data);
    let rows = extract_rows(&html);
    let changed: Vec<_> = rows.iter().filter(|(c, _, _)| c == "line-paired").collect();
    assert_eq!(changed.len(), 1, "relative lines=8-15 should include only 1 changed line");
    assert_eq!(changed[0].2, Some(111), "should be new-side line 111 (1-based)");
}

#[test]
fn equal_pair_with_overlapping_spans_renders_as_context() {
    // Line 0 is unchanged but carries overlapping spans, which never get merged.
    let difft = make_difft(
        vec!["/**", "a"],
        vec!["/**", "b"],
        vec![vec![
            LineEntry {
                lhs: Some(side(0, vec![span("/**", 0, 3), span("*", 1, 2)])),
                rhs: Some(side(0, vec![span("/**", 0, 3), span("*", 1, 2)])),
            },
            LineEntry { lhs: Some(side(1, vec![span("a", 0, 1)])), rhs: Some(side(1, vec![span("b", 0, 1)])) },
        ]],
        vec![DiffHunk { old_start: 2, old_count: 1, new_start: 2, new_count: 1 }],
    );
    let html = test_render_chunks(&difft, &[0], "test.ts", None);
    let rows = extract_rows(&html);
    assert!(rows.iter().any(|(c, o, n)| c == "line-context" && *o == Some(1) && *n == Some(1)));
}

#[test]
fn unmergeable_spans_outside_the_filter_do_not_block_rendering() {
    // Line 0's spans overlap, but the filter keeps only line 1.
    let difft = make_difft(
        vec!["hello world", "a"],
        vec!["hello World", "b"],
        vec![vec![
            LineEntry {
                lhs: Some(side(0, vec![span("wor", 6, 9), span("o", 7, 8)])),
                rhs: Some(side(0, vec![span("Wor", 6, 9), span("o", 7, 8)])),
            },
            LineEntry { lhs: Some(side(1, vec![span("a", 0, 1)])), rhs: Some(side(1, vec![span("b", 0, 1)])) },
        ]],
        vec![DiffHunk { old_start: 1, old_count: 2, new_start: 1, new_count: 2 }],
    );
    let mut hl = SyntaxHighlighter::new();
    assert!(render_chunks(&difft, &[0], "test.ts", None, &mut hl, CollapseMode::Expanded).is_none());
    let html = test_render_chunks(&difft, &[0], "test.ts", Some((1, 1)));
    let rows = extract_rows(&html);
    assert!(rows.iter().any(|(c, _, n)| c != "line-context" && *n == Some(2)));
    assert!(!rows.iter().any(|(c, _, n)| c != "line-context" && *n == Some(1)));
}
