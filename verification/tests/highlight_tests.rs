use walkthrough::context::{bracket_balance, expand_context_for_expressions, MAX_EXPRESSION_CONTEXT};
use walkthrough::coverage::format_ranges;
use walkthrough::difft_json::{ChangeSpan, DiffHunk, DifftOutput, LineEntry, LineSide};
use walkthrough::textdiff::render_chunks_text;
use walkthrough::highlight::{
    find_change_bounds, insert_diff_highlight, insert_diff_highlights, merge_whitespace_spans, spans_cover_full_line,
};
use walkthrough::gaps::hunk_gap_lines;
use walkthrough::linemap::{new_to_old_line, old_to_new_line};
use walkthrough::publish::{poll_step, PollAction, DEPLOY_ATTEMPTS};
use walkthrough::rows::{consolidate_chunk, fix_reorders, longest_common_subsequence, DiffRow};

#[test]
fn old_line_before_pure_insertion_is_unchanged() {
    // "@@ -2,0 +3 @@": new line 3 is inserted after old line 2.
    let hunks = vec![DiffHunk { old_start: 2, old_count: 0, new_start: 3, new_count: 1 }];
    assert_eq!(old_to_new_line(2, &hunks), 2);
    assert_eq!(old_to_new_line(1, &hunks), 1);
    assert_eq!(old_to_new_line(3, &hunks), 4);
}

#[test]
fn new_line_before_pure_deletion_is_unchanged() {
    // "@@ -3 +2,0 @@": old line 3 is deleted after new line 2.
    let hunks = vec![DiffHunk { old_start: 3, old_count: 1, new_start: 2, new_count: 0 }];
    assert_eq!(new_to_old_line(2, &hunks), 2);
    assert_eq!(new_to_old_line(3, &hunks), 4);
}

#[test]
fn lines_between_hunks_keep_running_offset() {
    let hunks = vec![
        DiffHunk { old_start: 2, old_count: 1, new_start: 2, new_count: 3 },
        DiffHunk { old_start: 10, old_count: 2, new_start: 12, new_count: 1 },
    ];
    assert_eq!(old_to_new_line(5, &hunks), 7);
    assert_eq!(new_to_old_line(7, &hunks), 5);
    assert_eq!(old_to_new_line(20, &hunks), 21);
    assert_eq!(new_to_old_line(21, &hunks), 20);
}

#[test]
fn spans_with_a_gap_do_not_cover_the_line() {
    assert!(!spans_cover_full_line(&[(0, 3), (8, 11)], "foo bar baz"));
    assert!(spans_cover_full_line(&[(0, 11)], "foo bar baz"));
    assert!(spans_cover_full_line(&[(0, 3), (4, 11)], "foo bar baz"));
    assert!(spans_cover_full_line(&[(2, 5)], "  foo  "));
    assert!(!spans_cover_full_line(&[], "foo"));
}

#[test]
fn multi_byte_character_is_kept_whole() {
    assert_eq!(
        insert_diff_highlights("é<b>x</b>", &[(0, 2)], "hl-add"),
        "<span class=\"hl-add\">é</span><b>x</b>"
    );
    assert_eq!(insert_diff_highlight("aé b", 1, 3, "hl-del"), "a<span class=\"hl-del\">é</span> b");
    assert_eq!(
        insert_diff_highlights("&lt;é", &[(1, 3)], "hl-add"),
        "&lt;<span class=\"hl-add\">é</span>"
    );
}

#[test]
fn only_span_tags_are_inserted() {
    let html = "<span style=\"color:#db1522\">fn</span> caf\u{e9}(&amp;x)";
    let out = insert_diff_highlights(html, &[(0, 2), (4, 8)], "hl-add");
    let strip = |s: &str| {
        let mut r = String::new();
        let mut in_tag = false;
        for c in s.chars() {
            if c == '<' {
                in_tag = true;
            } else if c == '>' && in_tag {
                in_tag = false;
            } else if !in_tag {
                r.push(c);
            }
        }
        r
    };
    assert_eq!(strip(&out), strip(html));
    assert!(out.contains("caf\u{e9}") || out.contains("\u{e9}"));
    assert_eq!(insert_diff_highlights(html, &[], "hl-add"), html);
}

#[test]
fn bracket_balance_adds_up() {
    assert_eq!(bracket_balance("f(a, [b]) {"), 1);
    assert_eq!(bracket_balance("(()") + bracket_balance(")]"), bracket_balance("(())]"));
    assert_eq!(bracket_balance("(())]"), -1);
}

#[test]
fn change_bounds_trim_common_prefix_and_suffix() {
    assert_eq!(find_change_bounds("let x = 1;", "let y = 1;"), (4, 5, 4, 5));
    assert_eq!(find_change_bounds("abc", "abc"), (3, 3, 3, 3));
    assert_eq!(find_change_bounds("ab", "abcd"), (2, 2, 2, 4));
}

fn span(start: usize, end: usize) -> ChangeSpan {
    ChangeSpan { content: String::new(), highlight: String::new(), start, end }
}

#[test]
fn merged_spans_stay_apart_only_across_identifier_bytes() {
    assert_eq!(merge_whitespace_spans(&[span(0, 3), span(4, 7)], "foo bar"), vec![(0, 7)]);
    assert_eq!(merge_whitespace_spans(&[span(4, 7), span(0, 3)], "foo.bar"), vec![(0, 7)]);
    assert_eq!(merge_whitespace_spans(&[span(0, 3), span(4, 7)], "fooxbar"), vec![(0, 3), (4, 7)]);
}

#[test]
fn lcs_is_longest() {
    assert_eq!(longest_common_subsequence(&["a", "b", "c", "d"], &["b", "x", "d"]), vec![(1, 0), (3, 2)]);
    assert_eq!(longest_common_subsequence(&["a", "b"], &["c"]), vec![]);
}

#[test]
fn consolidation_keeps_side_order() {
    let side = |n: u64| Some(LineSide { line_number: n, changes: vec![] });
    let entries = vec![
        LineEntry { lhs: side(0), rhs: None },
        LineEntry { lhs: side(1), rhs: None },
        LineEntry { lhs: None, rhs: side(0) },
        LineEntry { lhs: side(2), rhs: side(1) },
        LineEntry { lhs: None, rhs: side(2) },
    ];
    let rows = consolidate_chunk(&entries);
    let olds: Vec<u64> = rows.iter().filter_map(|r| r.lhs.map(|s| s.line_number)).collect();
    let news: Vec<u64> = rows.iter().filter_map(|r| r.rhs.map(|s| s.line_number)).collect();
    assert_eq!(olds, vec![0, 1, 2]);
    assert_eq!(news, vec![0, 1, 2]);
    assert_eq!(rows.len(), 4);
    assert_eq!(rows[0].lhs.map(|s| s.line_number), Some(0));
    assert_eq!(rows[0].rhs.map(|s| s.line_number), Some(0));
    assert!(rows[1].rhs.is_none());
}

#[test]
fn repairing_rows_keeps_new_sides_in_order() {
    let l0 = LineSide { line_number: 0, changes: vec![] };
    let l1 = LineSide { line_number: 1, changes: vec![] };
    let r0 = LineSide { line_number: 0, changes: vec![] };
    let r1 = LineSide { line_number: 1, changes: vec![] };
    let old_lines = vec!["x".to_string(), "y".to_string()];
    let new_lines = vec!["y".to_string(), "z".to_string()];
    let rows = vec![
        DiffRow { lhs: Some(&l0), rhs: Some(&r0) },
        DiffRow { lhs: Some(&l1), rhs: Some(&r1) },
    ];
    let fixed = fix_reorders(rows, &old_lines, &new_lines);
    let view: Vec<(Option<u64>, Option<u64>)> =
        fixed.iter().map(|r| (r.lhs.map(|s| s.line_number), r.rhs.map(|s| s.line_number))).collect();
    assert_eq!(view, vec![(Some(0), None), (Some(1), Some(0)), (None, Some(1))]);
    let mut olds: Vec<u64> = fixed.iter().filter_map(|r| r.lhs.map(|s| s.line_number)).collect();
    olds.sort();
    assert_eq!(olds, vec![0, 1]);
}

#[test]
fn expansion_stays_within_its_limit() {
    let lines: Vec<String> = ["call(", "  x,", ")", "y"].iter().map(|s| s.to_string()).collect();
    assert_eq!(expand_context_for_expressions(&lines, 1, 1, 1, 3), (0, 3));
    let mut long: Vec<String> = vec!["open(".to_string()];
    for _ in 0..20 {
        long.push("  x,".to_string());
    }
    long.push(")".to_string());
    let n = long.len();
    let (b, a) = expand_context_for_expressions(&long, n - 2, n - 1, n - 1, n);
    assert!(b + MAX_EXPRESSION_CONTEXT >= n - 2 && b <= n - 2);
    assert!(a >= n && a <= n + MAX_EXPRESSION_CONTEXT);
    assert_eq!((b, a), (n - 2, n));
}

#[test]
fn gap_lines_pair_by_content() {
    let side = |n: u64| Some(LineSide { line_number: n, changes: vec![] });
    let chunk = vec![LineEntry { lhs: side(0), rhs: side(0) }];
    let hunks = vec![DiffHunk { old_start: 1, old_count: 3, new_start: 1, new_count: 3 }];
    let old_lines: Vec<String> = ["a", "  foo()", "bar"].iter().map(|s| s.to_string()).collect();
    let new_lines: Vec<String> = ["A", "baz", "foo()"].iter().map(|s| s.to_string()).collect();
    let (pairs, removed, added) = hunk_gap_lines(&chunk, &hunks, 0, 0, 0, 0, &old_lines, &new_lines);
    assert_eq!(pairs, vec![(1, 2)]);
    assert_eq!(removed, vec![2]);
    assert_eq!(added, vec![1]);
}

#[test]
fn text_ignores_missing_chunk_indices() {
    let side = |n: u64| Some(LineSide { line_number: n, changes: vec![] });
    let difft = DifftOutput {
        chunks: vec![vec![LineEntry { lhs: side(1), rhs: side(1) }]],
        language: None,
        path: Some("a.ts".to_string()),
        status: Some("changed".to_string()),
        old_lines: vec!["x".to_string(), "old".to_string(), "y".to_string()],
        new_lines: vec!["x".to_string(), "new".to_string(), "y".to_string()],
        hunks: vec![DiffHunk { old_start: 2, old_count: 1, new_start: 2, new_count: 1 }],
    };
    let plain = render_chunks_text(&difft, &[0], None);
    assert!(!plain.is_empty());
    assert_eq!(render_chunks_text(&difft, &[5, 0, 9], None), plain);
    assert_eq!(render_chunks_text(&difft, &[7], None), "");
}

#[test]
fn range_groups_are_maximal_runs() {
    assert_eq!(format_ranges(&[1, 2, 3, 5, 7, 8]), "1-3,5,7-8");
    assert_eq!(format_ranges(&[4, 4, 5]), "4-5");
}

#[test]
fn old_lines_round_trip_between_consistent_hunks() {
    let hunks = vec![
        DiffHunk { old_start: 2, old_count: 0, new_start: 3, new_count: 1 },
        DiffHunk { old_start: 5, old_count: 1, new_start: 6, new_count: 2 },
    ];
    for o in [1u64, 2, 3, 4, 7, 10] {
        let n = old_to_new_line(o, &hunks);
        assert_eq!(new_to_old_line(n, &hunks), o);
    }
    assert_eq!(old_to_new_line(4, &hunks), 5);
    assert_eq!(old_to_new_line(7, &hunks), 9);
}

#[test]
fn consolidated_rows_are_never_empty() {
    let side = |n: u64| Some(LineSide { line_number: n, changes: vec![] });
    let entries = vec![
        LineEntry { lhs: None, rhs: None },
        LineEntry { lhs: side(0), rhs: side(0) },
        LineEntry { lhs: None, rhs: side(1) },
    ];
    let rows = consolidate_chunk(&entries);
    assert_eq!(rows.len(), 2);
    assert!(rows.iter().all(|r| r.lhs.is_some() || r.rhs.is_some()));
}

#[test]
fn deploy_polling_decisions() {
    assert_eq!(poll_step(1, true), PollAction::Published);
    assert_eq!(poll_step(1, false), PollAction::Retry);
    assert_eq!(poll_step(29, false), PollAction::Retry);
    assert_eq!(poll_step(DEPLOY_ATTEMPTS, false), PollAction::GiveUp);
}
