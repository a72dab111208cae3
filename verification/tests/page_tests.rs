use walkthrough::difft_json::{DiffHunk, DifftOutput, LineEntry, LineSide};
use walkthrough::finish::{
    add_coverage_badge, add_subtitle, anchor_headings, check_code_languages, highlight_code_blocks, markdown_to_html,
    place_rendered_blocks, render_page, render_service_badges,
};
use walkthrough::fits::{check_fits, check_renderable};
use walkthrough::page::{apply_folds, apply_notes, parse_folds, parse_frontmatter, parse_notes, Fold, MetaEntry, Note};
use walkthrough::pass::{find_data, render_src_block, render_src_text, resolve_line_filter, FirstPass, Mode};
use walkthrough::syntax::SyntaxHighlighter;

fn side(line: u64) -> LineSide {
    LineSide { line_number: line, changes: vec![] }
}

fn data_for(path: &str, old: Vec<&str>, new: Vec<&str>, chunks: Vec<Vec<LineEntry>>, hunks: Vec<DiffHunk>) -> DifftOutput {
    DifftOutput {
        chunks,
        language: None,
        path: Some(path.to_string()),
        status: Some("changed".to_string()),
        old_lines: old.into_iter().map(String::from).collect(),
        new_lines: new.into_iter().map(String::from).collect(),
        hunks,
    }
}

/// Two-line file with line 2 changed.
fn small_data() -> DifftOutput {
    data_for(
        "a.txt",
        vec!["one", "two", "three"],
        vec!["one", "TWO", "three"],
        vec![vec![LineEntry { lhs: Some(side(1)), rhs: Some(side(1)) }]],
        vec![DiffHunk { old_start: 2, old_count: 1, new_start: 2, new_count: 1 }],
    )
}

fn run_pass(md: &str, data: &Vec<DifftOutput>, disk: &[(&str, Vec<&str>)]) -> FirstPass {
    let mut hl = SyntaxHighlighter::new();
    let (meta, content) = parse_frontmatter(md);
    let mut pass = FirstPass::new(&meta);
    for line in content.lines() {
        let fs = pass.wants_file(line, data).and_then(|f| {
            disk.iter().find(|(p, _)| *p == f).map(|(_, ls)| ls.iter().map(|s| s.to_string()).collect())
        });
        assert!(pass.feed(line, data, fs, &mut hl), "line failed: {}", line);
    }
    pass
}

#[test]
fn frontmatter_is_repeated_in_enriched_markdown() {
    let (meta, content) = parse_frontmatter("---\npr: 123\nauthor: Jane\n---\n\n# T\n");
    assert_eq!(meta.len(), 2);
    assert_eq!(meta[0].key, "pr");
    assert_eq!(meta[0].value, "123");
    assert_eq!(meta[1].key, "author");
    assert_eq!(meta[1].value, "Jane");
    assert_eq!(content, "# T\n");
    let pass = FirstPass::new(&meta);
    assert_eq!(pass.enriched, "---\npr: 123\nauthor: Jane\n---\n\n");
    assert_eq!(pass.mode, Mode::Normal);
}

#[test]
fn later_frontmatter_key_replaces_earlier_value() {
    let (meta, _) = parse_frontmatter("---\npr: 1\nauthor: A\npr: 2\n---\nbody");
    assert_eq!(meta.len(), 2);
    assert_eq!(meta[0].key, "pr");
    assert_eq!(meta[0].value, "2");
}

#[test]
fn plain_lines_reach_both_outputs() {
    let pass = run_pass("# Title\n\nSome text.\n", &vec![], &[]);
    assert_eq!(pass.processed, "# Title\n\nSome text.\n");
    assert_eq!(pass.enriched, "# Title\n\nSome text.\n");
    assert!(pass.blocks.is_empty());
}

#[test]
fn reference_without_data_passes_its_fence_through() {
    let pass = run_pass("```difft missing.rs chunks=0\nbody\n```\nafter\n", &vec![], &[]);
    assert_eq!(pass.processed, "```difft missing.rs chunks=0\nafter\n");
    assert_eq!(pass.enriched, "```difft missing.rs chunks=0\nafter\n");
    assert!(pass.blocks.is_empty());
}

#[test]
fn diff_reference_becomes_placeholder_and_block() {
    let data = vec![small_data()];
    let pass = run_pass("Intro\n```difft a.txt chunks=0 generated\nold body\n```\nEnd\n", &data, &[]);
    assert_eq!(pass.processed, "Intro\n<!-- DIFF_PLACEHOLDER_0 -->\nEnd\n");
    assert_eq!(pass.blocks.len(), 1);
    assert!(pass.blocks[0].contains("data-collapse=\"hidden\""));
    assert_eq!(pass.referenced, vec![("a.txt".to_string(), 0)]);
    assert_eq!(pass.base_new, 1);
    assert_eq!(pass.base_old, 1);
    assert!(pass.enriched.starts_with("Intro\n```difft a.txt chunks=0 generated\n"));
    assert!(pass.enriched.ends_with("```\nEnd\n"));
    assert!(!pass.enriched.contains("old body"));
}

#[test]
fn source_excerpt_read_from_disk() {
    let pass = run_pass("```src lib.rs:2-3\n```\n", &vec![], &[("lib.rs", vec!["a", "b", "c"])]);
    assert_eq!(pass.processed, "<!-- DIFF_PLACEHOLDER_0 -->\n");
    assert_eq!(pass.enriched, "```src lib.rs:2-3\n   2 b\n   3 c\n```\n");
    assert_eq!(pass.base_new, 1);
    assert_eq!(pass.file, "lib.rs");
    assert!(pass.blocks[0].contains("<tr class=\"line-context\"><td class=\"ln\">2</td><td class=\"sign\"></td><td class=\"code\">"));
    assert!(pass.blocks[0].contains("<td class=\"ln\">3</td>"));
    assert!(!pass.blocks[0].contains("<td class=\"ln\">1</td>"));
}

#[test]
fn source_excerpt_without_file_passes_through() {
    let pass = run_pass("```src gone.rs:1-2\n```\n", &vec![], &[]);
    assert_eq!(pass.processed, "```src gone.rs:1-2\n");
    assert!(pass.blocks.is_empty());
}

#[test]
fn old_source_excerpt_is_labelled() {
    let data = vec![small_data()];
    let pass = run_pass("```src a.txt:2-2 old\n```\n", &data, &[]);
    assert!(pass.blocks[0].contains("a.txt (old)"));
    assert_eq!(pass.enriched, "```src a.txt:2-2 old\n   2 two\n```\n");
}

#[test]
fn src_block_rendering() {
    let h = vec!["x".to_string(), "y".to_string()];
    let html = render_src_block("f.rs", false, 2, 3, &h);
    assert_eq!(
        html,
        "<div class=\"diff-block\" data-collapse=\"none\"><div class=\"diff-header\"><span class=\"collapse-arrow\">\u{25B6}</span> f.rs\
<label class=\"viewed-label\"><input type=\"checkbox\" class=\"viewed-check\"><span>Viewed</span></label></div><div class=\"diff-body\">\
<table class=\"diff-table diff-single diff-add-only\"><colgroup><col class=\"ln-col\"><col class=\"sign-col\"><col class=\"code-col\"></colgroup><tbody>\
<tr class=\"line-context\"><td class=\"ln\">2</td><td class=\"sign\"></td><td class=\"code\">y</td></tr>\
<tr class=\"line-context\"><td class=\"ln\">3</td><td class=\"sign\"></td><td class=\"code\"></td></tr>\
</tbody></table></div></div>"
    );
    assert_eq!(render_src_text(9, 10, &h), "   9 \n  10 \n");
    assert_eq!(render_src_text(3, 2, &h), "");
}

#[test]
fn notes_annotate_the_latest_diff_block() {
    let data = vec![small_data()];
    let pass = run_pass("```difft a.txt chunks=0\n```\n```notes\n1: why \"this\"\n```\n", &data, &[]);
    assert_eq!(pass.mode, Mode::Normal);
    assert!(pass.blocks[0].contains("data-notes=\"why &quot;this&quot;\""));
    assert!(pass.blocks[0].contains("class=\"annotated "));
    assert!(pass.enriched.ends_with("```notes\n1: why \"this\"\n```\n"));
}

#[test]
fn notes_with_no_block_change_nothing() {
    let pass = run_pass("```notes\n1: x\n```\n", &vec![], &[]);
    assert!(pass.blocks.is_empty());
    assert_eq!(pass.processed, "");
    assert_eq!(pass.enriched, "```notes\n1: x\n```\n");
}

#[test]
fn folds_hide_rows_behind_a_summary() {
    let pass = run_pass(
        "```src lib.rs:1-3\n```\n```folds\n1-2: setup()\n```\n",
        &vec![],
        &[("lib.rs", vec!["let a = 1;", "let b = 2;", "let c = 3;"])],
    );
    let b = &pass.blocks[0];
    assert!(b.contains("<tr class=\"fold-summary fold-add\" data-fold-id=\"0\"><td class=\"ln fold-count\">2 lines</td>"));
    assert_eq!(b.matches("hidden=\"until-found\"").count(), 2);
    assert!(b.contains("class=\"fold-line line-context\" data-fold-id=\"0\" hidden=\"until-found\""));
}

#[test]
fn parse_notes_makes_lines_absolute() {
    let notes = parse_notes("2: first\n\n4-6: second\nnot a note\n", 10).unwrap();
    assert_eq!(notes.len(), 2);
    assert_eq!((notes[0].start, notes[0].end, notes[0].text.as_str()), (12, 12, "first"));
    assert_eq!((notes[1].start, notes[1].end, notes[1].text.as_str()), (14, 16, "second"));
    assert!(parse_notes("1: x\n", usize::MAX).is_none());
}

#[test]
fn parse_folds_reads_sides_and_continuations() {
    let folds = parse_folds("old 1-2: a\n3:\n    b\n    c\n", 100, 200).unwrap();
    assert_eq!(folds.len(), 2);
    assert_eq!((folds[0].start, folds[0].end, folds[0].old), (201, 202, true));
    assert_eq!(folds[0].text, "a");
    assert_eq!((folds[1].start, folds[1].end, folds[1].old), (103, 103, false));
    assert_eq!(folds[1].text, "    b\n    c");
}

#[test]
fn apply_notes_and_folds_directly() {
    let block = "<table><tr class=\"line-paired\" data-row-idx=\"0\"><td class=\"ln ln-lhs\">5</td></tr></table>";
    let notes = vec![Note { start: 5, end: 5, text: "n".to_string() }];
    assert_eq!(
        apply_notes(block, &notes),
        "<table><tr class=\"annotated line-paired\" data-row-idx=\"0\" data-notes=\"n\"><td class=\"ln ln-lhs\">5</td></tr></table>"
    );
    let mut hl = SyntaxHighlighter::new();
    let none: Vec<Fold> = vec![Fold { start: 9, end: 9, text: "x".to_string(), old: false }];
    assert_eq!(apply_folds(block, &none, false, "a.txt", &mut hl).unwrap(), block);
}

#[test]
fn line_filter_resolution() {
    let data = vec![small_data()];
    assert_eq!(resolve_line_filter(&data, "a.txt", "0", &Some("1-3".to_string())), Some(Some((1, 3))));
    assert_eq!(resolve_line_filter(&data, "a.txt", "0", &Some("1-x".to_string())), Some(None));
    assert_eq!(resolve_line_filter(&data, "b.txt", "0", &Some("1-3".to_string())), Some(None));
    assert_eq!(resolve_line_filter(&data, "a.txt", "0", &None), Some(None));
    let zero = vec![data_for("z", vec!["a"], vec!["a"], vec![vec![LineEntry { lhs: None, rhs: Some(side(0)) }]], vec![])];
    assert_eq!(resolve_line_filter(&zero, "z", "all", &Some("0-2".to_string())), None);
    assert_eq!(find_data(&data, "a.txt"), Some(0));
    assert_eq!(find_data(&data, "nope"), None);
}

#[test]
fn data_limits() {
    assert!(check_fits(&small_data()));
    assert!(check_renderable(&small_data()));
    let mut bad = small_data();
    bad.hunks.push(DiffHunk { old_start: 0x1000_0000, old_count: 0, new_start: 1, new_count: 0 });
    assert!(!check_fits(&bad));
}

#[test]
fn placeholders_are_replaced_by_blocks() {
    let html = "<p><!-- DIFF_PLACEHOLDER_0 --></p>\n<li><!-- DIFF_PLACEHOLDER_1 --></li>\n";
    let blocks = vec!["<div>A</div>".to_string(), "<div>B</div>".to_string()];
    assert_eq!(place_rendered_blocks(html, &blocks), "<div>A</div>\n<li><div>B</div></li>\n");
}

#[test]
fn markdown_renders_placeholder_paragraph() {
    let html = markdown_to_html("# T\n\n<!-- DIFF_PLACEHOLDER_0 -->\n");
    assert!(html.contains("<h1>T</h1>"));
    assert!(html.contains("<!-- DIFF_PLACEHOLDER_0 -->"));
}

#[test]
fn code_block_without_language_is_rejected() {
    assert!(check_code_languages("<pre><code class=\"language-rust\">x</code></pre>").is_ok());
    let err = check_code_languages("<p>a</p><pre><code>x &amp;&lt; y\nz</code></pre>").unwrap_err();
    assert_eq!(
        err,
        "Fenced code block without a language tag:\n\n  ```\n  x &< y...\n  ```\n\nAll code blocks must specify a language (e.g. ```typescript, ```rust, ```bash). Use ```plain for blocks with no syntax highlighting."
    );
    assert!(check_code_languages("<pre><code>a<b></code></pre>").is_ok());
}

#[test]
fn code_blocks_by_language() {
    let mut hl = SyntaxHighlighter::new();
    assert_eq!(
        highlight_code_blocks("<pre><code class=\"language-plain\">a &lt; b</code></pre>", &mut hl).unwrap(),
        "<pre><code>a &lt; b</code></pre>"
    );
    let unknown = "<pre><code class=\"language-zzz\">q</code></pre>";
    assert_eq!(highlight_code_blocks(unknown, &mut hl).unwrap(), unknown);
    let rust = highlight_code_blocks("<p>x</p><pre><code class=\"language-rust\">fn main() {}\nlet a = 1;\n</code></pre>", &mut hl).unwrap();
    assert!(rust.starts_with("<p>x</p><pre><code>"));
    assert!(rust.ends_with("</code></pre>"));
    assert!(rust.contains("<span"));
    assert!(!rust.contains("language-rust"));
}

#[test]
fn service_badges() {
    assert_eq!(render_service_badges("<code>@sboxd</code>"), "<span class=\"service-badge\">sboxd</span>");
    assert_eq!(render_service_badges("<code>\\@sboxd</code>"), "<code>@sboxd</code>");
    assert_eq!(render_service_badges("<code>@</code> <code>x</code>"), "<code>@</code> <code>x</code>");
}

#[test]
fn heading_anchors_and_title() {
    let (html, title) = anchor_headings("<h1>Hello <em>World</em>!</h1>\n<h2>A  B--c</h2>\n<h3>x\ny</h3>");
    assert_eq!(
        html,
        "<h1 id=\"hello-world\">Hello <em>World</em>!</h1>\n<h2 id=\"a-b-c\">A  B--c</h2>\n<h3>x\ny</h3>"
    );
    assert_eq!(title, "Hello World!");
    let (_, t2) = anchor_headings("<h2>Only</h2>");
    assert_eq!(t2, "Walkthrough");
}

#[test]
fn coverage_badge_pass_and_fail() {
    let mut two = small_data();
    two.chunks.push(vec![LineEntry { lhs: None, rhs: Some(side(2)) }]);
    let data = vec![two];
    let all = vec![("a.txt".to_string(), 0), ("a.txt".to_string(), 1)];
    assert_eq!(
        add_coverage_badge("<h1>T</h1>rest", &data, &all, ""),
        "<h1>T</h1>\n<div class=\"coverage-badge pass\">\u{2705} All 2 chunks across 1 files are present</div>rest"
    );
    let some = vec![("a.txt".to_string(), 1)];
    assert_eq!(
        add_coverage_badge("<h1>T</h1>", &data, &some, "HEAD~1..HEAD"),
        "<h1>T</h1>\n<div class=\"coverage-badge fail\">\u{274c} 1 uncovered chunks (out of 2 across 1 files in <code>HEAD~1..HEAD</code>)</div>"
    );
    assert_eq!(add_coverage_badge("<h1>T</h1>", &vec![], &some, ""), "<h1>T</h1>");
}

#[test]
fn subtitle_from_frontmatter() {
    let meta = vec![
        MetaEntry { key: "team".to_string(), value: "a<b".to_string() },
        MetaEntry { key: "pr".to_string(), value: "https://github.com/o/r/pull/711".to_string() },
        MetaEntry { key: "author".to_string(), value: "Jane".to_string() },
        MetaEntry { key: "empty".to_string(), value: "".to_string() },
    ];
    assert_eq!(
        add_subtitle("<h1>T</h1>", &meta),
        "<h1>T<span class=\"subtitle\"><a href=\"https://github.com/o/r/pull/711\">#711</a> \u{b7} Jane \u{b7} team: a&lt;b</span></h1>"
    );
    let hash = vec![MetaEntry { key: "pr".to_string(), value: "#42".to_string() }];
    assert_eq!(add_subtitle("<h1>T</h1>", &hash), "<h1>T<span class=\"subtitle\">#42</span></h1>");
    assert_eq!(add_subtitle("<h1>T</h1>", &vec![]), "<h1>T</h1>");
}

#[test]
fn page_template() {
    let page = render_page("A & B", "<p>x</p>", "body{}", "go();");
    assert!(page.starts_with("<!DOCTYPE html>\n<html lang=\"en\">\n<head>\n"));
    assert!(page.contains("<title>A &amp; B</title>\n<style>\nbody{}\n</style>"));
    assert!(page.ends_with("<article>\n<p>x</p>\n</article>\n<script>\ngo();\n</script>\n</body>\n</html>"));
}

#[test]
fn earlier_blocks_are_never_rewritten() {
    let data = vec![small_data()];
    let first = run_pass("```difft a.txt chunks=0\n```\n", &data, &[]);
    let both = run_pass("```difft a.txt chunks=0\n```\n```src a.txt:1-2\n```\n```notes\n1: n\n```\n", &data, &[]);
    assert_eq!(both.blocks.len(), 2);
    assert_eq!(both.blocks[0], first.blocks[0]);
    assert!(both.processed.starts_with(&first.processed));
    assert!(both.processed.contains("<!-- DIFF_PLACEHOLDER_0 -->"));
    assert!(both.processed.contains("<!-- DIFF_PLACEHOLDER_1 -->"));
}

#[test]
fn disk_lines_matter_only_when_asked() {
    let data = vec![small_data()];
    let mut hl = SyntaxHighlighter::new();
    let line = "```src a.txt:1-1";
    let mut a = FirstPass::new(&vec![]);
    let mut b = FirstPass::new(&vec![]);
    assert!(a.wants_file(line, &data).is_none());
    assert!(a.feed(line, &data, None, &mut hl));
    assert!(b.feed(line, &data, Some(vec!["other".to_string()]), &mut hl));
    assert_eq!(a.blocks, b.blocks);
    assert_eq!(a.enriched, b.enriched);
    assert_eq!(FirstPass::new(&vec![]).wants_file("```src b.rs:1-2", &data), Some("b.rs".to_string()));
}

#[test]
fn anchors_have_clean_dashes() {
    let (html, _) = anchor_headings("<h2>--Hello, World!--</h2>");
    assert_eq!(html, "<h2 id=\"hello-world\">--Hello, World!--</h2>");
    let (html, _) = anchor_headings("<h3>!!!</h3>");
    assert_eq!(html, "<h3 id=\"\">!!!</h3>");
}

#[test]
fn deleted_files_start_collapsed() {
    let mut d = small_data();
    d.status = Some("deleted".to_string());
    let pass = run_pass("```difft a.txt chunks=all\n```\n", &vec![d.clone()], &[]);
    assert!(pass.blocks[0].contains("data-collapse=\"searchable\""));
    let pass = run_pass("```difft a.txt chunks=all generated\n```\n", &vec![d], &[]);
    assert!(pass.blocks[0].contains("data-collapse=\"hidden\""));
    let pass = run_pass("```difft a.txt chunks=all\n```\n", &vec![small_data()], &[]);
    assert!(pass.blocks[0].contains("data-collapse=\"none\""));
}
