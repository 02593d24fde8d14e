use mdopen::listing::{build_listing, sort_entries, FileEntry};
use mdopen::markdown::{to_html, AppConfig};
use mdopen::query::SortOrder;

fn entry(name: &str, ts: u64, is_dir: bool) -> FileEntry {
    FileEntry { name: name.to_string(), modified_ts: ts, is_dir }
}

fn sample() -> Vec<FileEntry> {
    vec![
        entry("b.md", 200, false),
        entry("A.md", 100, false),
        entry("c", 200, true),
        entry("a.md", 300, false),
    ]
}

fn names(order: SortOrder) -> Vec<String> {
    let l = build_listing("docs", &sample(), order);
    l.files.into_iter().map(|f| f.name).collect()
}

#[test]
fn listing_by_name_ascending_is_case_insensitive_and_stable() {
    assert_eq!(names(SortOrder::NameAsc), vec!["A.md", "a.md", "b.md", "c"]);
}

#[test]
fn listing_by_name_descending_keeps_ties_in_order() {
    assert_eq!(names(SortOrder::NameDesc), vec!["c", "b.md", "A.md", "a.md"]);
}

#[test]
fn listing_by_time() {
    assert_eq!(names(SortOrder::TimeAsc), vec!["A.md", "b.md", "c", "a.md"]);
    assert_eq!(names(SortOrder::TimeDesc), vec!["a.md", "b.md", "c", "A.md"]);
}

#[test]
fn sort_entries_is_a_permutation() {
    let p = sort_entries(&sample(), SortOrder::TimeDesc);
    assert_eq!(p, vec![3, 0, 2, 1]);
}

#[test]
fn listing_rows_and_links() {
    let l = build_listing("docs/sub", &sample(), SortOrder::NameAsc);
    let first = &l.files[0];
    assert_eq!(first.name, "A.md");
    assert_eq!(first.path, "docs/sub/A.md");
    assert_eq!(first.modified, "1970-01-01 00:01");
    assert_eq!(first.modified_ts, 100);
    assert!(!first.is_dir);
    assert!(l.files[3].is_dir);
    assert_eq!(l.current_sort, "name");
    assert_eq!(l.name_next_sort, "name_desc");
    assert_eq!(l.time_next_sort, "time");
    let crumbs: Vec<(String, String)> =
        l.breadcrumbs.into_iter().map(|c| (c.name, c.path)).collect();
    assert_eq!(
        crumbs,
        vec![("docs".to_string(), "docs".to_string()), ("sub".to_string(), "docs/sub".to_string())]
    );
}

#[test]
fn listing_of_root_links_names_directly() {
    let l = build_listing("", &sample(), SortOrder::NameAsc);
    assert_eq!(l.files[0].path, "A.md");
    assert!(l.breadcrumbs.is_empty());
}

#[test]
fn empty_listing() {
    let l = build_listing("x", &Vec::new(), SortOrder::TimeDesc);
    assert!(l.files.is_empty());
    assert_eq!(l.current_sort, "time");
    assert_eq!(l.time_next_sort, "time_asc");
}

fn config(mermaid: bool) -> AppConfig {
    AppConfig {
        enable_mermaid: mermaid,
        enable_latex: false,
        enable_reload: false,
        enable_syntax_highlight: false,
    }
}

#[test]
fn heading_gets_anchor() {
    let html = to_html("# Hello World\n\ntext", &config(false));
    assert_eq!(
        html,
        "<h1><a id=\"hello-world\" class=\"anchor\" href=\"#hello-world\"><span class=\"octicon octicon-link\"></span></a>Hello World</h1>\n<p>text</p>\n"
    );
}

#[test]
fn mermaid_block_becomes_diagram() {
    let html = to_html("```mermaid\ngraph TD; A-->B\n```\n", &config(true));
    assert_eq!(html, "<pre class=\"mermaid\">graph TD; A--&gt;B\n</pre>");
}

#[test]
fn mermaid_block_stays_code_when_disabled() {
    let html = to_html("```mermaid\ngraph TD; A-->B\n```\n", &config(false));
    assert_eq!(html, "<pre><code class=\"language-mermaid\">graph TD; A--&gt;B\n</code></pre>\n");
}

#[test]
fn other_code_blocks_untouched() {
    let html = to_html("```rust\nlet x = 1;\n```\n", &config(true));
    assert_eq!(html, "<pre><code class=\"language-rust\">let x = 1;\n</code></pre>\n");
}

#[test]
fn plain_document_renders_as_parsed() {
    let html = to_html("Some *emphasis* and ~~strike~~.\n\n| a | b |\n|---|---|\n| 1 | 2 |\n", &config(true));
    assert!(html.starts_with("<p>Some <em>emphasis</em> and <del>strike</del>.</p>\n<table>"));
}

#[test]
fn smart_punctuation_enabled() {
    let html = to_html("\"quoted\" -- dash", &config(false));
    assert_eq!(html, "<p>\u{201c}quoted\u{201d} \u{2013} dash</p>\n");
}

#[test]
fn mermaid_document_with_japanese_headings() {
    let md = "## フローチャート\n\n```mermaid\nflowchart TD\n    A[開始] --> B{条件分岐}\n```\n";
    let html = to_html(md, &config(true));
    assert_eq!(
        html,
        "<h2><a id=\"フローチャート\" class=\"anchor\" href=\"#フローチャート\"><span class=\"octicon octicon-link\"></span></a>フローチャート</h2>\n<pre class=\"mermaid\">flowchart TD\n    A[開始] --&gt; B{条件分岐}\n</pre>"
    );
}

#[test]
fn heading_text_is_written_as_it_stands() {
    let html = to_html("# a &lt; b", &config(false));
    assert_eq!(
        html,
        "<h1><a id=\"a--b\" class=\"anchor\" href=\"#a--b\"><span class=\"octicon octicon-link\"></span></a>a < b</h1>\n"
    );
}

use mdopen::listing::sort_by_keys;
use mdopen::markdown::{rewrite_events, Emit, EventKind};

fn ev(kind: EventKind, text: &str) -> (EventKind, String) {
    (kind, text.to_string())
}

fn describe(out: &[Emit]) -> Vec<String> {
    out.iter()
        .map(|e| match e {
            Emit::Keep(i) => format!("keep {}", i),
            Emit::Html(s) => format!("html {}", s),
        })
        .collect()
}

#[test]
fn rewrite_turns_mermaid_into_diagram() {
    let evs = vec![
        ev(EventKind::FenceStart, "mermaid"),
        ev(EventKind::Text, "a --> b"),
        ev(EventKind::CodeBlockEnd, ""),
        ev(EventKind::Other, ""),
    ];
    assert_eq!(
        describe(&rewrite_events(&evs, true)),
        vec!["html <pre class=\"mermaid\">a --&gt; b</pre>", "keep 3"]
    );
    assert_eq!(describe(&rewrite_events(&evs, false)), vec!["keep 0", "keep 1", "keep 2", "keep 3"]);
}

#[test]
fn rewrite_anchors_heading_text_only() {
    let evs = vec![
        ev(EventKind::HeadingStart, ""),
        ev(EventKind::Text, "Intro Part"),
        ev(EventKind::HeadingEnd, ""),
        ev(EventKind::Text, "body"),
    ];
    assert_eq!(
        describe(&rewrite_events(&evs, true)),
        vec![
            "keep 0",
            "html <a id=\"intro-part\" class=\"anchor\" href=\"#intro-part\"><span class=\"octicon octicon-link\"></span></a>Intro Part",
            "keep 2",
            "keep 3",
        ]
    );
}

#[test]
fn rewrite_other_fences_untouched() {
    let evs = vec![
        ev(EventKind::FenceStart, "rust"),
        ev(EventKind::Text, "fn main() {}"),
        ev(EventKind::CodeBlockEnd, ""),
    ];
    assert_eq!(describe(&rewrite_events(&evs, true)), vec!["keep 0", "keep 1", "keep 2"]);
}

#[test]
fn sort_by_given_keys() {
    let names: Vec<String> = vec!["b".into(), "a".into(), "b".into(), "ab".into()];
    let times = vec![5, 7, 5, 1];
    assert_eq!(sort_by_keys(&names, &times, SortOrder::NameAsc), vec![1, 3, 0, 2]);
    assert_eq!(sort_by_keys(&names, &times, SortOrder::NameDesc), vec![0, 2, 3, 1]);
    assert_eq!(sort_by_keys(&names, &times, SortOrder::TimeAsc), vec![3, 0, 2, 1]);
    assert_eq!(sort_by_keys(&names, &times, SortOrder::TimeDesc), vec![1, 0, 2, 3]);
}
