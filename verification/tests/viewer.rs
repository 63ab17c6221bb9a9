use topo::highlight::{add_highlighted_lines, highlighted_lines, show_lines};
use topo::paths::extension;
use topo::page::viewer_template;
use topo::viewer::{escape_html, replace_text, response_head, route, source_lines, validate_report, viewer_html, Route};

#[test]
fn viewer_has_tree_and_detail_structure() {
    let page = viewer_template();
    assert!(page.contains("<title>TOPO</title>"));
    assert!(page.contains("id=\"topography\""));
    assert!(page.contains("drawContours"));
    assert!(page.contains("stitchSegments"));
    assert!(page.contains("quadraticCurveTo"));
    assert!(page.contains("relaxPoints"));
    assert!(page.contains("context.lineJoin = 'round'"));
    assert!(page.contains("context.lineCap = 'round'"));
    assert!(page.contains("prefers-reduced-motion"));
    assert!(page.contains("<h1 class=\"brand\">TOPO</h1>"));
    assert!(page.contains("id=\"tree\""));
    assert!(page.contains("id=\"detail\""));
    assert!(page.contains("data-filter=\"paths\">Paths"));
    assert!(page.contains("data-filter=\"content\">Content"));
    assert!(page.contains("new URLSearchParams(window.location.search)"));
    assert!(page.contains("history.replaceState"));
    assert!(page.contains("id=\"tree-control\""));
    assert!(page.contains("id=\"resize-handle\""));
    assert!(page.contains("id=\"sidebar-toggle\""));
    assert!(page.contains("localStorage.setItem(SIDEBAR_WIDTH_KEY"));
    assert!(page.contains("SIDEBAR_COLLAPSED_KEY"));
    assert!(page.contains("event.key !== '/'"));
    assert!(page.contains("state.expanded"));
    assert!(page.contains("highlighted_lines"));
    assert!(page.contains("code-gap"));
    assert!(page.contains("path_match_ranges"));
    assert!(page.contains("inline-match"));
    assert!(page.contains("restoreSourceAnchor"));
    assert!(!page.contains('◆'));
    assert!(viewer_html(Some("/Users/test")).contains(r#"const HOME_DIRECTORY = "/Users/test";"#));
}

#[test]
fn viewer_dispatches_legacy_maps_and_correlation_reports() {
    assert!(validate_report(None, Some(7)).is_ok());
    assert!(validate_report(Some("topo_correlation".to_owned()), Some(1)).is_ok());
    assert!(validate_report(Some("unknown".to_owned()), Some(1)).is_err());
    let page = viewer_template();
    assert!(page.contains("renderCorrelationDetail"));
    assert!(page.contains(r"['old_only', 'new_only'].includes(classification) ? '\u00a0' : ' '"));
    assert!(page.contains("classificationLabel(file.classification)"));
    assert!(page.contains("classificationLabel(entry.classification)"));
    assert!(page.contains("expandedRenamePaths"));
    assert!(page.contains("shared_context"));
}

#[test]
fn viewer_refuses_reports_it_cannot_read() {
    assert_eq!(validate_report(None, None).unwrap_err(), "report is missing a numeric format_version");
    assert_eq!(validate_report(None, Some(8)).unwrap_err(), "unsupported topo_map format version 8");
    assert_eq!(
        validate_report(Some("topo_correlation".to_owned()), Some(2)).unwrap_err(),
        "unsupported topo_correlation format version 2"
    );
    assert_eq!(
        validate_report(Some("unknown".to_owned()), Some(1)).unwrap_err(),
        "unsupported report type `unknown`"
    );
}

#[test]
fn viewer_page_without_home_says_null() {
    assert!(viewer_html(None).contains("const HOME_DIRECTORY = null;"));
    assert!(!viewer_html(None).contains("__TOPO_HOME__"));
}

#[test]
fn html_text_is_escaped() {
    assert_eq!(escape_html("<a href=\"x\">Tom & 'Jerry'</a>"), "&lt;a href=&quot;x&quot;&gt;Tom &amp; &#39;Jerry&#39;&lt;/a&gt;");
    assert_eq!(escape_html("plain"), "plain");
}

#[test]
fn source_lines_follow_line_feeds() {
    assert_eq!(source_lines(""), vec![String::new()]);
    assert_eq!(source_lines("class Report\n  def call\n  end\nend\n").len(), 4);
    assert_eq!(source_lines("a\r\n\nb"), vec!["a".to_owned(), String::new(), "b".to_owned()]);
}

#[test]
fn requests_are_routed_by_path() {
    assert_eq!(route("GET / HTTP/1.1\r\n"), Route::Page);
    assert_eq!(route("GET /report.json?x=1 HTTP/1.1\r\n"), Route::Report);
    assert_eq!(route("GET  /favicon.ico HTTP/1.1"), Route::Icon);
    assert_eq!(route("GET /other HTTP/1.1"), Route::Missing);
    assert_eq!(route(""), Route::Page);
}

#[test]
fn responses_have_a_plain_head() {
    assert_eq!(
        response_head("200 OK", "application/json", 12),
        "HTTP/1.1 200 OK\r\nContent-Type: application/json\r\nContent-Length: 12\r\nConnection: close\r\n\r\n"
    );
    assert_eq!(replace_text("a-X-b-X", "X", "yy"), "a-yy-b-yy");
}

#[test]
fn viewer_adds_highlighted_ruby_lines_to_source_files() {
    let files = vec![("app/report.rb".to_string(), Some("class Report\n  def call\n  end\nend\n".to_string()))];

    let highlighted = add_highlighted_lines(&files);

    let lines = highlighted[0].as_ref().unwrap();
    assert_eq!(lines.len(), 4);
    assert!(lines[0].contains("class"));
}

#[test]
fn files_without_content_get_no_highlighting() {
    let files = vec![
        ("a.rs".to_string(), None),
        ("b.txt".to_string(), Some(String::new())),
    ];
    let highlighted = add_highlighted_lines(&files);
    assert_eq!(highlighted.len(), 2);
    assert!(highlighted[0].is_none());
    assert_eq!(highlighted[1].as_ref().unwrap().len(), 1);
}

#[test]
fn highlighting_changes_the_source_text() {
    let lines = highlighted_lines("fn main() {}\n", "src/main.rs");
    assert_eq!(lines.len(), 1);
    assert_ne!(lines[0], "fn main() {}");
    assert!(lines[0].contains("<span"));
}

#[test]
fn unhighlighted_lines_are_escaped() {
    let lines = vec!["a<b".to_string(), "ok".to_string()];
    let shown = show_lines(&lines, &vec![None, Some("<b>ok</b>".to_string())]);
    assert_eq!(shown, vec!["a&lt;b".to_string(), "<b>ok</b>".to_string()]);
}

#[test]
fn extensions_follow_the_last_dot_of_the_file_name() {
    assert_eq!(extension("app/report.rb"), Some("rb".to_string()));
    assert_eq!(extension("a/archive.tar.gz"), Some("gz".to_string()));
    assert_eq!(extension("home/.bashrc"), None);
    assert_eq!(extension("Makefile"), None);
    assert_eq!(extension("notes."), Some(String::new()));
}

#[test]
fn home_directory_is_written_as_a_json_string() {
    let page = viewer_html(Some("/home/a\"b\\c\n\u{1}\u{8}\u{c}\t\r\u{1f}é"));
    assert!(page.contains(r#"const HOME_DIRECTORY = "/home/a\"b\\c\n\u0001\b\f\t\r\u001fé";"#));
}
