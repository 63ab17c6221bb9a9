use topo::cli::{check_workspace_config, parse_args, resolve_settings, resolve_workspace_path, trim, usage, Options, WorkspaceConfig};
use topo::display::{default_filename, display_path, format_number, status_progress, should_refresh_progress};
use topo::mermaid::{mermaid, mermaid_label};
use topo::model::{Graph, MapMode, Match, Node};
use topo::pattern::{compile_pattern, find_filename_targets};
use topo::search::{check_ignore_status, check_rg_status, matches_from_events, nonempty_fields, offsets_overflow, parse_rg_output, path_batches, RgEvent, RgSubmatch};
use topo::select::{build_graph, collect_file_results, content_match_counts, filter_git_ignored, filter_topoignored_files, select_files, FileSelection};
use topo::exclusions::{all_under_root, filter_topoignored};
use topo::paths::strip_path_prefix;

fn selection_of<'a>(selected: &'a [(String, FileSelection)], path: &str) -> &'a FileSelection {
    &selected.iter().find(|(key, _)| key == path).unwrap().1
}

fn node(path: &str, is_target: bool) -> Node {
    Node {
        id: format!("file:{path}"),
        kind: "file".to_owned(),
        label: path.to_owned(),
        match_count: Some(1),
        is_target,
    }
}

fn strings(items: &[&str]) -> Vec<String> {
    items.iter().map(|item| (*item).to_owned()).collect()
}

#[test]
fn default_output_uses_directory_basename() {
    assert_eq!(default_filename("/work/topo", 42), "topo.42.topo.json");
}

#[test]
fn map_modes_select_targets_and_sprinkles() {
    let content_matches = vec![("airwallex_client.rb".to_owned(), 3), ("payments_service.rb".to_owned(), 2)];
    let targets = strings(&["airwallex_client.rb", "airwallex_webhook.rb"]);

    let all = select_files(MapMode::All, &content_matches, &targets);
    assert_eq!(all.len(), 3);
    assert_eq!(selection_of(&all, "airwallex_client.rb").match_count, 3);
    assert!(selection_of(&all, "airwallex_client.rb").is_target);
    assert_eq!(selection_of(&all, "airwallex_webhook.rb").match_count, 0);

    let filenames = select_files(MapMode::Filenames, &content_matches, &targets);
    assert_eq!(filenames.len(), 2);
    assert!(filenames.iter().all(|(_, selection)| selection.is_target));
    assert!(filenames.iter().all(|(_, selection)| selection.match_count == 0));

    let contents = select_files(MapMode::Contents, &content_matches, &targets);
    assert_eq!(contents.len(), 2);
    assert!(contents.iter().all(|(_, selection)| !selection.is_target));

    let sprinkles = select_files(MapMode::Sprinkles, &content_matches, &targets);
    assert_eq!(sprinkles.len(), 1);
    assert_eq!(selection_of(&sprinkles, "payments_service.rb").match_count, 2);
}

#[test]
fn mermaid_groups_only_direct_file_directories_with_full_paths() {
    let graph = Graph {
        nodes: vec![
            node("packs/payments/app/client.rb", true),
            node("packs/payments/lib/helper.rb", false),
            node("src/main.rs", false),
        ],
    };

    let diagram = mermaid(&graph, MapMode::All);
    assert!(!diagram.contains("subgraph D0[\"packs\"]"));
    assert!(diagram.contains("subgraph D0[\"packs/payments/app\"]"));
    assert!(diagram.contains("subgraph D1[\"packs/payments/lib\"]"));
    assert!(diagram.contains("subgraph D2[\"src\"]"));
    assert!(diagram.contains("N0[\"◆ client.rb (1)\"]"));
    assert!(diagram.contains("classDef target fill:#FEF3C7,stroke:#D97706,stroke-width:3px,color:#451A03"));
    assert!(diagram.contains("class N0 target"));
    assert!(!diagram.contains("-->"));

    let filename_diagram = mermaid(&graph, MapMode::Filenames);
    assert!(filename_diagram.contains("N0[\"client.rb\"]"));
    assert!(!filename_diagram.contains("◆"));
    assert!(!filename_diagram.contains("(1)"));
    assert!(!filename_diagram.contains("classDef target"));
}

#[test]
fn progress_refreshes_at_percentage_boundaries() {
    assert!(should_refresh_progress(0, 0));
    assert!(!should_refresh_progress(1, 200));
    assert!(should_refresh_progress(2, 200));
    assert!(should_refresh_progress(200, 200));
}

#[test]
fn formats_summary_paths_compactly() {
    let current_directory = "/Users/test/workspace/project";
    assert_eq!(
        display_path("project.42.topo.json", current_directory, Some("/Users/test")),
        "project.42.topo.json"
    );
    assert_eq!(
        display_path("/Users/test/elsewhere/report.topo.json", current_directory, Some("/Users/test")),
        "~/elsewhere/report.topo.json"
    );
    assert_eq!(format_number(999), "999");
    assert_eq!(format_number(8_143), "8,143");
    assert_eq!(format_number(61_028), "61,028");
    assert_eq!(format_number(1_610_028), "1,610,028");
}

#[test]
fn mermaid_nests_and_writes_the_whole_diagram() {
    let graph = Graph { nodes: vec![node("top.rb", false), node("a/x.rb", true), node("a/b/y.rb", false)] };
    assert_eq!(
        mermaid(&graph, MapMode::All),
        "flowchart LR\n    N0[\"top.rb (1)\"]\n    subgraph D0[\"a\"]\n        N1[\"◆ x.rb (1)\"]\n        subgraph D1[\"a/b\"]\n            N2[\"y.rb (1)\"]\n        end\n    end\n    classDef target fill:#FEF3C7,stroke:#D97706,stroke-width:3px,color:#451A03\n    class N1 target\n"
    );
}

#[test]
fn mermaid_labels_escape_quotes() {
    assert_eq!(mermaid_label("say \"hi\""), "say #quot;hi#quot;");
    let graph = Graph { nodes: vec![node("q\"uote.rb", false)] };
    assert!(mermaid(&graph, MapMode::Contents).contains("N0[\"q#quot;uote.rb (1)\"]"));
}

#[test]
fn numbers_group_thousands() {
    assert_eq!(format_number(0), "0");
    assert_eq!(format_number(1_000), "1,000");
    assert_eq!(format_number(100_000), "100,000");
    assert_eq!(format_number(1_000_000), "1,000,000");
}

#[test]
fn progress_lines_show_bar_percentage_and_counts() {
    assert_eq!(
        status_progress("Searching", 1, 2),
        "󰄬  Searching  ████████░░░░░░░░   50%  1 / 2 files"
    );
    assert_eq!(
        status_progress("Checking files", 0, 0),
        "󰄬  Checking files  ████████████████  100%  0 / 0 files"
    );
    assert_eq!(status_progress("One", 5, 1), "󰄬  One  ████████████████  100%  1 / 1 file");
}

#[test]
fn paths_show_home_and_full_forms() {
    assert_eq!(display_path("/Users/test", "/tmp", Some("/Users/test")), "~");
    assert_eq!(display_path("/var/report.json", "/tmp", Some("/Users/test")), "/var/report.json");
    assert_eq!(display_path("/var/report.json", "/tmp", None), "/var/report.json");
    assert_eq!(default_filename("/", 7), "topo.7.topo.json");
}

#[test]
fn arguments_are_parsed_strictly() {
    let options = parse_args(strings(&["map", "Pattern", "--dir", "repo", "-o", "out.json", "--mode", "sprinkles"]))
        .unwrap();
    assert_eq!(options.pattern.as_deref(), Some("Pattern"));
    assert_eq!(options.scan_directory.as_deref(), Some("repo"));
    assert_eq!(options.output.as_deref(), Some("out.json"));
    assert_eq!(options.mode, Some(MapMode::Sprinkles));

    assert_eq!(parse_args(Vec::new()).unwrap_err(), usage());
    assert_eq!(parse_args(strings(&["map", "--help"])).unwrap_err(), usage());
    assert_eq!(
        parse_args(strings(&["view"])).unwrap_err(),
        format!("unknown command `view`\n\n{}", usage())
    );
    assert_eq!(parse_args(strings(&["map", "--dir"])).unwrap_err(), "--dir needs a directory");
    assert_eq!(parse_args(strings(&["map", "-o"])).unwrap_err(), "--output needs a filename");
    assert_eq!(parse_args(strings(&["map", "--mode"])).unwrap_err(), "--mode needs a value");
    assert_eq!(
        parse_args(strings(&["map", "--mode", "every"])).unwrap_err(),
        "unknown mode `every`; expected all, filenames, contents, or sprinkles"
    );
    assert_eq!(
        parse_args(strings(&["map", "--verbose"])).unwrap_err(),
        format!("unexpected argument `--verbose`\n\n{}", usage())
    );
    assert_eq!(
        parse_args(strings(&["map", "One", "Two"])).unwrap_err(),
        format!("unexpected argument `Two`\n\n{}", usage())
    );
}

#[test]
fn modes_say_what_they_search() {
    assert!(MapMode::All.searches_contents() && MapMode::All.checks_filenames());
    assert!(!MapMode::Filenames.searches_contents());
    assert!(!MapMode::Contents.checks_filenames());
    assert_eq!(MapMode::parse("contents").unwrap(), MapMode::Contents);
}

#[test]
fn settings_prefer_the_command_line() {
    let config = Some(WorkspaceConfig { version: 1, scan_dir: "~/repo".to_owned(), pattern: "Configured".to_owned() });
    let options = Options { pattern: None, output: None, scan_directory: None, mode: None };
    let settings = resolve_settings(&options, &config, "/work").unwrap();
    assert_eq!(settings.pattern, "Configured");
    assert_eq!(settings.scan_directory, "~/repo");
    assert_eq!(settings.mode, MapMode::All);

    let options = Options {
        pattern: Some("Given".to_owned()),
        output: None,
        scan_directory: Some("src".to_owned()),
        mode: Some(MapMode::Contents),
    };
    let settings = resolve_settings(&options, &config, "/work").unwrap();
    assert_eq!(settings.pattern, "Given");
    assert_eq!(settings.scan_directory, "src");
    assert_eq!(settings.mode, MapMode::Contents);

    let options = Options { pattern: None, output: None, scan_directory: None, mode: None };
    assert_eq!(
        resolve_settings(&options, &None, "/work").unwrap_err(),
        "no regex supplied; pass one to `topo map` or set pattern in topo.toml"
    );
    let options = Options { pattern: Some("P".to_owned()), output: None, scan_directory: None, mode: None };
    assert_eq!(resolve_settings(&options, &None, "/work").unwrap().scan_directory, "/work");
}

#[test]
fn workspace_paths_expand_home_and_workspace() {
    assert_eq!(resolve_workspace_path("~", "/work", Some("/home/me")).unwrap(), "/home/me");
    assert_eq!(resolve_workspace_path("~/repo", "/work", Some("/home/me")).unwrap(), "/home/me/repo");
    assert_eq!(resolve_workspace_path("/abs", "/work", Some("/home/me")).unwrap(), "/abs");
    assert_eq!(resolve_workspace_path("rel/dir", "/work", None).unwrap(), "/work/rel/dir");
    assert_eq!(
        resolve_workspace_path("~/repo", "/work", None).unwrap_err(),
        "cannot expand ~ because HOME is not set"
    );
}

#[test]
fn workspace_config_values_are_checked() {
    let good = WorkspaceConfig { version: 1, scan_dir: "~/repo".to_owned(), pattern: "P".to_owned() };
    assert!(check_workspace_config(&good, "topo.toml").is_ok());
    let old = WorkspaceConfig { version: 2, scan_dir: "~/repo".to_owned(), pattern: "P".to_owned() };
    assert_eq!(check_workspace_config(&old, "topo.toml").unwrap_err(), "invalid topo.toml: version must be 1");
    let blank_dir = WorkspaceConfig { version: 1, scan_dir: "  ".to_owned(), pattern: "P".to_owned() };
    assert_eq!(
        check_workspace_config(&blank_dir, "topo.toml").unwrap_err(),
        "invalid topo.toml: scan_dir must not be empty"
    );
    let blank_pattern = WorkspaceConfig { version: 1, scan_dir: "d".to_owned(), pattern: "\t\n".to_owned() };
    assert_eq!(
        check_workspace_config(&blank_pattern, "topo.toml").unwrap_err(),
        "invalid topo.toml: pattern must not be empty"
    );
    assert_eq!(trim("  a b \n"), "a b");
}

#[test]
fn content_matches_are_counted_per_file() {
    let matches = vec![
        Match { file: "b.rb".to_owned(), line: 1, column: 1, end_column: 2, text: "x".to_owned() },
        Match { file: "a.rb".to_owned(), line: 1, column: 1, end_column: 2, text: "x".to_owned() },
        Match { file: "b.rb".to_owned(), line: 2, column: 1, end_column: 2, text: "x".to_owned() },
    ];
    assert_eq!(content_match_counts(&matches), vec![("a.rb".to_owned(), 1), ("b.rb".to_owned(), 2)]);
}

#[test]
fn selected_files_become_results_and_graph_nodes() {
    let selected = vec![("a.rb".to_owned(), FileSelection { match_count: 2, is_target: true })];
    let files = collect_file_results(&selected);
    assert_eq!(files.len(), 1);
    assert_eq!(files[0].path, "a.rb");
    assert_eq!(files[0].match_count, 2);
    assert!(files[0].is_target);
    let graph = build_graph(&files);
    assert_eq!(graph.nodes[0].id, "file:a.rb");
    assert_eq!(graph.nodes[0].kind, "file");
    assert_eq!(graph.nodes[0].label, "a.rb");
    assert_eq!(graph.nodes[0].match_count, Some(2));
}

#[test]
fn paths_are_batched_within_the_argument_limit() {
    let long = "x".repeat(60_000);
    let files = vec![long.clone(), long.clone(), "short".to_owned(), long.clone()];
    let batches = path_batches(&files);
    assert_eq!(batches.len(), 3);
    assert_eq!(batches[0], vec![long.clone()]);
    assert_eq!(batches[1], vec![long.clone(), "short".to_owned()]);
    assert_eq!(batches[2], vec![long]);
    assert!(path_batches(&[]).is_empty());
}

#[test]
fn output_lines_skip_empty_fields() {
    assert_eq!(nonempty_fields(b"a\n\nbc\n", b'\n'), vec![b"a".to_vec(), b"bc".to_vec()]);
    assert_eq!(nonempty_fields(b"one\0two\0", 0), vec![b"one".to_vec(), b"two".to_vec()]);
}

#[test]
fn ripgrep_events_become_matches() {
    let event = RgEvent {
        kind: Some("match".to_owned()),
        path: Some("a.rb".to_owned()),
        line_number: Some(3),
        lines: Some("class Foo\r\n".to_owned()),
        submatches: Some(vec![RgSubmatch { start: Some(6), end: Some(9) }]),
    };
    let begin = RgEvent { kind: Some("begin".to_owned()), path: None, line_number: None, lines: None, submatches: None };
    let matches = matches_from_events(&vec![Ok(begin), Ok(event)]).unwrap();
    assert_eq!(matches.len(), 1);
    assert_eq!(matches[0].file, "a.rb");
    assert_eq!(matches[0].line, 3);
    assert_eq!(matches[0].column, 7);
    assert_eq!(matches[0].end_column, 10);
    assert_eq!(matches[0].text, "class Foo");

    let no_line = RgEvent { kind: Some("match".to_owned()), path: Some("a.rb".to_owned()), line_number: None, lines: None, submatches: None };
    assert_eq!(matches_from_events(&vec![Ok(no_line)]).unwrap_err(), "ripgrep omitted a line number");
    assert_eq!(
        matches_from_events(&vec![Err("bad".to_owned())]).unwrap_err(),
        "could not read ripgrep output: bad"
    );
    let binary = RgEvent {
        kind: Some("match".to_owned()),
        path: Some("b.bin".to_owned()),
        line_number: Some(1),
        lines: None,
        submatches: Some(vec![RgSubmatch { start: Some(0), end: None }]),
    };
    assert_eq!(matches_from_events(&vec![Ok(binary)]).unwrap_err(), "ripgrep omitted match end");
}

#[test]
fn ripgrep_status_is_checked() {
    assert!(check_rg_status(true, Some(0), "exit status: 0", "").is_ok());
    assert!(check_rg_status(false, Some(1), "exit status: 1", "").is_ok());
    assert_eq!(
        check_rg_status(false, Some(2), "exit status: 2", "  \n").unwrap_err(),
        "ripgrep exited unsuccessfully (exit status: 2)"
    );
    assert_eq!(
        check_rg_status(false, Some(2), "exit status: 2", "regex parse error\n").unwrap_err(),
        "ripgrep could not compile or run the regex: regex parse error"
    );
}

#[test]
fn filename_targets_match_file_names_only() {
    let pattern = compile_pattern("^air").unwrap();
    let files = strings(&["air/payments.rb", "lib/airwallex.rb", "lib/airwallex.rb", "lib/other.rb"]);
    assert_eq!(find_filename_targets(&files, &pattern), strings(&["lib/airwallex.rb"]));
    assert!(compile_pattern("(").unwrap_err().starts_with("ripgrep could not compile the regex: "));
}

#[test]
fn only_available_files_stay() {
    let files = strings(&["a.rb", "gone.rb", "b.rb"]);
    assert_eq!(
        topo::select::filter_available_files(files, &[true, false, true]),
        strings(&["a.rb", "b.rb"])
    );
}

#[test]
fn refused_patterns_carry_the_regex_error() {
    let error = compile_pattern("(").unwrap_err();
    let reason = error.strip_prefix("ripgrep could not compile the regex: ").unwrap();
    assert_eq!(reason, regex::Regex::new("(").unwrap_err().to_string());
    assert!(reason.contains("unclosed group"));
}

#[test]
fn stripped_prefixes_keep_the_remaining_text() {
    assert_eq!(strip_path_prefix("x/a//b", "x"), Some("a//b".to_string()));
    assert_eq!(strip_path_prefix("/repo/sub/dir/", "/repo"), Some("sub/dir".to_string()));
    assert_eq!(strip_path_prefix("/repo//sub", "/repo/"), Some("sub".to_string()));
    assert_eq!(strip_path_prefix("/repo", "/repo"), Some(String::new()));
    assert_eq!(strip_path_prefix("/other/sub", "/repo"), None);
    assert_eq!(strip_path_prefix("repo/sub", "/repo"), None);
}

fn match_event(start: Option<u64>, end: Option<u64>) -> RgEvent {
    RgEvent {
        kind: Some("match".to_owned()),
        path: Some("a.rb".to_owned()),
        line_number: Some(1),
        lines: Some("x\n".to_owned()),
        submatches: Some(vec![RgSubmatch { start, end }]),
    }
}

#[test]
fn only_offsets_reached_before_an_error_overflow() {
    let huge = || match_event(Some(u64::MAX), Some(u64::MAX));
    assert!(offsets_overflow(&vec![Ok(huge())]));
    assert!(!offsets_overflow(&vec![Err("bad".to_owned()), Ok(huge())]));
    assert!(!offsets_overflow(&vec![Ok(match_event(None, Some(1))), Ok(huge())]));
    let mut other = huge();
    other.kind = Some("context".to_owned());
    assert!(!offsets_overflow(&vec![Ok(other)]));
    assert!(!offsets_overflow(&vec![Ok(match_event(Some(1), Some(2)))]));
    assert_eq!(
        matches_from_events(&vec![Err("bad".to_owned()), Ok(huge())]).unwrap_err(),
        "could not read ripgrep output: bad"
    );
}

#[test]
fn trimming_follows_unicode_white_space() {
    for text in ["\u{85}\u{a0} a b\u{3000}", "\u{180e}x\u{180e}", "\t\n\u{b}\u{c}\r x \u{2028}\u{2029}", "\u{200b}y\u{202f}\u{205f}"] {
        assert_eq!(trim(text), text.trim());
    }
}

#[test]
fn topoignored_files_leave_the_scan() {
    let files = strings(&["a.rb", "vendor/b.rb", "c.rb"]);
    assert_eq!(filter_topoignored_files(files, &[false, true, false]), strings(&["a.rb", "c.rb"]));
}

#[test]
fn ripgrep_json_output_is_read_into_matches() {
    let output = [
        r#"{"type":"begin","data":{"path":{"text":"a.rb"}}}"#,
        r#"{"type":"match","data":{"path":{"text":"a.rb"},"lines":{"text":"class Airwallex\r\n"},"line_number":3,"absolute_offset":0,"submatches":[{"match":{"text":"Airwallex"},"start":6,"end":15}]}}"#,
        "",
        r#"{"type":"end","data":{"path":{"text":"a.rb"}}}"#,
        "",
    ]
    .join("\n");
    let matches = parse_rg_output(output.as_bytes()).unwrap().unwrap();
    assert_eq!(matches.len(), 1);
    assert_eq!(matches[0].file, "a.rb");
    assert_eq!(matches[0].line, 3);
    assert_eq!(matches[0].column, 7);
    assert_eq!(matches[0].end_column, 16);
    assert_eq!(matches[0].text, "class Airwallex");

    let bad = parse_rg_output(b"not json\n").unwrap().unwrap_err();
    assert!(bad.starts_with("could not read ripgrep output: "));
    assert!(bad.len() > "could not read ripgrep output: ".len());

    let missing = br#"{"type":"match","data":{"path":{"text":"a.rb"},"submatches":[]}}"#;
    assert_eq!(parse_rg_output(missing).unwrap().unwrap_err(), "ripgrep omitted a line number");

    let huge = format!(
        r#"{{"type":"match","data":{{"path":{{"text":"a.rb"}},"lines":{{"text":"x"}},"line_number":1,"submatches":[{{"start":{},"end":1}}]}}}}"#,
        u64::MAX
    );
    assert!(parse_rg_output(huge.as_bytes()).is_none());
}

#[test]
fn workspace_exclusion_rules_filter_tracked_files() {
    let files = strings(&["a.rb", "vendor/b.rb", "x.log", "keep.log", "sub/deep/c.rb"]);
    let rules = "\u{feff}vendor/\n# comment\n*.log\r\n!keep.log\nsub/\n";
    let kept = filter_topoignored("/work/.topoignore", rules, "/repo", "/repo", files).unwrap();
    assert_eq!(kept, strings(&["a.rb", "keep.log"]));

    let scoped = filter_topoignored("/w/.topoignore", "b.rb\n", "/repo/lib", "/repo", strings(&["lib/a.rb", "lib/b.rb"])).unwrap();
    assert_eq!(scoped, strings(&["lib/a.rb"]));

    let error = filter_topoignored("/w/.topoignore", "ok\na{b\n", "/repo", "/repo", strings(&["a.rb"])).unwrap_err();
    assert!(error.starts_with("could not read /w/.topoignore: /w/.topoignore: line 2: "), "{error}");

    assert_eq!(filter_topoignored("/w/.topoignore", "", "/repo", "/repo", strings(&["a.rb"])).unwrap(), strings(&["a.rb"]));
}

#[test]
fn exclusion_targets_must_lie_under_the_scan_directory() {
    assert!(all_under_root("/repo/lib", "/repo", &strings(&["lib/a.rb"])));
    assert!(!all_under_root("/repo/lib", "/repo", &strings(&["other/a.rb"])));
    assert!(!all_under_root("/repo", "/repo", &strings(&["/a.rb"])));
    assert!(all_under_root("/", "/", &strings(&["a.rb"])));
}

#[test]
fn files_that_git_ignores_leave_the_scan() {
    let files = strings(&["a.rb", "tmp/b.rb", "c.rb", "log/d.rb"]);
    let outputs = vec!["tmp/b.rb\n".to_owned(), String::new(), "\nlog/d.rb\r\n".to_owned()];
    assert_eq!(filter_git_ignored(files, &outputs), strings(&["a.rb", "c.rb"]));
    assert!(check_ignore_status(false, Some(1), "").is_ok());
    assert_eq!(
        check_ignore_status(false, Some(128), "  fatal: bad\n").unwrap_err(),
        "could not apply ignore rules: fatal: bad"
    );
}
