use topo::compat::{check_map_report, correlation_report, scope, validate};
use topo::correlation::{correlate, entry_path, groups, Classification, Entry};
use topo::diff::{smart_diff, DiffClassification, DiffKind, Side};
use topo::model::{FileResult, Graph, MapMode, Match, Metadata, PathMatch, Report, FORMAT_VERSION};
use topo::normalize::{content_ranges, normalize_path, ContentRange};
use topo::regions::{compare_regions, region_lines};

fn test_side(path: &str, content: &str, name: &str) -> Side {
    let start = content.find(name).unwrap();
    Side {
        path: path.to_owned(),
        path_match_ranges: Vec::new(),
        content: Some(content.to_owned()),
        matches: vec![Match {
            file: path.to_owned(),
            line: 1,
            column: start as u64 + 1,
            end_column: (start + name.len()) as u64 + 1,
            text: content.lines().next().unwrap().to_owned(),
        }],
        content_normalization_ranges: vec![ContentRange {
            start_byte: start,
            end_byte: start + name.len(),
            line: 1,
            start_column: start as u64 + 1,
            end_column: (start + name.len()) as u64 + 1,
        }],
    }
}

fn metadata(root: &str, scan: &str, regex: &str) -> Metadata {
    Metadata {
        workspace_directory: root.to_owned(),
        repository_root: root.to_owned(),
        scan_directory: scan.to_owned(),
        regex: regex.to_owned(),
        mode: MapMode::All,
        searched_at_unix_seconds: 1,
        matcher: "ripgrep".to_owned(),
        file_selection: "git".to_owned(),
        tracked_file_count: 1,
        git_revision: None,
        git_dirty: None,
    }
}

fn report_with(regex: &str, files: Vec<FileResult>, matches: Vec<Match>) -> Report {
    Report {
        report_type: "topo_map".to_owned(),
        format_version: FORMAT_VERSION,
        metadata: metadata("/repo", "/repo", regex),
        matches,
        files,
        graph: Graph { nodes: Vec::new() },
    }
}

fn file(path: &str, ranges: Vec<PathMatch>, content: Option<&str>) -> FileResult {
    FileResult {
        path: path.to_owned(),
        match_count: 0,
        is_target: true,
        path_match_ranges: ranges,
        content: content.map(str::to_owned),
    }
}

fn whole(component_index: usize, start: usize, end: usize) -> PathMatch {
    PathMatch { component_index, start, end }
}

#[test]
fn normalizes_utf8_paths_and_overlapping_matches() {
    let ranges = vec![whole(0, 2, 4), whole(1, 0, 3), whole(1, 2, 5)];
    assert_eq!(
        normalize_path("mañana/OldFeature.rb", &ranges),
        "ma{CORRELATION}na/{CORRELATION}ature.rb"
    );
}

#[test]
fn smart_diff_keeps_rename_and_adjacent_changes_distinct() {
    let old = test_side("Old.rb", "class OldFeature\n  OLD = 1\nend\n", "OldFeature");
    let new = test_side("New.rb", "class NewFeature\n  NEW = 2\nend\n", "NewFeature");
    let (diff, _) = smart_diff(&old, &new);
    assert_eq!(diff.classification, DiffClassification::Substantive);
    assert!(diff.lines.iter().any(|line| line.kind == DiffKind::RenameEquivalent));
    assert!(diff.lines.iter().any(|line| line.kind == DiffKind::Modification));
}

#[test]
fn broad_matches_warn_about_suppression() {
    let (_, warnings) = smart_diff(&test_side("old", "Old", "Old"), &test_side("new", "New", "New"));
    assert!(!warnings.is_empty());
}

#[test]
fn duplicate_normalized_keys_remain_ambiguous() {
    let files = vec![
        file("OldOne.rb", vec![whole(0, 0, 6)], None),
        file("OldTwo.rb", vec![whole(0, 0, 6)], None),
    ];
    let grouped = groups(&files, &Vec::new());
    let group = grouped.iter().find(|(key, _)| key == "{CORRELATION}.rb").unwrap();
    assert_eq!(group.1.len(), 2);
}

#[test]
fn adjacent_matches_each_receive_a_sentinel() {
    let ranges = vec![whole(0, 0, 3), whole(0, 3, 6)];
    assert_eq!(normalize_path("OldOne.rb", &ranges), "{CORRELATION}{CORRELATION}.rb");
}

#[test]
fn shared_regions_coalesce_overlapping_match_context() {
    let mut side = test_side("shared.rb", "Old\nsecond Old\nthird\n", "Old");
    side.matches.push(Match {
        file: "shared.rb".to_owned(),
        line: 2,
        column: 8,
        end_column: 11,
        text: "second Old".to_owned(),
    });
    side.content_normalization_ranges.push(ContentRange {
        start_byte: 11,
        end_byte: 14,
        line: 2,
        start_column: 8,
        end_column: 11,
    });
    assert_eq!(region_lines(&side).len(), 1);
}

#[test]
fn shared_regions_pair_structural_modifications() {
    let old = test_side("shared.rb", "Old\nafter old\n", "Old");
    let new = test_side("shared.rb", "New\nafter new\n", "New");
    let (comparison, warnings) = compare_regions(&old, &new);
    assert!(warnings.is_empty());
    assert_eq!(comparison.paired_regions, 1);
    assert_eq!(comparison.old_only_regions, 0);
    assert_eq!(comparison.new_only_regions, 0);
    assert_eq!(comparison.regions[0].classification, DiffClassification::Substantive);
}

#[test]
fn missing_shared_source_is_explicitly_unavailable() {
    let mut old = test_side("shared.rb", "Old", "Old");
    old.content = None;
    let (comparison, warnings) = compare_regions(&old, &test_side("shared.rb", "New", "New"));
    assert!(!comparison.available);
    assert!(!warnings.is_empty());
}

#[test]
fn physical_path_identity_precedes_logical_path_grouping() {
    let old = report_with("Old", vec![file("shared.rb", vec![whole(0, 0, 6)], Some(""))], Vec::new());
    let mut new_file = file("shared.rb", Vec::new(), Some(""));
    new_file.is_target = false;
    let new = report_with("New", vec![new_file], Vec::new());
    let entries = correlate(&old, &new);
    assert_eq!(entries.len(), 1);
    assert!(matches!(entries[0], Entry::SharedContext { .. }));
}

#[test]
fn invalid_content_offsets_are_not_used_for_normalization() {
    let matches = vec![Match {
        file: "utf8.rb".to_owned(),
        line: 1,
        column: 2,
        end_column: 3,
        text: "é".to_owned(),
    }];
    assert!(content_ranges("é\n", &matches).is_empty());
}

#[test]
fn renamed_files_pair_under_their_normalized_path() {
    let old = report_with(
        "Old",
        vec![file("OldFeature.rb", vec![whole(0, 0, 3)], Some("class OldFeature\nend\n"))],
        vec![Match {
            file: "OldFeature.rb".to_owned(),
            line: 1,
            column: 7,
            end_column: 10,
            text: "class OldFeature".to_owned(),
        }],
    );
    let new = report_with(
        "New",
        vec![file("NewFeature.rb", vec![whole(0, 0, 3)], Some("class NewFeature\nend\n"))],
        vec![Match {
            file: "NewFeature.rb".to_owned(),
            line: 1,
            column: 7,
            end_column: 10,
            text: "class NewFeature".to_owned(),
        }],
    );
    let entries = correlate(&old, &new);
    assert_eq!(entries.len(), 1);
    match &entries[0] {
        Entry::FilePair { path, classification, smart_diff, .. } => {
            assert_eq!(path, "{CORRELATION}Feature.rb");
            assert_eq!(*classification, Classification::Paired);
            assert_eq!(smart_diff.as_ref().unwrap().classification, DiffClassification::RenameEquivalent);
        }
        _ => panic!("expected a file pair"),
    }
}

#[test]
fn one_sided_groups_are_old_only_or_new_only() {
    let old = report_with("Old", vec![file("gone.rb", Vec::new(), None)], Vec::new());
    let new = report_with("New", vec![file("added.rb", Vec::new(), None)], Vec::new());
    let entries = correlate(&old, &new);
    assert_eq!(entries.len(), 2);
    assert_eq!(entry_path(&entries[0]), "added.rb");
    assert_eq!(entry_path(&entries[1]), "gone.rb");
    match &entries[0] {
        Entry::FilePair { classification, smart_diff, warnings, .. } => {
            assert_eq!(*classification, Classification::NewOnly);
            assert!(smart_diff.is_none());
            assert!(warnings.is_empty());
        }
        _ => panic!("expected a file pair"),
    }
    match &entries[1] {
        Entry::FilePair { classification, .. } => assert_eq!(*classification, Classification::OldOnly),
        _ => panic!("expected a file pair"),
    }
}

#[test]
fn entries_come_by_path_with_shared_context_first() {
    let old = report_with(
        "Old",
        vec![file("b.rb", Vec::new(), None), file("a.rb", Vec::new(), None)],
        Vec::new(),
    );
    let new = report_with(
        "New",
        vec![file("a.rb", Vec::new(), None), file("c.rb", Vec::new(), None)],
        Vec::new(),
    );
    let entries = correlate(&old, &new);
    let paths: Vec<&str> = entries.iter().map(entry_path).collect();
    assert_eq!(paths, vec!["a.rb", "b.rb", "c.rb"]);
    assert!(matches!(entries[0], Entry::SharedContext { .. }));
}

#[test]
fn reports_with_different_roots_are_refused() {
    let old = report_with("Old", Vec::new(), Vec::new());
    let mut new = report_with("New", Vec::new(), Vec::new());
    new.metadata.repository_root = "/other".to_owned();
    assert_eq!(
        validate(&old, &new).unwrap_err(),
        "reports use different repository roots: `/repo` and `/other`"
    );
}

#[test]
fn reports_with_different_scopes_are_refused() {
    let mut old = report_with("Old", Vec::new(), Vec::new());
    old.metadata.scan_directory = "/repo/app".to_owned();
    let mut new = report_with("New", Vec::new(), Vec::new());
    new.metadata.scan_directory = "/repo/lib".to_owned();
    assert_eq!(validate(&old, &new).unwrap_err(), "reports use different scan scopes: `app` and `lib`");
}

#[test]
fn scan_directory_outside_root_is_refused() {
    let mut old = report_with("Old", Vec::new(), Vec::new());
    old.metadata.scan_directory = "/elsewhere".to_owned();
    assert_eq!(scope(&old).unwrap_err(), "a scan directory is outside its recorded repository root");
}

#[test]
fn missing_revisions_and_dirty_trees_warn() {
    let old = report_with("Old", Vec::new(), Vec::new());
    let mut new = report_with("New", Vec::new(), Vec::new());
    new.metadata.git_dirty = Some(true);
    let compatibility = validate(&old, &new).unwrap();
    assert_eq!(compatibility.scan_scope, "");
    assert_eq!(compatibility.same_revision, None);
    assert_eq!(compatibility.warnings.len(), 2);
    assert!(compatibility.warnings[0].starts_with("At least one input lacks Git revision metadata"));
    assert!(compatibility.warnings[1].starts_with("At least one scan used a dirty working tree"));
}

#[test]
fn different_revisions_warn() {
    let mut old = report_with("Old", Vec::new(), Vec::new());
    old.metadata.git_revision = Some("abc".to_owned());
    let mut new = report_with("New", Vec::new(), Vec::new());
    new.metadata.git_revision = Some("def".to_owned());
    let compatibility = validate(&old, &new).unwrap();
    assert_eq!(compatibility.same_revision, Some(false));
    assert_eq!(
        compatibility.warnings,
        vec!["Scans record different Git revisions; correlation may include unrelated source changes.".to_owned()]
    );
}

#[test]
fn loaded_reports_must_be_readable_maps() {
    let mut report = report_with("Old", Vec::new(), Vec::new());
    assert!(check_map_report(&report, "old.json").is_ok());
    report.format_version = FORMAT_VERSION + 1;
    assert_eq!(
        check_map_report(&report, "old.json").unwrap_err(),
        format!("old.json uses unsupported map format version {}", FORMAT_VERSION + 1)
    );
    report.report_type = "topo_correlation".to_owned();
    assert_eq!(check_map_report(&report, "old.json").unwrap_err(), "old.json is not a topo map report");
}

#[test]
fn correlation_report_carries_its_inputs() {
    let old = report_with("Old", Vec::new(), Vec::new());
    let new = report_with("New", Vec::new(), Vec::new());
    let report = correlation_report(old, new, "old.json".to_owned(), "new.json".to_owned(), 9).unwrap();
    assert_eq!(report.report_type, "topo_correlation");
    assert_eq!(report.format_version, 1);
    assert_eq!(report.created_at_unix_seconds, 9);
    assert_eq!(report.sentinel, "{CORRELATION}");
    assert_eq!(report.provenance.old_input, "old.json");
    assert!(report.entries.is_empty());
}

#[test]
fn a_file_compared_with_itself_is_unchanged() {
    let old = test_side("same.rb", "class Same\n  def call\n  end\nend\n", "Same");
    let new = test_side("same.rb", "class Same\n  def call\n  end\nend\n", "Same");
    let (diff, warnings) = smart_diff(&old, &new);
    assert_eq!(diff.classification, DiffClassification::Unchanged);
    assert_eq!(diff.lines.len(), 4);
    assert!(diff.lines.iter().all(|line| line.kind == DiffKind::Unchanged));
    assert!(warnings.is_empty());
    let (comparison, _) = compare_regions(&old, &new);
    assert_eq!(comparison.paired_regions, comparison.old_regions);
    assert_eq!(comparison.old_only_regions, 0);
    assert!(comparison.regions.iter().all(|region| region.classification == DiffClassification::Unchanged));
}

#[test]
fn paths_without_matches_are_their_own_keys() {
    assert_eq!(normalize_path("app/models/user.rb", &[]), "app/models/user.rb");
    assert_eq!(normalize_path("", &[]), "");
}

#[test]
fn a_side_without_source_is_unavailable_whatever_its_ranges() {
    let old = Side {
        path: "a.rb".to_owned(),
        path_match_ranges: Vec::new(),
        content: None,
        matches: Vec::new(),
        content_normalization_ranges: vec![ContentRange { start_byte: 9, end_byte: 3, line: 1, start_column: 10, end_column: 4 }],
    };
    let new = test_side("a.rb", "Airwallex.call\n", "Airwallex");
    let (diff, warnings) = smart_diff(&old, &new);
    assert_eq!(diff.classification, DiffClassification::Unavailable);
    assert!(diff.lines.is_empty());
    assert_eq!(warnings, vec!["Source text is unavailable on at least one side.".to_owned()]);
}
