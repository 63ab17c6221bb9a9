use vstd::prelude::*;

verus! {

/// The version of the map report format that this library writes and reads.
pub const FORMAT_VERSION: u8 = 7;

/// Which files a map selects.
#[derive(Clone, Copy, Debug, PartialEq, Eq, Structural)]
pub enum MapMode {
    /// Files whose contents match, plus files whose names match (targets).
    All,
    /// Only files whose names match.
    Filenames,
    /// Only files whose contents match.
    Contents,
    /// Files whose contents match but whose names do not.
    Sprinkles,
}

impl Default for MapMode {
    fn default() -> (r: Self)
        ensures
            r == MapMode::All,
    {
        MapMode::All
    }
}

/// A span of characters `[start, end)` of the `component_index`-th
/// `/`-separated component of a path that the pattern matched.
#[derive(Clone, Copy, Debug, PartialEq, Eq, Structural)]
pub struct PathMatch {
    pub component_index: usize,
    pub start: usize,
    pub end: usize,
}

/// One occurrence of the pattern in a file: 1-based line, 1-based byte
/// columns `[column, end_column)`, and the text of the line.
#[derive(Debug)]
pub struct Match {
    pub file: String,
    pub line: u64,
    pub column: u64,
    pub end_column: u64,
    pub text: String,
}

/// A file of a map report.
#[derive(Debug)]
pub struct FileResult {
    pub path: String,
    pub match_count: usize,
    pub is_target: bool,
    pub path_match_ranges: Vec<PathMatch>,
    pub content: Option<String>,
}

/// Where and how a map was made.
#[derive(Debug)]
pub struct Metadata {
    pub workspace_directory: String,
    pub repository_root: String,
    pub scan_directory: String,
    pub regex: String,
    pub mode: MapMode,
    pub searched_at_unix_seconds: u64,
    pub matcher: String,
    pub file_selection: String,
    pub tracked_file_count: usize,
    pub git_revision: Option<String>,
    pub git_dirty: Option<bool>,
}

/// A node of the map graph (one per file).
#[derive(Debug)]
pub struct Node {
    pub id: String,
    pub kind: String,
    pub label: String,
    pub match_count: Option<usize>,
    pub is_target: bool,
}

/// The map graph.
#[derive(Debug)]
pub struct Graph {
    pub nodes: Vec<Node>,
}

/// A map report.
#[derive(Debug)]
pub struct Report {
    pub report_type: String,
    pub format_version: u8,
    pub metadata: Metadata,
    pub matches: Vec<Match>,
    pub files: Vec<FileResult>,
    pub graph: Graph,
}

/// A copy of an optional string.
pub fn copy_opt_string(s: &Option<String>) -> (r: Option<String>)
    ensures
        r == *s,
{
    match s {
        Some(t) => Some(t.clone()),
        None => None,
    }
}

/// A copy of a match.
pub fn copy_match(m: &Match) -> (r: Match)
    ensures
        r == *m,
{
    Match {
        file: m.file.clone(),
        line: m.line,
        column: m.column,
        end_column: m.end_column,
        text: m.text.clone(),
    }
}

/// A copy of a sequence of path matches.
pub fn copy_path_matches(v: &Vec<PathMatch>) -> (r: Vec<PathMatch>)
    ensures
        r@ == v@,
{
    let mut r: Vec<PathMatch> = Vec::new();
    let mut i: usize = 0;
    while i < v.len()
        invariant
            0 <= i <= v@.len(),
            r@ == v@.take(i as int),
        decreases v@.len() - i,
    {
        r.push(v[i]);
        i = i + 1;
        assert(v@.take(i as int) == v@.take(i - 1).push(v@[i - 1]));
    }
    assert(v@.take(i as int) == v@);
    r
}

} // verus!
