//! Syntax highlighting of the source files that the viewer shows.
use vstd::prelude::*;

use syntect::easy::HighlightLines;
use syntect::highlighting::ThemeSet;
use syntect::html::{styled_line_to_highlighted_html, IncludeBackground};
use syntect::parsing::SyntaxSet;

use crate::paths::{extension, extension_spec};
use crate::text::{copy_string, views};
use crate::viewer::{escape_html, escape_html_spec, source_lines, source_lines_spec};

verus! {

/// The texts of a sequence of optional strings.
pub open spec fn option_views(s: Seq<Option<String>>) -> Seq<Option<Seq<char>>> {
    s.map_values(|x: Option<String>| x.deep_view())
}

/// What `syntect` makes of the lines of a file, highlighted one after the
/// other with its bundled syntaxes and the `base16-ocean.dark` theme, the
/// syntax chosen by the file's extension: for each line its HTML, or
/// nothing where `syntect` fails on it.
pub uninterp spec fn highlighted(lines: Seq<Seq<char>>, extension: Option<Seq<char>>) -> Seq<Option<Seq<char>>>;

/// `syntect`'s `HighlightLines::highlight_line` then
/// `styled_line_to_highlighted_html` on each line in turn, with the syntax
/// that `find_syntax_by_extension` gives for `extension` (plain text where
/// it gives none) and the bundled `base16-ocean.dark` theme. One result
/// per line; the results depend on the lines and the extension alone, and
/// are named `highlighted`.
#[verifier::external_body]
fn highlight_lines(lines: &Vec<String>, extension: Option<&str>) -> (r: Vec<Option<String>>)
    ensures
        r@.len() == lines@.len(),
        option_views(r@) == highlighted(views(lines@), extension.deep_view()),
{
    let syntaxes = SyntaxSet::load_defaults_newlines();
    let themes = ThemeSet::load_defaults();
    let syntax = extension.and_then(|e| syntaxes.find_syntax_by_extension(e)).unwrap_or_else(
        || syntaxes.find_syntax_plain_text(),
    );
    let mut highlighter = HighlightLines::new(syntax, &themes.themes["base16-ocean.dark"]);
    lines.iter().map(
        |line|
            highlighter.highlight_line(line, &syntaxes).and_then(
                |regions| styled_line_to_highlighted_html(&regions, IncludeBackground::No),
            ).ok(),
    ).collect()
}

/// A line as the viewer shows it: its highlighted HTML where there is
/// one, else the line written as HTML text.
pub open spec fn shown_line(h: Option<Seq<char>>, line: Seq<char>) -> Seq<char> {
    match h {
        Some(t) => t,
        None => escape_html_spec(line),
    }
}

/// The `k`-th of `highlights`, or nothing past its end.
pub open spec fn highlight_at(highlights: Seq<Option<Seq<char>>>, k: int) -> Option<Seq<char>> {
    if k < highlights.len() {
        highlights[k]
    } else {
        None
    }
}

/// The lines as the viewer shows them, given what the highlighter made of
/// each.
pub open spec fn shown_lines(lines: Seq<Seq<char>>, highlights: Seq<Option<Seq<char>>>) -> Seq<Seq<char>> {
    Seq::new(lines.len(), |k: int| shown_line(highlight_at(highlights, k), lines[k]))
}

/// The highlighted lines of a file's content, its syntax chosen by the
/// extension of `path`.
pub open spec fn highlighted_lines_spec(content: Seq<char>, path: Seq<char>) -> Seq<Seq<char>> {
    let lines = source_lines_spec(content);
    shown_lines(lines, highlighted(lines, extension_spec(path)))
}

/// Each line as the viewer shows it: the highlighter's HTML where it gave
/// one, the line escaped as HTML where it did not.
pub fn show_lines(lines: &Vec<String>, highlights: &Vec<Option<String>>) -> (r: Vec<String>)
    ensures
        views(r@) == shown_lines(views(lines@), option_views(highlights@)),
{
    let mut r: Vec<String> = Vec::new();
    let mut i: usize = 0;
    while i < lines.len()
        invariant
            0 <= i <= lines@.len(),
            r@.len() == i,
            forall|k: int|
                0 <= k < i ==> (#[trigger] r@[k])@ == shown_line(
                    highlight_at(option_views(highlights@), k),
                    lines@[k]@,
                ),
        decreases lines@.len() - i,
    {
        let shown = if i < highlights.len() {
            match &highlights[i] {
                Some(h) => copy_string(h),
                None => escape_html(lines[i].as_str()),
            }
        } else {
            escape_html(lines[i].as_str())
        };
        r.push(shown);
        i = i + 1;
    }
    assert(views(r@) =~= shown_lines(views(lines@), option_views(highlights@)));
    r
}

/// The lines of a source file as highlighted HTML: each line highlighted
/// by `syntect` with the syntax of the path's extension, or escaped as
/// HTML text where `syntect` fails on it.
pub fn highlighted_lines(content: &str, path: &str) -> (r: Vec<String>)
    ensures
        views(r@) == highlighted_lines_spec(content@, path@),
{
    let lines = source_lines(content);
    let ext = extension(path);
    let ext_ref: Option<&str> = match &ext {
        Some(e) => Some(e.as_str()),
        None => None,
    };
    let highlights = highlight_lines(&lines, ext_ref);
    show_lines(&lines, &highlights)
}

/// The highlighted lines of each file, given as its path and its content:
/// for a file with content, `highlighted_lines` of it; for one without,
/// nothing.
pub fn add_highlighted_lines(files: &Vec<(String, Option<String>)>) -> (r: Vec<Option<Vec<String>>>)
    ensures
        r@.len() == files@.len(),
        forall|k: int|
            0 <= k < files@.len() ==> match (#[trigger] files@[k]).1 {
                Some(content) => r@[k] is Some && views(r@[k]->Some_0@) == highlighted_lines_spec(
                    content@,
                    files@[k].0@,
                ),
                None => r@[k] is None,
            },
{
    let mut r: Vec<Option<Vec<String>>> = Vec::new();
    let mut i: usize = 0;
    while i < files.len()
        invariant
            0 <= i <= files@.len(),
            r@.len() == i,
            forall|k: int|
                0 <= k < i ==> match (#[trigger] files@[k]).1 {
                    Some(content) => r@[k] is Some && views(r@[k]->Some_0@) == highlighted_lines_spec(
                        content@,
                        files@[k].0@,
                    ),
                    None => r@[k] is None,
                },
        decreases files@.len() - i,
    {
        let file = &files[i];
        let lines = match &file.1 {
            Some(content) => Some(highlighted_lines(content.as_str(), file.0.as_str())),
            None => None,
        };
        r.push(lines);
        i = i + 1;
    }
    r
}

} // verus!
