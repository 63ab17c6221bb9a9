//! The map's pattern as a compiled regular expression, and the files whose
//! names it matches.
use vstd::prelude::*;

use crate::order::{keys_ascending, search_str};
use crate::paths::{file_name, file_name_spec};
use crate::text::{append_str, copy_string, owned, views};

verus! {

/// The compiled regular expressions of the `regex` crate.
#[verifier::external_type_specification]
#[verifier::external_body]
pub struct ExRegex(regex::Regex);

/// What the `regex` crate says of `pattern` when it refuses it: the text
/// of its error, or nothing when the pattern compiles.
pub uninterp spec fn regex_compile_error(pattern: Seq<char>) -> Option<Seq<char>>;

/// Whether the `regex` crate accepts `pattern` as a regular expression.
pub open spec fn regex_compiles(pattern: Seq<char>) -> bool {
    regex_compile_error(pattern) is None
}

/// The text of the `regex` crate's refusal of a pattern that it does not
/// accept.
pub open spec fn regex_error_message(pattern: Seq<char>) -> Seq<char> {
    regex_compile_error(pattern)->Some_0
}

/// Whether the regular expression `pattern` matches somewhere in `text`.
pub uninterp spec fn regex_matches(pattern: Seq<char>, text: Seq<char>) -> bool;

/// `regex::Regex::new`: compiles `pattern`, or gives the text of the
/// error it refuses it with (`Display` of `regex::Error`). Both depend on
/// the pattern alone, and are named `regex_compile_error`.
#[verifier::external_body]
fn compile_regex(pattern: &str) -> (r: Result<regex::Regex, String>)
    ensures
        match r {
            Ok(_) => regex_compile_error(pattern@) is None,
            Err(text) => regex_compile_error(pattern@) == Some(text@),
        },
{
    match regex::Regex::new(pattern) {
        Ok(regex) => Ok(regex),
        Err(error) => Err(format!("{error}")),
    }
}

/// A pattern compiled as a regular expression. Its view is the pattern's
/// text; the only way to make one is `compile_pattern`, which compiles
/// that very text.
#[derive(Debug)]
pub struct Pattern {
    source: String,
    regex: regex::Regex,
}

impl View for Pattern {
    type V = Seq<char>;

    closed spec fn view(&self) -> Seq<char> {
        self.source@
    }
}

impl Pattern {
    /// `regex::Regex::is_match` on the compiled pattern: whether it matches
    /// somewhere in `text`. The result depends on the pattern's text and
    /// on `text` alone, and is named `regex_matches`.
    #[verifier::external_body]
    fn is_match(&self, text: &str) -> (r: bool)
        ensures
            r == regex_matches(self@, text@),
    {
        self.regex.is_match(text)
    }
}

/// The start of the message for a pattern that does not compile.
pub open spec fn compile_error_prefix() -> Seq<char> {
    "ripgrep could not compile the regex: "@
}

/// Compiles the map's pattern, or says why it does not compile.
pub fn compile_pattern(pattern: &str) -> (r: Result<Pattern, String>)
    ensures
        match r {
            Ok(p) => regex_compiles(pattern@) && p@ == pattern@,
            Err(e) => !regex_compiles(pattern@) && e@ == compile_error_prefix() + regex_error_message(
                pattern@,
            ),
        },
{
    match compile_regex(pattern) {
        Ok(regex) => Ok(Pattern { source: owned(pattern), regex }),
        Err(text) => {
            let mut e = owned("ripgrep could not compile the regex: ");
            proof {
                reveal_strlit("ripgrep could not compile the regex: ");
            }
            append_str(&mut e, text.as_str());
            Err(e)
        },
    }
}

/// The name that the pattern is tried on: the path's file name, or
/// nothing when it has none.
pub open spec fn target_name(path: Seq<char>) -> Seq<char> {
    match file_name_spec(path) {
        Some(n) => n,
        None => Seq::empty(),
    }
}

/// The path is a target: the pattern matches its file name.
pub open spec fn is_target(pattern: Seq<char>, path: Seq<char>) -> bool {
    regex_matches(pattern, target_name(path))
}

/// The paths of the files whose names the pattern matches, ascending and
/// each once.
pub fn find_filename_targets(files: &[String], pattern: &Pattern) -> (r: Vec<String>)
    ensures
        keys_ascending(views(r@)),
        forall|k: int|
            0 <= k < r@.len() ==> is_target(pattern@, (#[trigger] r@[k])@) && views(files@).contains(r@[k]@),
        forall|j: int|
            0 <= j < files@.len() && is_target(pattern@, (#[trigger] files@[j])@) ==> views(r@).contains(
                files@[j]@,
            ),
{
    let mut r: Vec<String> = Vec::new();
    let mut i: usize = 0;
    while i < files.len()
        invariant
            0 <= i <= files@.len(),
            keys_ascending(views(r@)),
            forall|k: int|
                0 <= k < r@.len() ==> is_target(pattern@, (#[trigger] r@[k])@) && views(files@).contains(r@[k]@),
            forall|j: int|
                0 <= j < i && is_target(pattern@, (#[trigger] files@[j])@) ==> views(r@).contains(files@[j]@),
        decreases files@.len() - i,
    {
        let path = files[i].as_str();
        let name = match file_name(path) {
            Some(n) => n,
            None => String::new(),
        };
        let hit = pattern.is_match(name.as_str());
        let ghost before = r@;
        proof {
            assert(views(files@)[i as int] == path@);
        }
        if hit {
            match search_str(&r, path) {
                Ok(pos) => {
                    proof {
                        assert(views(r@)[pos as int] == path@);
                    }
                },
                Err(pos) => {
                    r.insert(pos, copy_string(&files[i]));
                    proof {
                        assert(views(r@) =~= views(before).insert(pos as int, path@));
                        assert forall|k: int| 0 <= k < pos implies crate::order::text_lt(
                            #[trigger] views(before)[k],
                            path@,
                        ) by {
                            assert(views(before)[k] == before[k]@);
                        }
                        assert forall|k: int| pos <= k < views(before).len() implies crate::order::text_lt(
                            path@,
                            #[trigger] views(before)[k],
                        ) by {
                            assert(views(before)[k] == before[k]@);
                        }
                        crate::order::lemma_insert_ascending(views(before), pos as int, path@);
                        assert forall|k: int|
                            0 <= k < r@.len() implies is_target(pattern@, (#[trigger] r@[k])@) && views(files@).contains(
                                r@[k]@,
                            ) by {
                            if k < pos {
                                assert(r@[k] == before[k]);
                            } else if k > pos {
                                assert(r@[k] == before[k - 1]);
                            }
                        }
                        assert forall|j: int|
                            0 <= j < i + 1 && is_target(pattern@, (#[trigger] files@[j])@) implies views(r@).contains(
                                files@[j]@,
                            ) by {
                            if j < i {
                                let k = choose|k: int| 0 <= k < views(before).len() && views(before)[k] == files@[j]@;
                                if k < pos {
                                    assert(views(r@)[k] == files@[j]@);
                                } else {
                                    assert(views(r@)[k + 1] == files@[j]@);
                                }
                            } else {
                                assert(views(r@)[pos as int] == files@[j]@);
                            }
                        }
                    }
                },
            }
        }
        i = i + 1;
    }
    r
}

} // verus!
