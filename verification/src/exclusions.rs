//! Workspace exclusions: the `.topoignore` rules of a workspace, matched by
//! the `ignore` crate against the tracked files of a scan.
use vstd::prelude::*;

use std::path::PathBuf;

use ignore::gitignore::GitignoreBuilder;

use crate::highlight::option_views;
use crate::paths::{join_path, joined, rooted};
use crate::select::kept;
use crate::text::{append_str, chars_of, decimal, decimal_usize, join_spec, join_strings, lines, lines_spec, owned, string_from_chars, views};

verus! {

/// `target` lies under the directory `root` as the `ignore` crate's
/// matcher reads it: `root` is rooted, `target` begins with its text, and
/// what follows, less one `/`, does not begin with another `/`.
pub open spec fn under_root(target: Seq<char>, root: Seq<char>) -> bool {
    &&& rooted(root)
    &&& root.len() <= target.len()
    &&& target.take(root.len() as int) == root
    &&& {
        let rest = target.skip(root.len() as int);
        let rest = if rest.len() > 0 && rest[0] == '/' {
            rest.skip(1)
        } else {
            rest
        };
        !(rest.len() > 0 && rest[0] == '/')
    }
}

/// Whether `target` lies under the directory `root` as the matcher reads
/// it.
pub fn is_under_root(target: &str, root: &str) -> (r: bool)
    ensures
        r == under_root(target@, root@),
{
    let t = chars_of(target);
    let d = chars_of(root);
    if d.len() == 0 || d[0] != '/' || d.len() > t.len() {
        return false;
    }
    let mut i: usize = 0;
    while i < d.len()
        invariant
            t@ == target@,
            d@ == root@,
            d@.len() <= t@.len(),
            0 <= i <= d@.len(),
            forall|k: int| 0 <= k < i ==> t@[k] == d@[k],
        decreases d@.len() - i,
    {
        if t[i] != d[i] {
            proof {
                assert(t@.take(d@.len() as int)[i as int] != d@[i as int]);
            }
            return false;
        }
        i = i + 1;
    }
    assert(t@.take(d@.len() as int) =~= d@);
    let mut at: usize = d.len();
    if at < t.len() && t[at] == '/' {
        at = at + 1;
    }
    proof {
        let rest = target@.skip(root@.len() as int);
        if rest.len() > 0 && rest[0] == '/' {
            assert(rest.skip(1) =~= target@.skip(at as int));
        } else {
            assert(rest =~= target@.skip(at as int));
        }
    }
    !(at < t.len() && t[at] == '/')
}

/// Whether every file, joined to the repository root, lies under the scan
/// directory as the matcher reads it.
pub fn all_under_root(scan_dir: &str, repository_root: &str, files: &Vec<String>) -> (r: bool)
    ensures
        r == forall|k: int|
            0 <= k < files@.len() ==> under_root(joined(repository_root@, (#[trigger] files@[k])@), scan_dir@),
{
    let mut i: usize = 0;
    while i < files.len()
        invariant
            0 <= i <= files@.len(),
            forall|k: int|
                0 <= k < i ==> under_root(joined(repository_root@, (#[trigger] files@[k])@), scan_dir@),
        decreases files@.len() - i,
    {
        let target = join_path(repository_root, files[i].as_str());
        if !is_under_root(target.as_str(), scan_dir) {
            return false;
        }
        i = i + 1;
    }
    true
}

/// What the `ignore` crate makes of the rule lines of the file `source`
/// with its matcher rooted at `scan_dir`: for each line, the text of the
/// error with which `GitignoreBuilder::add_line` refuses it, or nothing;
/// then the text of the error with which `build` refuses the rules, or for
/// each target whether `matched_path_or_any_parents` finds it ignored.
pub uninterp spec fn topoignore_outcome(
    scan_dir: Seq<char>,
    source: Seq<char>,
    lines: Seq<Seq<char>>,
    targets: Seq<Seq<char>>,
) -> (Seq<Option<Seq<char>>>, Result<Seq<bool>, Seq<char>>);

/// The abstract value of a list of flags, or of an error's text.
pub open spec fn flags_view(r: Result<Vec<bool>, String>) -> Result<Seq<bool>, Seq<char>> {
    match r {
        Ok(v) => Ok(v@),
        Err(e) => Err(e@),
    }
}

/// `ignore`'s `GitignoreBuilder::new(scan_dir)`, `add_line` of each line
/// (from `source`), `build`, and `matched_path_or_any_parents` of each
/// target (as a file) with `is_ignore`: the text of each line's error, and
/// the text of the build's error or one flag per target. The results
/// depend on the arguments alone, and are named `topoignore_outcome`. The
/// matcher panics on a target that is not under its root, so every target
/// must be.
#[verifier::external_body]
fn topoignore_matches(scan_dir: &str, source: &str, lines: &Vec<String>, targets: &Vec<String>) -> (r: (
    Vec<Option<String>>,
    Result<Vec<bool>, String>,
))
    requires
        forall|k: int| 0 <= k < targets@.len() ==> under_root((#[trigger] targets@[k])@, scan_dir@),
    ensures
        r.0@.len() == lines@.len(),
        r.1 matches Ok(flags) ==> flags@.len() == targets@.len(),
        (option_views(r.0@), flags_view(r.1)) == topoignore_outcome(scan_dir@, source@, views(lines@), views(targets@)),
{
    let mut builder = GitignoreBuilder::new(scan_dir);
    let errors = lines.iter().map(|line| builder.add_line(Some(PathBuf::from(source)), line).err().map(|e| e.to_string())).collect();
    let matched = builder.build().map(
        |matcher| targets.iter().map(|t| matcher.matched_path_or_any_parents(t, false).is_ignore()).collect(),
    );
    (errors, matched.map_err(|e| e.to_string()))
}

/// `s` without the byte order marks at its start.
pub open spec fn without_bom(s: Seq<char>) -> Seq<char>
    decreases s.len(),
{
    if s.len() > 0 && s[0] == '\u{feff}' {
        without_bom(s.drop_first())
    } else {
        s
    }
}

/// The rule lines of a `.topoignore` file: its lines (as `BufRead::lines`
/// reads them), the first without byte order marks.
pub open spec fn rule_lines(rules: Seq<char>) -> Seq<Seq<char>> {
    let l = lines_spec(rules);
    if rules.len() == 0 {
        Seq::empty()
    } else if l.len() > 0 {
        l.update(0, without_bom(l[0]))
    } else {
        l
    }
}

/// Each refused line, tagged with the file and its 1-based line number.
pub open spec fn tagged_errors(source: Seq<char>, errors: Seq<Option<Seq<char>>>) -> Seq<Seq<char>>
    decreases errors.len(),
{
    if errors.len() == 0 {
        Seq::empty()
    } else {
        let p = tagged_errors(source, errors.drop_last());
        match errors.last() {
            Some(e) => p.push(source + ": line "@ + decimal(errors.len()) + ": "@ + e),
            None => p,
        }
    }
}

/// The files that the workspace exclusions leave, or why the rules could
/// not be used: the refused lines, each tagged with the file and its line
/// number; or the matcher's build error.
pub open spec fn topoignored_spec(
    source: Seq<char>,
    rules: Seq<char>,
    scan_dir: Seq<char>,
    repository_root: Seq<char>,
    files: Seq<Seq<char>>,
) -> Result<Seq<Seq<char>>, Seq<char>> {
    let targets = files.map_values(|f: Seq<char>| joined(repository_root, f));
    let outcome = topoignore_outcome(scan_dir, source, rule_lines(rules), targets);
    let tagged = tagged_errors(source, outcome.0);
    if tagged.len() > 0 {
        Err("could not read "@ + source + ": "@ + join_spec(tagged, seq!['\n']))
    } else {
        match outcome.1 {
            Err(e) => Err("could not parse "@ + source + ": "@ + e),
            Ok(flags) => Ok(kept(files, flags.map_values(|b: bool| !b))),
        }
    }
}

fn without_bom_exec(s: &str) -> (r: String)
    ensures
        r@ == without_bom(s@),
{
    let cs = chars_of(s);
    let mut i: usize = 0;
    assert(cs@.skip(0) =~= cs@);
    while i < cs.len() && cs[i] == '\u{feff}'
        invariant
            cs@ == s@,
            0 <= i <= cs@.len(),
            without_bom(s@) == without_bom(cs@.skip(i as int)),
        decreases cs@.len() - i,
    {
        proof {
            assert(cs@.skip(i as int).drop_first() =~= cs@.skip(i + 1));
        }
        i = i + 1;
    }
    let r = string_from_chars(vstd::slice::slice_subrange(cs.as_slice(), i, cs.len()));
    assert(r@ =~= cs@.skip(i as int));
    r
}

/// The rule lines of a `.topoignore` file.
fn rule_lines_exec(rules: &str) -> (r: Vec<String>)
    ensures
        views(r@) == rule_lines(rules@),
{
    if rules.unicode_len() == 0 {
        let r: Vec<String> = Vec::new();
        assert(views(r@) =~= rule_lines(rules@));
        return r;
    }
    let mut r = lines(rules);
    if r.len() > 0 {
        let first = without_bom_exec(r[0].as_str());
        let ghost before = views(r@);
        r.set(0, first);
        assert(views(r@) =~= before.update(0, without_bom(before[0])));
    }
    r
}

/// Joins each refused line's tagged error with line feeds.
fn tagged_error_text(source: &str, errors: &Vec<Option<String>>) -> (r: (usize, String))
    ensures
        r.0 == tagged_errors(source@, option_views(errors@)).len(),
        r.1@ == join_spec(tagged_errors(source@, option_views(errors@)), seq!['\n']),
{
    let mut tagged: Vec<String> = Vec::new();
    let mut i: usize = 0;
    while i < errors.len()
        invariant
            0 <= i <= errors@.len(),
            views(tagged@) == tagged_errors(source@, option_views(errors@).take(i as int)),
        decreases errors@.len() - i,
    {
        proof {
            assert(option_views(errors@).take(i + 1).drop_last() =~= option_views(errors@).take(i as int));
            assert(option_views(errors@)[i as int] == errors@[i as int].deep_view());
        }
        match &errors[i] {
            Some(e) => {
                let mut t = owned(source);
                append_str(&mut t, ": line ");
                let n = decimal_usize(i + 1);
                append_str(&mut t, n.as_str());
                append_str(&mut t, ": ");
                append_str(&mut t, e.as_str());
                let ghost before = views(tagged@);
                tagged.push(t);
                proof {
                    reveal_strlit(": line ");
                    reveal_strlit(": ");
                    assert(views(tagged@) =~= before.push(t@));
                }
            },
            None => {},
        }
        i = i + 1;
    }
    assert(option_views(errors@).take(i as int) =~= option_views(errors@));
    let text = join_strings(tagged.as_slice(), "\n");
    proof {
        reveal_strlit("\n");
        assert("\n"@ =~= seq!['\n']);
    }
    (tagged.len(), text)
}

/// The files that the workspace exclusions leave: the rules of the file
/// `source` (its text `rules`), matched with the scan directory as root
/// against each file joined to the repository root; a file stays unless a
/// rule matches it or one of its parent directories. Refused rule lines,
/// or rules that do not build, give an error instead.
pub fn filter_topoignored(
    source: &str,
    rules: &str,
    scan_dir: &str,
    repository_root: &str,
    files: Vec<String>,
) -> (r: Result<Vec<String>, String>)
    requires
        forall|k: int|
            0 <= k < files@.len() ==> under_root(joined(repository_root@, (#[trigger] files@[k])@), scan_dir@),
    ensures
        match r {
            Ok(v) => topoignored_spec(source@, rules@, scan_dir@, repository_root@, views(files@)) == Ok::<
                Seq<Seq<char>>,
                Seq<char>,
            >(views(v@)),
            Err(e) => topoignored_spec(source@, rules@, scan_dir@, repository_root@, views(files@)) == Err::<
                Seq<Seq<char>>,
                Seq<char>,
            >(e@),
        },
{
    let rule_list = rule_lines_exec(rules);
    let mut targets: Vec<String> = Vec::new();
    let mut i: usize = 0;
    while i < files.len()
        invariant
            0 <= i <= files@.len(),
            targets@.len() == i,
            forall|k: int|
                0 <= k < i ==> (#[trigger] targets@[k])@ == joined(repository_root@, files@[k]@),
        decreases files@.len() - i,
    {
        targets.push(join_path(repository_root, files[i].as_str()));
        i = i + 1;
    }
    let ghost tv = views(files@).map_values(|f: Seq<char>| joined(repository_root@, f));
    assert(views(targets@) =~= tv);
    let (errors, matched) = topoignore_matches(scan_dir, source, &rule_list, &targets);
    let (count, text) = tagged_error_text(source, &errors);
    if count > 0 {
        let mut e = owned("could not read ");
        append_str(&mut e, source);
        append_str(&mut e, ": ");
        append_str(&mut e, text.as_str());
        proof {
            reveal_strlit("could not read ");
            reveal_strlit(": ");
        }
        return Err(e);
    }
    match matched {
        Err(build_error) => {
            let mut e = owned("could not parse ");
            append_str(&mut e, source);
            append_str(&mut e, ": ");
            append_str(&mut e, build_error.as_str());
            proof {
                reveal_strlit("could not parse ");
                reveal_strlit(": ");
            }
            Err(e)
        },
        Ok(flags) => {
            let kept_files = crate::select::filter_topoignored_files(files, flags.as_slice());
            Ok(kept_files)
        },
    }
}

} // verus!
