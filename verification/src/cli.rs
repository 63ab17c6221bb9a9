//! The command line of `topo map`, the workspace configuration, and the
//! settings a map is made with.
use vstd::prelude::*;

use crate::model::MapMode;
use crate::paths::{is_rooted, join_path, joined, rooted};
use crate::select::mode_named;
use crate::text::{append_str, chars_of, copy_string, owned, same_text, string_from_chars};

verus! {

// ---------------------------------------------------------------------------
// White space
// ---------------------------------------------------------------------------

/// Whether `c` has the Unicode `White_Space` property: tab, line feed,
/// vertical tab, form feed, carriage return, space, next line, no-break
/// space, ogham space mark, the spaces from en quad to hair space, line
/// and paragraph separators, narrow no-break space, medium mathematical
/// space and ideographic space.
pub open spec fn white_space(c: char) -> bool {
    ||| '\u{9}' <= c <= '\u{d}'
    ||| c == ' '
    ||| c == '\u{85}'
    ||| c == '\u{a0}'
    ||| c == '\u{1680}'
    ||| '\u{2000}' <= c <= '\u{200a}'
    ||| c == '\u{2028}'
    ||| c == '\u{2029}'
    ||| c == '\u{202f}'
    ||| c == '\u{205f}'
    ||| c == '\u{3000}'
}

/// Whether `c` has the Unicode `White_Space` property (as
/// `char::is_whitespace`).
pub(crate) fn is_white_space(c: char) -> (r: bool)
    ensures
        r == white_space(c),
{
    ('\u{9}' <= c && c <= '\u{d}') || c == ' ' || c == '\u{85}' || c == '\u{a0}' || c == '\u{1680}' || (
    '\u{2000}' <= c && c <= '\u{200a}') || c == '\u{2028}' || c == '\u{2029}' || c == '\u{202f}' || c
        == '\u{205f}' || c == '\u{3000}'
}

/// `s` without its leading white space.
pub open spec fn trim_start_spec(s: Seq<char>) -> Seq<char>
    decreases s.len(),
{
    if s.len() > 0 && white_space(s[0]) {
        trim_start_spec(s.drop_first())
    } else {
        s
    }
}

/// `s` without its trailing white space.
pub open spec fn trim_end_spec(s: Seq<char>) -> Seq<char>
    decreases s.len(),
{
    if s.len() > 0 && white_space(s.last()) {
        trim_end_spec(s.drop_last())
    } else {
        s
    }
}

/// `s` without its leading and trailing white space (as `str::trim`).
pub open spec fn trim_spec(s: Seq<char>) -> Seq<char> {
    trim_end_spec(trim_start_spec(s))
}

/// `s` without its leading and trailing white space.
pub fn trim(s: &str) -> (r: String)
    ensures
        r@ == trim_spec(s@),
{
    let cs = chars_of(s);
    let mut i: usize = 0;
    assert(cs@.subrange(0, cs@.len() as int) =~= cs@);
    while i < cs.len() && is_white_space(cs[i])
        invariant
            cs@ == s@,
            0 <= i <= cs@.len(),
            trim_start_spec(s@) == trim_start_spec(cs@.subrange(i as int, cs@.len() as int)),
        decreases cs@.len() - i,
    {
        assert(cs@.subrange(i as int, cs@.len() as int).drop_first() =~= cs@.subrange(i + 1, cs@.len() as int));
        i = i + 1;
    }
    let ghost rest = cs@.subrange(i as int, cs@.len() as int);
    assert(trim_start_spec(rest) == rest);
    let mut j: usize = cs.len();
    while j > i && is_white_space(cs[j - 1])
        invariant
            cs@ == s@,
            0 <= i <= j <= cs@.len(),
            rest == cs@.subrange(i as int, cs@.len() as int),
            trim_end_spec(rest) == trim_end_spec(cs@.subrange(i as int, j as int)),
        decreases j,
    {
        assert(cs@.subrange(i as int, j as int).drop_last() =~= cs@.subrange(i as int, j - 1));
        j = j - 1;
    }
    let piece = vstd::slice::slice_subrange(cs.as_slice(), i, j);
    string_from_chars(piece)
}

/// `s` is empty or white space throughout.
pub open spec fn blank(s: Seq<char>) -> bool {
    trim_spec(s).len() == 0
}

// ---------------------------------------------------------------------------
// The command line
// ---------------------------------------------------------------------------

/// What the command line of `topo map` asks for.
#[derive(Debug)]
pub struct Options {
    pub pattern: Option<String>,
    pub output: Option<String>,
    pub scan_directory: Option<String>,
    pub mode: Option<MapMode>,
}

/// The abstract value of the options.
pub type OptionsV = (Option<Seq<char>>, Option<Seq<char>>, Option<Seq<char>>, Option<MapMode>);

impl View for Options {
    type V = OptionsV;

    open spec fn view(&self) -> OptionsV {
        (self.pattern.deep_view(), self.output.deep_view(), self.scan_directory.deep_view(), self.mode)
    }
}

/// How `topo map` is called.
pub open spec fn usage_text() -> Seq<char> {
    "Usage: topo map [<regex>] [--dir <scan-directory>] [--mode <mode>] [--output <filename>]\n\nMode is all (default), filenames, contents, or sprinkles. Use the current directory as the topo workspace. The regex and scan directory may come from topo.toml; CLI values override them. Apply .topoignore from the workspace and write a JSON graph report plus a Mermaid sidecar."@
}

/// How `topo map` is called.
pub fn usage() -> (r: String)
    ensures
        r@ == usage_text(),
{
    owned(
        "Usage: topo map [<regex>] [--dir <scan-directory>] [--mode <mode>] [--output <filename>]\n\nMode is all (default), filenames, contents, or sprinkles. Use the current directory as the topo workspace. The regex and scan directory may come from topo.toml; CLI values override them. Apply .topoignore from the workspace and write a JSON graph report plus a Mermaid sidecar.",
    )
}

/// The message for an argument the command line does not take.
pub open spec fn unexpected_text(arg: Seq<char>) -> Seq<char> {
    "unexpected argument `"@ + arg + "`\n\n"@ + usage_text()
}

/// The message for a mode that does not exist.
pub open spec fn unknown_mode_text(v: Seq<char>) -> Seq<char> {
    "unknown mode `"@ + v + "`; expected all, filenames, contents, or sprinkles"@
}

/// The options after reading the arguments from `i` on, with `o` read so
/// far: `--output`/`-o`, `--dir` and `--mode` each take the next argument,
/// `--help`/`-h` asks for the usage, any other argument starting with `-`
/// is refused, and the first other argument is the pattern.
pub open spec fn parse_options(args: Seq<Seq<char>>, i: int, o: OptionsV) -> Result<OptionsV, Seq<char>>
    decreases args.len() - i,
{
    if i < 0 || i >= args.len() {
        Ok(o)
    } else {
        let a = args[i];
        if a == "--output"@ || a == "-o"@ {
            if i + 1 < args.len() {
                parse_options(args, i + 2, (o.0, Some(args[i + 1]), o.2, o.3))
            } else {
                Err("--output needs a filename"@)
            }
        } else if a == "--dir"@ {
            if i + 1 < args.len() {
                parse_options(args, i + 2, (o.0, o.1, Some(args[i + 1]), o.3))
            } else {
                Err("--dir needs a directory"@)
            }
        } else if a == "--mode"@ {
            if i + 1 < args.len() {
                match mode_named(args[i + 1]) {
                    Some(m) => parse_options(args, i + 2, (o.0, o.1, o.2, Some(m))),
                    None => Err(unknown_mode_text(args[i + 1])),
                }
            } else {
                Err("--mode needs a value"@)
            }
        } else if a == "--help"@ || a == "-h"@ {
            Err(usage_text())
        } else if a.len() > 0 && a[0] == '-' {
            Err(unexpected_text(a))
        } else if o.0 is None {
            parse_options(args, i + 1, (Some(a), o.1, o.2, o.3))
        } else {
            Err(unexpected_text(a))
        }
    }
}

/// What the arguments of `topo` ask for: the `map` command and its options.
pub open spec fn parse_args_spec(args: Seq<Seq<char>>) -> Result<OptionsV, Seq<char>> {
    if args.len() == 0 || args[0] == "--help"@ || args[0] == "-h"@ {
        Err(usage_text())
    } else if args[0] != "map"@ {
        Err("unknown command `"@ + args[0] + "`\n\n"@ + usage_text())
    } else {
        parse_options(args, 1, (None, None, None, None))
    }
}

/// Whether the text starts with `-`.
fn starts_with_dash(s: &str) -> (r: bool)
    ensures
        r == (s@.len() > 0 && s@[0] == '-'),
{
    let cs = chars_of(s);
    cs.len() > 0 && cs[0] == '-'
}

/// Reads the arguments of `topo` (without the program name).
pub fn parse_args(args: Vec<String>) -> (r: Result<Options, String>)
    ensures
        match r {
            Ok(o) => parse_args_spec(crate::text::views(args@)) == Ok::<OptionsV, Seq<char>>(o@),
            Err(e) => parse_args_spec(crate::text::views(args@)) == Err::<OptionsV, Seq<char>>(e@),
        },
{
    let ghost av = crate::text::views(args@);
    proof {
        reveal_strlit("--help");
        reveal_strlit("-h");
    }
    if args.len() == 0 {
        return Err(usage());
    }
    proof {
        assert(av[0] == args@[0]@);
    }
    if same_text(args[0].as_str(), "--help") || same_text(args[0].as_str(), "-h") {
        return Err(usage());
    }
    if !same_text(args[0].as_str(), "map") {
        let mut e = owned("unknown command `");
        append_str(&mut e, args[0].as_str());
        append_str(&mut e, "`\n\n");
        let u = usage();
        append_str(&mut e, u.as_str());
        return Err(e);
    }
    let mut pattern: Option<String> = None;
    let mut output: Option<String> = None;
    let mut scan_directory: Option<String> = None;
    let mut mode: Option<MapMode> = None;
    let mut i: usize = 1;
    while i < args.len()
        invariant
            av == crate::text::views(args@),
            av.len() == args@.len(),
            1 <= i <= args@.len() + 1,
            parse_args_spec(av) == parse_options(
                av,
                i as int,
                (pattern.deep_view(), output.deep_view(), scan_directory.deep_view(), mode),
            ),
        decreases args@.len() + 1 - i,
    {
        let a = args[i].as_str();
        proof {
            assert(av[i as int] == a@);
            if i + 1 < args@.len() {
                assert(av[i + 1] == args@[i + 1]@);
            }
        }
        if same_text(a, "--output") || same_text(a, "-o") {
            if i + 1 >= args.len() {
                return Err(owned("--output needs a filename"));
            }
            output = Some(copy_string(&args[i + 1]));
            i = i + 2;
        } else if same_text(a, "--dir") {
            if i + 1 >= args.len() {
                return Err(owned("--dir needs a directory"));
            }
            scan_directory = Some(copy_string(&args[i + 1]));
            i = i + 2;
        } else if same_text(a, "--mode") {
            if i + 1 >= args.len() {
                return Err(owned("--mode needs a value"));
            }
            match MapMode::parse(args[i + 1].as_str()) {
                Ok(m) => {
                    mode = Some(m);
                },
                Err(e) => {
                    return Err(e);
                },
            }
            i = i + 2;
        } else if same_text(a, "--help") || same_text(a, "-h") {
            return Err(usage());
        } else if starts_with_dash(a) || pattern.is_some() {
            let mut e = owned("unexpected argument `");
            append_str(&mut e, a);
            append_str(&mut e, "`\n\n");
            let u = usage();
            append_str(&mut e, u.as_str());
            return Err(e);
        } else {
            pattern = Some(owned(a));
            i = i + 1;
        }
    }
    Ok(Options { pattern, output, scan_directory, mode })
}

// ---------------------------------------------------------------------------
// The workspace configuration
// ---------------------------------------------------------------------------

/// The workspace's `topo.toml`: the repository to scan and the pattern.
#[derive(Debug)]
pub struct WorkspaceConfig {
    pub version: u8,
    pub scan_dir: String,
    pub pattern: String,
}

/// What checking a configuration read from `display` gives: its version
/// must be 1, and neither its directory nor its pattern may be blank.
pub open spec fn config_check_of(r: Result<(), String>, c: WorkspaceConfig, display: Seq<char>) -> bool {
    if c.version != 1 {
        r is Err && r->Err_0@ == "invalid "@ + display + ": version must be 1"@
    } else if blank(c.scan_dir@) {
        r is Err && r->Err_0@ == "invalid "@ + display + ": scan_dir must not be empty"@
    } else if blank(c.pattern@) {
        r is Err && r->Err_0@ == "invalid "@ + display + ": pattern must not be empty"@
    } else {
        r is Ok
    }
}

/// Checks a configuration read from `display`.
pub fn check_workspace_config(config: &WorkspaceConfig, display: &str) -> (r: Result<(), String>)
    ensures
        config_check_of(r, *config, display@),
{
    let problem = if config.version != 1 {
        ": version must be 1"
    } else if trim(config.scan_dir.as_str()).unicode_len() == 0 {
        ": scan_dir must not be empty"
    } else if trim(config.pattern.as_str()).unicode_len() == 0 {
        ": pattern must not be empty"
    } else {
        return Ok(());
    };
    let mut e = owned("invalid ");
    append_str(&mut e, display);
    append_str(&mut e, problem);
    Err(e)
}

// ---------------------------------------------------------------------------
// The settings of a map
// ---------------------------------------------------------------------------

/// The pattern, mode and (unresolved) scan directory of a map.
#[derive(Debug)]
pub struct Settings {
    pub pattern: String,
    pub mode: MapMode,
    pub scan_directory: String,
}

/// The message when neither the command line nor the configuration gives
/// a pattern.
pub open spec fn no_pattern_text() -> Seq<char> {
    "no regex supplied; pass one to `topo map` or set pattern in topo.toml"@
}

/// The settings that the options and the configuration give: the command
/// line wins over the configuration; the mode defaults to `All`, the scan
/// directory to the workspace.
pub fn resolve_settings(options: &Options, config: &Option<WorkspaceConfig>, workspace: &str) -> (r: Result<
    Settings,
    String,
>)
    ensures
        match r {
            Ok(s) => {
                &&& s.pattern@ == match options.pattern {
                    Some(p) => p@,
                    None => config->Some_0.pattern@,
                }
                &&& (options.pattern is Some || config is Some)
                &&& s.mode == match options.mode {
                    Some(m) => m,
                    None => MapMode::All,
                }
                &&& s.scan_directory@ == match options.scan_directory {
                    Some(d) => d@,
                    None => match config {
                        Some(c) => c.scan_dir@,
                        None => workspace@,
                    },
                }
            },
            Err(e) => options.pattern is None && config is None && e@ == no_pattern_text(),
        },
{
    let pattern = match &options.pattern {
        Some(p) => copy_string(p),
        None => match config {
            Some(c) => copy_string(&c.pattern),
            None => {
                return Err(owned("no regex supplied; pass one to `topo map` or set pattern in topo.toml"));
            },
        },
    };
    let mode = match options.mode {
        Some(m) => m,
        None => MapMode::All,
    };
    let scan_directory = match &options.scan_directory {
        Some(d) => copy_string(d),
        None => match config {
            Some(c) => copy_string(&c.scan_dir),
            None => owned(workspace),
        },
    };
    Ok(Settings { pattern, mode, scan_directory })
}

/// The message when `~` cannot be expanded.
pub open spec fn no_home_text() -> Seq<char> {
    "cannot expand ~ because HOME is not set"@
}

/// Where a scan directory given in the workspace is: `~` and `~/...` are
/// under the home directory, a rooted path is itself, and any other path
/// is under the workspace.
pub open spec fn resolved_path(path: Seq<char>, workspace: Seq<char>, home: Option<Seq<char>>) -> Result<
    Seq<char>,
    Seq<char>,
> {
    if path == "~"@ {
        match home {
            Some(h) => Ok(h),
            None => Err(no_home_text()),
        }
    } else if path.len() >= 2 && path[0] == '~' && path[1] == '/' {
        match home {
            Some(h) => Ok(joined(h, path.skip(2))),
            None => Err(no_home_text()),
        }
    } else if rooted(path) {
        Ok(path)
    } else {
        Ok(joined(workspace, path))
    }
}

/// Resolves a scan directory given in the workspace.
pub fn resolve_workspace_path(path: &str, workspace: &str, home: Option<&str>) -> (r: Result<String, String>)
    ensures
        match r {
            Ok(p) => resolved_path(path@, workspace@, home.deep_view()) == Ok::<Seq<char>, Seq<char>>(p@),
            Err(e) => resolved_path(path@, workspace@, home.deep_view()) == Err::<Seq<char>, Seq<char>>(e@),
        },
{
    let cs = chars_of(path);
    proof {
        reveal_strlit("~");
        assert("~"@ =~= seq!['~']);
    }
    let tilde_slash = cs.len() >= 2 && cs[0] == '~' && cs[1] == '/';
    if same_text(path, "~") || tilde_slash {
        let h = match home {
            Some(h) => h,
            None => {
                return Err(owned("cannot expand ~ because HOME is not set"));
            },
        };
        if tilde_slash {
            let rest = string_from_chars(vstd::slice::slice_subrange(cs.as_slice(), 2, cs.len()));
            proof {
                assert(rest@ == path@.skip(2));
                assert(path@ != "~"@);
            }
            Ok(join_path(h, rest.as_str()))
        } else {
            Ok(owned(h))
        }
    } else if is_rooted(path) {
        Ok(owned(path))
    } else {
        Ok(join_path(workspace, path))
    }
}

} // verus!
