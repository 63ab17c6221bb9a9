//! Whether two map reports can be correlated, and the correlation report
//! that is made of them.
use vstd::prelude::*;

use crate::correlation::{Entry, correlate, correlation_of};
use crate::model::{FORMAT_VERSION, Report};
use crate::normalize::SENTINEL;
use crate::paths::{strip_path_prefix, strip_prefix_spec};
use crate::text::{append_str, chars_of, decimal, decimal_u64, owned, push_char, same_text, views};

verus! {

/// The version of the correlation report format.
pub const CORRELATION_VERSION: u8 = 1;

/// What two reports share, and what may make their correlation unreliable.
#[derive(Debug)]
pub struct Compatibility {
    pub repository_root: String,
    pub scan_scope: String,
    pub same_revision: Option<bool>,
    pub warnings: Vec<String>,
}

/// Where the two reports came from.
#[derive(Debug)]
pub struct Provenance {
    pub old_input: String,
    pub new_input: String,
    pub limitation: String,
}

/// A correlation report: the two map reports and their correlation.
#[derive(Debug)]
pub struct CorrelationReport {
    pub report_type: String,
    pub format_version: u8,
    pub created_at_unix_seconds: u64,
    pub sentinel: String,
    pub provenance: Provenance,
    pub compatibility: Compatibility,
    pub old_report: Report,
    pub new_report: Report,
    pub entries: Vec<Entry>,
}

/// `s` with every backslash turned into a slash.
pub open spec fn forward_slashes(s: Seq<char>) -> Seq<char> {
    s.map_values(|c: char| if c == '\\' { '/' } else { c })
}

/// The scan scope of a report: its scan directory relative to its
/// repository root, with forward slashes.
pub open spec fn scope_spec(r: Report) -> Option<Seq<char>> {
    match strip_prefix_spec(r.metadata.scan_directory@, r.metadata.repository_root@) {
        Some(rel) => Some(forward_slashes(rel)),
        None => None,
    }
}

/// `s` with every backslash turned into a slash.
pub fn with_forward_slashes(s: &str) -> (r: String)
    ensures
        r@ == forward_slashes(s@),
{
    let cs = chars_of(s);
    let mut r = String::new();
    let mut i: usize = 0;
    while i < cs.len()
        invariant
            cs@ == s@,
            0 <= i <= cs@.len(),
            r@ == forward_slashes(cs@.take(i as int)),
        decreases cs@.len() - i,
    {
        let c = cs[i];
        if c == '\\' {
            push_char(&mut r, '/');
        } else {
            push_char(&mut r, c);
        }
        i = i + 1;
        assert(r@ =~= forward_slashes(cs@.take(i as int)));
    }
    assert(cs@.take(i as int) == cs@);
    r
}

/// The scan scope of a report, or an error when its scan directory lies
/// outside its repository root.
pub fn scope(report: &Report) -> (r: Result<String, String>)
    ensures
        match r {
            Ok(s) => scope_spec(*report) == Some(s@),
            Err(e) => scope_spec(*report) is None && e@
                == "a scan directory is outside its recorded repository root"@,
        },
{
    match strip_path_prefix(
        report.metadata.scan_directory.as_str(),
        report.metadata.repository_root.as_str(),
    ) {
        Some(rel) => Ok(with_forward_slashes(rel.as_str())),
        None => Err(owned("a scan directory is outside its recorded repository root")),
    }
}

/// The message for reports with different repository roots.
pub open spec fn roots_message(old: Seq<char>, new: Seq<char>) -> Seq<char> {
    "reports use different repository roots: `"@ + old + "` and `"@ + new + "`"@
}

/// The message for reports with different scan scopes.
pub open spec fn scopes_message(old: Seq<char>, new: Seq<char>) -> Seq<char> {
    "reports use different scan scopes: `"@ + old + "` and `"@ + new + "`"@
}

/// Whether the reports record the same Git revision, when both record one.
pub open spec fn same_revision_spec(old: Report, new: Report) -> Option<bool> {
    match (old.metadata.git_revision, new.metadata.git_revision) {
        (Some(a), Some(b)) => Some(a@ == b@),
        _ => None,
    }
}

/// The warnings of two compatible reports: about their revisions, then
/// about dirty working trees.
pub open spec fn compatibility_warnings(old: Report, new: Report) -> Seq<Seq<char>> {
    let revision: Seq<Seq<char>> = match same_revision_spec(old, new) {
        Some(false) => seq![
            "Scans record different Git revisions; correlation may include unrelated source changes."@,
        ],
        None => seq![
            "At least one input lacks Git revision metadata, so equal repository state cannot be verified."@,
        ],
        Some(true) => Seq::empty(),
    };
    let dirty: Seq<Seq<char>> = if old.metadata.git_dirty == Some(true) || new.metadata.git_dirty == Some(
        true,
    ) {
        seq![
            "At least one scan used a dirty working tree; its revision does not fully identify the source state."@,
        ]
    } else {
        Seq::empty()
    };
    revision + dirty
}

/// `r` is what validating `old` against `new` gives: an error when their
/// repository roots differ, when a scan directory lies outside its root, or
/// when their scan scopes differ; otherwise what they share and the
/// warnings about their revisions.
pub open spec fn validation_of(r: Result<Compatibility, String>, old: Report, new: Report) -> bool {
    let oroot = old.metadata.repository_root@;
    let nroot = new.metadata.repository_root@;
    if oroot != nroot {
        r is Err && r->Err_0@ == roots_message(oroot, nroot)
    } else if scope_spec(old) is None || scope_spec(new) is None {
        r is Err && r->Err_0@ == "a scan directory is outside its recorded repository root"@
    } else if scope_spec(old) != scope_spec(new) {
        r is Err && r->Err_0@ == scopes_message(scope_spec(old)->0, scope_spec(new)->0)
    } else {
        &&& r is Ok
        &&& r->Ok_0.repository_root@ == oroot
        &&& r->Ok_0.scan_scope@ == scope_spec(old)->0
        &&& r->Ok_0.same_revision == same_revision_spec(old, new)
        &&& views(r->Ok_0.warnings@) == compatibility_warnings(old, new)
    }
}

/// Checks that two reports describe the same repository and scan scope.
pub fn validate(old: &Report, new: &Report) -> (r: Result<Compatibility, String>)
    ensures
        validation_of(r, *old, *new),
{
    if !same_text(old.metadata.repository_root.as_str(), new.metadata.repository_root.as_str()) {
        let mut m = owned("reports use different repository roots: `");
        append_str(&mut m, old.metadata.repository_root.as_str());
        append_str(&mut m, "` and `");
        append_str(&mut m, new.metadata.repository_root.as_str());
        append_str(&mut m, "`");
        return Err(m);
    }
    let old_scope = match scope(old) {
        Ok(s) => s,
        Err(e) => {
            return Err(e);
        },
    };
    let new_scope = match scope(new) {
        Ok(s) => s,
        Err(e) => {
            return Err(e);
        },
    };
    if !same_text(old_scope.as_str(), new_scope.as_str()) {
        let mut m = owned("reports use different scan scopes: `");
        append_str(&mut m, old_scope.as_str());
        append_str(&mut m, "` and `");
        append_str(&mut m, new_scope.as_str());
        append_str(&mut m, "`");
        return Err(m);
    }
    let same_revision = match (&old.metadata.git_revision, &new.metadata.git_revision) {
        (Some(a), Some(b)) => Some(same_text(a.as_str(), b.as_str())),
        _ => None,
    };
    let mut warnings: Vec<String> = Vec::new();
    match same_revision {
        Some(false) => {
            warnings.push(
                owned(
                    "Scans record different Git revisions; correlation may include unrelated source changes.",
                ),
            );
        },
        None => {
            warnings.push(
                owned(
                    "At least one input lacks Git revision metadata, so equal repository state cannot be verified.",
                ),
            );
        },
        Some(true) => {},
    }
    let ghost first = views(warnings@);
    let old_dirty = match old.metadata.git_dirty {
        Some(d) => d,
        None => false,
    };
    let new_dirty = match new.metadata.git_dirty {
        Some(d) => d,
        None => false,
    };
    if old_dirty || new_dirty {
        warnings.push(
            owned(
                "At least one scan used a dirty working tree; its revision does not fully identify the source state.",
            ),
        );
    }
    proof {
        assert(views(warnings@) =~= compatibility_warnings(*old, *new));
    }
    Ok(Compatibility {
        repository_root: old.metadata.repository_root.clone(),
        scan_scope: old_scope,
        same_revision,
        warnings,
    })
}

/// `r` is what checking a report that was read from `display` gives: it is
/// refused unless it is a map report of a format this library reads.
pub open spec fn map_check_of(r: Result<(), String>, report: Report, display: Seq<char>) -> bool {
    if report.report_type@ != "topo_map"@ {
        r is Err && r->Err_0@ == display + " is not a topo map report"@
    } else if report.format_version > FORMAT_VERSION {
        r is Err && r->Err_0@ == display + " uses unsupported map format version "@ + decimal(
            report.format_version as nat,
        )
    } else {
        r is Ok
    }
}

/// Checks that a report read from `display` is a map report of a format
/// this library reads.
pub fn check_map_report(report: &Report, display: &str) -> (r: Result<(), String>)
    ensures
        map_check_of(r, *report, display@),
{
    if !same_text(report.report_type.as_str(), "topo_map") {
        let mut m = owned(display);
        append_str(&mut m, " is not a topo map report");
        return Err(m);
    }
    if report.format_version > FORMAT_VERSION {
        let mut m = owned(display);
        append_str(&mut m, " uses unsupported map format version ");
        let v = decimal_u64(report.format_version as u64);
        append_str(&mut m, v.as_str());
        return Err(m);
    }
    Ok(())
}

/// What the correlation report says of the limits of its evidence.
pub open spec fn limitation_text() -> Seq<char> {
    "Embedded source is authoritative scan evidence. Reports without git_revision cannot establish that scans used the same repository state."@
}

/// The correlation report of two map reports read from `old_input` and
/// `new_input`, made at `created_at`: refused as `validate` refuses the
/// pair; otherwise the two reports, what they share and their correlation.
pub fn correlation_report(
    old: Report,
    new: Report,
    old_input: String,
    new_input: String,
    created_at: u64,
) -> (r: Result<CorrelationReport, String>)
    ensures
        match r {
            Ok(c) => {
                &&& validation_of(Ok(c.compatibility), old, new)
                &&& c.report_type@ == "topo_correlation"@
                &&& c.format_version == CORRELATION_VERSION
                &&& c.created_at_unix_seconds == created_at
                &&& c.sentinel@ == SENTINEL@
                &&& c.provenance.old_input@ == old_input@
                &&& c.provenance.new_input@ == new_input@
                &&& c.provenance.limitation@ == limitation_text()
                &&& correlation_of(c.entries@, old, new)
                &&& c.old_report == old
                &&& c.new_report == new
            },
            Err(e) => validation_of(Err(e), old, new),
        },
{
    let compatibility = match validate(&old, &new) {
        Ok(c) => c,
        Err(e) => {
            return Err(e);
        },
    };
    let entries = correlate(&old, &new);
    Ok(CorrelationReport {
        report_type: owned("topo_correlation"),
        format_version: CORRELATION_VERSION,
        created_at_unix_seconds: created_at,
        sentinel: owned(SENTINEL),
        provenance: Provenance {
            old_input,
            new_input,
            limitation: owned(
                "Embedded source is authoritative scan evidence. Reports without git_revision cannot establish that scans used the same repository state.",
            ),
        },
        compatibility,
        old_report: old,
        new_report: new,
        entries,
    })
}

} // verus!
