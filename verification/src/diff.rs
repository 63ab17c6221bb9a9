//! Line diffs and region comparisons of one file across two scans, made on
//! the normalized texts so that renamed identifiers still line up.
use vstd::prelude::*;
use vstd::utf8::encode_utf8;

use crate::lcs::{lcs, lcs_walk, lemma_lcs_walk, is_common_subsequence};
use crate::model::{Match, PathMatch};
use crate::normalize::{
    ContentRange, count_nl, lemma_normalized_keeps_line_feeds, normalizable, normalized_text, normalized_text_spec,
    ranges_within_lines,
};
use crate::text::{crlf_to_lf, lines, lines_spec, owned, split_spec, views};

verus! {

/// One file as one scan saw it.
#[derive(Debug)]
pub struct Side {
    pub path: String,
    pub path_match_ranges: Vec<PathMatch>,
    pub content: Option<String>,
    pub matches: Vec<Match>,
    pub content_normalization_ranges: Vec<ContentRange>,
}

/// How two versions of a text compare.
#[derive(Clone, Copy, Debug, PartialEq, Eq, Structural)]
pub enum DiffClassification {
    Unchanged,
    RenameEquivalent,
    Substantive,
    Unavailable,
}

/// How one line (or region) of a diff compares.
#[derive(Clone, Copy, Debug, PartialEq, Eq, Structural)]
pub enum DiffKind {
    Unchanged,
    RenameEquivalent,
    Addition,
    Deletion,
    Modification,
}

/// One line of a diff, with 1-based line numbers.
#[derive(Debug)]
pub struct DiffLine {
    pub kind: DiffKind,
    pub old_line: Option<usize>,
    pub new_line: Option<usize>,
    pub old_text: Option<String>,
    pub new_text: Option<String>,
}

/// The abstract value of a diff line.
pub type DiffLineV = (DiffKind, Option<usize>, Option<usize>, Option<Seq<char>>, Option<Seq<char>>);

impl View for DiffLine {
    type V = DiffLineV;

    open spec fn view(&self) -> DiffLineV {
        (self.kind, self.old_line, self.new_line, self.old_text.deep_view(), self.new_text.deep_view())
    }
}

/// The diff of a file that both scans found under a paired name.
#[derive(Debug)]
pub struct SmartDiff {
    pub classification: DiffClassification,
    pub lines: Vec<DiffLine>,
}

pub open spec fn line_views(v: Seq<DiffLine>) -> Seq<DiffLineV> {
    v.map_values(|l: DiffLine| l@)
}

/// The side can be normalized: its ranges can be replaced in its content.
pub open spec fn side_normalizable(s: Side) -> bool {
    s.content matches Some(c) ==> normalizable(c@, s.content_normalization_ranges@)
}

/// The side's ranges have their start no later than their end.
pub open spec fn side_ranges_ordered(s: Side) -> bool {
    forall|k: int|
        0 <= k < s.content_normalization_ranges@.len() ==> (
        #[trigger] s.content_normalization_ranges@[k]).start_byte
            <= s.content_normalization_ranges@[k].end_byte
}

/// The normalized text of a side with content.
pub open spec fn side_normalized(s: Side) -> Seq<char> {
    normalized_text_spec(s.content->Some_0@, s.content_normalization_ranges@)
}

/// The content of a side with its ranges replaced by the sentinel, or
/// `None` without content.
pub fn normalized(side: &Side) -> (r: Option<String>)
    requires
        side_normalizable(*side),
    ensures
        r is Some <==> side.content is Some,
        r matches Some(t) ==> t@ == side_normalized(*side),
{
    match &side.content {
        Some(c) => Some(normalized_text(c.as_str(), side.content_normalization_ranges.as_slice())),
        None => None,
    }
}

// ---------------------------------------------------------------------------
// The parts of a line diff
// ---------------------------------------------------------------------------

/// `e - s`, or 0 when `e` is not above `s`.
pub open spec fn gap(s: int, e: int) -> int {
    if e > s {
        e - s
    } else {
        0
    }
}

pub open spec fn min_of(a: int, b: int) -> int {
    if a <= b {
        a
    } else {
        b
    }
}

/// Modifications pairing `old[os + k]` with `new[ns + k]` for `k < count`.
pub open spec fn modifications(old: Seq<Seq<char>>, new: Seq<Seq<char>>, os: int, ns: int, count: int) -> Seq<
    DiffLineV,
> {
    Seq::new(
        count as nat,
        |k: int|
            (
                DiffKind::Modification,
                Some((os + k + 1) as usize),
                Some((ns + k + 1) as usize),
                Some(old[os + k]),
                Some(new[ns + k]),
            ),
    )
}

/// Deletions of `old[from..to]`.
pub open spec fn deletions(old: Seq<Seq<char>>, from: int, to: int) -> Seq<DiffLineV> {
    Seq::new(
        gap(from, to) as nat,
        |k: int|
            (
                DiffKind::Deletion,
                Some((from + k + 1) as usize),
                None::<usize>,
                Some(old[from + k]),
                None::<Seq<char>>,
            ),
    )
}

/// Additions of `new[from..to]`.
pub open spec fn additions(new: Seq<Seq<char>>, from: int, to: int) -> Seq<DiffLineV> {
    Seq::new(
        gap(from, to) as nat,
        |k: int|
            (
                DiffKind::Addition,
                None::<usize>,
                Some((from + k + 1) as usize),
                None::<Seq<char>>,
                Some(new[from + k]),
            ),
    )
}

/// The diff lines for the unmatched lines `old[os..oe]` and `new[ns..ne]`:
/// as many as both have are paired as modifications, the rest of the old
/// ones are deletions, the rest of the new ones additions.
pub open spec fn changed_spec(
    old: Seq<Seq<char>>,
    new: Seq<Seq<char>>,
    os: int,
    oe: int,
    ns: int,
    ne: int,
) -> Seq<DiffLineV> {
    let paired = min_of(gap(os, oe), gap(ns, ne));
    modifications(old, new, os, ns, paired) + deletions(old, os + paired, oe) + additions(
        new,
        ns + paired,
        ne,
    )
}

/// The diff lines of one step: the unmatched lines before the matched pair
/// `(oe, ne)` (clamped to the texts), then the pair itself, unchanged when
/// the original lines are equal and a rename otherwise.
pub open spec fn step_lines(
    old: Seq<Seq<char>>,
    new: Seq<Seq<char>>,
    os: int,
    ns: int,
    oe: int,
    ne: int,
) -> Seq<DiffLineV> {
    changed_spec(old, new, os, min_of(oe, old.len() as int), ns, min_of(ne, new.len() as int)) + if oe
        < old.len() && ne < new.len() {
        seq![
            (
                if old[oe] == new[ne] {
                    DiffKind::Unchanged
                } else {
                    DiffKind::RenameEquivalent
                },
                Some((oe + 1) as usize),
                Some((ne + 1) as usize),
                Some(old[oe]),
                Some(new[ne]),
            ),
        ]
    } else {
        Seq::<DiffLineV>::empty()
    }
}

/// Where step `k` ends: at the `k`-th matched pair, or at the ends of the
/// texts after the last pair.
pub open spec fn step_end(pairs: Seq<(usize, usize)>, k: int, ol: int, nl: int) -> (int, int) {
    if k < pairs.len() {
        (pairs[k].0 as int, pairs[k].1 as int)
    } else {
        (ol, nl)
    }
}

/// Where step `k` starts: right after the previous pair.
pub open spec fn step_start(pairs: Seq<(usize, usize)>, k: int, ol: int, nl: int) -> (int, int) {
    if k <= 0 {
        (0, 0)
    } else {
        (step_end(pairs, k - 1, ol, nl).0 + 1, step_end(pairs, k - 1, ol, nl).1 + 1)
    }
}

/// The diff lines of the first `k` steps.
pub open spec fn diff_prefix(
    old: Seq<Seq<char>>,
    new: Seq<Seq<char>>,
    pairs: Seq<(usize, usize)>,
    k: int,
) -> Seq<DiffLineV>
    decreases k,
{
    if k <= 0 {
        Seq::<DiffLineV>::empty()
    } else {
        let s = step_start(pairs, k - 1, old.len() as int, new.len() as int);
        let e = step_end(pairs, k - 1, old.len() as int, new.len() as int);
        diff_prefix(old, new, pairs, k - 1) + step_lines(old, new, s.0, s.1, e.0, e.1)
    }
}

/// The line diff of `old` and `new`, aligned by the common subsequence of
/// their normalized lines `nold` and `nnew`.
pub open spec fn diff_lines_spec(
    old: Seq<Seq<char>>,
    new: Seq<Seq<char>>,
    nold: Seq<Seq<char>>,
    nnew: Seq<Seq<char>>,
) -> Seq<DiffLineV> {
    let pairs = lcs_walk(nold, nnew, 0, 0);
    diff_prefix(old, new, pairs, pairs.len() + 1int)
}

pub open spec fn is_change(k: DiffKind) -> bool {
    k == DiffKind::Addition || k == DiffKind::Deletion || k == DiffKind::Modification
}

/// Substantive when a line was added, deleted or modified; else a rename
/// when some pair differs; else unchanged.
pub open spec fn classify(lines: Seq<DiffLineV>) -> DiffClassification {
    if exists|i: int| 0 <= i < lines.len() && is_change(#[trigger] lines[i].0) {
        DiffClassification::Substantive
    } else if exists|i: int| 0 <= i < lines.len() && #[trigger] lines[i].0 == DiffKind::RenameEquivalent {
        DiffClassification::RenameEquivalent
    } else {
        DiffClassification::Unchanged
    }
}

fn push_line(
    result: &mut Vec<DiffLine>,
    kind: DiffKind,
    old_line: Option<usize>,
    new_line: Option<usize>,
    old_text: Option<String>,
    new_text: Option<String>,
)
    ensures
        line_views(final(result)@) == line_views(old(result)@).push(
            (kind, old_line, new_line, old_text.deep_view(), new_text.deep_view()),
        ),
{
    let ghost before = result@;
    result.push(DiffLine { kind, old_line, new_line, old_text, new_text });
    assert(line_views(result@) =~= line_views(before).push(
        (kind, old_line, new_line, old_text.deep_view(), new_text.deep_view()),
    ));
}

fn push_modifications(
    result: &mut Vec<DiffLine>,
    old_lines: &[String],
    new_lines: &[String],
    old_start: usize,
    new_start: usize,
    count: usize,
)
    requires
        count > 0 ==> old_start + count <= old_lines@.len(),
        count > 0 ==> new_start + count <= new_lines@.len(),
    ensures
        line_views(final(result)@) == line_views(old(result)@) + modifications(
            views(old_lines@),
            views(new_lines@),
            old_start as int,
            new_start as int,
            count as int,
        ),
{
    let ghost start = line_views(result@);
    let ghost spec = modifications(
        views(old_lines@),
        views(new_lines@),
        old_start as int,
        new_start as int,
        count as int,
    );
    let ol = old_lines.len();
    let nl = new_lines.len();
    let mut offset: usize = 0;
    while offset < count
        invariant
            ol == old_lines@.len(),
            nl == new_lines@.len(),
            count > 0 ==> old_start + count <= old_lines@.len(),
            count > 0 ==> new_start + count <= new_lines@.len(),
            spec == modifications(
                views(old_lines@),
                views(new_lines@),
                old_start as int,
                new_start as int,
                count as int,
            ),
            0 <= offset <= count,
            line_views(result@) == start + spec.take(offset as int),
        decreases count - offset,
    {
        let oi = old_start + offset;
        let ni = new_start + offset;
        push_line(
            result,
            DiffKind::Modification,
            Some(oi + 1),
            Some(ni + 1),
            Some(old_lines[oi].clone()),
            Some(new_lines[ni].clone()),
        );
        offset = offset + 1;
        assert(spec.take(offset as int) =~= spec.take(offset - 1).push(spec[offset - 1]));
    }
    assert(spec.take(count as int) =~= spec);
}

fn push_deletions(result: &mut Vec<DiffLine>, old_lines: &[String], from: usize, to: usize)
    requires
        to <= old_lines@.len(),
    ensures
        line_views(final(result)@) == line_views(old(result)@) + deletions(
            views(old_lines@),
            from as int,
            to as int,
        ),
{
    let ghost start = line_views(result@);
    let ghost spec = deletions(views(old_lines@), from as int, to as int);
    let mut index = from;
    while index < to
        invariant
            to <= old_lines@.len(),
            spec == deletions(views(old_lines@), from as int, to as int),
            from <= index,
            index <= to || index == from,
            line_views(result@) == start + spec.take(index - from),
        decreases to - index,
    {
        push_line(result, DiffKind::Deletion, Some(index + 1), None, Some(old_lines[index].clone()), None);
        index = index + 1;
        let t = index - from;
        assert(spec.take(t as int) =~= spec.take(t - 1).push(spec[t - 1]));
    }
    assert(spec.take(gap(from as int, to as int)) =~= spec);
}

fn push_additions(result: &mut Vec<DiffLine>, new_lines: &[String], from: usize, to: usize)
    requires
        to <= new_lines@.len(),
    ensures
        line_views(final(result)@) == line_views(old(result)@) + additions(
            views(new_lines@),
            from as int,
            to as int,
        ),
{
    let ghost start = line_views(result@);
    let ghost spec = additions(views(new_lines@), from as int, to as int);
    let mut index = from;
    while index < to
        invariant
            to <= new_lines@.len(),
            spec == additions(views(new_lines@), from as int, to as int),
            from <= index,
            index <= to || index == from,
            line_views(result@) == start + spec.take(index - from),
        decreases to - index,
    {
        push_line(result, DiffKind::Addition, None, Some(index + 1), None, Some(new_lines[index].clone()));
        index = index + 1;
        let t = index - from;
        assert(spec.take(t as int) =~= spec.take(t - 1).push(spec[t - 1]));
    }
    assert(spec.take(gap(from as int, to as int)) =~= spec);
}

/// Appends the diff lines for the unmatched lines `old_lines[old_start..old_end]`
/// and `new_lines[new_start..new_end]`.
pub fn changed(
    result: &mut Vec<DiffLine>,
    old_lines: &[String],
    new_lines: &[String],
    old_start: usize,
    old_end: usize,
    new_start: usize,
    new_end: usize,
)
    requires
        old_end <= old_lines@.len(),
        new_end <= new_lines@.len(),
    ensures
        line_views(final(result)@) == line_views(old(result)@) + changed_spec(
            views(old_lines@),
            views(new_lines@),
            old_start as int,
            old_end as int,
            new_start as int,
            new_end as int,
        ),
{
    let og = if old_end > old_start {
        old_end - old_start
    } else {
        0
    };
    let ng = if new_end > new_start {
        new_end - new_start
    } else {
        0
    };
    let paired = if og <= ng {
        og
    } else {
        ng
    };
    push_modifications(result, old_lines, new_lines, old_start, new_start, paired);
    push_deletions(result, old_lines, old_start + paired, old_end);
    push_additions(result, new_lines, new_start + paired, new_end);
    assert(line_views(result@) =~= line_views(old(result)@) + changed_spec(
        views(old_lines@),
        views(new_lines@),
        old_start as int,
        old_end as int,
        new_start as int,
        new_end as int,
    ));
}


/// Appends the diff lines of one step.
fn diff_step(
    result: &mut Vec<DiffLine>,
    old_lines: &[String],
    new_lines: &[String],
    os: usize,
    ns: usize,
    oe: usize,
    ne: usize,
)
    ensures
        line_views(final(result)@) == line_views(old(result)@) + step_lines(
            views(old_lines@),
            views(new_lines@),
            os as int,
            ns as int,
            oe as int,
            ne as int,
        ),
{
    let ol = old_lines.len();
    let nl = new_lines.len();
    let oe2 = if oe <= ol {
        oe
    } else {
        ol
    };
    let ne2 = if ne <= nl {
        ne
    } else {
        nl
    };
    let ghost start = line_views(result@);
    changed(result, old_lines, new_lines, os, oe2, ns, ne2);
    if oe < ol && ne < nl {
        let ghost mid = line_views(result@);
        let kind = if old_lines[oe] == new_lines[ne] {
            DiffKind::Unchanged
        } else {
            DiffKind::RenameEquivalent
        };
        push_line(
            result,
            kind,
            Some(oe + 1),
            Some(ne + 1),
            Some(old_lines[oe].clone()),
            Some(new_lines[ne].clone()),
        );
    }
    assert(line_views(result@) =~= start + step_lines(
        views(old_lines@),
        views(new_lines@),
        os as int,
        ns as int,
        oe as int,
        ne as int,
    ));
}

/// The line diff of two texts aligned by the common subsequence of their
/// normalized lines.
fn diff_lines(
    old_lines: &[String],
    new_lines: &[String],
    old_normalized: &[String],
    new_normalized: &[String],
) -> (r: Vec<DiffLine>)
    ensures
        line_views(r@) == diff_lines_spec(
            views(old_lines@),
            views(new_lines@),
            views(old_normalized@),
            views(new_normalized@),
        ),
{
    let ghost o = views(old_lines@);
    let ghost n = views(new_lines@);
    let pairs = lcs(old_normalized, new_normalized);
    let ghost a = views(old_normalized@);
    let ghost b = views(new_normalized@);
    let la = old_normalized.len();
    let lb = new_normalized.len();
    proof {
        lemma_lcs_walk(a, b, 0, 0);
    }
    let mut result: Vec<DiffLine> = Vec::new();
    let mut os: usize = 0;
    let mut ns: usize = 0;
    let mut k: usize = 0;
    while k < pairs.len()
        invariant
            o == views(old_lines@),
            n == views(new_lines@),
            pairs@ == lcs_walk(a, b, 0, 0),
            is_common_subsequence(a, b, pairs@, 0, 0),
            la == a.len(),
            lb == b.len(),
            0 <= k <= pairs@.len(),
            (os as int, ns as int) == step_start(pairs@, k as int, o.len() as int, n.len() as int),
            line_views(result@) == diff_prefix(o, n, pairs@, k as int),
        decreases pairs@.len() - k,
    {
        let (oe, ne) = pairs[k];
        assert(oe < la && ne < lb);
        diff_step(&mut result, old_lines, new_lines, os, ns, oe, ne);
        os = oe + 1;
        ns = ne + 1;
        k = k + 1;
    }
    let ol = old_lines.len();
    let nl = new_lines.len();
    diff_step(&mut result, old_lines, new_lines, os, ns, ol, nl);
    result
}

/// Classifies diff lines: substantive when a line was added, deleted or
/// modified, else a rename when some pair differs, else unchanged.
fn classify_lines(lines: &Vec<DiffLine>) -> (c: DiffClassification)
    ensures
        c == classify(line_views(lines@)),
{
    let ghost v = line_views(lines@);
    let mut change = false;
    let mut rename = false;
    let mut i: usize = 0;
    while i < lines.len()
        invariant
            v == line_views(lines@),
            0 <= i <= lines@.len(),
            change == exists|k: int| 0 <= k < i && is_change(#[trigger] v[k].0),
            rename == exists|k: int| 0 <= k < i && #[trigger] v[k].0 == DiffKind::RenameEquivalent,
        decreases lines@.len() - i,
    {
        let kind = lines[i].kind;
        assert(v[i as int].0 == kind);
        if kind == DiffKind::Addition || kind == DiffKind::Deletion || kind == DiffKind::Modification {
            change = true;
        }
        if kind == DiffKind::RenameEquivalent {
            rename = true;
        }
        i = i + 1;
    }
    if change {
        DiffClassification::Substantive
    } else if rename {
        DiffClassification::RenameEquivalent
    } else {
        DiffClassification::Unchanged
    }
}

/// The number of bytes the ranges cover, counted with repetition.
pub open spec fn range_total(r: Seq<ContentRange>) -> int
    decreases r.len(),
{
    if r.len() == 0 {
        0
    } else {
        range_total(r.drop_last()) + (r.last().end_byte - r.last().start_byte)
    }
}

/// The byte length of a text.
pub open spec fn byte_len(t: Seq<char>) -> int {
    encode_utf8(t).len() as int
}

/// The matches of both sides cover more than half of both texts together.
pub open spec fn broad_matches(old: Side, new: Side) -> bool {
    2 * (range_total(old.content_normalization_ranges@) + range_total(
        new.content_normalization_ranges@,
    )) > byte_len(old.content->Some_0@) + byte_len(new.content->Some_0@)
}

/// The covered bytes of ordered ranges, capped at `2^65`.
fn capped_total(r: &Vec<ContentRange>, start: u128) -> (t: u128)
    requires
        start <= 0x2_0000_0000_0000_0000,
        forall|k: int| 0 <= k < r@.len() ==> (#[trigger] r@[k]).start_byte <= r@[k].end_byte,
    ensures
        t == min_of(start + range_total(r@), 0x2_0000_0000_0000_0000),
{
    let cap: u128 = 0x2_0000_0000_0000_0000;
    let mut t = start;
    let mut i: usize = 0;
    proof {
        lemma_range_total_nonneg(r@);
    }
    while i < r.len()
        invariant
            forall|k: int| 0 <= k < r@.len() ==> (#[trigger] r@[k]).start_byte <= r@[k].end_byte,
            0 <= i <= r@.len(),
            start <= cap,
            cap == 0x2_0000_0000_0000_0000,
            t == min_of(start + range_total(r@.take(i as int)), cap as int),
        decreases r@.len() - i,
    {
        let x = r[i];
        proof {
            assert(r@.take(i + 1).drop_last() == r@.take(i as int));
            lemma_range_total_nonneg(r@.take(i as int));
        }
        let term = (x.end_byte - x.start_byte) as u128;
        let sum = t + term;
        t = if sum >= cap {
            cap
        } else {
            sum
        };
        i = i + 1;
    }
    assert(r@.take(i as int) == r@);
    t
}

proof fn lemma_range_total_nonneg(r: Seq<ContentRange>)
    requires
        forall|k: int| 0 <= k < r.len() ==> (#[trigger] r[k]).start_byte <= r[k].end_byte,
    ensures
        range_total(r) >= 0,
    decreases r.len(),
{
    if r.len() > 0 {
        let t = r.drop_last();
        assert forall|k: int| 0 <= k < t.len() implies (#[trigger] t[k]).start_byte <= t[k].end_byte by {
            assert(t[k] == r[k]);
        }
        lemma_range_total_nonneg(t);
        assert(r[r.len() - 1].start_byte <= r[r.len() - 1].end_byte);
    }
}

/// `d` and `warnings` are the smart diff of the sides `old` and `new`.
pub open spec fn smart_diff_of(d: SmartDiff, warnings: Seq<String>, old: Side, new: Side) -> bool {
    &&& (old.content is None || new.content is None) ==> {
        &&& d.classification == DiffClassification::Unavailable
        &&& d.lines@.len() == 0
        &&& views(warnings) == seq!["Source text is unavailable on at least one side."@]
    }
    &&& (old.content is Some && new.content is Some) ==> {
        &&& line_views(d.lines@) == diff_lines_spec(
            lines_spec(old.content->Some_0@),
            lines_spec(new.content->Some_0@),
            lines_spec(side_normalized(old)),
            lines_spec(side_normalized(new)),
        )
        &&& d.classification == classify(line_views(d.lines@))
        &&& views(warnings) == if broad_matches(old, new) {
            seq![
                "Recorded matches cover more than half of the source; a broad regex may suppress meaningful differences."@,
            ]
        } else {
            Seq::<Seq<char>>::empty()
        }
    }
}

/// Diffs the two sides of a paired file: lines are aligned by the longest
/// common subsequence of the normalized texts (so renames line up), the
/// gaps between aligned lines become modifications, deletions and
/// additions, and aligned lines are unchanged or renames. Without source
/// on a side the diff is unavailable. A warning is added when the matches
/// cover more than half of the source.
pub fn smart_diff(old: &Side, new: &Side) -> (r: (SmartDiff, Vec<String>))
    requires
        side_normalizable(*old),
        side_normalizable(*new),
        old.content is Some && new.content is Some ==> side_ranges_ordered(*old) && side_ranges_ordered(
            *new,
        ),
    ensures
        smart_diff_of(r.0, r.1@, *old, *new),
{
    let (old_content, new_content) = match (&old.content, &new.content) {
        (Some(a), Some(b)) => (a, b),
        _ => {
            let mut warnings: Vec<String> = Vec::new();
            warnings.push(owned("Source text is unavailable on at least one side."));
            let r = (SmartDiff { classification: DiffClassification::Unavailable, lines: Vec::new() }, warnings);
            assert(views(r.1@) =~= seq!["Source text is unavailable on at least one side."@]);
            return r;
        },
    };
    let old_normalized = normalized_text(
        old_content.as_str(),
        old.content_normalization_ranges.as_slice(),
    );
    let new_normalized = normalized_text(
        new_content.as_str(),
        new.content_normalization_ranges.as_slice(),
    );
    let old_lines = lines(old_content.as_str());
    let new_lines = lines(new_content.as_str());
    let old_norm_lines = lines(old_normalized.as_str());
    let new_norm_lines = lines(new_normalized.as_str());
    let result = diff_lines(
        old_lines.as_slice(),
        new_lines.as_slice(),
        old_norm_lines.as_slice(),
        new_norm_lines.as_slice(),
    );
    let classification = classify_lines(&result);
    let total = capped_total(&old.content_normalization_ranges, 0);
    let total = capped_total(&new.content_normalization_ranges, total);
    let old_len = old_content.as_str().as_bytes().len();
    let new_len = new_content.as_str().as_bytes().len();
    let mut warnings: Vec<String> = Vec::new();
    proof {
        lemma_range_total_nonneg(old.content_normalization_ranges@);
        lemma_range_total_nonneg(new.content_normalization_ranges@);
    }
    assert(old_len as int == byte_len(old_content@));
    assert(new_len as int == byte_len(new_content@));
    if 2 * total > old_len as u128 + new_len as u128 {
        warnings.push(
            owned(
                "Recorded matches cover more than half of the source; a broad regex may suppress meaningful differences.",
            ),
        );
    }
    let r = (SmartDiff { classification, lines: result }, warnings);
    assert(views(r.1@) =~= if broad_matches(*old, *new) {
        seq![
            "Recorded matches cover more than half of the source; a broad regex may suppress meaningful differences."@,
        ]
    } else {
        Seq::<Seq<char>>::empty()
    });
    r
}


/// The walk through a text compared with itself pairs each line with itself.
pub(crate) proof fn lemma_walk_self(n: Seq<Seq<char>>, i: int)
    requires
        0 <= i <= n.len(),
        n.len() <= usize::MAX,
    ensures
        lcs_walk(n, n, i, i).len() == n.len() - i,
        forall|k: int|
            0 <= k < n.len() - i ==> #[trigger] lcs_walk(n, n, i, i)[k] == ((i + k) as usize, (i + k) as usize),
    decreases n.len() - i,
{
    if i < n.len() {
        lemma_walk_self(n, i + 1);
        let rest = lcs_walk(n, n, i + 1, i + 1);
        assert(lcs_walk(n, n, i, i) == seq![(i as usize, i as usize)] + rest);
        assert forall|k: int| 0 <= k < n.len() - i implies #[trigger] lcs_walk(n, n, i, i)[k] == (
            (i + k) as usize,
            (i + k) as usize,
        ) by {
            if k > 0 {
                assert(lcs_walk(n, n, i, i)[k] == rest[k - 1]);
            }
        }
    }
}

/// The diff line that pairs line `t` of a text with itself, unchanged.
pub open spec fn self_line(a: Seq<Seq<char>>, t: int) -> DiffLineV {
    (DiffKind::Unchanged, Some((t + 1) as usize), Some((t + 1) as usize), Some(a[t]), Some(a[t]))
}

/// The first `k` steps of the diff of a text with itself pair each of its
/// first `k` lines with itself, unchanged.
proof fn lemma_self_prefix_unchanged(a: Seq<Seq<char>>, pairs: Seq<(usize, usize)>, k: int)
    requires
        a.len() <= usize::MAX,
        pairs.len() == a.len(),
        forall|t: int| 0 <= t < a.len() ==> #[trigger] pairs[t] == (t as usize, t as usize),
        0 <= k <= a.len() + 1,
    ensures
        diff_prefix(a, a, pairs, k).len() == min_of(k, a.len() as int),
        forall|t: int|
            0 <= t < diff_prefix(a, a, pairs, k).len() ==> #[trigger] diff_prefix(a, a, pairs, k)[t]
                == self_line(a, t),
    decreases k,
{
    if k > 0 {
        lemma_self_prefix_unchanged(a, pairs, k - 1);
        let l = a.len() as int;
        let st = step_start(pairs, k - 1, l, l);
        let en = step_end(pairs, k - 1, l, l);
        assert(st.0 == st.1 && en.0 == en.1);
        assert(st.0 == k - 1);
        assert(en.0 == min_of(k - 1, l));
        let changes = changed_spec(a, a, st.0, min_of(en.0, l), st.1, min_of(en.1, l));
        assert(changes.len() == 0);
        let step = step_lines(a, a, st.0, st.1, en.0, en.1);
        let before = diff_prefix(a, a, pairs, k - 1);
        assert(diff_prefix(a, a, pairs, k) == before + step);
        if k - 1 < l {
            assert(step =~= seq![self_line(a, k - 1)]);
        } else {
            assert(step =~= Seq::<DiffLineV>::empty());
        }
        assert forall|t: int|
            0 <= t < diff_prefix(a, a, pairs, k).len() implies #[trigger] diff_prefix(a, a, pairs, k)[t]
                == self_line(a, t) by {
            if t < before.len() {
                assert(diff_prefix(a, a, pairs, k)[t] == before[t]);
            } else {
                assert(diff_prefix(a, a, pairs, k)[t] == step[t - before.len()]);
            }
        }
    }
}

/// A text diffed against itself, aligned by normalized lines as many as
/// its own, is unchanged line by line.
pub proof fn lemma_self_diff_unchanged(a: Seq<Seq<char>>, n: Seq<Seq<char>>)
    requires
        n.len() == a.len(),
        a.len() <= usize::MAX,
    ensures
        diff_lines_spec(a, a, n, n).len() == a.len(),
        forall|t: int| 0 <= t < a.len() ==> #[trigger] diff_lines_spec(a, a, n, n)[t] == self_line(a, t),
        classify(diff_lines_spec(a, a, n, n)) == DiffClassification::Unchanged,
{
    lemma_walk_self(n, 0);
    let pairs = lcs_walk(n, n, 0, 0);
    assert forall|t: int| 0 <= t < a.len() implies #[trigger] pairs[t] == (t as usize, t as usize) by {
        assert(pairs[t] == ((0 + t) as usize, (0 + t) as usize));
    }
    lemma_self_prefix_unchanged(a, pairs, a.len() as int + 1);
    let lines = diff_lines_spec(a, a, n, n);
    assert forall|i: int| 0 <= i < lines.len() implies (#[trigger] lines[i]).0 == DiffKind::Unchanged by {
        assert(lines[i] == self_line(a, i));
    }
    assert(!exists|i: int| 0 <= i < lines.len() && is_change(#[trigger] lines[i].0));
    assert(!exists|i: int| 0 <= i < lines.len() && #[trigger] lines[i].0 == DiffKind::RenameEquivalent);
}

/// A file compared with a copy of itself (the same source and the same
/// replaced ranges) is unchanged, when replacing the ranges keeps its
/// number of lines: the diff has one line per source line, each pairing
/// line `k + 1` with itself, unchanged.
pub proof fn lemma_identical_sides_unchanged(d: SmartDiff, warnings: Seq<String>, old: Side, new: Side)
    requires
        smart_diff_of(d, warnings, old, new),
        old.content is Some,
        new.content == old.content,
        new.content_normalization_ranges@ == old.content_normalization_ranges@,
        lines_spec(side_normalized(old)).len() == lines_spec(old.content->Some_0@).len(),
        lines_spec(old.content->Some_0@).len() <= usize::MAX,
    ensures
        d.classification == DiffClassification::Unchanged,
        d.lines@.len() == lines_spec(old.content->Some_0@).len(),
        forall|k: int|
            0 <= k < d.lines@.len() ==> (#[trigger] d.lines@[k])@ == self_line(
                lines_spec(old.content->Some_0@),
                k,
            ),
{
    let a = lines_spec(old.content->Some_0@);
    let n = lines_spec(side_normalized(old));
    assert(side_normalized(new) == side_normalized(old));
    lemma_self_diff_unchanged(a, n);
    assert forall|k: int| 0 <= k < d.lines@.len() implies (#[trigger] d.lines@[k])@ == self_line(a, k) by {
        assert(line_views(d.lines@)[k] == d.lines@[k]@);
    }
}


/// `crlf_to_lf` keeps the line feeds, whether the text is empty, and
/// whether it ends in a line feed.
proof fn lemma_crlf_line_feeds(s: Seq<char>)
    ensures
        count_nl(crlf_to_lf(s)) == count_nl(s),
        (crlf_to_lf(s).len() > 0) == (s.len() > 0),
        s.len() > 0 ==> ((crlf_to_lf(s).last() == '\n') == (s.last() == '\n')),
    decreases s.len(),
{
    if s.len() >= 2 && s[s.len() - 2] == '\r' && s.last() == '\n' {
        let head = s.subrange(0, s.len() - 2);
        lemma_crlf_line_feeds(head);
        assert(s.drop_last().drop_last() =~= head);
        assert(s.drop_last().last() == '\r');
        let t = crlf_to_lf(head).push('\n');
        assert(crlf_to_lf(s) == t);
        assert(t.drop_last() =~= crlf_to_lf(head));
        assert(count_nl(s.drop_last()) == count_nl(head));
    } else if s.len() > 0 {
        lemma_crlf_line_feeds(s.drop_last());
        let t = crlf_to_lf(s.drop_last()).push(s.last());
        assert(crlf_to_lf(s) == t);
        assert(t.drop_last() =~= crlf_to_lf(s.drop_last()));
    }
}

/// A text splits at line feeds into one more piece than it has line feeds.
proof fn lemma_split_count(s: Seq<char>)
    ensures
        split_spec(s, '\n').len() == count_nl(s) + 1,
    decreases s.len(),
{
    if s.len() > 0 {
        lemma_split_count(s.drop_last());
    }
}

/// The number of lines of a text: one more than its line feeds, less one
/// when it ends in a line feed.
proof fn lemma_lines_count(s: Seq<char>)
    ensures
        lines_spec(s).len() == count_nl(s) + 1 - if s.len() > 0 && s.last() == '\n' {
            1int
        } else {
            0int
        },
{
    lemma_crlf_line_feeds(s);
    lemma_split_count(crlf_to_lf(s));
}

/// A file diffed against itself, its replaced ranges each within one line
/// (as the ranges of its matches are), is unchanged: the diff has one line
/// per source line, each pairing line `k + 1` with itself, unchanged.
pub proof fn lemma_self_diff_of_a_file(d: SmartDiff, warnings: Seq<String>, s: Side)
    requires
        smart_diff_of(d, warnings, s, s),
        s.content is Some,
        side_normalizable(s),
        ranges_within_lines(s.content->Some_0@, s.content_normalization_ranges@),
        lines_spec(s.content->Some_0@).len() <= usize::MAX,
    ensures
        d.classification == DiffClassification::Unchanged,
        d.lines@.len() == lines_spec(s.content->Some_0@).len(),
        forall|k: int|
            0 <= k < d.lines@.len() ==> (#[trigger] d.lines@[k])@ == self_line(
                lines_spec(s.content->Some_0@),
                k,
            ),
{
    let c = s.content->Some_0@;
    lemma_normalized_keeps_line_feeds(c, s.content_normalization_ranges@);
    lemma_lines_count(c);
    lemma_lines_count(side_normalized(s));
    lemma_identical_sides_unchanged(d, warnings, s, s);
}

/// A diff line numbers an old line exactly when it is not an addition,
/// and a new line exactly when it is not a deletion.
pub open spec fn line_sides_fit(l: DiffLineV) -> bool {
    &&& (l.1 is None) == (l.0 == DiffKind::Addition)
    &&& (l.2 is None) == (l.0 == DiffKind::Deletion)
}

/// The number of diff lines that number an old line.
pub open spec fn old_numbered(lines: Seq<DiffLineV>) -> nat
    decreases lines.len(),
{
    if lines.len() == 0 {
        0
    } else {
        old_numbered(lines.drop_last()) + if lines.last().1 is Some {
            1nat
        } else {
            0nat
        }
    }
}

/// The number of diff lines that number a new line.
pub open spec fn new_numbered(lines: Seq<DiffLineV>) -> nat
    decreases lines.len(),
{
    if lines.len() == 0 {
        0
    } else {
        new_numbered(lines.drop_last()) + if lines.last().2 is Some {
            1nat
        } else {
            0nat
        }
    }
}

proof fn lemma_numbered_add(a: Seq<DiffLineV>, b: Seq<DiffLineV>)
    ensures
        old_numbered(a + b) == old_numbered(a) + old_numbered(b),
        new_numbered(a + b) == new_numbered(a) + new_numbered(b),
    decreases b.len(),
{
    if b.len() == 0 {
        assert(a + b =~= a);
    } else {
        lemma_numbered_add(a, b.drop_last());
        assert((a + b).drop_last() =~= a + b.drop_last());
        assert((a + b).last() == b.last());
    }
}

proof fn lemma_numbered_all(lines: Seq<DiffLineV>, old_side: bool, new_side: bool)
    requires
        forall|t: int| 0 <= t < lines.len() ==> ((#[trigger] lines[t]).1 is Some) == old_side && (lines[t].2 is Some)
            == new_side,
    ensures
        old_numbered(lines) == if old_side {
            lines.len()
        } else {
            0
        },
        new_numbered(lines) == if new_side {
            lines.len()
        } else {
            0
        },
    decreases lines.len(),
{
    if lines.len() > 0 {
        let t = lines.drop_last();
        assert forall|k: int| 0 <= k < t.len() implies ((#[trigger] t[k]).1 is Some) == old_side && (t[k].2 is Some)
            == new_side by {
            assert(t[k] == lines[k]);
        }
        lemma_numbered_all(t, old_side, new_side);
        assert(lines.last() == lines[lines.len() - 1]);
    }
}

/// The lines of one step: their kinds fit their sides; and they number
/// the old lines from `os` up to the end of the step, and the new lines
/// likewise.
proof fn lemma_step_lines_shape(
    old: Seq<Seq<char>>,
    new: Seq<Seq<char>>,
    os: int,
    ns: int,
    oe: int,
    ne: int,
)
    ensures
        forall|t: int|
            0 <= t < step_lines(old, new, os, ns, oe, ne).len() ==> line_sides_fit(
                #[trigger] step_lines(old, new, os, ns, oe, ne)[t],
            ),
        os <= min_of(oe, old.len() as int) && ns <= min_of(ne, new.len() as int) ==> {
            let aligned: int = if oe < old.len() && ne < new.len() {
                1
            } else {
                0
            };
            &&& old_numbered(step_lines(old, new, os, ns, oe, ne)) == min_of(oe, old.len() as int) - os + aligned
            &&& new_numbered(step_lines(old, new, os, ns, oe, ne)) == min_of(ne, new.len() as int) - ns + aligned
        },
{
    let oe2 = min_of(oe, old.len() as int);
    let ne2 = min_of(ne, new.len() as int);
    let m = min_of(gap(os, oe2), gap(ns, ne2));
    let a = modifications(old, new, os, ns, m);
    let b = deletions(old, os + m, oe2);
    let c = additions(new, ns + m, ne2);
    let step = step_lines(old, new, os, ns, oe, ne);
    let rest = step.subrange((a.len() + b.len() + c.len()) as int, step.len() as int);
    assert(step =~= a + b + c + rest);
    assert forall|t: int| 0 <= t < step.len() implies line_sides_fit(#[trigger] step[t]) by {
        if t < a.len() {
            assert(step[t] == a[t]);
        } else if t < a.len() + b.len() {
            assert(step[t] == b[t - a.len()]);
        } else if t < a.len() + b.len() + c.len() {
            assert(step[t] == c[t - a.len() - b.len()]);
        } else {
            assert(step[t] == rest[t - a.len() - b.len() - c.len()]);
        }
    }
    assert forall|t: int| 0 <= t < a.len() implies ((#[trigger] a[t]).1 is Some) == true && (a[t].2 is Some)
        == true by {}
    assert forall|t: int| 0 <= t < b.len() implies ((#[trigger] b[t]).1 is Some) == true && (b[t].2 is Some)
        == false by {}
    assert forall|t: int| 0 <= t < c.len() implies ((#[trigger] c[t]).1 is Some) == false && (c[t].2 is Some)
        == true by {}
    assert forall|t: int| 0 <= t < rest.len() implies ((#[trigger] rest[t]).1 is Some) == true && (rest[t].2
        is Some) == true by {}
    lemma_numbered_all(a, true, true);
    lemma_numbered_all(b, true, false);
    lemma_numbered_all(c, false, true);
    lemma_numbered_all(rest, true, true);
    lemma_numbered_add(a + b + c, rest);
    lemma_numbered_add(a + b, c);
    lemma_numbered_add(a, b);
}

proof fn lemma_diff_prefix_shape(
    old: Seq<Seq<char>>,
    new: Seq<Seq<char>>,
    nold: Seq<Seq<char>>,
    nnew: Seq<Seq<char>>,
    pairs: Seq<(usize, usize)>,
    k: int,
)
    requires
        is_common_subsequence(nold, nnew, pairs, 0, 0),
        nold.len() == old.len(),
        nnew.len() == new.len(),
        0 <= k <= pairs.len() + 1,
    ensures
        forall|t: int|
            0 <= t < diff_prefix(old, new, pairs, k).len() ==> line_sides_fit(
                #[trigger] diff_prefix(old, new, pairs, k)[t],
            ),
        k <= pairs.len() ==> old_numbered(diff_prefix(old, new, pairs, k)) == step_start(
            pairs,
            k,
            old.len() as int,
            new.len() as int,
        ).0 && new_numbered(diff_prefix(old, new, pairs, k)) == step_start(
            pairs,
            k,
            old.len() as int,
            new.len() as int,
        ).1,
        k == pairs.len() + 1 ==> old_numbered(diff_prefix(old, new, pairs, k)) == old.len() && new_numbered(
            diff_prefix(old, new, pairs, k),
        ) == new.len(),
    decreases k,
{
    if k > 0 {
        lemma_diff_prefix_shape(old, new, nold, nnew, pairs, k - 1);
        let ol = old.len() as int;
        let nl = new.len() as int;
        let st = step_start(pairs, k - 1, ol, nl);
        let en = step_end(pairs, k - 1, ol, nl);
        let before = diff_prefix(old, new, pairs, k - 1);
        let step = step_lines(old, new, st.0, st.1, en.0, en.1);
        assert(diff_prefix(old, new, pairs, k) == before + step);
        lemma_step_lines_shape(old, new, st.0, st.1, en.0, en.1);
        lemma_numbered_add(before, step);
        if k - 1 > 0 {
            assert(pairs[k - 2].0 < ol && pairs[k - 2].1 < nl);
        }
        if k - 1 < pairs.len() {
            assert(pairs[k - 1].0 < ol && pairs[k - 1].1 < nl);
            if k - 1 > 0 {
                assert(pairs[k - 2].0 < pairs[k - 1].0 && pairs[k - 2].1 < pairs[k - 1].1);
            }
        }
        assert forall|t: int|
            0 <= t < diff_prefix(old, new, pairs, k).len() implies line_sides_fit(
                #[trigger] diff_prefix(old, new, pairs, k)[t],
            ) by {
            if t < before.len() {
                assert(diff_prefix(old, new, pairs, k)[t] == before[t]);
            } else {
                assert(diff_prefix(old, new, pairs, k)[t] == step[t - before.len()]);
            }
        }
    }
}

/// A smart diff is unchanged or a rename only when every one of its
/// lines pairs an old line with a new line: an added, deleted or modified
/// line makes it substantive.
pub proof fn lemma_unchanged_diff_pairs_every_line(d: SmartDiff, warnings: Seq<String>, old: Side, new: Side)
    requires
        smart_diff_of(d, warnings, old, new),
        d.classification == DiffClassification::Unchanged || d.classification
            == DiffClassification::RenameEquivalent,
    ensures
        forall|k: int|
            0 <= k < d.lines@.len() ==> (#[trigger] d.lines@[k]).old_line is Some && d.lines@[k].new_line is Some
                && (d.lines@[k].kind == DiffKind::Unchanged || d.lines@[k].kind == DiffKind::RenameEquivalent),
{
    let a = lines_spec(old.content->Some_0@);
    let b = lines_spec(new.content->Some_0@);
    let na = lines_spec(side_normalized(old));
    let nb = lines_spec(side_normalized(new));
    let pairs = lcs_walk(na, nb, 0, 0);
    let lines = line_views(d.lines@);
    assert forall|k: int| 0 <= k < d.lines@.len() implies (#[trigger] d.lines@[k]).old_line is Some
        && d.lines@[k].new_line is Some && (d.lines@[k].kind == DiffKind::Unchanged || d.lines@[k].kind
        == DiffKind::RenameEquivalent) by {
        assert(lines[k] == d.lines@[k]@);
        assert(!is_change(lines[k].0));
        lemma_diff_prefix_any_shape(a, b, pairs, pairs.len() + 1int);
        assert(line_sides_fit(lines[k]));
    }
}

/// Whatever the alignment, every line of a diff has sides that fit its kind.
proof fn lemma_diff_prefix_any_shape(old: Seq<Seq<char>>, new: Seq<Seq<char>>, pairs: Seq<(usize, usize)>, k: int)
    ensures
        forall|t: int|
            0 <= t < diff_prefix(old, new, pairs, k).len() ==> line_sides_fit(
                #[trigger] diff_prefix(old, new, pairs, k)[t],
            ),
    decreases k,
{
    if k > 0 {
        lemma_diff_prefix_any_shape(old, new, pairs, k - 1);
        let ol = old.len() as int;
        let nl = new.len() as int;
        let st = step_start(pairs, k - 1, ol, nl);
        let en = step_end(pairs, k - 1, ol, nl);
        let before = diff_prefix(old, new, pairs, k - 1);
        let step = step_lines(old, new, st.0, st.1, en.0, en.1);
        assert(diff_prefix(old, new, pairs, k) == before + step);
        lemma_step_lines_shape(old, new, st.0, st.1, en.0, en.1);
        assert forall|t: int|
            0 <= t < diff_prefix(old, new, pairs, k).len() implies line_sides_fit(
                #[trigger] diff_prefix(old, new, pairs, k)[t],
            ) by {
            if t < before.len() {
                assert(diff_prefix(old, new, pairs, k)[t] == before[t]);
            } else {
                assert(diff_prefix(old, new, pairs, k)[t] == step[t - before.len()]);
            }
        }
    }
}

/// Files with different numbers of lines never diff as unchanged or as a
/// rename, when their replaced ranges lie within lines: the diff numbers
/// every line of each side once, so a diff that pairs every line has as
/// many old lines as new ones.
pub proof fn lemma_line_count_change_is_substantive(d: SmartDiff, warnings: Seq<String>, old: Side, new: Side)
    requires
        smart_diff_of(d, warnings, old, new),
        old.content is Some,
        new.content is Some,
        side_normalizable(old),
        side_normalizable(new),
        ranges_within_lines(old.content->Some_0@, old.content_normalization_ranges@),
        ranges_within_lines(new.content->Some_0@, new.content_normalization_ranges@),
        lines_spec(old.content->Some_0@).len() <= usize::MAX,
        lines_spec(new.content->Some_0@).len() <= usize::MAX,
        lines_spec(old.content->Some_0@).len() != lines_spec(new.content->Some_0@).len(),
    ensures
        d.classification == DiffClassification::Substantive,
{
    let a = lines_spec(old.content->Some_0@);
    let b = lines_spec(new.content->Some_0@);
    lemma_normalized_keeps_line_feeds(old.content->Some_0@, old.content_normalization_ranges@);
    lemma_normalized_keeps_line_feeds(new.content->Some_0@, new.content_normalization_ranges@);
    lemma_lines_count(old.content->Some_0@);
    lemma_lines_count(new.content->Some_0@);
    lemma_lines_count(side_normalized(old));
    lemma_lines_count(side_normalized(new));
    let na = lines_spec(side_normalized(old));
    let nb = lines_spec(side_normalized(new));
    assert(na.len() == a.len() && nb.len() == b.len());
    lemma_lcs_walk(na, nb, 0, 0);
    let pairs = lcs_walk(na, nb, 0, 0);
    lemma_diff_prefix_shape(a, b, na, nb, pairs, pairs.len() + 1int);
    let lines = line_views(d.lines@);
    assert(lines == diff_prefix(a, b, pairs, pairs.len() + 1int));
    if d.classification != DiffClassification::Substantive {
        lemma_unchanged_diff_pairs_every_line(d, warnings, old, new);
        assert forall|t: int| 0 <= t < lines.len() implies ((#[trigger] lines[t]).1 is Some) == true && (
        lines[t].2 is Some) == true by {
            assert(lines[t] == d.lines@[t]@);
        }
        lemma_numbered_all(lines, true, true);
    }
}
} // verus!
