//! Comparing the matched regions (each match with a line of context) of a
//! file that both scans found at the same path.
use vstd::prelude::*;

use crate::diff::{
    DiffClassification, Side, gap, min_of, side_normalizable, side_normalized, step_end, step_start,
};
use crate::lcs::{lcs, lcs_walk, lemma_lcs_walk, is_common_subsequence};
use crate::model::Match;
use crate::normalize::{minus_one, normalized_text};
use crate::ranges::{Span, merge_regions, merge_spec};
use crate::text::{join_spec, join_strings, lines, lines_spec, owned, views};

verus! {

/// A region: its 1-based first line, its original text and its normalized text.
pub type Region = (u64, String, String);

/// The abstract value of a region.
pub type RegionV = (u64, Seq<char>, Seq<char>);

pub open spec fn region_views(v: Seq<Region>) -> Seq<RegionV> {
    v.map_values(|r: Region| (r.0, r.1@, r.2@))
}

/// The lines around a match: the line before it, its own, and the one after
/// (within the `n` lines of the text); none when its line does not exist.
pub open spec fn match_region(m: Match, n: int) -> Option<Span> {
    let index = (minus_one(m.line) as usize) as int;
    if index < n {
        Some(
            (
                (if index >= 1 {
                    index - 1
                } else {
                    0
                }) as usize,
                min_of(index + 2, n) as usize,
            ),
        )
    } else {
        None
    }
}

/// The context spans of the matches, in match order.
pub open spec fn match_regions(ms: Seq<Match>, n: int) -> Seq<Span>
    decreases ms.len(),
{
    if ms.len() == 0 {
        Seq::<Span>::empty()
    } else {
        let p = match_regions(ms.drop_last(), n);
        match match_region(ms.last(), n) {
            Some(s) => p.push(s),
            None => p,
        }
    }
}

/// The region for the line span `s`, when both texts have those lines.
pub open spec fn region_of(s: Span, original: Seq<Seq<char>>, normalized: Seq<Seq<char>>) -> Option<
    RegionV,
> {
    if s.0 <= s.1 && s.1 <= original.len() && s.1 <= normalized.len() {
        Some(
            (
                (s.0 + 1) as u64,
                join_spec(original.subrange(s.0 as int, s.1 as int), seq!['\n']),
                join_spec(normalized.subrange(s.0 as int, s.1 as int), seq!['\n']),
            ),
        )
    } else {
        None
    }
}

/// The regions for the spans, skipping spans that the texts lack.
pub open spec fn regions_of(spans: Seq<Span>, original: Seq<Seq<char>>, normalized: Seq<Seq<char>>) -> Seq<
    RegionV,
>
    decreases spans.len(),
{
    if spans.len() == 0 {
        Seq::<RegionV>::empty()
    } else {
        let p = regions_of(spans.drop_last(), original, normalized);
        match region_of(spans.last(), original, normalized) {
            Some(r) => p.push(r),
            None => p,
        }
    }
}

/// The regions of a side: the context spans of its matches in its lines,
/// merged where they overlap or touch, with their original and normalized
/// text; none without content.
pub open spec fn region_lines_spec(side: Side) -> Seq<RegionV> {
    if side.content is None {
        Seq::<RegionV>::empty()
    } else {
        let original = lines_spec(side.content->Some_0@);
        let normalized = lines_spec(side_normalized(side));
        regions_of(
            merge_spec(match_regions(side.matches@, original.len() as int), true),
            original,
            normalized,
        )
    }
}

/// The regions of a side: each match's line with the lines before and after
/// it, merged where they overlap or touch, as (first line, original text,
/// normalized text).
pub fn region_lines(side: &Side) -> (r: Vec<Region>)
    requires
        side_normalizable(*side),
    ensures
        region_views(r@) == region_lines_spec(*side),
{
    let content = match &side.content {
        Some(c) => c,
        None => {
            let r: Vec<Region> = Vec::new();
            assert(region_views(r@) =~= region_lines_spec(*side));
            return r;
        },
    };
    let normalized = normalized_text(content.as_str(), side.content_normalization_ranges.as_slice());
    let original = lines(content.as_str());
    let normalized = lines(normalized.as_str());
    let n = original.len();
    let mut spans: Vec<Span> = Vec::new();
    let mut i: usize = 0;
    while i < side.matches.len()
        invariant
            0 <= i <= side.matches@.len(),
            n == original@.len(),
            spans@ == match_regions(side.matches@.take(i as int), n as int),
        decreases side.matches@.len() - i,
    {
        let index = minus_one_u64(side.matches[i].line) as usize;
        if index < n {
            let start = if index >= 1 {
                index - 1
            } else {
                0
            };
            let end = if n - index >= 2 {
                index + 2
            } else {
                n
            };
            spans.push((start, end));
        }
        i = i + 1;
        assert(side.matches@.take(i as int).drop_last() == side.matches@.take(i - 1));
    }
    assert(side.matches@.take(i as int) == side.matches@);
    let merged = merge_regions(spans);
    proof {
        lemma_match_regions_start(side.matches@, n as int);
        crate::normalize::lemma_merge_ends(spans@, true);
        assert forall|k: int| 0 <= k < merged@.len() implies (#[trigger] merged@[k]).0 < n by {
            let j = choose|j: int| 0 <= j < spans@.len() && spans@[j].0 == merged@[k].0;
        }
    }
    let ghost o = views(original@);
    let ghost nz = views(normalized@);
    let mut result: Vec<Region> = Vec::new();
    let mut k: usize = 0;
    while k < merged.len()
        invariant
            o == views(original@),
            nz == views(normalized@),
            forall|j: int| 0 <= j < merged@.len() ==> (#[trigger] merged@[j]).0 < n,
            n == original@.len(),
            0 <= k <= merged@.len(),
            region_views(result@) == regions_of(merged@.take(k as int), o, nz),
        decreases merged@.len() - k,
    {
        let (start, end) = merged[k];
        if start <= end && end <= original.len() && end <= normalized.len() {
            let a = join_strings(slice_range(&original, start, end), "\n");
            let b = join_strings(slice_range(&normalized, start, end), "\n");
            proof {
                reveal_strlit("\n");
                assert("\n"@ =~= seq!['\n']);
                assert(views(original@.subrange(start as int, end as int)) =~= o.subrange(
                    start as int,
                    end as int,
                ));
                assert(views(normalized@.subrange(start as int, end as int)) =~= nz.subrange(
                    start as int,
                    end as int,
                ));
            }
            let ghost before = region_views(result@);
            result.push(((start + 1) as u64, a, b));
            assert(region_views(result@) =~= before.push(((start + 1) as u64, a@, b@)));
        }
        k = k + 1;
        assert(merged@.take(k as int).drop_last() == merged@.take(k - 1));
    }
    assert(merged@.take(k as int) == merged@);
    result
}

proof fn lemma_match_regions_start(ms: Seq<Match>, n: int)
    ensures
        forall|k: int| 0 <= k < match_regions(ms, n).len() ==> (#[trigger] match_regions(ms, n)[k]).0 < n,
    decreases ms.len(),
{
    if ms.len() > 0 {
        lemma_match_regions_start(ms.drop_last(), n);
        let p = match_regions(ms.drop_last(), n);
        let q = match_regions(ms, n);
        assert forall|k: int| 0 <= k < q.len() implies (#[trigger] q[k]).0 < n by {
            if k < p.len() {
                assert(q[k] == p[k]);
            }
        }
    }
}

fn minus_one_u64(x: u64) -> (r: u64)
    ensures
        r == minus_one(x),
{
    if x == 0 {
        0
    } else {
        x - 1
    }
}

/// The strings `v[start..end]`.
fn slice_range(v: &Vec<String>, start: usize, end: usize) -> (r: &[String])
    requires
        start <= end <= v@.len(),
    ensures
        r@ == v@.subrange(start as int, end as int),
{
    vstd::slice::slice_subrange(v.as_slice(), start, end)
}


/// How one region compares across the scans, with the regions' first lines
/// and original texts.
#[derive(Debug)]
pub struct RegionDiff {
    pub old_line: Option<u64>,
    pub new_line: Option<u64>,
    pub old_text: Option<String>,
    pub new_text: Option<String>,
    pub classification: DiffClassification,
}

/// The abstract value of a region diff.
pub type RegionDiffV = (Option<u64>, Option<u64>, Option<Seq<char>>, Option<Seq<char>>, DiffClassification);

impl View for RegionDiff {
    type V = RegionDiffV;

    open spec fn view(&self) -> RegionDiffV {
        (self.old_line, self.new_line, self.old_text.deep_view(), self.new_text.deep_view(), self.classification)
    }
}

pub open spec fn region_diff_views(v: Seq<RegionDiff>) -> Seq<RegionDiffV> {
    v.map_values(|d: RegionDiff| d@)
}

/// The comparison of the regions of a file found at the same path by both
/// scans.
#[derive(Debug)]
pub struct RegionComparison {
    pub available: bool,
    pub old_regions: usize,
    pub new_regions: usize,
    pub paired_regions: usize,
    pub old_only_regions: usize,
    pub new_only_regions: usize,
    pub regions: Vec<RegionDiff>,
}

/// Region diffs pairing `o[os + k]` with `n[ns + k]` for `k < count`:
/// structurally paired but not aligned, so substantive.
pub open spec fn region_modifications(o: Seq<RegionV>, n: Seq<RegionV>, os: int, ns: int, count: int) -> Seq<
    RegionDiffV,
> {
    Seq::new(
        count as nat,
        |k: int|
            (
                Some(o[os + k].0),
                Some(n[ns + k].0),
                Some(o[os + k].1),
                Some(n[ns + k].1),
                DiffClassification::Substantive,
            ),
    )
}

/// Old-only region diffs for `o[from..to]`.
pub open spec fn old_only(o: Seq<RegionV>, from: int, to: int) -> Seq<RegionDiffV> {
    Seq::new(
        gap(from, to) as nat,
        |k: int|
            (
                Some(o[from + k].0),
                None::<u64>,
                Some(o[from + k].1),
                None::<Seq<char>>,
                DiffClassification::Substantive,
            ),
    )
}

/// New-only region diffs for `n[from..to]`.
pub open spec fn new_only(n: Seq<RegionV>, from: int, to: int) -> Seq<RegionDiffV> {
    Seq::new(
        gap(from, to) as nat,
        |k: int|
            (
                None::<u64>,
                Some(n[from + k].0),
                None::<Seq<char>>,
                Some(n[from + k].1),
                DiffClassification::Substantive,
            ),
    )
}

/// The region diffs of one step: the unaligned regions before the aligned
/// pair `(oe, ne)` (as many paired as both sides have, the rest one-sided),
/// then the aligned pair, unchanged when the original texts are equal and a
/// rename otherwise.
pub open spec fn region_step(o: Seq<RegionV>, n: Seq<RegionV>, os: int, ns: int, oe: int, ne: int) -> Seq<
    RegionDiffV,
> {
    let oe2 = min_of(oe, o.len() as int);
    let ne2 = min_of(ne, n.len() as int);
    let m = min_of(gap(os, oe2), gap(ns, ne2));
    region_modifications(o, n, os, ns, m) + old_only(o, os + m, oe2) + new_only(n, ns + m, ne2) + if oe
        < o.len() && ne < n.len() {
        seq![
            (
                Some(o[oe].0),
                Some(n[ne].0),
                Some(o[oe].1),
                Some(n[ne].1),
                if o[oe].1 == n[ne].1 {
                    DiffClassification::Unchanged
                } else {
                    DiffClassification::RenameEquivalent
                },
            ),
        ]
    } else {
        Seq::<RegionDiffV>::empty()
    }
}

/// The region diffs of the first `k` steps.
pub open spec fn region_prefix(o: Seq<RegionV>, n: Seq<RegionV>, pairs: Seq<(usize, usize)>, k: int) -> Seq<
    RegionDiffV,
>
    decreases k,
{
    if k <= 0 {
        Seq::<RegionDiffV>::empty()
    } else {
        let s = step_start(pairs, k - 1, o.len() as int, n.len() as int);
        let e = step_end(pairs, k - 1, o.len() as int, n.len() as int);
        region_prefix(o, n, pairs, k - 1) + region_step(o, n, s.0, s.1, e.0, e.1)
    }
}

/// The normalized texts of regions.
pub open spec fn normalized_texts(r: Seq<RegionV>) -> Seq<Seq<char>> {
    r.map_values(|x: RegionV| x.2)
}

/// The region diffs of two region lists, aligned by the common subsequence
/// of their normalized texts.
pub open spec fn region_diffs_spec(o: Seq<RegionV>, n: Seq<RegionV>) -> Seq<RegionDiffV> {
    let pairs = lcs_walk(normalized_texts(o), normalized_texts(n), 0, 0);
    region_prefix(o, n, pairs, pairs.len() + 1int)
}

/// The number of region diffs that have a region on both sides.
pub open spec fn paired_count(d: Seq<RegionDiffV>) -> nat
    decreases d.len(),
{
    if d.len() == 0 {
        0
    } else {
        paired_count(d.drop_last()) + if d.last().0 is Some && d.last().1 is Some {
            1nat
        } else {
            0nat
        }
    }
}

proof fn lemma_paired_count_add(a: Seq<RegionDiffV>, b: Seq<RegionDiffV>)
    ensures
        paired_count(a + b) == paired_count(a) + paired_count(b),
    decreases b.len(),
{
    if b.len() > 0 {
        lemma_paired_count_add(a, b.drop_last());
        assert((a + b).drop_last() =~= a + b.drop_last());
    } else {
        assert(a + b =~= a);
    }
}

proof fn lemma_paired_count_all(d: Seq<RegionDiffV>, both: bool)
    requires
        forall|k: int| 0 <= k < d.len() ==> ((#[trigger] d[k]).0 is Some && d[k].1 is Some) == both,
    ensures
        paired_count(d) == if both {
            d.len()
        } else {
            0
        },
    decreases d.len(),
{
    if d.len() > 0 {
        let t = d.drop_last();
        assert forall|k: int| 0 <= k < t.len() implies ((#[trigger] t[k]).0 is Some && t[k].1 is Some)
            == both by {
            assert(t[k] == d[k]);
        }
        lemma_paired_count_all(t, both);
        assert(d[d.len() - 1] == d.last());
    }
}

/// The number of paired diffs in one step: the structurally paired ones
/// plus the aligned pair.
proof fn lemma_region_step_paired(o: Seq<RegionV>, n: Seq<RegionV>, os: int, ns: int, oe: int, ne: int)
    ensures
        paired_count(region_step(o, n, os, ns, oe, ne)) == min_of(
            gap(os, min_of(oe, o.len() as int)),
            gap(ns, min_of(ne, n.len() as int)),
        ) + if oe < o.len() && ne < n.len() {
            1int
        } else {
            0int
        },
{
    let oe2 = min_of(oe, o.len() as int);
    let ne2 = min_of(ne, n.len() as int);
    let m = min_of(gap(os, oe2), gap(ns, ne2));
    let a = region_modifications(o, n, os, ns, m);
    let b = old_only(o, os + m, oe2);
    let c = new_only(n, ns + m, ne2);
    let d = if oe < o.len() && ne < n.len() {
        seq![
            (
                Some(o[oe].0),
                Some(n[ne].0),
                Some(o[oe].1),
                Some(n[ne].1),
                if o[oe].1 == n[ne].1 {
                    DiffClassification::Unchanged
                } else {
                    DiffClassification::RenameEquivalent
                },
            ),
        ]
    } else {
        Seq::<RegionDiffV>::empty()
    };
    lemma_paired_count_all(a, true);
    lemma_paired_count_all(b, false);
    lemma_paired_count_all(c, false);
    lemma_paired_count_all(d, true);
    lemma_paired_count_add(a, b);
    lemma_paired_count_add(a + b, c);
    lemma_paired_count_add(a + b + c, d);
}

fn push_region_diff(out: &mut Vec<RegionDiff>, d: RegionDiff)
    ensures
        region_diff_views(final(out)@) == region_diff_views(old(out)@).push(d@),
{
    let ghost before = region_diff_views(out@);
    let ghost dv = d@;
    out.push(d);
    assert(region_diff_views(out@) =~= before.push(dv));
}

fn copy_region(r: &Region) -> (c: (u64, String))
    ensures
        c.0 == r.0,
        c.1@ == r.1@,
{
    (r.0, r.1.clone())
}

fn push_region_modifications(
    out: &mut Vec<RegionDiff>,
    o: &Vec<Region>,
    n: &Vec<Region>,
    os: usize,
    ns: usize,
    count: usize,
)
    requires
        count > 0 ==> os + count <= o@.len(),
        count > 0 ==> ns + count <= n@.len(),
    ensures
        region_diff_views(final(out)@) == region_diff_views(old(out)@) + region_modifications(
            region_views(o@),
            region_views(n@),
            os as int,
            ns as int,
            count as int,
        ),
{
    let ghost start = region_diff_views(out@);
    let ghost spec = region_modifications(region_views(o@), region_views(n@), os as int, ns as int, count as int);
    let ol = o.len();
    let nl = n.len();
    let mut offset: usize = 0;
    while offset < count
        invariant
            ol == o@.len(),
            nl == n@.len(),
            count > 0 ==> os + count <= o@.len(),
            count > 0 ==> ns + count <= n@.len(),
            spec == region_modifications(region_views(o@), region_views(n@), os as int, ns as int, count as int),
            0 <= offset <= count,
            region_diff_views(out@) == start + spec.take(offset as int),
        decreases count - offset,
    {
        let a = copy_region(&o[os + offset]);
        let b = copy_region(&n[ns + offset]);
        push_region_diff(
            out,
            RegionDiff {
                old_line: Some(a.0),
                new_line: Some(b.0),
                old_text: Some(a.1),
                new_text: Some(b.1),
                classification: DiffClassification::Substantive,
            },
        );
        offset = offset + 1;
        assert(spec.take(offset as int) =~= spec.take(offset - 1).push(spec[offset - 1]));
    }
    assert(spec.take(count as int) =~= spec);
}

fn push_old_only(out: &mut Vec<RegionDiff>, o: &Vec<Region>, from: usize, to: usize)
    requires
        to <= o@.len(),
    ensures
        region_diff_views(final(out)@) == region_diff_views(old(out)@) + old_only(
            region_views(o@),
            from as int,
            to as int,
        ),
{
    let ghost start = region_diff_views(out@);
    let ghost spec = old_only(region_views(o@), from as int, to as int);
    let mut index = from;
    while index < to
        invariant
            to <= o@.len(),
            spec == old_only(region_views(o@), from as int, to as int),
            from <= index,
            index <= to || index == from,
            region_diff_views(out@) == start + spec.take(index - from),
        decreases to - index,
    {
        let a = copy_region(&o[index]);
        push_region_diff(
            out,
            RegionDiff {
                old_line: Some(a.0),
                new_line: None,
                old_text: Some(a.1),
                new_text: None,
                classification: DiffClassification::Substantive,
            },
        );
        index = index + 1;
        let t = index - from;
        assert(spec.take(t as int) =~= spec.take(t - 1).push(spec[t - 1]));
    }
    assert(spec.take(gap(from as int, to as int)) =~= spec);
}

fn push_new_only(out: &mut Vec<RegionDiff>, n: &Vec<Region>, from: usize, to: usize)
    requires
        to <= n@.len(),
    ensures
        region_diff_views(final(out)@) == region_diff_views(old(out)@) + new_only(
            region_views(n@),
            from as int,
            to as int,
        ),
{
    let ghost start = region_diff_views(out@);
    let ghost spec = new_only(region_views(n@), from as int, to as int);
    let mut index = from;
    while index < to
        invariant
            to <= n@.len(),
            spec == new_only(region_views(n@), from as int, to as int),
            from <= index,
            index <= to || index == from,
            region_diff_views(out@) == start + spec.take(index - from),
        decreases to - index,
    {
        let b = copy_region(&n[index]);
        push_region_diff(
            out,
            RegionDiff {
                old_line: None,
                new_line: Some(b.0),
                old_text: None,
                new_text: Some(b.1),
                classification: DiffClassification::Substantive,
            },
        );
        index = index + 1;
        let t = index - from;
        assert(spec.take(t as int) =~= spec.take(t - 1).push(spec[t - 1]));
    }
    assert(spec.take(gap(from as int, to as int)) =~= spec);
}

/// Appends the diffs of one step and returns how many of them are paired.
#[verifier::rlimit(80)]
#[verifier::spinoff_prover]
fn region_step_exec(
    out: &mut Vec<RegionDiff>,
    o: &Vec<Region>,
    n: &Vec<Region>,
    os: usize,
    ns: usize,
    oe: usize,
    ne: usize,
) -> (count: usize)
    ensures
        region_diff_views(final(out)@) == region_diff_views(old(out)@) + region_step(
            region_views(o@),
            region_views(n@),
            os as int,
            ns as int,
            oe as int,
            ne as int,
        ),
        count == paired_count(
            region_step(region_views(o@), region_views(n@), os as int, ns as int, oe as int, ne as int),
        ),
{
    let ghost ov = region_views(o@);
    let ghost nv = region_views(n@);
    let ghost start = region_diff_views(out@);
    let ol = o.len();
    let nl = n.len();
    let oe2 = if oe <= ol {
        oe
    } else {
        ol
    };
    let ne2 = if ne <= nl {
        ne
    } else {
        nl
    };
    let og = if oe2 > os {
        oe2 - os
    } else {
        0
    };
    let ng = if ne2 > ns {
        ne2 - ns
    } else {
        0
    };
    let m = if og <= ng {
        og
    } else {
        ng
    };
    let ghost mods = region_modifications(ov, nv, os as int, ns as int, m as int);
    let ghost olds = old_only(ov, os + m, oe2 as int);
    let ghost news = new_only(nv, ns + m, ne2 as int);
    push_region_modifications(out, o, n, os, ns, m);
    push_old_only(out, o, os + m, oe2);
    push_new_only(out, n, ns + m, ne2);
    let ghost mid = region_diff_views(out@);
    assert(mid == start + mods + olds + news);
    let mut count = m;
    if oe < ol && ne < nl {
        let a = copy_region(&o[oe]);
        let b = copy_region(&n[ne]);
        let same = o[oe].1 == n[ne].1;
        push_region_diff(
            out,
            RegionDiff {
                old_line: Some(a.0),
                new_line: Some(b.0),
                old_text: Some(a.1),
                new_text: Some(b.1),
                classification: if same {
                    DiffClassification::Unchanged
                } else {
                    DiffClassification::RenameEquivalent
                },
            },
        );
        count = m + 1;
    }
    proof {
        lemma_region_step_paired(ov, nv, os as int, ns as int, oe as int, ne as int);
        let step = region_step(ov, nv, os as int, ns as int, oe as int, ne as int);
        let tail = region_diff_views(out@).subrange(mid.len() as int, region_diff_views(out@).len() as int);
        assert(region_diff_views(out@) =~= mid + tail);
        assert(step =~= mods + olds + news + tail);
        assert(start + mods + olds + news + tail =~= start + (mods + olds + news + tail));
    }
    count
}


fn normalized_texts_exec(r: &Vec<Region>) -> (t: Vec<String>)
    ensures
        views(t@) == normalized_texts(region_views(r@)),
{
    let mut t: Vec<String> = Vec::new();
    let mut i: usize = 0;
    while i < r.len()
        invariant
            0 <= i <= r@.len(),
            views(t@) == normalized_texts(region_views(r@.take(i as int))),
        decreases r@.len() - i,
    {
        t.push(r[i].2.clone());
        i = i + 1;
        assert(normalized_texts(region_views(r@.take(i as int))) =~= normalized_texts(
            region_views(r@.take(i - 1)),
        ).push(r@[i - 1].2@));
        assert(views(t@) =~= normalized_texts(region_views(r@.take(i as int))));
    }
    assert(r@.take(i as int) == r@);
    t
}

/// `rc` and `warnings` are the region comparison of the sides `old` and `new`.
pub open spec fn region_comparison_of(rc: RegionComparison, warnings: Seq<String>, old: Side, new: Side) -> bool {
    &&& (old.content is None || new.content is None) ==> {
        &&& !rc.available
        &&& rc.old_regions == 0 && rc.new_regions == 0 && rc.paired_regions == 0
        &&& rc.old_only_regions == 0 && rc.new_only_regions == 0
        &&& rc.regions@.len() == 0
        &&& views(warnings) == seq![
            "Source text is unavailable on at least one side; shared-context regions could not be compared."@,
        ]
    }
    &&& (old.content is Some && new.content is Some) ==> {
        let o = region_lines_spec(old);
        let n = region_lines_spec(new);
        &&& rc.available
        &&& rc.old_regions == o.len()
        &&& rc.new_regions == n.len()
        &&& region_diff_views(rc.regions@) == region_diffs_spec(o, n)
        &&& rc.paired_regions == paired_count(region_diffs_spec(o, n))
        &&& rc.paired_regions <= o.len() && rc.paired_regions <= n.len()
        &&& rc.old_only_regions == o.len() - rc.paired_regions
        &&& rc.new_only_regions == n.len() - rc.paired_regions
        &&& warnings.len() == 0
    }
}

/// Compares the regions of a file that both scans found at the same path:
/// regions are aligned by the longest common subsequence of their
/// normalized texts; between aligned regions, as many as both sides have
/// are paired as substantive changes and the rest are one-sided; aligned
/// regions are unchanged when their original texts are equal and renames
/// otherwise. Without source on a side the comparison is unavailable.
pub fn compare_regions(old: &Side, new: &Side) -> (r: (RegionComparison, Vec<String>))
    requires
        side_normalizable(*old),
        side_normalizable(*new),
    ensures
        region_comparison_of(r.0, r.1@, *old, *new),
{
    if old.content.is_none() || new.content.is_none() {
        let mut warnings: Vec<String> = Vec::new();
        warnings.push(
            owned(
                "Source text is unavailable on at least one side; shared-context regions could not be compared.",
            ),
        );
        let r = (
            RegionComparison {
                available: false,
                old_regions: 0,
                new_regions: 0,
                paired_regions: 0,
                old_only_regions: 0,
                new_only_regions: 0,
                regions: Vec::new(),
            },
            warnings,
        );
        assert(views(r.1@) =~= seq![
            "Source text is unavailable on at least one side; shared-context regions could not be compared."@,
        ]);
        return r;
    }
    let old_regions = region_lines(old);
    let new_regions = region_lines(new);
    let ghost ov = region_views(old_regions@);
    let ghost nv = region_views(new_regions@);
    let old_normalized = normalized_texts_exec(&old_regions);
    let new_normalized = normalized_texts_exec(&new_regions);
    let pairs = lcs(old_normalized.as_slice(), new_normalized.as_slice());
    let ghost a = normalized_texts(ov);
    let ghost b = normalized_texts(nv);
    let ol = old_regions.len();
    let nl = new_regions.len();
    proof {
        lemma_lcs_walk(a, b, 0, 0);
    }
    let mut regions: Vec<RegionDiff> = Vec::new();
    let mut paired: usize = 0;
    let mut os: usize = 0;
    let mut ns: usize = 0;
    let mut k: usize = 0;
    while k < pairs.len()
        invariant
            ov == region_views(old_regions@),
            nv == region_views(new_regions@),
            a == normalized_texts(ov),
            b == normalized_texts(nv),
            pairs@ == lcs_walk(a, b, 0, 0),
            is_common_subsequence(a, b, pairs@, 0, 0),
            ol == ov.len(),
            nl == nv.len(),
            0 <= k <= pairs@.len(),
            (os as int, ns as int) == step_start(pairs@, k as int, ol as int, nl as int),
            k < pairs@.len() ==> os <= pairs@[k as int].0 && ns <= pairs@[k as int].1,
            k == pairs@.len() ==> os <= ol && ns <= nl,
            region_diff_views(regions@) == region_prefix(ov, nv, pairs@, k as int),
            paired == paired_count(region_diff_views(regions@)),
            paired <= os,
            paired <= ns,
        decreases pairs@.len() - k,
    {
        let (oe, ne) = pairs[k];
        let ghost before = region_diff_views(regions@);
        let count = region_step_exec(&mut regions, &old_regions, &new_regions, os, ns, oe, ne);
        proof {
            lemma_region_step_paired(ov, nv, os as int, ns as int, oe as int, ne as int);
            lemma_paired_count_add(before, region_step(ov, nv, os as int, ns as int, oe as int, ne as int));
            if k + 1 < pairs@.len() {
                assert(pairs@[k as int].0 < pairs@[k + 1].0);
                assert(pairs@[k as int].1 < pairs@[k + 1].1);
            }
        }
        paired = paired + count;
        os = oe + 1;
        ns = ne + 1;
        k = k + 1;
    }
    let ghost before = region_diff_views(regions@);
    let count = region_step_exec(&mut regions, &old_regions, &new_regions, os, ns, ol, nl);
    proof {
        lemma_region_step_paired(ov, nv, os as int, ns as int, ol as int, nl as int);
        lemma_paired_count_add(before, region_step(ov, nv, os as int, ns as int, ol as int, nl as int));
    }
    paired = paired + count;
    let r = (
        RegionComparison {
            available: true,
            old_regions: ol,
            new_regions: nl,
            paired_regions: paired,
            old_only_regions: ol - paired,
            new_only_regions: nl - paired,
            regions,
        },
        Vec::new(),
    );
    r
}


/// Each step of the comparison of a region list with itself yields only
/// unchanged pairs.
proof fn lemma_self_region_prefix(o: Seq<RegionV>, pairs: Seq<(usize, usize)>, k: int)
    requires
        o.len() <= usize::MAX,
        pairs.len() == o.len(),
        forall|t: int| 0 <= t < o.len() ==> #[trigger] pairs[t] == (t as usize, t as usize),
        0 <= k <= o.len() + 1,
    ensures
        region_prefix(o, o, pairs, k).len() == crate::diff::min_of(k, o.len() as int),
        forall|t: int|
            0 <= t < region_prefix(o, o, pairs, k).len() ==> {
                let d = #[trigger] region_prefix(o, o, pairs, k)[t];
                &&& d.0 is Some && d.1 is Some
                &&& d.4 == DiffClassification::Unchanged
            },
    decreases k,
{
    if k > 0 {
        lemma_self_region_prefix(o, pairs, k - 1);
        let l = o.len() as int;
        let st = step_start(pairs, k - 1, l, l);
        let en = step_end(pairs, k - 1, l, l);
        assert(st.0 == k - 1 && st.1 == k - 1);
        assert(en.0 == min_of(k - 1, l) && en.1 == en.0);
        let step = region_step(o, o, st.0, st.1, en.0, en.1);
        let before = region_prefix(o, o, pairs, k - 1);
        assert(region_prefix(o, o, pairs, k) == before + step);
        assert(region_modifications(o, o, st.0, st.1, 0).len() == 0);
        assert(step.len() == if k - 1 < l { 1int } else { 0int });
        assert forall|t: int| 0 <= t < region_prefix(o, o, pairs, k).len() implies {
            let d = #[trigger] region_prefix(o, o, pairs, k)[t];
            &&& d.0 is Some && d.1 is Some
            &&& d.4 == DiffClassification::Unchanged
        } by {
            if t < before.len() {
                assert(region_prefix(o, o, pairs, k)[t] == before[t]);
            } else {
                assert(region_prefix(o, o, pairs, k)[t] == step[t - before.len()]);
            }
        }
    }
}

/// A region diff is classified as its texts say: unchanged only with the
/// same original text on both sides, a rename only with two different
/// original texts.
pub open spec fn classified_by_text(d: RegionDiffV) -> bool {
    &&& d.4 == DiffClassification::Unchanged ==> d.2 is Some && d.3 is Some && d.2 == d.3
    &&& d.4 == DiffClassification::RenameEquivalent ==> d.2 is Some && d.3 is Some && d.2 != d.3
}

proof fn lemma_region_prefix_by_text(o: Seq<RegionV>, n: Seq<RegionV>, pairs: Seq<(usize, usize)>, k: int)
    ensures
        forall|t: int|
            0 <= t < region_prefix(o, n, pairs, k).len() ==> classified_by_text(
                #[trigger] region_prefix(o, n, pairs, k)[t],
            ),
    decreases k,
{
    if k > 0 {
        lemma_region_prefix_by_text(o, n, pairs, k - 1);
        let ol = o.len() as int;
        let nl = n.len() as int;
        let st = step_start(pairs, k - 1, ol, nl);
        let en = step_end(pairs, k - 1, ol, nl);
        let before = region_prefix(o, n, pairs, k - 1);
        let step = region_step(o, n, st.0, st.1, en.0, en.1);
        assert(region_prefix(o, n, pairs, k) == before + step);
        let oe2 = min_of(en.0, ol);
        let ne2 = min_of(en.1, nl);
        let m = min_of(gap(st.0, oe2), gap(st.1, ne2));
        let a = region_modifications(o, n, st.0, st.1, m);
        let b = old_only(o, st.0 + m, oe2);
        let c = new_only(n, st.1 + m, ne2);
        let rest = step.subrange((a.len() + b.len() + c.len()) as int, step.len() as int);
        assert(step =~= a + b + c + rest);
        assert forall|t: int| 0 <= t < step.len() implies classified_by_text(#[trigger] step[t]) by {
            if t < a.len() {
                assert(step[t] == a[t]);
            } else if t < a.len() + b.len() {
                assert(step[t] == b[t - a.len()]);
            } else if t < a.len() + b.len() + c.len() {
                assert(step[t] == c[t - a.len() - b.len()]);
            } else {
                assert(step[t] == rest[t - a.len() - b.len() - c.len()]);
            }
        }
        assert forall|t: int|
            0 <= t < region_prefix(o, n, pairs, k).len() implies classified_by_text(
                #[trigger] region_prefix(o, n, pairs, k)[t],
            ) by {
            if t < before.len() {
                assert(region_prefix(o, n, pairs, k)[t] == before[t]);
            } else {
                assert(region_prefix(o, n, pairs, k)[t] == step[t - before.len()]);
            }
        }
    }
}

/// Regions are classified by their original texts: a region diff is
/// unchanged only when both sides have the same original text, and a
/// rename only when both sides have a region and their texts differ; so
/// aligned regions whose texts differ are renames, never unchanged.
pub proof fn lemma_regions_classified_by_text(rc: RegionComparison, warnings: Seq<String>, old: Side, new: Side)
    requires
        region_comparison_of(rc, warnings, old, new),
    ensures
        forall|t: int|
            0 <= t < rc.regions@.len() ==> {
                &&& (#[trigger] rc.regions@[t]).classification == DiffClassification::Unchanged
                    ==> rc.regions@[t].old_text is Some && rc.regions@[t].old_text.deep_view()
                    == rc.regions@[t].new_text.deep_view()
                &&& rc.regions@[t].classification == DiffClassification::RenameEquivalent
                    ==> rc.regions@[t].old_text is Some && rc.regions@[t].new_text is Some
                    && rc.regions@[t].old_text.deep_view() != rc.regions@[t].new_text.deep_view()
            },
{
    if old.content is Some && new.content is Some {
        let o = region_lines_spec(old);
        let n = region_lines_spec(new);
        let pairs = lcs_walk(normalized_texts(o), normalized_texts(n), 0, 0);
        lemma_region_prefix_by_text(o, n, pairs, pairs.len() + 1int);
        assert forall|t: int| 0 <= t < rc.regions@.len() implies {
            &&& (#[trigger] rc.regions@[t]).classification == DiffClassification::Unchanged
                ==> rc.regions@[t].old_text is Some && rc.regions@[t].old_text.deep_view()
                == rc.regions@[t].new_text.deep_view()
            &&& rc.regions@[t].classification == DiffClassification::RenameEquivalent
                ==> rc.regions@[t].old_text is Some && rc.regions@[t].new_text is Some
                && rc.regions@[t].old_text.deep_view() != rc.regions@[t].new_text.deep_view()
        } by {
            let r = rc.regions@[t];
            assert(region_diff_views(rc.regions@)[t] == r@);
            assert(classified_by_text(r@));
            assert(r@.2 == r.old_text.deep_view() && r@.3 == r.new_text.deep_view() && r@.4 == r.classification);
            if r.old_text.deep_view() is Some {
                assert(r.old_text is Some);
            }
            if r.new_text.deep_view() is Some {
                assert(r.new_text is Some);
            }
        }
    }
}

/// Over the first `k` steps, the region diffs plus the paired ones count
/// every region of both sides that the steps went through.
proof fn lemma_region_prefix_count(o: Seq<RegionV>, n: Seq<RegionV>, pairs: Seq<(usize, usize)>, k: int)
    requires
        is_common_subsequence(normalized_texts(o), normalized_texts(n), pairs, 0, 0),
        0 <= k <= pairs.len() + 1,
    ensures
        region_prefix(o, n, pairs, k).len() + paired_count(region_prefix(o, n, pairs, k)) == if k
            <= pairs.len() {
            step_start(pairs, k, o.len() as int, n.len() as int).0 + step_start(
                pairs,
                k,
                o.len() as int,
                n.len() as int,
            ).1
        } else {
            o.len() + n.len() as int
        },
    decreases k,
{
    if k > 0 {
        lemma_region_prefix_count(o, n, pairs, k - 1);
        let ol = o.len() as int;
        let nl = n.len() as int;
        let st = step_start(pairs, k - 1, ol, nl);
        let en = step_end(pairs, k - 1, ol, nl);
        let before = region_prefix(o, n, pairs, k - 1);
        let step = region_step(o, n, st.0, st.1, en.0, en.1);
        lemma_region_step_paired(o, n, st.0, st.1, en.0, en.1);
        lemma_paired_count_add(before, step);
        assert(region_prefix(o, n, pairs, k) == before + step);
        if k - 1 > 0 {
            assert(pairs[k - 2].0 < ol && pairs[k - 2].1 < nl);
        }
        if k - 1 < pairs.len() {
            assert(en == (pairs[k - 1].0 as int, pairs[k - 1].1 as int));
            assert(pairs[k - 1].0 < ol && pairs[k - 1].1 < nl);
            if k - 1 > 0 {
                assert(pairs[k - 2].0 < pairs[k - 1].0 && pairs[k - 2].1 < pairs[k - 1].1);
            }
            assert(st.0 <= en.0 && st.1 <= en.1);
        } else {
            assert(en == (ol, nl));
            assert(st.0 <= ol && st.1 <= nl);
        }
    }
}

/// Comparing regions counts every region of both sides once: each old
/// region is paired or old-only, each new region paired or new-only, the
/// paired ones are the diffs with a region on both sides, and the diffs
/// plus the paired ones make up all regions of both sides.
pub proof fn lemma_region_counts(rc: RegionComparison, warnings: Seq<String>, old: Side, new: Side)
    requires
        region_comparison_of(rc, warnings, old, new),
    ensures
        rc.old_only_regions + rc.paired_regions == rc.old_regions,
        rc.new_only_regions + rc.paired_regions == rc.new_regions,
        rc.paired_regions == paired_count(region_diff_views(rc.regions@)),
        rc.regions@.len() + rc.paired_regions == rc.old_regions + rc.new_regions,
{
    if old.content is Some && new.content is Some {
        let o = region_lines_spec(old);
        let n = region_lines_spec(new);
        lemma_lcs_walk(normalized_texts(o), normalized_texts(n), 0, 0);
        let pairs = lcs_walk(normalized_texts(o), normalized_texts(n), 0, 0);
        lemma_region_prefix_count(o, n, pairs, pairs.len() + 1int);
        assert(region_diff_views(rc.regions@).len() == rc.regions@.len());
    }
}

/// A region list compared with itself pairs every region with itself,
/// unchanged.
pub proof fn lemma_self_regions_unchanged(o: Seq<RegionV>)
    requires
        o.len() <= usize::MAX,
    ensures
        region_diffs_spec(o, o).len() == o.len(),
        forall|t: int|
            0 <= t < o.len() ==> (#[trigger] region_diffs_spec(o, o)[t]).4 == DiffClassification::Unchanged,
        paired_count(region_diffs_spec(o, o)) == o.len(),
{
    let n = normalized_texts(o);
    crate::diff::lemma_walk_self(n, 0);
    let pairs = lcs_walk(n, n, 0, 0);
    assert forall|t: int| 0 <= t < o.len() implies #[trigger] pairs[t] == (t as usize, t as usize) by {
        assert(pairs[t] == ((0 + t) as usize, (0 + t) as usize));
    }
    lemma_self_region_prefix(o, pairs, o.len() as int + 1);
    let d = region_diffs_spec(o, o);
    assert forall|k: int| 0 <= k < d.len() implies ((#[trigger] d[k]).0 is Some && d[k].1 is Some) == true by {}
    lemma_paired_count_all(d, true);
}

/// A file whose source, matches and replaced ranges are the same in both
/// scans keeps all its regions: each is paired with itself and unchanged,
/// and none is one-sided.
pub proof fn lemma_identical_shared_file_unchanged(
    rc: RegionComparison,
    warnings: Seq<String>,
    old: Side,
    new: Side,
)
    requires
        region_comparison_of(rc, warnings, old, new),
        old.content is Some,
        new.content == old.content,
        new.matches@ == old.matches@,
        new.content_normalization_ranges@ == old.content_normalization_ranges@,
        region_lines_spec(old).len() <= usize::MAX,
    ensures
        rc.available,
        rc.paired_regions == rc.old_regions,
        rc.old_only_regions == 0,
        rc.new_only_regions == 0,
        forall|t: int|
            0 <= t < rc.regions@.len() ==> (#[trigger] rc.regions@[t]).classification == DiffClassification::Unchanged,
{
    let o = region_lines_spec(old);
    assert(side_normalized(new) == side_normalized(old));
    assert(region_lines_spec(new) == o);
    lemma_self_regions_unchanged(o);
    assert forall|t: int|
        0 <= t < rc.regions@.len() implies (#[trigger] rc.regions@[t]).classification
            == DiffClassification::Unchanged by {
        assert(region_diff_views(rc.regions@)[t] == rc.regions@[t]@);
    }
}

} // verus!
