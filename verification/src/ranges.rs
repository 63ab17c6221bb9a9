use vstd::prelude::*;

verus! {

/// A half-open span `[start, end)` of positions.
pub type Span = (usize, usize);

// ---------------------------------------------------------------------------
// Sorting spans (by start, then end)
// ---------------------------------------------------------------------------

/// The order of spans: by start, then by end.
pub open spec fn span_le(a: Span, b: Span) -> bool {
    a.0 < b.0 || (a.0 == b.0 && a.1 <= b.1)
}

pub open spec fn spans_sorted(s: Seq<Span>) -> bool {
    forall|i: int, j: int| 0 <= i < j < s.len() ==> span_le(s[i], s[j])
}

/// Where `x` goes in `s`: after the leading spans that are not above it.
pub open spec fn insert_pos(s: Seq<Span>, x: Span) -> nat
    decreases s.len(),
{
    if s.len() == 0 {
        0
    } else if span_le(s[0], x) {
        1 + insert_pos(s.drop_first(), x)
    } else {
        0
    }
}

/// The spans of `s` in ascending order (insertion sort).
pub open spec fn sort_spans(s: Seq<Span>) -> Seq<Span>
    decreases s.len(),
{
    if s.len() == 0 {
        s
    } else {
        let r = sort_spans(s.drop_last());
        r.insert(insert_pos(r, s.last()) as int, s.last())
    }
}

proof fn lemma_insert_pos_bound(s: Seq<Span>, x: Span)
    ensures
        insert_pos(s, x) <= s.len(),
        forall|k: int| 0 <= k < insert_pos(s, x) ==> span_le(#[trigger] s[k], x),
        insert_pos(s, x) < s.len() ==> !span_le(s[insert_pos(s, x) as int], x),
    decreases s.len(),
{
    if s.len() > 0 && span_le(s[0], x) {
        lemma_insert_pos_bound(s.drop_first(), x);
        assert forall|k: int| 0 <= k < insert_pos(s, x) implies span_le(#[trigger] s[k], x) by {
            if k > 0 {
                assert(s[k] == s.drop_first()[k - 1]);
            }
        }
    }
}

proof fn lemma_insert_sorted(s: Seq<Span>, x: Span)
    requires
        spans_sorted(s),
    ensures
        spans_sorted(s.insert(insert_pos(s, x) as int, x)),
        s.insert(insert_pos(s, x) as int, x).to_multiset() == s.to_multiset().insert(x),
{
    lemma_insert_pos_bound(s, x);
    let p = insert_pos(s, x) as int;
    let t = s.insert(p, x);
    assert forall|i: int, j: int| 0 <= i < j < t.len() implies span_le(t[i], t[j]) by {
        if j < p {
        } else if j == p {
        } else if i < p {
            assert(span_le(s[i], x));
            assert(!span_le(s[p], x));
            assert(span_le(s[p], s[j - 1]));
        } else if i == p {
            assert(!span_le(s[p], x));
            assert(span_le(s[p], s[j - 1]) || p == j - 1);
        } else {
        }
    }
    assert(t.remove(p) =~= s);
    broadcast use vstd::seq_lib::group_to_multiset_ensures;
    assert(t.to_multiset().remove(x) == s.to_multiset());
    assert(t.to_multiset().count(x) > 0);
    assert(t.to_multiset() =~= s.to_multiset().insert(x));
}

/// Sorting spans gives an ascending permutation of them.
pub proof fn lemma_sort_spans(s: Seq<Span>)
    ensures
        spans_sorted(sort_spans(s)),
        sort_spans(s).to_multiset() == s.to_multiset(),
        sort_spans(s).len() == s.len(),
    decreases s.len(),
{
    broadcast use vstd::seq_lib::group_to_multiset_ensures;

    if s.len() > 0 {
        lemma_sort_spans(s.drop_last());
        lemma_insert_sorted(sort_spans(s.drop_last()), s.last());
        lemma_insert_pos_bound(sort_spans(s.drop_last()), s.last());
        assert(s.drop_last().push(s.last()) =~= s);
    }
}

/// Sorts spans by start, then end.
pub fn sort_span_vec(v: Vec<Span>) -> (r: Vec<Span>)
    ensures
        r@ == sort_spans(v@),
{
    let mut r: Vec<Span> = Vec::new();
    let mut i: usize = 0;
    while i < v.len()
        invariant
            0 <= i <= v@.len(),
            r@ == sort_spans(v@.take(i as int)),
        decreases v@.len() - i,
    {
        let x = v[i];
        let mut p: usize = 0;
        assert(r@.skip(0) == r@);
        while p < r.len() && (r[p].0 < x.0 || (r[p].0 == x.0 && r[p].1 <= x.1))
            invariant
                0 <= p <= r@.len(),
                insert_pos(r@, x) == p + insert_pos(r@.skip(p as int), x),
            decreases r@.len() - p,
        {
            assert(r@.skip(p as int).drop_first() == r@.skip(p + 1));
            p = p + 1;
        }
        assert(insert_pos(r@.skip(p as int), x) == 0);
        r.insert(p, x);
        i = i + 1;
        assert(v@.take(i as int).drop_last() == v@.take(i - 1));
    }
    assert(v@.take(i as int) == v@);
    r
}

// ---------------------------------------------------------------------------
// Merging spans
// ---------------------------------------------------------------------------

/// Whether a span starting at `start` joins the span `last` that precedes it:
/// it overlaps it, or (when `touching` joins too) starts where it ends.
pub open spec fn joins(last: Span, start: usize, touching: bool) -> bool {
    start < last.1 || (touching && start == last.1)
}

/// Folds ascending spans left to right, widening the last span with each
/// span that joins it and starting a new span otherwise.
pub open spec fn merge_fold(s: Seq<Span>, touching: bool) -> Seq<Span>
    decreases s.len(),
{
    if s.len() == 0 {
        s
    } else {
        let r = merge_fold(s.drop_last(), touching);
        let x = s.last();
        if r.len() > 0 && joins(r.last(), x.0, touching) {
            r.update(r.len() - 1, (r.last().0, if r.last().1 >= x.1 { r.last().1 } else { x.1 }))
        } else {
            r.push(x)
        }
    }
}

/// The spans of `s` sorted, then merged where they overlap (and, when
/// `touching`, where one starts exactly where the previous ends).
pub open spec fn merge_spec(s: Seq<Span>, touching: bool) -> Seq<Span> {
    merge_fold(sort_spans(s), touching)
}

fn merge_impl(ranges: Vec<Span>, touching: bool) -> (r: Vec<Span>)
    ensures
        r@ == merge_spec(ranges@, touching),
{
    let sorted = sort_span_vec(ranges);
    let mut result: Vec<Span> = Vec::new();
    let mut i: usize = 0;
    while i < sorted.len()
        invariant
            0 <= i <= sorted@.len(),
            result@ == merge_fold(sorted@.take(i as int), touching),
        decreases sorted@.len() - i,
    {
        let (start, end) = sorted[i];
        let n = result.len();
        if n > 0 && (start < result[n - 1].1 || (touching && start == result[n - 1].1)) {
            let last = result[n - 1];
            let wide = if last.1 >= end {
                last.1
            } else {
                end
            };
            result.set(n - 1, (last.0, wide));
        } else {
            result.push((start, end));
        }
        i = i + 1;
        assert(sorted@.take(i as int).drop_last() == sorted@.take(i - 1));
    }
    assert(sorted@.take(i as int) == sorted@);
    result
}

/// Sorts spans and merges the ones that overlap; spans that only touch
/// stay apart.
pub fn merge(ranges: Vec<Span>) -> (r: Vec<Span>)
    ensures
        r@ == merge_spec(ranges@, false),
{
    merge_impl(ranges, false)
}

/// Sorts spans and merges the ones that overlap or touch.
pub fn merge_regions(ranges: Vec<Span>) -> (r: Vec<Span>)
    ensures
        r@ == merge_spec(ranges@, true),
{
    merge_impl(ranges, true)
}

// ---------------------------------------------------------------------------
// Laws of merging
// ---------------------------------------------------------------------------

/// Position `p` lies in one of the spans.
pub open spec fn covered(s: Seq<Span>, p: int) -> bool {
    exists|i: int| 0 <= i < s.len() && (#[trigger] s[i]).0 <= p < s[i].1
}

/// Consecutive merged spans are apart: each starts at or after (when
/// `touching`, strictly after) the end of the one before.
pub open spec fn spans_apart(s: Seq<Span>, touching: bool) -> bool {
    forall|i: int|
        0 < i < s.len() ==> if touching {
            s[i - 1].1 < #[trigger] s[i].0
        } else {
            s[i - 1].1 <= #[trigger] s[i].0
        }
}

proof fn lemma_merge_fold(s: Seq<Span>, touching: bool)
    requires
        spans_sorted(s),
    ensures
        spans_apart(merge_fold(s, touching), touching),
        s.len() > 0 ==> merge_fold(s, touching).len() > 0,
        s.len() > 0 ==> merge_fold(s, touching).last().0 <= s.last().0,
        forall|p: int| covered(merge_fold(s, touching), p) == covered(s, p),
    decreases s.len(),
{
    if s.len() > 0 {
        let t = s.drop_last();
        lemma_merge_fold(t, touching);
        let r = merge_fold(t, touching);
        let x = s.last();
        if t.len() > 0 {
            assert(span_le(t.last(), x));
        }
        if r.len() > 0 && joins(r.last(), x.0, touching) {
            let w = (r.last().0, if r.last().1 >= x.1 { r.last().1 } else { x.1 });
            let m = r.update(r.len() - 1, w);
            assert forall|p: int| covered(m, p) == covered(s, p) by {
                if covered(s, p) {
                    let k = choose|k: int| 0 <= k < s.len() && (#[trigger] s[k]).0 <= p < s[k].1;
                    if k == s.len() - 1 {
                        if p < r.last().1 {
                            assert(r.last().0 <= x.0);
                        }
                        assert(m[m.len() - 1].0 <= p < m[m.len() - 1].1);
                    } else {
                        assert(t[k] == s[k]);
                        assert(covered(t, p));
                        assert(covered(r, p));
                        let j = choose|j: int| 0 <= j < r.len() && (#[trigger] r[j]).0 <= p < r[j].1;
                        if j == r.len() - 1 {
                            assert(m[j].0 <= p < m[j].1);
                        } else {
                            assert(m[j] == r[j]);
                        }
                    }
                }
                if covered(m, p) {
                    let j = choose|j: int| 0 <= j < m.len() && (#[trigger] m[j]).0 <= p < m[j].1;
                    if j == m.len() - 1 {
                        if p < r.last().1 {
                            assert(r[j].0 <= p < r[j].1);
                            assert(covered(r, p));
                            assert(covered(t, p));
                            let k = choose|k: int| 0 <= k < t.len() && (#[trigger] t[k]).0 <= p < t[k].1;
                            assert(s[k] == t[k]);
                        } else {
                            assert(x.0 <= p < x.1);
                            assert(s[s.len() - 1].0 <= p < s[s.len() - 1].1);
                        }
                    } else {
                        assert(r[j] == m[j]);
                        assert(covered(r, p));
                        assert(covered(t, p));
                        let k = choose|k: int| 0 <= k < t.len() && (#[trigger] t[k]).0 <= p < t[k].1;
                        assert(s[k] == t[k]);
                    }
                }
            }
        } else {
            let m = r.push(x);
            assert forall|p: int| covered(m, p) == covered(s, p) by {
                if covered(s, p) {
                    let k = choose|k: int| 0 <= k < s.len() && (#[trigger] s[k]).0 <= p < s[k].1;
                    if k == s.len() - 1 {
                        assert(m[m.len() - 1] == x);
                    } else {
                        assert(t[k] == s[k]);
                        assert(covered(t, p));
                        let j = choose|j: int| 0 <= j < r.len() && (#[trigger] r[j]).0 <= p < r[j].1;
                        assert(m[j] == r[j]);
                    }
                }
                if covered(m, p) {
                    let j = choose|j: int| 0 <= j < m.len() && (#[trigger] m[j]).0 <= p < m[j].1;
                    if j == m.len() - 1 {
                        assert(s[s.len() - 1] == x);
                    } else {
                        assert(r[j] == m[j]);
                        assert(covered(r, p));
                        assert(covered(t, p));
                        let k = choose|k: int| 0 <= k < t.len() && (#[trigger] t[k]).0 <= p < t[k].1;
                        assert(s[k] == t[k]);
                    }
                }
            }
        }
    }
}

/// Merging keeps exactly the covered positions, and the merged spans are
/// ascending and apart.
pub proof fn lemma_merge_laws(s: Seq<Span>, touching: bool)
    ensures
        spans_apart(merge_spec(s, touching), touching),
        forall|p: int| covered(merge_spec(s, touching), p) == covered(s, p),
{
    lemma_sort_spans(s);
    let t = sort_spans(s);
    lemma_merge_fold(t, touching);
    broadcast use vstd::seq_lib::group_to_multiset_ensures;

    assert forall|p: int| covered(t, p) == covered(s, p) by {
        if covered(t, p) {
            let k = choose|k: int| 0 <= k < t.len() && (#[trigger] t[k]).0 <= p < t[k].1;
            assert(t.contains(t[k]));
            assert(t.to_multiset().count(t[k]) > 0);
            assert(s.contains(t[k]));
        }
        if covered(s, p) {
            let k = choose|k: int| 0 <= k < s.len() && (#[trigger] s[k]).0 <= p < s[k].1;
            assert(s.contains(s[k]));
            assert(s.to_multiset().count(s[k]) > 0);
            assert(t.contains(s[k]));
        }
    }
}


/// Every span holds at least one position.
pub open spec fn spans_nonempty(s: Seq<Span>) -> bool {
    forall|i: int| 0 <= i < s.len() ==> (#[trigger] s[i]).0 < s[i].1
}

proof fn lemma_insert_pos_after_all(s: Seq<Span>, x: Span)
    requires
        forall|k: int| 0 <= k < s.len() ==> span_le(#[trigger] s[k], x),
    ensures
        insert_pos(s, x) == s.len(),
    decreases s.len(),
{
    if s.len() > 0 {
        assert(span_le(s[0], x));
        assert forall|k: int| 0 <= k < s.drop_first().len() implies span_le(#[trigger] s.drop_first()[k], x) by {
            assert(s.drop_first()[k] == s[k + 1]);
        }
        lemma_insert_pos_after_all(s.drop_first(), x);
    }
}

/// Sorting spans that are already in order leaves them as they are.
proof fn lemma_sort_sorted(s: Seq<Span>)
    requires
        spans_sorted(s),
    ensures
        sort_spans(s) == s,
    decreases s.len(),
{
    if s.len() > 0 {
        let t = s.drop_last();
        assert forall|i: int, j: int| 0 <= i < j < t.len() implies span_le(t[i], t[j]) by {
            assert(t[i] == s[i] && t[j] == s[j]);
        }
        lemma_sort_sorted(t);
        assert forall|k: int| 0 <= k < t.len() implies span_le(#[trigger] t[k], s.last()) by {
            assert(t[k] == s[k]);
        }
        lemma_insert_pos_after_all(t, s.last());
        assert(t.insert(t.len() as int, s.last()) =~= s);
    }
}

/// Folding nonempty spans gives nonempty spans, no more of them.
proof fn lemma_merge_fold_shape(s: Seq<Span>, touching: bool)
    requires
        spans_nonempty(s),
    ensures
        spans_nonempty(merge_fold(s, touching)),
        merge_fold(s, touching).len() <= s.len(),
    decreases s.len(),
{
    if s.len() > 0 {
        let t = s.drop_last();
        assert forall|i: int| 0 <= i < t.len() implies (#[trigger] t[i]).0 < t[i].1 by {
            assert(t[i] == s[i]);
        }
        lemma_merge_fold_shape(t, touching);
        assert(s[s.len() - 1] == s.last());
    }
}

/// Folding spans that are nonempty and apart changes nothing.
proof fn lemma_merge_fold_apart(s: Seq<Span>, touching: bool)
    requires
        spans_nonempty(s),
        spans_apart(s, touching),
    ensures
        merge_fold(s, touching) == s,
    decreases s.len(),
{
    if s.len() > 0 {
        let t = s.drop_last();
        assert forall|i: int| 0 <= i < t.len() implies (#[trigger] t[i]).0 < t[i].1 by {
            assert(t[i] == s[i]);
        }
        assert forall|i: int| 0 < i < t.len() implies if touching {
            t[i - 1].1 < #[trigger] t[i].0
        } else {
            t[i - 1].1 <= #[trigger] t[i].0
        } by {
            assert(t[i] == s[i] && t[i - 1] == s[i - 1]);
        }
        lemma_merge_fold_apart(t, touching);
        if t.len() > 0 {
            assert(t.last() == s[s.len() - 2]);
            assert(s.last() == s[s.len() - 1]);
        }
        assert(t.push(s.last()) =~= s);
    }
}

/// Spans that are nonempty and apart are in order: each ends at or before
/// the start of every later one.
proof fn lemma_apart_ordered(s: Seq<Span>, touching: bool)
    requires
        spans_nonempty(s),
        spans_apart(s, touching),
    ensures
        forall|i: int, j: int| 0 <= i < j < s.len() ==> s[i].1 <= s[j].0,
        spans_sorted(s),
    decreases s.len(),
{
    if s.len() > 0 {
        let t = s.drop_last();
        assert forall|i: int| 0 <= i < t.len() implies (#[trigger] t[i]).0 < t[i].1 by {
            assert(t[i] == s[i]);
        }
        assert forall|i: int| 0 < i < t.len() implies if touching {
            t[i - 1].1 < #[trigger] t[i].0
        } else {
            t[i - 1].1 <= #[trigger] t[i].0
        } by {
            assert(t[i] == s[i] && t[i - 1] == s[i - 1]);
        }
        lemma_apart_ordered(t, touching);
        assert forall|i: int, j: int| 0 <= i < j < s.len() implies s[i].1 <= s[j].0 by {
            if j < s.len() - 1 {
                assert(s[i] == t[i] && s[j] == t[j]);
            } else if i < j - 1 {
                assert(s[i] == t[i] && s[j - 1] == t[j - 1]);
                assert(s[j - 1].0 < s[j - 1].1);
            }
        }
        assert forall|i: int, j: int| 0 <= i < j < s.len() implies span_le(s[i], s[j]) by {
            assert(s[i].0 < s[i].1);
        }
    }
}

/// Merging nonempty spans gives nonempty spans, no more of them than
/// there were, and merging them again changes nothing.
pub proof fn lemma_merge_shape(s: Seq<Span>, touching: bool)
    requires
        spans_nonempty(s),
    ensures
        spans_nonempty(merge_spec(s, touching)),
        merge_spec(s, touching).len() <= s.len(),
        merge_spec(merge_spec(s, touching), touching) == merge_spec(s, touching),
{
    lemma_sort_spans(s);
    let t = sort_spans(s);
    broadcast use vstd::seq_lib::group_to_multiset_ensures;

    assert forall|i: int| 0 <= i < t.len() implies (#[trigger] t[i]).0 < t[i].1 by {
        assert(t.contains(t[i]));
        assert(t.to_multiset().count(t[i]) > 0);
        assert(s.contains(t[i]));
    }
    lemma_merge_fold_shape(t, touching);
    let m = merge_spec(s, touching);
    lemma_merge_laws(s, touching);
    lemma_apart_ordered(m, touching);
    lemma_sort_sorted(m);
    lemma_merge_fold_apart(m, touching);
}

// ---------------------------------------------------------------------------
// Replacing spans with a marker
// ---------------------------------------------------------------------------

/// Where the text after the `k`-th span resumes (0 before any span).
pub open spec fn gap_start(r: Seq<Span>, k: int) -> int {
    if k <= 0 {
        0
    } else {
        r[k - 1].1 as int
    }
}

/// The text before the `k`-th span, with each of the first `k` spans
/// replaced by `marker`.
pub open spec fn splice_prefix<A>(s: Seq<A>, r: Seq<Span>, k: int, marker: Seq<A>) -> Seq<A>
    decreases k,
{
    if k <= 0 {
        Seq::<A>::empty()
    } else {
        splice_prefix(s, r, k - 1, marker) + s.subrange(gap_start(r, k - 1), r[k - 1].0 as int)
            + marker
    }
}

/// `s` with each span of `r` (in order) replaced by `marker`.
pub open spec fn splice<A>(s: Seq<A>, r: Seq<Span>, marker: Seq<A>) -> Seq<A> {
    splice_prefix(s, r, r.len() as int, marker) + s.subrange(gap_start(r, r.len() as int), s.len() as int)
}

/// Spans that can be replaced in a text of length `len`: in order, apart,
/// and inside the text.
pub open spec fn splicable(r: Seq<Span>, len: nat) -> bool {
    &&& spans_apart(r, false)
    &&& forall|k: int| 0 <= k < r.len() ==> (#[trigger] r[k]).0 <= len && r[k].1 <= len
}

/// Replaces each span of `r` in `s` with `marker`.
pub fn splice_vec<A: Copy>(s: &[A], r: &[Span], marker: &[A]) -> (out: Vec<A>)
    requires
        splicable(r@, s@.len()),
    ensures
        out@ == splice(s@, r@, marker@),
{
    let mut out: Vec<A> = Vec::new();
    let mut position: usize = 0;
    let mut k: usize = 0;
    while k < r.len()
        invariant
            splicable(r@, s@.len()),
            0 <= k <= r@.len(),
            position as int == gap_start(r@, k as int),
            out@ == splice_prefix(s@, r@, k as int, marker@),
        decreases r@.len() - k,
    {
        let (start, end) = r[k];
        proof {
            if k > 0 {
                assert(r@[k - 1].1 <= (#[trigger] r@[k as int]).0);
            }
        }
        let mut i = position;
        while i < start
            invariant
                position <= i <= start <= s@.len(),
                out@ == splice_prefix(s@, r@, k as int, marker@) + s@.subrange(
                    position as int,
                    i as int,
                ),
            decreases start - i,
        {
            out.push(s[i]);
            i = i + 1;
            assert(s@.subrange(position as int, i as int) == s@.subrange(
                position as int,
                i - 1,
            ).push(s@[i - 1]));
        }
        let mut j: usize = 0;
        while j < marker.len()
            invariant
                0 <= j <= marker@.len(),
                out@ == splice_prefix(s@, r@, k as int, marker@) + s@.subrange(
                    position as int,
                    start as int,
                ) + marker@.take(j as int),
            decreases marker@.len() - j,
        {
            out.push(marker[j]);
            j = j + 1;
            assert(marker@.take(j as int) == marker@.take(j - 1).push(marker@[j - 1]));
        }
        assert(marker@.take(j as int) == marker@);
        position = end;
        k = k + 1;
    }
    let mut i = position;
    while i < s.len()
        invariant
            position <= i <= s@.len(),
            out@ == splice_prefix(s@, r@, k as int, marker@) + s@.subrange(position as int, i as int),
        decreases s@.len() - i,
    {
        out.push(s[i]);
        i = i + 1;
        assert(s@.subrange(position as int, i as int) == s@.subrange(position as int, i - 1).push(
            s@[i - 1],
        ));
    }
    proof {
        if k > 0 {
            assert(r@[k - 1].1 <= s@.len());
        }
    }
    out
}

} // verus!
