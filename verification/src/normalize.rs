//! Replacing what the pattern matched with a sentinel, in paths and in
//! source text, so that renamed files and renamed identifiers line up.
use vstd::prelude::*;
use vstd::utf8::{encode_utf8, encode_scalar, decode_utf8, valid_utf8, is_char_boundary};

use crate::model::{Match, PathMatch};
use crate::ranges::{
    Span, gap_start, joins, lemma_merge_laws, lemma_sort_spans, merge, merge_fold, merge_spec, sort_spans,
    splicable, splice, splice_prefix, splice_vec, spans_sorted,
};
use crate::text::{chars_of, join_spec, join_strings, split_char, split_spec, string_from_chars, views};

verus! {

/// What stands in for each matched span.
pub const SENTINEL: &'static str = "{CORRELATION}";

/// The characters of the sentinel.
pub open spec fn sentinel() -> Seq<char> {
    seq!['{', 'C', 'O', 'R', 'R', 'E', 'L', 'A', 'T', 'I', 'O', 'N', '}']
}

fn sentinel_chars() -> (v: Vec<char>)
    ensures
        v@ == sentinel(),
{
    let v = chars_of(SENTINEL);
    proof {
        reveal_strlit("{CORRELATION}");
        assert(v@ =~= sentinel());
    }
    v
}

fn sentinel_bytes() -> (v: Vec<u8>)
    ensures
        v@ == encode_utf8(sentinel()),
{
    let b = SENTINEL.as_bytes();
    proof {
        reveal_strlit("{CORRELATION}");
        assert(SENTINEL@ =~= sentinel());
    }
    let mut v: Vec<u8> = Vec::new();
    let mut i: usize = 0;
    while i < b.len()
        invariant
            0 <= i <= b@.len(),
            v@ == b@.take(i as int),
        decreases b@.len() - i,
    {
        v.push(b[i]);
        i = i + 1;
        assert(b@.take(i as int) == b@.take(i - 1).push(b@[i - 1]));
    }
    assert(b@.take(i as int) == b@);
    v
}

pub open spec fn min_int(a: int, b: int) -> int {
    if a <= b {
        a
    } else {
        b
    }
}

// ---------------------------------------------------------------------------
// More laws of merging
// ---------------------------------------------------------------------------

/// Every merged span starts where some span started and ends where some
/// span ended; merging nonempty spans gives nonempty spans.
pub proof fn lemma_merge_ends(s: Seq<Span>, touching: bool)
    ensures
        forall|i: int|
            0 <= i < merge_spec(s, touching).len() ==> (exists|k: int|
                0 <= k < s.len() && s[k].0 == (#[trigger] merge_spec(s, touching)[i]).0) && (exists|
                k: int,
            |
                0 <= k < s.len() && s[k].1 == merge_spec(s, touching)[i].1),
        (forall|k: int| 0 <= k < s.len() ==> (#[trigger] s[k]).0 < s[k].1) ==> forall|i: int|
            0 <= i < merge_spec(s, touching).len() ==> (#[trigger] merge_spec(s, touching)[i]).0
                < merge_spec(s, touching)[i].1,
{
    lemma_sort_spans(s);
    let t = sort_spans(s);
    lemma_merge_fold_ends(t, touching);
    broadcast use vstd::seq_lib::group_to_multiset_ensures;

    assert forall|k: int| 0 <= k < t.len() implies exists|k2: int| 0 <= k2 < s.len() && s[k2] == #[trigger] t[k] by {
        assert(t.contains(t[k]));
        assert(t.to_multiset().count(t[k]) > 0);
        assert(s.contains(t[k]));
    }
    if forall|k: int| 0 <= k < s.len() ==> (#[trigger] s[k]).0 < s[k].1 {
        assert forall|k: int| 0 <= k < t.len() implies (#[trigger] t[k]).0 < t[k].1 by {
            assert(t.contains(t[k]));
            assert(t.to_multiset().count(t[k]) > 0);
            assert(s.contains(t[k]));
        }
    }
    let m = merge_spec(s, touching);
    assert forall|i: int| 0 <= i < m.len() implies (exists|k: int|
        0 <= k < s.len() && s[k].0 == (#[trigger] m[i]).0) && (exists|k: int|
        0 <= k < s.len() && s[k].1 == m[i].1) by {
        let k1 = choose|k: int| 0 <= k < t.len() && t[k].0 == m[i].0;
        let k2 = choose|k: int| 0 <= k < t.len() && t[k].1 == m[i].1;
        let j1 = choose|j: int| 0 <= j < s.len() && s[j] == t[k1];
        let j2 = choose|j: int| 0 <= j < s.len() && s[j] == t[k2];
    }
}

proof fn lemma_merge_fold_ends(s: Seq<Span>, touching: bool)
    requires
        spans_sorted(s),
    ensures
        forall|i: int|
            0 <= i < merge_fold(s, touching).len() ==> (exists|k: int|
                0 <= k < s.len() && s[k].0 == (#[trigger] merge_fold(s, touching)[i]).0) && (exists|
                k: int,
            |
                0 <= k < s.len() && s[k].1 == merge_fold(s, touching)[i].1),
        (forall|k: int| 0 <= k < s.len() ==> (#[trigger] s[k]).0 < s[k].1) ==> forall|i: int|
            0 <= i < merge_fold(s, touching).len() ==> (#[trigger] merge_fold(s, touching)[i]).0
                < merge_fold(s, touching)[i].1,
    decreases s.len(),
{
    if s.len() > 0 {
        let t = s.drop_last();
        assert forall|k: int| 0 <= k < t.len() implies #[trigger] t[k] == s[k] by {}
        assert(spans_sorted(t));
        lemma_merge_fold_ends(t, touching);
        let r = merge_fold(t, touching);
        let m = merge_fold(s, touching);
        let x = s.last();
        assert forall|i: int| 0 <= i < m.len() implies (exists|k: int|
            0 <= k < s.len() && s[k].0 == (#[trigger] m[i]).0) && (exists|k: int|
            0 <= k < s.len() && s[k].1 == m[i].1) by {
            if i < r.len() {
                let k1 = choose|k: int| 0 <= k < t.len() && t[k].0 == r[i].0;
                let k2 = choose|k: int| 0 <= k < t.len() && t[k].1 == r[i].1;
                assert(s[k1] == t[k1]);
                assert(s[k2] == t[k2]);
                if r.len() > 0 && joins(r.last(), x.0, touching) && i == r.len() - 1 {
                    if r.last().1 < x.1 {
                        assert(s[s.len() - 1].1 == m[i].1);
                    }
                }
            } else {
                assert(m[i] == x);
                assert(s[s.len() - 1] == x);
            }
        }
        if forall|k: int| 0 <= k < s.len() ==> (#[trigger] s[k]).0 < s[k].1 {
            assert forall|k: int| 0 <= k < t.len() implies (#[trigger] t[k]).0 < t[k].1 by {
                assert(s[k] == t[k]);
            }
            assert(x.0 < x.1) by {
                assert(s[s.len() - 1] == x);
            }
        }
    }
}

// ---------------------------------------------------------------------------
// Paths
// ---------------------------------------------------------------------------

/// The spans that the matches of component `index` mark in a component of
/// `len` characters: clamped to the component, empty ones dropped.
pub open spec fn component_spans(r: Seq<PathMatch>, index: int, len: int) -> Seq<Span>
    decreases r.len(),
{
    if r.len() == 0 {
        Seq::<Span>::empty()
    } else {
        let p = component_spans(r.drop_last(), index, len);
        let x = r.last();
        let s = min_int(x.start as int, len);
        let e = min_int(x.end as int, len);
        if x.component_index == index && s < e {
            p.push((s as usize, e as usize))
        } else {
            p
        }
    }
}

/// A path component with each merged matched span replaced by the sentinel.
pub open spec fn normalize_component(c: Seq<char>, r: Seq<PathMatch>, index: int) -> Seq<char> {
    splice(c, merge_spec(component_spans(r, index, c.len() as int), false), sentinel())
}

/// The components of a path, each normalized.
pub open spec fn normalized_components(path: Seq<char>, r: Seq<PathMatch>) -> Seq<Seq<char>> {
    split_spec(path, '/').map(|i: int, c: Seq<char>| normalize_component(c, r, i))
}

/// A path with the matched spans of each `/`-separated component replaced
/// by the sentinel.
pub open spec fn normalize_path_spec(path: Seq<char>, r: Seq<PathMatch>) -> Seq<char> {
    join_spec(normalized_components(path, r), seq!['/'])
}

proof fn lemma_component_spans(r: Seq<PathMatch>, index: int, len: int)
    requires
        0 <= len,
    ensures
        forall|k: int|
            0 <= k < component_spans(r, index, len).len() ==> (#[trigger] component_spans(
                r,
                index,
                len,
            )[k]).0 < component_spans(r, index, len)[k].1 <= len,
    decreases r.len(),
{
    if r.len() > 0 {
        lemma_component_spans(r.drop_last(), index, len);
        let p = component_spans(r.drop_last(), index, len);
        let x = r.last();
        let s = min_int(x.start as int, len);
        let e = min_int(x.end as int, len);
        if x.component_index == index && s < e {
            assert(0 <= s <= usize::MAX);
            assert(0 <= e <= usize::MAX);
            let q = p.push((s as usize, e as usize));
            assert(q.last().0 == s);
            assert(q.last().1 == e);
            assert forall|k: int| 0 <= k < q.len() implies (#[trigger] q[k]).0 < q[k].1 <= len by {
                if k < p.len() {
                    assert(q[k] == p[k]);
                }
            }
        }
    }
}

/// Merged spans of a component can be spliced into it.
proof fn lemma_component_splicable(r: Seq<PathMatch>, index: int, len: int)
    requires
        0 <= len,
    ensures
        splicable(merge_spec(component_spans(r, index, len), false), len as nat),
{
    let s = component_spans(r, index, len);
    lemma_component_spans(r, index, len);
    lemma_merge_laws(s, false);
    lemma_merge_ends(s, false);
    let m = merge_spec(s, false);
    assert forall|k: int| 0 <= k < m.len() implies (#[trigger] m[k]).0 <= len && m[k].1 <= len by {
        let j = choose|j: int| 0 <= j < s.len() && s[j].1 == m[k].1;
        assert(s[j].0 < s[j].1 <= len);
    }
}

fn normalize_component_exec(c: &str, ranges: &[PathMatch], index: usize) -> (r: String)
    ensures
        r@ == normalize_component(c@, ranges@, index as int),
{
    let chars = chars_of(c);
    let len = chars.len();
    let mut spans: Vec<Span> = Vec::new();
    let mut i: usize = 0;
    while i < ranges.len()
        invariant
            0 <= i <= ranges@.len(),
            len == c@.len(),
            spans@ == component_spans(ranges@.take(i as int), index as int, len as int),
        decreases ranges@.len() - i,
    {
        let x = ranges[i];
        let s = if x.start <= len {
            x.start
        } else {
            len
        };
        let e = if x.end <= len {
            x.end
        } else {
            len
        };
        if x.component_index == index && s < e {
            spans.push((s, e));
        }
        i = i + 1;
        assert(ranges@.take(i as int).drop_last() == ranges@.take(i - 1));
    }
    assert(ranges@.take(i as int) == ranges@);
    let merged = merge(spans);
    proof {
        lemma_component_splicable(ranges@, index as int, len as int);
    }
    let marker = sentinel_chars();
    let out = splice_vec(chars.as_slice(), merged.as_slice(), marker.as_slice());
    string_from_chars(out.as_slice())
}

/// Replaces the matched spans of each `/`-separated path component with the
/// sentinel: the spans of a component are clamped to it, and overlapping
/// ones are merged first, so that each run of matched text becomes one
/// sentinel (spans that only touch each get one).
pub fn normalize_path(path: &str, ranges: &[PathMatch]) -> (r: String)
    ensures
        r@ == normalize_path_spec(path@, ranges@),
{
    let parts = split_char(path, '/');
    let mut out: Vec<String> = Vec::new();
    let mut i: usize = 0;
    while i < parts.len()
        invariant
            0 <= i <= parts@.len(),
            views(parts@) == split_spec(path@, '/'),
            out@.len() == i,
            forall|k: int|
                0 <= k < i ==> (#[trigger] out@[k])@ == normalize_component(
                    parts@[k]@,
                    ranges@,
                    k,
                ),
        decreases parts@.len() - i,
    {
        let piece = normalize_component_exec(parts[i].as_str(), ranges, i);
        out.push(piece);
        i = i + 1;
    }
    let r = join_strings(out.as_slice(), "/");
    proof {
        reveal_strlit("/");
        assert(views(out@) =~= normalized_components(path@, ranges@));
        assert("/"@ =~= seq!['/']);
    }
    r
}


/// A path without matched spans is its own key.
pub proof fn lemma_unmatched_path_is_its_own_key(path: Seq<char>)
    ensures
        normalize_path_spec(path, Seq::<PathMatch>::empty()) == path,
{
    let none = Seq::<PathMatch>::empty();
    let parts = split_spec(path, '/');
    assert forall|i: int| 0 <= i < parts.len() implies #[trigger] normalized_components(path, none)[i]
        == parts[i] by {
        let c = parts[i];
        assert(component_spans(none, i, c.len() as int) =~= Seq::<Span>::empty());
        assert(sort_spans(Seq::<Span>::empty()) =~= Seq::<Span>::empty());
        assert(merge_fold(Seq::<Span>::empty(), false) =~= Seq::<Span>::empty());
        assert(splice_prefix(c, Seq::<Span>::empty(), 0, sentinel()) =~= Seq::<char>::empty());
        assert(c.subrange(0, c.len() as int) =~= c);
        assert(Seq::<char>::empty() + c =~= c);
    }
    assert(normalized_components(path, none) =~= parts);
    crate::text::lemma_join_split(path, '/');
}

/// No character of `s` is `c`.
pub open spec fn free_of(s: Seq<char>, c: char) -> bool {
    forall|i: int| 0 <= i < s.len() ==> #[trigger] s[i] != c
}

proof fn lemma_splice_prefix_free(s: Seq<char>, r: Seq<Span>, k: int, marker: Seq<char>, c: char)
    requires
        splicable(r, s.len()),
        0 <= k <= r.len(),
        free_of(s, c),
        free_of(marker, c),
    ensures
        free_of(splice_prefix(s, r, k, marker), c),
    decreases k,
{
    if k > 0 {
        lemma_splice_prefix_free(s, r, k - 1, marker, c);
        let a = splice_prefix(s, r, k - 1, marker);
        let from = crate::ranges::gap_start(r, k - 1);
        if k - 1 > 0 {
            assert(r[k - 2].1 <= r[k - 1].0);
        }
        assert(0 <= from <= r[k - 1].0 <= s.len());
        let g = s.subrange(from, r[k - 1].0 as int);
        let out = a + g + marker;
        assert(splice_prefix(s, r, k, marker) == out);
        assert forall|i: int| 0 <= i < out.len() implies #[trigger] out[i] != c by {
            if i < a.len() {
                assert(out[i] == a[i]);
            } else if i < a.len() + g.len() {
                assert(out[i] == s[from + i - a.len()]);
            } else {
                assert(out[i] == marker[i - a.len() - g.len()]);
            }
        }
    }
}

/// A component spliced with the sentinel holds only characters of the
/// component and of the sentinel.
proof fn lemma_component_free(comp: Seq<char>, r: Seq<PathMatch>, index: int, c: char)
    requires
        free_of(comp, c),
        free_of(sentinel(), c),
    ensures
        free_of(normalize_component(comp, r, index), c),
{
    let m = merge_spec(component_spans(r, index, comp.len() as int), false);
    lemma_component_splicable(r, index, comp.len() as int);
    lemma_splice_prefix_free(comp, m, m.len() as int, sentinel(), c);
    let a = splice_prefix(comp, m, m.len() as int, sentinel());
    let from = crate::ranges::gap_start(m, m.len() as int);
    assert(0 <= from <= comp.len());
    let g = comp.subrange(from, comp.len() as int);
    let out = a + g;
    assert forall|i: int| 0 <= i < out.len() implies #[trigger] out[i] != c by {
        if i < a.len() {
            assert(out[i] == a[i]);
        } else {
            assert(out[i] == comp[from + i - a.len()]);
        }
    }
}

/// A component that no match names has no spans.
proof fn lemma_no_component_spans(r: Seq<PathMatch>, index: int, len: int)
    requires
        forall|k: int| 0 <= k < r.len() ==> (#[trigger] r[k]).component_index != index,
    ensures
        component_spans(r, index, len) == Seq::<Span>::empty(),
    decreases r.len(),
{
    if r.len() > 0 {
        assert forall|k: int| 0 <= k < r.drop_last().len() implies (#[trigger] r.drop_last()[k]).component_index
            != index by {
            assert(r.drop_last()[k] == r[k]);
        }
        lemma_no_component_spans(r.drop_last(), index, len);
        assert(r.last() == r[r.len() - 1]);
    }
}

/// Normalizing a path keeps its number of `/`-separated components, and
/// each component that no match names stays as it was.
pub proof fn lemma_normalize_path_components(path: Seq<char>, r: Seq<PathMatch>)
    ensures
        split_spec(normalize_path_spec(path, r), '/').len() == split_spec(path, '/').len(),
        forall|i: int|
            0 <= i < split_spec(path, '/').len() && (forall|k: int|
                0 <= k < r.len() ==> (#[trigger] r[k]).component_index != i) ==> #[trigger] split_spec(
                normalize_path_spec(path, r),
                '/',
            )[i] == split_spec(path, '/')[i],
{
    let parts = split_spec(path, '/');
    let comps = normalized_components(path, r);
    crate::text::lemma_split_len(path, '/');
    crate::text::lemma_split_pieces_free(path, '/');
    assert(free_of(sentinel(), '/'));
    assert forall|k: int, i: int| 0 <= k < comps.len() && 0 <= i < comps[k].len() implies #[trigger] comps[k][i]
        != '/' by {
        assert forall|j: int| 0 <= j < parts[k].len() implies #[trigger] parts[k][j] != '/' by {
            assert(split_spec(path, '/')[k][j] != '/');
        }
        lemma_component_free(parts[k], r, k, '/');
        assert(comps[k] == normalize_component(parts[k], r, k));
    }
    crate::text::lemma_split_join(comps, '/');
    assert forall|i: int|
        0 <= i < parts.len() && (forall|k: int| 0 <= k < r.len() ==> (#[trigger] r[k]).component_index != i)
            implies #[trigger] split_spec(normalize_path_spec(path, r), '/')[i] == parts[i] by {
        let c = parts[i];
        lemma_no_component_spans(r, i, c.len() as int);
        assert(sort_spans(Seq::<Span>::empty()) =~= Seq::<Span>::empty());
        assert(merge_fold(Seq::<Span>::empty(), false) =~= Seq::<Span>::empty());
        assert(splice_prefix(c, Seq::<Span>::empty(), 0, sentinel()) =~= Seq::<char>::empty());
        assert(c.subrange(0, c.len() as int) =~= c);
        assert(Seq::<char>::empty() + c =~= c);
        assert(comps[i] == normalize_component(c, r, i));
    }
}

// ---------------------------------------------------------------------------
// Source text
// ---------------------------------------------------------------------------

/// A span of source bytes `[start_byte, end_byte)` that a match covers, with
/// the match's line and columns.
#[derive(Clone, Copy, Debug, PartialEq, Eq, Structural)]
pub struct ContentRange {
    pub start_byte: usize,
    pub end_byte: usize,
    pub line: u64,
    pub start_column: u64,
    pub end_column: u64,
}

/// The byte offsets at which the lines of `b` start: 0 and every offset
/// right after a newline byte.
pub open spec fn line_starts(b: Seq<u8>) -> Seq<int>
    decreases b.len(),
{
    if b.len() == 0 {
        seq![0int]
    } else {
        let p = line_starts(b.drop_last());
        if b.last() == 10u8 {
            p.push(b.len() as int)
        } else {
            p
        }
    }
}

/// The offset of the first newline byte at or after `from`, or the length.
pub open spec fn line_end(b: Seq<u8>, from: int) -> int
    decreases b.len() - from,
{
    if from < 0 || from >= b.len() {
        b.len() as int
    } else if b[from] == 10u8 {
        from
    } else {
        line_end(b, from + 1)
    }
}

/// `x - 1`, or 0 for 0.
pub open spec fn minus_one(x: u64) -> u64 {
    if x == 0 {
        0
    } else {
        (x - 1) as u64
    }
}

/// The byte offset of 1-based `column` within the line starting at `start`
/// and ending at `end`, kept within the line.
pub open spec fn column_offset(start: int, column: u64, end: int) -> int {
    min_int(start + (minus_one(column) as usize) as int, end)
}

/// The source span of a match in the text `b`: the match's columns within
/// its line, kept within the line; none when the line does not exist, when
/// the span is empty, or when it does not start and end on character
/// boundaries.
pub open spec fn range_of_match(b: Seq<u8>, m: Match) -> Option<ContentRange> {
    let starts = line_starts(b);
    let l = (minus_one(m.line) as usize) as int;
    if l >= starts.len() {
        None
    } else {
        let ls = starts[l];
        let le = line_end(b, ls);
        let start = column_offset(ls, m.column, le);
        let end = column_offset(ls, m.end_column, le);
        if start < end && is_char_boundary(b, start) && is_char_boundary(b, end) {
            Some(
                ContentRange {
                    start_byte: start as usize,
                    end_byte: end as usize,
                    line: m.line,
                    start_column: m.column,
                    end_column: m.end_column,
                },
            )
        } else {
            None
        }
    }
}

/// The source spans of the matches, in match order, dropping matches that
/// have none.
pub open spec fn ranges_of_matches(b: Seq<u8>, ms: Seq<Match>) -> Seq<ContentRange>
    decreases ms.len(),
{
    if ms.len() == 0 {
        Seq::<ContentRange>::empty()
    } else {
        let p = ranges_of_matches(b, ms.drop_last());
        match range_of_match(b, ms.last()) {
            Some(r) => p.push(r),
            None => p,
        }
    }
}

pub open spec fn range_key_le(a: ContentRange, b: ContentRange) -> bool {
    a.start_byte < b.start_byte || (a.start_byte == b.start_byte && a.end_byte <= b.end_byte)
}

/// Where `x` goes in `s`: after the leading ranges whose key is not above its own.
pub open spec fn range_insert_pos(s: Seq<ContentRange>, x: ContentRange) -> nat
    decreases s.len(),
{
    if s.len() == 0 {
        0
    } else if range_key_le(s[0], x) {
        1 + range_insert_pos(s.drop_first(), x)
    } else {
        0
    }
}

/// The ranges sorted by (start byte, end byte), keeping the order of equal keys.
pub open spec fn sort_ranges(s: Seq<ContentRange>) -> Seq<ContentRange>
    decreases s.len(),
{
    if s.len() == 0 {
        s
    } else {
        let r = sort_ranges(s.drop_last());
        r.insert(range_insert_pos(r, s.last()) as int, s.last())
    }
}

/// The source spans of the matches in the text `b`, sorted by start then end.
pub open spec fn content_ranges_spec(b: Seq<u8>, ms: Seq<Match>) -> Seq<ContentRange> {
    sort_ranges(ranges_of_matches(b, ms))
}

proof fn lemma_line_starts(b: Seq<u8>)
    ensures
        line_starts(b).len() >= 1,
        line_starts(b).len() <= b.len() + 1,
        forall|k: int| 0 <= k < line_starts(b).len() ==> 0 <= #[trigger] line_starts(b)[k] <= b.len(),
    decreases b.len(),
{
    if b.len() > 0 {
        lemma_line_starts(b.drop_last());
    }
}

proof fn lemma_line_end(b: Seq<u8>, from: int)
    requires
        0 <= from <= b.len(),
    ensures
        from <= line_end(b, from) <= b.len(),
    decreases b.len() - from,
{
    if from < b.len() && b[from] != 10u8 {
        lemma_line_end(b, from + 1);
    }
}

fn line_start_vec(b: &[u8]) -> (r: Vec<usize>)
    ensures
        r@.len() == line_starts(b@).len(),
        forall|k: int| 0 <= k < r@.len() ==> #[trigger] r@[k] as int == line_starts(b@)[k],
{
    let mut r: Vec<usize> = Vec::new();
    r.push(0);
    let mut i: usize = 0;
    while i < b.len()
        invariant
            0 <= i <= b@.len(),
            r@.len() == line_starts(b@.take(i as int)).len(),
            forall|k: int|
                0 <= k < r@.len() ==> #[trigger] r@[k] as int == line_starts(b@.take(i as int))[k],
        decreases b@.len() - i,
    {
        let ghost before = r@;
        if b[i] == 10u8 {
            r.push(i + 1);
        }
        i = i + 1;
        assert(b@.take(i as int).drop_last() == b@.take(i - 1));
        assert forall|k: int| 0 <= k < r@.len() implies #[trigger] r@[k] as int == line_starts(
            b@.take(i as int),
        )[k] by {
            if k < before.len() {
                assert(r@[k] == before[k]);
            }
        }
    }
    assert(b@.take(i as int) == b@);
    r
}

fn find_line_end(b: &[u8], from: usize) -> (r: usize)
    requires
        from <= b@.len(),
    ensures
        r as int == line_end(b@, from as int),
{
    let mut i = from;
    while i < b.len() && b[i] != 10u8
        invariant
            from <= i <= b@.len(),
            line_end(b@, from as int) == line_end(b@, i as int),
        decreases b@.len() - i,
    {
        i = i + 1;
    }
    i
}

fn minus_one_exec(x: u64) -> (r: u64)
    ensures
        r == minus_one(x),
{
    if x == 0 {
        0
    } else {
        x - 1
    }
}

fn column_offset_exec(start: usize, column: u64, end: usize) -> (r: usize)
    requires
        start <= end,
    ensures
        r as int == column_offset(start as int, column, end as int),
{
    let c = minus_one_exec(column) as usize;
    if c > end - start {
        end
    } else {
        start + c
    }
}

proof fn lemma_range_insert_pos(s: Seq<ContentRange>, x: ContentRange)
    ensures
        range_insert_pos(s, x) <= s.len(),
    decreases s.len(),
{
    if s.len() > 0 && range_key_le(s[0], x) {
        lemma_range_insert_pos(s.drop_first(), x);
    }
}

fn sort_range_vec(v: Vec<ContentRange>) -> (r: Vec<ContentRange>)
    ensures
        r@ == sort_ranges(v@),
{
    let mut r: Vec<ContentRange> = Vec::new();
    let mut i: usize = 0;
    while i < v.len()
        invariant
            0 <= i <= v@.len(),
            r@ == sort_ranges(v@.take(i as int)),
        decreases v@.len() - i,
    {
        let x = v[i];
        let mut p: usize = 0;
        assert(r@.skip(0) == r@);
        while p < r.len() && (r[p].start_byte < x.start_byte || (r[p].start_byte == x.start_byte
            && r[p].end_byte <= x.end_byte))
            invariant
                0 <= p <= r@.len(),
                range_insert_pos(r@, x) == p + range_insert_pos(r@.skip(p as int), x),
            decreases r@.len() - p,
        {
            assert(r@.skip(p as int).drop_first() == r@.skip(p + 1));
            p = p + 1;
        }
        assert(range_insert_pos(r@.skip(p as int), x) == 0);
        r.insert(p, x);
        i = i + 1;
        assert(v@.take(i as int).drop_last() == v@.take(i - 1));
    }
    assert(v@.take(i as int) == v@);
    r
}

/// The source spans that the matches cover in `content`, sorted by start
/// then end: each match's columns are taken within its line and kept
/// within it; matches on missing lines, empty spans, and spans that would
/// cut a character are dropped.
pub fn content_ranges(content: &str, matches: &[Match]) -> (r: Vec<ContentRange>)
    ensures
        r@ == content_ranges_spec(encode_utf8(content@), matches@),
{
    let bytes = content.as_bytes();
    let ghost b = encode_utf8(content@);
    let starts = line_start_vec(bytes);
    proof {
        lemma_line_starts(b);
    }
    let mut found: Vec<ContentRange> = Vec::new();
    let mut i: usize = 0;
    while i < matches.len()
        invariant
            bytes@ == b,
            b == encode_utf8(content@),
            starts@.len() == line_starts(b).len(),
            forall|k: int| 0 <= k < starts@.len() ==> #[trigger] starts@[k] as int == line_starts(b)[k],
            forall|k: int| 0 <= k < line_starts(b).len() ==> 0 <= #[trigger] line_starts(b)[k] <= b.len(),
            0 <= i <= matches@.len(),
            found@ == ranges_of_matches(b, matches@.take(i as int)),
        decreases matches@.len() - i,
    {
        let m = &matches[i];
        let l = minus_one_exec(m.line) as usize;
        if l < starts.len() {
            let ls = starts[l];
            assert(ls as int == line_starts(b)[l as int]);
            let le = find_line_end(bytes, ls);
            proof {
                lemma_line_end(b, ls as int);
            }
            let start = column_offset_exec(ls, m.column, le);
            let end = column_offset_exec(ls, m.end_column, le);
            if start < end && content.is_char_boundary(start) && content.is_char_boundary(end) {
                found.push(
                    ContentRange {
                        start_byte: start,
                        end_byte: end,
                        line: m.line,
                        start_column: m.column,
                        end_column: m.end_column,
                    },
                );
            }
        }
        i = i + 1;
        assert(matches@.take(i as int).drop_last() == matches@.take(i - 1));
    }
    assert(matches@.take(i as int) == matches@);
    sort_range_vec(found)
}


/// `String::from_utf8`, its error turned into `None`: the contract claims
/// that it succeeds just when the bytes are valid UTF-8, and that the
/// string it makes is encoded by exactly those bytes.
#[verifier::external_body]
fn string_from_utf8(bytes: Vec<u8>) -> (r: Option<String>)
    ensures
        r is Some <==> valid_utf8(bytes@),
        r matches Some(s) ==> encode_utf8(s@) == bytes@,
{
    String::from_utf8(bytes).ok()
}

/// The byte spans of content ranges.
pub open spec fn range_spans(r: Seq<ContentRange>) -> Seq<Span> {
    r.map_values(|x: ContentRange| (x.start_byte, x.end_byte))
}

/// The merged spans of the ranges, the ones that get replaced.
pub open spec fn merged_range_spans(r: Seq<ContentRange>) -> Seq<Span> {
    merge_spec(range_spans(r), false)
}

/// The ranges can be replaced in `content`: every merged span starts and
/// ends on a character boundary (so within the text).
pub open spec fn normalizable(content: Seq<char>, r: Seq<ContentRange>) -> bool {
    forall|k: int|
        0 <= k < merged_range_spans(r).len() ==> is_char_boundary(
            encode_utf8(content),
            (#[trigger] merged_range_spans(r)[k]).0 as int,
        ) && is_char_boundary(encode_utf8(content), merged_range_spans(r)[k].1 as int)
}

/// The UTF-8 bytes of `content` with each merged range replaced by the
/// sentinel.
pub open spec fn normalized_bytes(content: Seq<char>, r: Seq<ContentRange>) -> Seq<u8> {
    splice(encode_utf8(content), merged_range_spans(r), encode_utf8(sentinel()))
}

/// `content` with each merged range replaced by the sentinel.
pub open spec fn normalized_text_spec(content: Seq<char>, r: Seq<ContentRange>) -> Seq<char> {
    decode_utf8(normalized_bytes(content, r))
}

proof fn lemma_boundary_le_len(b: Seq<u8>, i: int)
    requires
        valid_utf8(b),
        is_char_boundary(b, i),
    ensures
        0 <= i <= b.len(),
    decreases b.len(),
{
    reveal_with_fuel(is_char_boundary, 2);
    if i != 0 {
        assert(0 <= i <= b.len());
    }
}

proof fn lemma_valid_subrange(b: Seq<u8>, x: int, y: int)
    requires
        valid_utf8(b),
        is_char_boundary(b, x),
        is_char_boundary(b, y),
        x <= y,
    ensures
        valid_utf8(b.subrange(x, y)),
{
    broadcast use vstd::utf8::group_utf8_lib;

    lemma_boundary_le_len(b, x);
    lemma_boundary_le_len(b, y);
    let c = b.subrange(x, b.len() as int);
    vstd::utf8::valid_utf8_split(b, x);
    assert(valid_utf8(c));
    if y == b.len() {
        vstd::utf8::is_char_boundary_start_end_of_seq(c);
        assert(c.subrange(0, y - x) =~= c);
    } else {
        vstd::utf8::is_char_boundary_iff_not_is_continuation_byte(b, y);
        assert(c[y - x] == b[y]);
        vstd::utf8::is_char_boundary_iff_not_is_continuation_byte(c, y - x);
    }
    assert(is_char_boundary(c, y - x));
    vstd::utf8::valid_utf8_split(c, y - x);
    assert(c.subrange(0, y - x) =~= b.subrange(x, y));
}

proof fn lemma_splice_prefix_valid(b: Seq<u8>, r: Seq<Span>, k: int, marker: Seq<u8>)
    requires
        valid_utf8(b),
        valid_utf8(marker),
        0 <= k <= r.len(),
        splicable(r, b.len()),
        forall|i: int|
            0 <= i < r.len() ==> is_char_boundary(b, (#[trigger] r[i]).0 as int) && is_char_boundary(
                b,
                r[i].1 as int,
            ),
    ensures
        valid_utf8(splice_prefix(b, r, k, marker)),
    decreases k,
{
    broadcast use vstd::utf8::group_utf8_lib;

    if k > 0 {
        lemma_splice_prefix_valid(b, r, k - 1, marker);
        let x = gap_start(r, k - 1);
        let y = r[k - 1].0 as int;
        if k - 1 > 0 {
            assert(r[k - 2].1 <= r[k - 1].0);
        } else {
            vstd::utf8::is_char_boundary_start_end_of_seq(b);
        }
        assert(is_char_boundary(b, x));
        lemma_valid_subrange(b, x, y);
        let p = splice_prefix(b, r, k - 1, marker);
        vstd::utf8::valid_utf8_concat(p, b.subrange(x, y));
        vstd::utf8::valid_utf8_concat(p + b.subrange(x, y), marker);
    }
}

proof fn lemma_splice_valid(b: Seq<u8>, r: Seq<Span>, marker: Seq<u8>)
    requires
        valid_utf8(b),
        valid_utf8(marker),
        splicable(r, b.len()),
        forall|i: int|
            0 <= i < r.len() ==> is_char_boundary(b, (#[trigger] r[i]).0 as int) && is_char_boundary(
                b,
                r[i].1 as int,
            ),
    ensures
        valid_utf8(splice(b, r, marker)),
{
    broadcast use vstd::utf8::group_utf8_lib;

    lemma_splice_prefix_valid(b, r, r.len() as int, marker);
    let x = gap_start(r, r.len() as int);
    vstd::utf8::is_char_boundary_start_end_of_seq(b);
    if r.len() > 0 {
        assert(is_char_boundary(b, r[r.len() - 1].1 as int));
    }
    lemma_valid_subrange(b, x, b.len() as int);
    assert(b.subrange(x, b.len() as int) == b.subrange(x, b.len() as int));
    vstd::utf8::valid_utf8_concat(splice_prefix(b, r, r.len() as int, marker), b.subrange(x, b.len() as int));
}

/// `content` with each merged range replaced by the sentinel (the ranges'
/// byte spans are merged where they overlap, spans that only touch each
/// get a sentinel).
pub fn normalized_text(content: &str, ranges: &[ContentRange]) -> (r: String)
    requires
        normalizable(content@, ranges@),
    ensures
        r@ == normalized_text_spec(content@, ranges@),
        encode_utf8(r@) == normalized_bytes(content@, ranges@),
{
    broadcast use vstd::utf8::group_utf8_lib;

    let mut spans: Vec<Span> = Vec::new();
    let mut i: usize = 0;
    while i < ranges.len()
        invariant
            0 <= i <= ranges@.len(),
            spans@ == range_spans(ranges@.take(i as int)),
        decreases ranges@.len() - i,
    {
        spans.push((ranges[i].start_byte, ranges[i].end_byte));
        i = i + 1;
        assert(range_spans(ranges@.take(i as int)) =~= range_spans(ranges@.take(i - 1)).push(
            (ranges@[i - 1].start_byte, ranges@[i - 1].end_byte),
        ));
    }
    assert(ranges@.take(i as int) == ranges@);
    let ghost b = encode_utf8(content@);
    let merged = merge(spans);
    proof {
        lemma_merge_laws(range_spans(ranges@), false);
        let m = merged@;
        assert(m == merged_range_spans(ranges@));
        assert forall|k: int| 0 <= k < m.len() implies (#[trigger] m[k]).0 <= b.len() && m[k].1
            <= b.len() by {
            assert(is_char_boundary(b, merged_range_spans(ranges@)[k].0 as int));
            lemma_boundary_le_len(b, m[k].0 as int);
            lemma_boundary_le_len(b, m[k].1 as int);
        }
        assert(splicable(m, b.len()));
    }
    let marker = sentinel_bytes();
    let bytes = content.as_bytes();
    let out = splice_vec(bytes, merged.as_slice(), marker.as_slice());
    proof {
        lemma_splice_valid(b, merged@, marker@);
    }
    match string_from_utf8(out) {
        Some(s) => s,
        None => {
            proof {
                assert(false);
            }
            String::new()
        },
    }
}


/// The ranges of `content_ranges` are nonempty spans between character
/// boundaries.
pub open spec fn range_fits(b: Seq<u8>, x: ContentRange) -> bool {
    x.start_byte < x.end_byte && is_char_boundary(b, x.start_byte as int) && is_char_boundary(
        b,
        x.end_byte as int,
    )
}

proof fn lemma_range_of_match_fits(b: Seq<u8>, m: Match)
    requires
        b.len() <= usize::MAX,
    ensures
        range_of_match(b, m) matches Some(r) ==> range_fits(b, r),
{
    lemma_line_starts(b);
    let starts = line_starts(b);
    let l = (minus_one(m.line) as usize) as int;
    if l < starts.len() {
        let ls = starts[l];
        lemma_line_end(b, ls);
    }
}

proof fn lemma_ranges_of_matches_fit(b: Seq<u8>, ms: Seq<Match>)
    requires
        b.len() <= usize::MAX,
    ensures
        forall|k: int|
            0 <= k < ranges_of_matches(b, ms).len() ==> range_fits(b, #[trigger] ranges_of_matches(b, ms)[k]),
    decreases ms.len(),
{
    if ms.len() > 0 {
        lemma_ranges_of_matches_fit(b, ms.drop_last());
        lemma_range_of_match_fits(b, ms.last());
        let p = ranges_of_matches(b, ms.drop_last());
        let q = ranges_of_matches(b, ms);
        assert forall|k: int| 0 <= k < q.len() implies range_fits(b, #[trigger] q[k]) by {
            if k < p.len() {
                assert(q[k] == p[k]);
            }
        }
    }
}

proof fn lemma_sort_ranges_fit(b: Seq<u8>, s: Seq<ContentRange>)
    requires
        forall|k: int| 0 <= k < s.len() ==> range_fits(b, #[trigger] s[k]),
    ensures
        sort_ranges(s).len() == s.len(),
        forall|k: int| 0 <= k < sort_ranges(s).len() ==> range_fits(b, #[trigger] sort_ranges(s)[k]),
    decreases s.len(),
{
    if s.len() > 0 {
        let t = s.drop_last();
        assert forall|k: int| 0 <= k < t.len() implies range_fits(b, #[trigger] t[k]) by {
            assert(t[k] == s[k]);
        }
        lemma_sort_ranges_fit(b, t);
        let r = sort_ranges(t);
        lemma_range_insert_pos(r, s.last());
        let p = range_insert_pos(r, s.last()) as int;
        let q = r.insert(p, s.last());
        assert forall|k: int| 0 <= k < q.len() implies range_fits(b, #[trigger] q[k]) by {
            if k < p {
                assert(q[k] == r[k]);
            } else if k > p {
                assert(q[k] == r[k - 1]);
            } else {
                assert(q[k] == s[s.len() - 1]);
            }
        }
    }
}

/// The ranges that `content_ranges` finds can be replaced in the content.
pub proof fn lemma_content_ranges_normalizable(content: Seq<char>, ms: Seq<Match>)
    requires
        encode_utf8(content).len() <= usize::MAX,
    ensures
        normalizable(content, content_ranges_spec(encode_utf8(content), ms)),
        forall|k: int|
            0 <= k < content_ranges_spec(encode_utf8(content), ms).len() ==> range_fits(
                encode_utf8(content),
                #[trigger] content_ranges_spec(encode_utf8(content), ms)[k],
            ),
{
    let b = encode_utf8(content);
    lemma_ranges_of_matches_fit(b, ms);
    lemma_sort_ranges_fit(b, ranges_of_matches(b, ms));
    let r = content_ranges_spec(b, ms);
    let s = range_spans(r);
    lemma_merge_ends(s, false);
    let m = merge_spec(s, false);
    assert forall|k: int| 0 <= k < m.len() implies is_char_boundary(b, (#[trigger] m[k]).0 as int)
        && is_char_boundary(b, m[k].1 as int) by {
        let k1 = choose|j: int| 0 <= j < s.len() && s[j].0 == m[k].0;
        let k2 = choose|j: int| 0 <= j < s.len() && s[j].1 == m[k].1;
        assert(range_fits(b, r[k1]));
        assert(range_fits(b, r[k2]));
    }
}


/// Text without ranges to replace normalizes to itself.
pub proof fn lemma_unmatched_text_is_unchanged(content: Seq<char>)
    ensures
        normalized_text_spec(content, Seq::<ContentRange>::empty()) == content,
{
    broadcast use vstd::utf8::encode_utf8_decode_utf8;

    let none = Seq::<ContentRange>::empty();
    let b = encode_utf8(content);
    assert(range_spans(none) =~= Seq::<Span>::empty());
    assert(sort_spans(Seq::<Span>::empty()) =~= Seq::<Span>::empty());
    assert(merge_fold(Seq::<Span>::empty(), false) =~= Seq::<Span>::empty());
    assert(merged_range_spans(none) =~= Seq::<Span>::empty());
    assert(splice_prefix(b, Seq::<Span>::empty(), 0, encode_utf8(sentinel())) =~= Seq::<u8>::empty());
    assert(b.subrange(0, b.len() as int) =~= b);
    assert(normalized_bytes(content, none) =~= b);
    assert(decode_utf8(encode_utf8(content)) == content);
}


// ---------------------------------------------------------------------------
// Line feeds kept by normalization
// ---------------------------------------------------------------------------

/// The number of line feeds in a text.
pub open spec fn count_nl(s: Seq<char>) -> nat
    decreases s.len(),
{
    if s.len() == 0 {
        0
    } else {
        count_nl(s.drop_last()) + if s.last() == '\n' {
            1nat
        } else {
            0nat
        }
    }
}

/// The number of line feed bytes in a byte sequence.
pub open spec fn count_nl_bytes(b: Seq<u8>) -> nat
    decreases b.len(),
{
    if b.len() == 0 {
        0
    } else {
        count_nl_bytes(b.drop_last()) + if b.last() == 10u8 {
            1nat
        } else {
            0nat
        }
    }
}

proof fn lemma_count_nl_add(a: Seq<char>, b: Seq<char>)
    ensures
        count_nl(a + b) == count_nl(a) + count_nl(b),
    decreases b.len(),
{
    if b.len() == 0 {
        assert(a + b =~= a);
    } else {
        lemma_count_nl_add(a, b.drop_last());
        assert((a + b).drop_last() =~= a + b.drop_last());
        assert((a + b).last() == b.last());
    }
}

proof fn lemma_count_nl_bytes_add(a: Seq<u8>, b: Seq<u8>)
    ensures
        count_nl_bytes(a + b) == count_nl_bytes(a) + count_nl_bytes(b),
    decreases b.len(),
{
    if b.len() == 0 {
        assert(a + b =~= a);
    } else {
        lemma_count_nl_bytes_add(a, b.drop_last());
        assert((a + b).drop_last() =~= a + b.drop_last());
        assert((a + b).last() == b.last());
    }
}

proof fn lemma_count_nl_bytes_none(b: Seq<u8>)
    requires
        forall|i: int| 0 <= i < b.len() ==> #[trigger] b[i] != 10u8,
    ensures
        count_nl_bytes(b) == 0,
    decreases b.len(),
{
    if b.len() > 0 {
        assert forall|i: int| 0 <= i < b.drop_last().len() implies #[trigger] b.drop_last()[i] != 10u8 by {
            assert(b.drop_last()[i] == b[i]);
        }
        lemma_count_nl_bytes_none(b.drop_last());
        assert(b.last() == b[b.len() - 1]);
    }
}

proof fn lemma_high_bytes(x: u32)
    by (bit_vector)
    ensures
        (0xC0u8 | ((x >> 6) & 0x1F) as u8) != 10u8,
        (0xE0u8 | ((x >> 12) & 0x0F) as u8) != 10u8,
        (0xF0u8 | ((x >> 18) & 0x7) as u8) != 10u8,
        (0x80u8 | (x & 0x3F) as u8) != 10u8,
        (0x80u8 | ((x >> 6) & 0x3F) as u8) != 10u8,
        (0x80u8 | ((x >> 12) & 0x3F) as u8) != 10u8,
{
}

proof fn lemma_low_byte(x: u32)
    by (bit_vector)
    requires
        x <= 0x7F,
    ensures
        ((x & 0x7F) as u8 == 10u8) <==> x == 10,
{
}

/// The encoding of one character holds a line feed byte just when the
/// character is a line feed, and then as its only byte.
proof fn lemma_encode_scalar_nl(c: char)
    ensures
        count_nl_bytes(encode_scalar(c as u32)) == if c == '\n' {
            1nat
        } else {
            0nat
        },
        encode_scalar(c as u32).len() > 0,
        (encode_scalar(c as u32).last() == 10u8) <==> c == '\n',
{
    let x = c as u32;
    let e = encode_scalar(x);
    lemma_high_bytes(x);
    vstd::utf8::char_u32_cast(c, x);
    vstd::utf8::char_u32_cast('\n', '\n' as u32);
    if vstd::utf8::has_width_1_encoding(x) {
        lemma_low_byte(x);
        let byte = (x & 0x7F) as u8;
        assert(e == seq![byte]);
        assert(e.drop_last() =~= Seq::<u8>::empty());
        assert(count_nl_bytes(e.drop_last()) == 0);
        assert(e.last() == byte);
        assert(x == 10 ==> c == '\n');
        assert(c == '\n' ==> x == 10);
    } else {
        assert(c != '\n');
        assert forall|i: int| 0 <= i < e.len() implies #[trigger] e[i] != 10u8 by {}
        lemma_count_nl_bytes_none(e);
        assert(e.len() > 0);
        assert(e[e.len() - 1] != 10u8);
    }
}

/// Encoding keeps the line feeds, whether the text is empty, and whether it
/// ends in a line feed.
proof fn lemma_encode_nl(t: Seq<char>)
    ensures
        count_nl_bytes(encode_utf8(t)) == count_nl(t),
        (encode_utf8(t).len() > 0) == (t.len() > 0),
        t.len() > 0 ==> ((encode_utf8(t).last() == 10u8) == (t.last() == '\n')),
    decreases t.len(),
{
    if t.len() > 0 {
        let rest = t.drop_first();
        lemma_encode_nl(rest);
        lemma_encode_scalar_nl(t[0]);
        let e0 = encode_scalar(t[0] as u32);
        assert(encode_utf8(t) == e0 + encode_utf8(rest));
        assert(count_nl(seq![t[0]]) == count_nl(seq![t[0]].drop_last()) + if t[0] == '\n' {
            1nat
        } else {
            0nat
        });
        lemma_count_nl_bytes_add(e0, encode_utf8(rest));
        lemma_count_nl_add(seq![t[0]], rest);
        assert(seq![t[0]] + rest =~= t);
        assert(seq![t[0]].drop_last() =~= Seq::<char>::empty());
        if rest.len() > 0 {
            assert(t.last() == rest.last());
        }
    }
}

/// The merged spans of the ranges can be spliced into the content's bytes,
/// and the result is UTF-8.
proof fn lemma_normalized_bytes_valid(content: Seq<char>, r: Seq<ContentRange>)
    requires
        normalizable(content, r),
    ensures
        splicable(merged_range_spans(r), encode_utf8(content).len()),
        valid_utf8(normalized_bytes(content, r)),
{
    broadcast use vstd::utf8::group_utf8_lib;

    let b = encode_utf8(content);
    let m = merged_range_spans(r);
    lemma_merge_laws(range_spans(r), false);
    assert forall|k: int| 0 <= k < m.len() implies (#[trigger] m[k]).0 <= b.len() && m[k].1 <= b.len() by {
        lemma_boundary_le_len(b, m[k].0 as int);
        lemma_boundary_le_len(b, m[k].1 as int);
    }
    lemma_splice_valid(b, m, encode_utf8(sentinel()));
}

/// Every range is nonempty, ends within the content, and holds no line
/// feed byte: it lies within one line.
pub open spec fn ranges_within_lines(content: Seq<char>, r: Seq<ContentRange>) -> bool {
    forall|k: int|
        0 <= k < r.len() ==> {
            &&& (#[trigger] r[k]).start_byte < r[k].end_byte <= encode_utf8(content).len()
            &&& forall|p: int| r[k].start_byte <= p < r[k].end_byte ==> encode_utf8(content)[p] != 10u8
        }
}

proof fn lemma_splice_prefix_nl(b: Seq<u8>, m: Seq<Span>, k: int, marker: Seq<u8>)
    requires
        splicable(m, b.len()),
        0 <= k <= m.len(),
        count_nl_bytes(marker) == 0,
        crate::ranges::spans_nonempty(m),
        forall|j: int, p: int|
            #![trigger m[j], b[p]]
            0 <= j < m.len() && m[j].0 <= p < m[j].1 ==> b[p] != 10u8,
    ensures
        count_nl_bytes(splice_prefix(b, m, k, marker)) == count_nl_bytes(b.take(gap_start(m, k))),
        0 <= gap_start(m, k) <= b.len(),
    decreases k,
{
    if k == 0 {
        assert(b.take(0) =~= Seq::<u8>::empty());
    } else {
        lemma_splice_prefix_nl(b, m, k - 1, marker);
        let gs = gap_start(m, k - 1);
        let x = m[k - 1];
        if k - 1 > 0 {
            assert(m[k - 2].1 <= m[k - 1].0);
        }
        assert(gs <= x.0 <= b.len());
        let g = b.subrange(gs, x.0 as int);
        let a = splice_prefix(b, m, k - 1, marker);
        assert(splice_prefix(b, m, k, marker) == a + g + marker);
        lemma_count_nl_bytes_add(a + g, marker);
        lemma_count_nl_bytes_add(a, g);
        lemma_count_nl_bytes_add(b.take(gs), g);
        assert(b.take(gs) + g =~= b.take(x.0 as int));
        assert(x.0 < x.1);
        let inside = b.subrange(x.0 as int, x.1 as int);
        assert forall|i: int| 0 <= i < inside.len() implies #[trigger] inside[i] != 10u8 by {
            assert(inside[i] == b[x.0 + i]);
        }
        lemma_count_nl_bytes_none(inside);
        lemma_count_nl_bytes_add(b.take(x.0 as int), inside);
        assert(b.take(x.0 as int) + inside =~= b.take(x.1 as int));
        assert(gap_start(m, k) == x.1);
    }
}

/// Replacing spans without line feeds by a marker without line feeds keeps
/// the line feeds, whether the bytes are empty, and whether they end in a
/// line feed.
proof fn lemma_splice_nl(b: Seq<u8>, m: Seq<Span>, marker: Seq<u8>)
    requires
        splicable(m, b.len()),
        count_nl_bytes(marker) == 0,
        marker.len() > 0,
        marker.last() != 10u8,
        crate::ranges::spans_nonempty(m),
        forall|j: int, p: int|
            #![trigger m[j], b[p]]
            0 <= j < m.len() && m[j].0 <= p < m[j].1 ==> b[p] != 10u8,
    ensures
        count_nl_bytes(splice(b, m, marker)) == count_nl_bytes(b),
        (splice(b, m, marker).len() > 0) == (b.len() > 0),
        b.len() > 0 ==> ((splice(b, m, marker).last() == 10u8) == (b.last() == 10u8)),
{
    let k = m.len() as int;
    lemma_splice_prefix_nl(b, m, k, marker);
    let gs = gap_start(m, k);
    let a = splice_prefix(b, m, k, marker);
    let g = b.subrange(gs, b.len() as int);
    assert(splice(b, m, marker) == a + g);
    lemma_count_nl_bytes_add(a, g);
    lemma_count_nl_bytes_add(b.take(gs), g);
    assert(b.take(gs) + g =~= b);
    let out = a + g;
    if k > 0 {
        assert(m[k - 1].0 < m[k - 1].1);
        let a1 = splice_prefix(b, m, k - 1, marker);
        let g1 = b.subrange(gap_start(m, k - 1), m[k - 1].0 as int);
        if k - 1 > 0 {
            assert(m[k - 2].1 <= m[k - 1].0);
        }
        assert(a == a1 + g1 + marker);
        assert(a.len() >= marker.len());
        assert(a.last() == marker.last());
        assert(b.len() > 0);
        if g.len() == 0 {
            assert(out =~= a);
            assert(b[b.len() - 1] != 10u8);
        } else {
            assert(out.last() == g.last());
        }
    } else {
        assert(a =~= Seq::<u8>::empty());
        assert(out =~= b);
    }
}

/// Normalizing content whose ranges lie within lines keeps its line feeds,
/// whether it is empty, and whether it ends in a line feed.
pub proof fn lemma_normalized_keeps_line_feeds(content: Seq<char>, r: Seq<ContentRange>)
    requires
        normalizable(content, r),
        ranges_within_lines(content, r),
    ensures
        count_nl(normalized_text_spec(content, r)) == count_nl(content),
        (normalized_text_spec(content, r).len() > 0) == (content.len() > 0),
        content.len() > 0 ==> ((normalized_text_spec(content, r).last() == '\n') == (content.last() == '\n')),
{
    broadcast use vstd::utf8::group_utf8_lib;

    let b = encode_utf8(content);
    let m = merged_range_spans(r);
    lemma_normalized_bytes_valid(content, r);
    let nb = normalized_bytes(content, r);
    let t = normalized_text_spec(content, r);
    assert(encode_utf8(t) == nb);
    lemma_merge_laws(range_spans(r), false);
    let spans = range_spans(r);
    assert forall|j: int| 0 <= j < spans.len() implies (#[trigger] spans[j]).0 < spans[j].1 by {
        assert(spans[j] == (r[j].start_byte, r[j].end_byte));
    }
    crate::ranges::lemma_merge_shape(spans, false);
    assert forall|j: int, p: int|
        #![trigger m[j], b[p]]
        0 <= j < m.len() && m[j].0 <= p < m[j].1 implies b[p] != 10u8 by {
        assert(crate::ranges::covered(m, p));
        assert(crate::ranges::covered(spans, p));
        let i = choose|i: int| 0 <= i < spans.len() && (#[trigger] spans[i]).0 <= p < spans[i].1;
        assert(spans[i] == (r[i].start_byte, r[i].end_byte));
    }
    let marker = encode_utf8(sentinel());
    lemma_encode_nl(sentinel());
    assert(count_nl(sentinel()) == 0) by {
        reveal_with_fuel(count_nl, 14);
    }
    lemma_splice_nl(b, m, marker);
    lemma_encode_nl(content);
    lemma_encode_nl(t);
}
} // verus!
