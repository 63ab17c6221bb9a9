//! Correlating two map reports file by file: files found at the same path
//! are compared region by region; the other files are grouped by their path
//! with the matched text replaced, so that a file renamed along with the
//! pattern pairs up with its old self.
use vstd::prelude::*;
use vstd::utf8::encode_utf8;

use crate::diff::{Side, SmartDiff, side_normalizable, side_ranges_ordered, smart_diff, smart_diff_of};
use crate::regions::{RegionComparison, compare_regions, region_comparison_of};
use crate::model::{FileResult, Match, Report, copy_match, copy_opt_string, copy_path_matches};
use crate::normalize::{
    content_ranges, content_ranges_spec, lemma_content_ranges_normalizable, normalize_path,
    normalize_path_spec, range_fits,
};
use crate::order::{
    entry_keys, keys_ascending, lemma_insert_ascending, lemma_text_order, less_text, located, search_key,
    search_str, text_lt, union_keys,
};
use crate::text::views;

verus! {

// ---------------------------------------------------------------------------
// Sides
// ---------------------------------------------------------------------------

/// The matches recorded for the file at `path`, in report order.
pub open spec fn matches_for(ms: Seq<Match>, path: Seq<char>) -> Seq<Match>
    decreases ms.len(),
{
    if ms.len() == 0 {
        Seq::<Match>::empty()
    } else {
        let p = matches_for(ms.drop_last(), path);
        if ms.last().file@ == path {
            p.push(ms.last())
        } else {
            p
        }
    }
}

/// `s` is the side of file `f` in a report with matches `ms`: the file's
/// path, path ranges and content, its matches, and the source spans of
/// those matches.
pub open spec fn is_side_of(s: Side, f: FileResult, ms: Seq<Match>) -> bool {
    &&& s.path == f.path
    &&& s.path_match_ranges@ == f.path_match_ranges@
    &&& s.content == f.content
    &&& s.matches@ == matches_for(ms, f.path@)
    &&& s.content_normalization_ranges@ == match f.content {
        Some(c) => content_ranges_spec(encode_utf8(c@), s.matches@),
        None => Seq::empty(),
    }
}

/// The side of a file in a report: the file with its recorded matches and
/// their source spans.
pub fn side(file: &FileResult, report: &Report) -> (s: Side)
    ensures
        is_side_of(s, *file, report.matches@),
        side_normalizable(s),
        side_ranges_ordered(s),
{
    let mut matches: Vec<Match> = Vec::new();
    let mut i: usize = 0;
    while i < report.matches.len()
        invariant
            0 <= i <= report.matches@.len(),
            matches@ == matches_for(report.matches@.take(i as int), file.path@),
        decreases report.matches@.len() - i,
    {
        if report.matches[i].file == file.path {
            matches.push(copy_match(&report.matches[i]));
        }
        i = i + 1;
        assert(report.matches@.take(i as int).drop_last() == report.matches@.take(i - 1));
    }
    assert(report.matches@.take(i as int) == report.matches@);
    let ranges = match &file.content {
        Some(c) => {
            let r = content_ranges(c.as_str(), matches.as_slice());
            let byte_count = c.as_str().as_bytes().len();
            proof {
                assert(byte_count == encode_utf8(c@).len());
                lemma_content_ranges_normalizable(c@, matches@);
            }
            r
        },
        None => Vec::new(),
    };
    let s = Side {
        path: file.path.clone(),
        path_match_ranges: copy_path_matches(&file.path_match_ranges),
        content: copy_opt_string(&file.content),
        matches,
        content_normalization_ranges: ranges,
    };
    proof {
        if let Some(c) = &file.content {
            let b = encode_utf8(c@);
            assert forall|k: int| 0 <= k < s.content_normalization_ranges@.len() implies (
            #[trigger] s.content_normalization_ranges@[k]).start_byte
                <= s.content_normalization_ranges@[k].end_byte by {
                assert(range_fits(b, s.content_normalization_ranges@[k]));
            }
        }
    }
    s
}

// ---------------------------------------------------------------------------
// Files by path
// ---------------------------------------------------------------------------

/// The index of the last file at `path` among the first `n` files, or -1.
pub open spec fn last_with_path(files: Seq<FileResult>, path: Seq<char>, n: int) -> int
    decreases n,
{
    if n <= 0 {
        -1
    } else if files[n - 1].path@ == path {
        n - 1
    } else {
        last_with_path(files, path, n - 1)
    }
}

/// Some file is at `path`.
pub open spec fn has_path(files: Seq<FileResult>, path: Seq<char>) -> bool {
    exists|i: int| 0 <= i < files.len() && (#[trigger] files[i]).path@ == path
}

proof fn lemma_last_with_path(files: Seq<FileResult>, path: Seq<char>, n: int)
    requires
        0 <= n <= files.len(),
    ensures
        -1 <= last_with_path(files, path, n) < n,
        last_with_path(files, path, n) >= 0 ==> files[last_with_path(files, path, n)].path@ == path,
        (exists|i: int| 0 <= i < n && (#[trigger] files[i]).path@ == path) ==> last_with_path(
            files,
            path,
            n,
        ) >= 0,
    decreases n,
{
    if n > 0 {
        lemma_last_with_path(files, path, n - 1);
    }
}

/// The files' paths, each with the index of the last file at that path,
/// ascending by path.
fn path_index(files: &[FileResult]) -> (r: Vec<(String, usize)>)
    ensures
        keys_ascending(entry_keys(r@)),
        forall|k: int|
            0 <= k < r@.len() ==> (#[trigger] r@[k]).1 as int == last_with_path(
                files@,
                r@[k].0@,
                files@.len() as int,
            ),
        forall|p: Seq<char>| has_path(files@, p) ==> exists|k: int| 0 <= k < r@.len() && (#[trigger] r@[k]).0@ == p,
{
    let mut r: Vec<(String, usize)> = Vec::new();
    let mut i: usize = 0;
    while i < files.len()
        invariant
            0 <= i <= files@.len(),
            keys_ascending(entry_keys(r@)),
            forall|k: int|
                0 <= k < r@.len() ==> (#[trigger] r@[k]).1 as int == last_with_path(
                    files@,
                    r@[k].0@,
                    i as int,
                ),
            forall|j: int| 0 <= j < i ==> exists|k: int| 0 <= k < r@.len() && (#[trigger] r@[k]).0@ == (#[trigger] files@[j]).path@,
        decreases files@.len() - i,
    {
        let ghost before = r@;
        match search_key(&r, files[i].path.as_str()) {
            Ok(pos) => {
                let key = r[pos].0.clone();
                r.set(pos, (key, i));
                proof {
                    assert(entry_keys(r@) =~= entry_keys(before));
                    assert forall|k: int| 0 <= k < r@.len() implies (#[trigger] r@[k]).1 as int
                        == last_with_path(files@, r@[k].0@, i + 1) by {
                        if k != pos {
                            assert(r@[k] == before[k]);
                            assert(entry_keys(before)[k] == before[k].0@);
                            assert(entry_keys(before)[pos as int] == before[pos as int].0@);
                            assert(before[k].0@ != before[pos as int].0@) by {
                                if k < pos {
                                    crate::order::lemma_text_order(before[k].0@, before[pos as int].0@, before[k].0@);
                                } else {
                                    crate::order::lemma_text_order(before[pos as int].0@, before[k].0@, before[k].0@);
                                }
                            }
                        }
                    }
                    assert forall|j: int| 0 <= j < i + 1 implies exists|k: int|
                        0 <= k < r@.len() && (#[trigger] r@[k]).0@ == (#[trigger] files@[j]).path@ by {
                        if j < i {
                            let k = choose|k: int| 0 <= k < before.len() && (#[trigger] before[k]).0@ == files@[j].path@;
                            assert(r@[k].0@ == before[k].0@);
                        } else {
                            assert(r@[pos as int].0@ == files@[j].path@);
                        }
                    }
                }
            },
            Err(pos) => {
                r.insert(pos, (files[i].path.clone(), i));
                proof {
                    assert(entry_keys(r@) =~= entry_keys(before).insert(pos as int, files@[i as int].path@));
                    lemma_insert_ascending(entry_keys(before), pos as int, files@[i as int].path@);
                    assert forall|k: int| 0 <= k < r@.len() implies (#[trigger] r@[k]).1 as int
                        == last_with_path(files@, r@[k].0@, i + 1) by {
                        if k < pos {
                            assert(r@[k] == before[k]);
                            assert(text_lt(before[k].0@, files@[i as int].path@));
                            crate::order::lemma_text_order(before[k].0@, files@[i as int].path@, before[k].0@);
                        } else if k > pos {
                            assert(r@[k] == before[k - 1]);
                            assert(text_lt(files@[i as int].path@, before[k - 1].0@));
                            crate::order::lemma_text_order(files@[i as int].path@, before[k - 1].0@, before[k - 1].0@);
                        }
                    }
                    assert forall|j: int| 0 <= j < i + 1 implies exists|k: int|
                        0 <= k < r@.len() && (#[trigger] r@[k]).0@ == (#[trigger] files@[j]).path@ by {
                        if j < i {
                            let k = choose|k: int| 0 <= k < before.len() && (#[trigger] before[k]).0@ == files@[j].path@;
                            if k < pos {
                                assert(r@[k] == before[k]);
                            } else {
                                assert(r@[k + 1] == before[k]);
                            }
                        } else {
                            assert(r@[pos as int].0@ == files@[j].path@);
                        }
                    }
                }
            },
        }
        i = i + 1;
    }
    proof {
        assert forall|p: Seq<char>| has_path(files@, p) implies exists|k: int|
            0 <= k < r@.len() && (#[trigger] r@[k]).0@ == p by {
            let j = choose|j: int| 0 <= j < files@.len() && (#[trigger] files@[j]).path@ == p;
            assert(exists|k: int| 0 <= k < r@.len() && (#[trigger] r@[k]).0@ == (#[trigger] files@[j]).path@);
        }
    }
    r
}


// ---------------------------------------------------------------------------
// Groups of files by normalized path
// ---------------------------------------------------------------------------

/// The key a file is grouped under: its path with the matched spans of
/// each component replaced by the sentinel.
pub open spec fn group_key(f: FileResult) -> Seq<char> {
    normalize_path_spec(f.path@, f.path_match_ranges@)
}

/// The indices (ascending) of the first `n` files that are not at an
/// excluded path and are grouped under `key`.
pub open spec fn members(files: Seq<FileResult>, excluded: Set<Seq<char>>, key: Seq<char>, n: int) -> Seq<
    usize,
>
    decreases n,
{
    if n <= 0 {
        Seq::<usize>::empty()
    } else {
        let p = members(files, excluded, key, n - 1);
        if !excluded.contains(files[n - 1].path@) && group_key(files[n - 1]) == key {
            p.push((n - 1) as usize)
        } else {
            p
        }
    }
}

/// The groups of the files not at an excluded path, by normalized path:
/// each key (ascending) with the indices of its files (in file order).
pub fn groups(files: &[FileResult], excluded: &Vec<String>) -> (r: Vec<(String, Vec<usize>)>)
    requires
        keys_ascending(views(excluded@)),
    ensures
        keys_ascending(entry_keys(r@)),
        forall|k: int|
            0 <= k < r@.len() ==> (#[trigger] r@[k]).1@ == members(
                files@,
                views(excluded@).to_set(),
                r@[k].0@,
                files@.len() as int,
            ) && r@[k].1@.len() > 0,
        forall|j: int|
            0 <= j < files@.len() && !views(excluded@).contains((#[trigger] files@[j]).path@) ==> exists|
                k: int,
            | 0 <= k < r@.len() && (#[trigger] r@[k]).0@ == group_key(files@[j]),
{
    let ghost ex = views(excluded@);
    let ghost exs = ex.to_set();
    let mut r: Vec<(String, Vec<usize>)> = Vec::new();
    let mut i: usize = 0;
    while i < files.len()
        invariant
            ex == views(excluded@),
            exs == ex.to_set(),
            keys_ascending(ex),
            0 <= i <= files@.len(),
            keys_ascending(entry_keys(r@)),
            forall|k: int|
                0 <= k < r@.len() ==> (#[trigger] r@[k]).1@ == members(files@, exs, r@[k].0@, i as int)
                    && r@[k].1@.len() > 0,
            forall|j: int|
                0 <= j < i && !ex.contains((#[trigger] files@[j]).path@) ==> exists|k: int|
                    0 <= k < r@.len() && (#[trigger] r@[k]).0@ == group_key(files@[j]),
        decreases files@.len() - i,
    {
        let ghost before = r@;
        let excluded_here = match search_str(excluded, files[i].path.as_str()) {
            Ok(_) => true,
            Err(_) => false,
        };
        proof {
            if excluded_here {
                assert(ex.contains(files@[i as int].path@)) by {
                    let pos = choose|pos: int| 0 <= pos < excluded@.len() && excluded@[pos]@ == files@[i as int].path@;
                    assert(ex[pos] == excluded@[pos]@);
                }
            } else {
                assert(!ex.contains(files@[i as int].path@)) by {
                    if ex.contains(files@[i as int].path@) {
                        let pos = choose|pos: int| 0 <= pos < ex.len() && ex[pos] == files@[i as int].path@;
                        assert(ex[pos] == excluded@[pos]@);
                        crate::order::lemma_text_order(ex[pos], ex[pos], ex[pos]);
                    }
                }
            }
        }
        if !excluded_here {
            let key = normalize_path(files[i].path.as_str(), files[i].path_match_ranges.as_slice());
            let ghost gk = key@;
            assert(gk == group_key(files@[i as int]));
            match search_key(&r, key.as_str()) {
                Ok(pos) => {
                    r[pos].1.push(i);
                    proof {
                        assert(entry_keys(r@) =~= entry_keys(before));
                        assert forall|k: int| 0 <= k < r@.len() implies (#[trigger] r@[k]).1@ == members(
                            files@,
                            exs,
                            r@[k].0@,
                            i + 1,
                        ) && r@[k].1@.len() > 0 by {
                            if k != pos {
                                assert(r@[k] == before[k]);
                                assert(entry_keys(before)[k] == before[k].0@);
                                assert(entry_keys(before)[pos as int] == before[pos as int].0@);
                                if k < pos {
                                    crate::order::lemma_text_order(before[k].0@, before[pos as int].0@, before[k].0@);
                                } else {
                                    crate::order::lemma_text_order(before[pos as int].0@, before[k].0@, before[k].0@);
                                }
                            }
                        }
                        assert forall|j: int| 0 <= j < i + 1 && !ex.contains((#[trigger] files@[j]).path@) implies exists|
                            k: int,
                        | 0 <= k < r@.len() && (#[trigger] r@[k]).0@ == group_key(files@[j]) by {
                            if j < i {
                                let k = choose|k: int| 0 <= k < before.len() && (#[trigger] before[k]).0@ == group_key(files@[j]);
                                assert(r@[k].0@ == before[k].0@);
                            } else {
                                assert(r@[pos as int].0@ == group_key(files@[j]));
                            }
                        }
                    }
                },
                Err(pos) => {
                    let mut v: Vec<usize> = Vec::new();
                    v.push(i);
                    r.insert(pos, (key, v));
                    proof {
                        assert(entry_keys(r@) =~= entry_keys(before).insert(pos as int, gk));
                        lemma_insert_ascending(entry_keys(before), pos as int, gk);
                        assert forall|k: int| 0 <= k < r@.len() implies (#[trigger] r@[k]).1@ == members(
                            files@,
                            exs,
                            r@[k].0@,
                            i + 1,
                        ) && r@[k].1@.len() > 0 by {
                            if k < pos {
                                assert(r@[k] == before[k]);
                                crate::order::lemma_text_order(before[k].0@, gk, before[k].0@);
                            } else if k > pos {
                                assert(r@[k] == before[k - 1]);
                                crate::order::lemma_text_order(gk, before[k - 1].0@, before[k - 1].0@);
                            } else {
                                assert forall|k2: int| 0 <= k2 < before.len() implies (#[trigger] before[k2]).0@ != gk by {
                                    crate::order::lemma_text_order(before[k2].0@, gk, gk);
                                    crate::order::lemma_text_order(gk, gk, gk);
                                }
                                lemma_members_absent(files@, exs, gk, i as int, before);
                                assert(r@[k].1@ =~= seq![i]);
                            }
                        }
                        assert forall|j: int| 0 <= j < i + 1 && !ex.contains((#[trigger] files@[j]).path@) implies exists|
                            k: int,
                        | 0 <= k < r@.len() && (#[trigger] r@[k]).0@ == group_key(files@[j]) by {
                            if j < i {
                                let k = choose|k: int| 0 <= k < before.len() && (#[trigger] before[k]).0@ == group_key(files@[j]);
                                if k < pos {
                                    assert(r@[k] == before[k]);
                                } else {
                                    assert(r@[k + 1] == before[k]);
                                }
                            } else {
                                assert(r@[pos as int].0@ == group_key(files@[j]));
                            }
                        }
                    }
                },
            }
        } else {
            proof {
                assert forall|k: int| 0 <= k < r@.len() implies (#[trigger] r@[k]).1@ == members(
                    files@,
                    exs,
                    r@[k].0@,
                    i + 1,
                ) && r@[k].1@.len() > 0 by {}
            }
        }
        i = i + 1;
    }
    r
}

/// A key with no group among the first `n` files has no members there.
proof fn lemma_members_absent(
    files: Seq<FileResult>,
    ex: Set<Seq<char>>,
    key: Seq<char>,
    n: int,
    groups: Seq<(String, Vec<usize>)>,
)
    requires
        0 <= n <= files.len(),
        forall|k: int| 0 <= k < groups.len() ==> (#[trigger] groups[k]).0@ != key,
        forall|j: int|
            0 <= j < n && !ex.contains((#[trigger] files[j]).path@) ==> exists|k: int|
                0 <= k < groups.len() && (#[trigger] groups[k]).0@ == group_key(files[j]),
    ensures
        members(files, ex, key, n).len() == 0,
    decreases n,
{
    if n > 0 {
        lemma_members_absent(files, ex, key, n - 1, groups);
        if !ex.contains(files[n - 1].path@) {
            let k = choose|k: int| 0 <= k < groups.len() && (#[trigger] groups[k]).0@ == group_key(files[n - 1]);
        }
    }
}


/// A key with members among the first `n` files is the key of one of them.
proof fn lemma_members_witness(files: Seq<FileResult>, ex: Set<Seq<char>>, key: Seq<char>, n: int)
    requires
        0 <= n <= files.len(),
        members(files, ex, key, n).len() > 0,
    ensures
        exists|j: int|
            0 <= j < n && !ex.contains((#[trigger] files[j]).path@) && group_key(files[j]) == key,
    decreases n,
{
    if n > 0 {
        if !(!ex.contains(files[n - 1].path@) && group_key(files[n - 1]) == key) {
            lemma_members_witness(files, ex, key, n - 1);
        }
    }
}

/// The members of a key among the first `n` files: ascending indices of
/// files not at an excluded path with that key, all such files among them.
proof fn lemma_members_props(files: Seq<FileResult>, ex: Set<Seq<char>>, key: Seq<char>, n: int)
    requires
        0 <= n <= files.len(),
        files.len() <= usize::MAX,
    ensures
        forall|t: int|
            0 <= t < members(files, ex, key, n).len() ==> {
                let j = #[trigger] members(files, ex, key, n)[t] as int;
                &&& j < n
                &&& !ex.contains(files[j].path@)
                &&& group_key(files[j]) == key
            },
        forall|t1: int, t2: int|
            0 <= t1 < t2 < members(files, ex, key, n).len() ==> members(files, ex, key, n)[t1] < members(
                files,
                ex,
                key,
                n,
            )[t2],
        forall|j: int|
            0 <= j < n && !ex.contains((#[trigger] files[j]).path@) && group_key(files[j]) == key ==> exists|
                t: int,
            | 0 <= t < members(files, ex, key, n).len() && members(files, ex, key, n)[t] == j,
    decreases n,
{
    if n > 0 {
        lemma_members_props(files, ex, key, n - 1);
        let p = members(files, ex, key, n - 1);
        let m = members(files, ex, key, n);
        assert forall|j: int|
            0 <= j < n && !ex.contains((#[trigger] files[j]).path@) && group_key(files[j]) == key implies exists|
                t: int,
            | 0 <= t < m.len() && m[t] == j by {
            if j < n - 1 {
                let t = choose|t: int| 0 <= t < p.len() && p[t] == j;
                assert(m[t] == p[t]);
            } else {
                assert(m[m.len() - 1] == j);
            }
        }
        assert forall|t: int| 0 <= t < m.len() implies {
            let j = #[trigger] m[t] as int;
            &&& j < n
            &&& !ex.contains(files[j].path@)
            &&& group_key(files[j]) == key
        } by {
            if t < p.len() {
                assert(m[t] == p[t]);
            }
        }
        assert forall|t1: int, t2: int| 0 <= t1 < t2 < m.len() implies m[t1] < m[t2] by {
            if t2 < p.len() {
                assert(m[t1] == p[t1] && m[t2] == p[t2]);
            } else {
                assert(m[t1] == p[t1]);
            }
        }
    }
}

/// Grouping puts each file that is not at an excluded path in exactly one
/// group, once, and puts nothing else in the groups: every member is such
/// a file, under its own key.
pub proof fn lemma_each_file_in_one_group(
    files: Seq<FileResult>,
    excluded: Seq<Seq<char>>,
    r: Seq<(String, Vec<usize>)>,
)
    requires
        files.len() <= usize::MAX,
        keys_ascending(entry_keys(r)),
        forall|k: int|
            0 <= k < r.len() ==> (#[trigger] r[k]).1@ == members(
                files,
                excluded.to_set(),
                r[k].0@,
                files.len() as int,
            ),
        forall|j: int|
            0 <= j < files.len() && !excluded.contains((#[trigger] files[j]).path@) ==> exists|k: int|
                0 <= k < r.len() && (#[trigger] r[k]).0@ == group_key(files[j]),
    ensures
        forall|j: int|
            0 <= j < files.len() && !excluded.contains((#[trigger] files[j]).path@) ==> exists|k: int, t: int|
                0 <= k < r.len() && 0 <= t < r[k].1@.len() && (#[trigger] r[k].1@[t]) == j,
        forall|k1: int, t1: int, k2: int, t2: int|
            0 <= k1 < r.len() && 0 <= t1 < r[k1].1@.len() && 0 <= k2 < r.len() && 0 <= t2 < r[k2].1@.len()
                && #[trigger] r[k1].1@[t1] == #[trigger] r[k2].1@[t2] ==> k1 == k2 && t1 == t2,
        forall|k: int, t: int|
            0 <= k < r.len() && 0 <= t < r[k].1@.len() ==> {
                let j = #[trigger] r[k].1@[t] as int;
                &&& j < files.len()
                &&& !excluded.contains(files[j].path@)
                &&& group_key(files[j]) == r[k].0@
            },
{
    broadcast use vstd::seq_lib::group_seq_properties;

    let n = files.len() as int;
    assert forall|j: int|
        0 <= j < files.len() && !excluded.contains((#[trigger] files[j]).path@) implies exists|k: int, t: int|
        0 <= k < r.len() && 0 <= t < r[k].1@.len() && (#[trigger] r[k].1@[t]) == j by {
        let k = choose|k: int| 0 <= k < r.len() && (#[trigger] r[k]).0@ == group_key(files[j]);
        lemma_members_props(files, excluded.to_set(), r[k].0@, n);
        assert(!excluded.to_set().contains(files[j].path@));
        let t = choose|t: int| 0 <= t < r[k].1@.len() && r[k].1@[t] == j;
    }
    assert forall|k1: int, t1: int, k2: int, t2: int|
        0 <= k1 < r.len() && 0 <= t1 < r[k1].1@.len() && 0 <= k2 < r.len() && 0 <= t2 < r[k2].1@.len()
            && #[trigger] r[k1].1@[t1] == #[trigger] r[k2].1@[t2] implies k1 == k2 && t1 == t2 by {
        lemma_members_props(files, excluded.to_set(), r[k1].0@, n);
        lemma_members_props(files, excluded.to_set(), r[k2].0@, n);
        let j = r[k1].1@[t1] as int;
        assert(r[k1].1@[t1] == members(files, excluded.to_set(), r[k1].0@, n)[t1]);
        assert(r[k2].1@[t2] == members(files, excluded.to_set(), r[k2].0@, n)[t2]);
        assert(group_key(files[j]) == r[k1].0@);
        assert(group_key(files[j]) == r[k2].0@);
        assert(entry_keys(r)[k1] == r[k1].0@ && entry_keys(r)[k2] == r[k2].0@);
        if k1 != k2 {
            crate::order::lemma_text_order(r[k1].0@, r[k1].0@, r[k1].0@);
        }
        if t1 < t2 {
            assert(r[k1].1@[t1] < r[k1].1@[t2]);
        } else if t2 < t1 {
            assert(r[k1].1@[t2] < r[k1].1@[t1]);
        }
    }
    assert forall|k: int, t: int| 0 <= k < r.len() && 0 <= t < r[k].1@.len() implies {
        let j = #[trigger] r[k].1@[t] as int;
        &&& j < files.len()
        &&& !excluded.contains(files[j].path@)
        &&& group_key(files[j]) == r[k].0@
    } by {
        lemma_members_props(files, excluded.to_set(), r[k].0@, n);
        assert(r[k].1@[t] == members(files, excluded.to_set(), r[k].0@, n)[t]);
        let j = r[k].1@[t] as int;
        assert(!excluded.to_set().contains(files[j].path@));
    }
}

// ---------------------------------------------------------------------------
// Entries
// ---------------------------------------------------------------------------

/// How the files under one key pair up across the scans.
#[derive(Clone, Copy, Debug, PartialEq, Eq, Structural)]
pub enum Classification {
    Paired,
    OldOnly,
    NewOnly,
    Ambiguous,
}

/// One entry of a correlation.
#[derive(Debug)]
#[allow(inconsistent_fields)]
pub enum Entry {
    /// The files that both scans group under `path` (a normalized path).
    FilePair {
        path: String,
        classification: Classification,
        old: Vec<Side>,
        new: Vec<Side>,
        smart_diff: Option<SmartDiff>,
        warnings: Vec<String>,
    },
    /// A file that both scans found at `path`.
    SharedContext {
        path: String,
        classification: Classification,
        old: Box<Side>,
        new: Box<Side>,
        region_comparison: RegionComparison,
        warnings: Vec<String>,
    },
}

/// The path of an entry.
pub open spec fn path_of(e: Entry) -> Seq<char> {
    match e {
        Entry::FilePair { path, .. } => path@,
        Entry::SharedContext { path, .. } => path@,
    }
}

/// The path of an entry.
pub fn entry_path(entry: &Entry) -> (r: &str)
    ensures
        r@ == path_of(*entry),
{
    match entry {
        Entry::FilePair { path, .. } => path.as_str(),
        Entry::SharedContext { path, .. } => path.as_str(),
    }
}

/// Paired for one file on each side, old-only or new-only for one file on
/// one side, ambiguous otherwise.
pub open spec fn classify_counts(old: nat, new: nat) -> Classification {
    if old == 1 && new == 1 {
        Classification::Paired
    } else if old == 1 && new == 0 {
        Classification::OldOnly
    } else if old == 0 && new == 1 {
        Classification::NewOnly
    } else {
        Classification::Ambiguous
    }
}

/// Both reports have a file at `path`.
pub open spec fn is_shared_path(old: Report, new: Report, path: Seq<char>) -> bool {
    has_path(old.files@, path) && has_path(new.files@, path)
}

/// The paths that both reports have files at.
pub open spec fn shared_set(old: Report, new: Report) -> Set<Seq<char>> {
    Set::new(|p: Seq<char>| is_shared_path(old, new, p))
}

/// The file of `r` at `path` (the last one, when there are several).
pub open spec fn file_at(r: Report, path: Seq<char>) -> FileResult {
    r.files@[last_with_path(r.files@, path, r.files@.len() as int)]
}

/// The indices of the files of `r` grouped under `key`, leaving out the
/// shared paths.
pub open spec fn group_of(r: Report, old: Report, new: Report, key: Seq<char>) -> Seq<usize> {
    members(r.files@, shared_set(old, new), key, r.files@.len() as int)
}

/// `e` is the shared-context entry of a path that both reports have: the
/// two sides of the file there and the comparison of their regions.
pub open spec fn shared_entry_of(e: Entry, old: Report, new: Report) -> bool {
    match e {
        Entry::SharedContext { path, classification, old: os, new: ns, region_comparison, warnings } => {
            &&& classification == Classification::Paired
            &&& is_shared_path(old, new, path@)
            &&& is_side_of(*os, file_at(old, path@), old.matches@)
            &&& is_side_of(*ns, file_at(new, path@), new.matches@)
            &&& region_comparison_of(region_comparison, warnings@, *os, *ns)
        },
        _ => false,
    }
}

/// `e` is the entry of a group key: the sides of the files grouped under
/// it in each report, classified by their numbers, with the smart diff of
/// the two files when they pair one to one.
pub open spec fn pair_entry_of(e: Entry, old: Report, new: Report) -> bool {
    match e {
        Entry::FilePair { path, classification, old: os, new: ns, smart_diff, warnings } => {
            let om = group_of(old, old, new, path@);
            let nm = group_of(new, old, new, path@);
            &&& om.len() + nm.len() > 0
            &&& classification == classify_counts(om.len(), nm.len())
            &&& os@.len() == om.len()
            &&& forall|i: int|
                0 <= i < om.len() ==> is_side_of(#[trigger] os@[i], old.files@[om[i] as int], old.matches@)
            &&& ns@.len() == nm.len()
            &&& forall|i: int|
                0 <= i < nm.len() ==> is_side_of(#[trigger] ns@[i], new.files@[nm[i] as int], new.matches@)
            &&& if classification == Classification::Paired {
                smart_diff matches Some(d) && smart_diff_of(d, warnings@, os@[0], ns@[0])
            } else {
                smart_diff is None && warnings@.len() == 0
            }
        },
        _ => false,
    }
}

/// A group of renamed files pairs up only one to one: a file-pair entry
/// is paired exactly when one file of each report is grouped under its
/// key, and only then carries a smart diff; two or more files on either
/// side make it ambiguous, and one file on one side only makes it
/// one-sided.
pub proof fn lemma_pairing_is_one_to_one(entries: Seq<Entry>, old: Report, new: Report, i: int)
    requires
        correlation_of(entries, old, new),
        0 <= i < entries.len(),
        entries[i] is FilePair,
    ensures
        match entries[i] {
            Entry::FilePair { classification, old: os, new: ns, smart_diff, .. } => {
                &&& (classification == Classification::Paired) == (os@.len() == 1 && ns@.len() == 1)
                &&& smart_diff is Some == (os@.len() == 1 && ns@.len() == 1)
                &&& (os@.len() >= 2 || ns@.len() >= 2) ==> classification == Classification::Ambiguous
                &&& (classification == Classification::OldOnly) == (os@.len() == 1 && ns@.len() == 0)
                &&& (classification == Classification::NewOnly) == (os@.len() == 0 && ns@.len() == 1)
            },
            _ => false,
        },
{
    assert(pair_entry_of(entries[i], old, new));
}

/// Entries come by path; at equal paths the shared-context entry comes first.
pub open spec fn entries_ordered(entries: Seq<Entry>) -> bool {
    forall|i: int, j: int|
        0 <= i < j < entries.len() ==> text_lt(path_of(#[trigger] entries[i]), path_of(#[trigger] entries[j]))
            || (path_of(entries[i]) == path_of(entries[j]) && entries[i] is SharedContext
            && entries[j] is FilePair)
}

/// `entries` is the correlation of `old` and `new`: a shared-context entry
/// for each path that both have, an entry for each key that files at the
/// other paths are grouped under, all in order of path.
pub open spec fn correlation_of(entries: Seq<Entry>, old: Report, new: Report) -> bool {
    &&& entries_ordered(entries)
    &&& forall|i: int|
        0 <= i < entries.len() ==> (#[trigger] entries[i] is SharedContext ==> shared_entry_of(
            entries[i],
            old,
            new,
        )) && (entries[i] is FilePair ==> pair_entry_of(entries[i], old, new))
    &&& forall|p: Seq<char>|
        is_shared_path(old, new, p) ==> exists|i: int|
            0 <= i < entries.len() && #[trigger] entries[i] is SharedContext && path_of(entries[i]) == p
    &&& forall|p: Seq<char>|
        group_of(old, old, new, p).len() > 0 || group_of(new, old, new, p).len() > 0 ==> exists|i: int|
            0 <= i < entries.len() && #[trigger] entries[i] is FilePair && path_of(entries[i]) == p
}


// ---------------------------------------------------------------------------
// Building the correlation
// ---------------------------------------------------------------------------

/// The paths that both reports have, ascending, each with the index of
/// the (last) file there in each report.
fn shared_files(old: &Report, new: &Report) -> (r: Vec<(String, (usize, usize))>)
    ensures
        keys_ascending(entry_keys(r@)),
        forall|k: int|
            0 <= k < r@.len() ==> {
                &&& is_shared_path(*old, *new, (#[trigger] r@[k]).0@)
                &&& r@[k].1.0 as int == last_with_path(old.files@, r@[k].0@, old.files@.len() as int)
                &&& r@[k].1.1 as int == last_with_path(new.files@, r@[k].0@, new.files@.len() as int)
            },
        forall|p: Seq<char>|
            is_shared_path(*old, *new, p) ==> exists|k: int| 0 <= k < r@.len() && (#[trigger] r@[k]).0@ == p,
{
    let oi = path_index(old.files.as_slice());
    let ni = path_index(new.files.as_slice());
    let mut r: Vec<(String, (usize, usize))> = Vec::new();
    let mut k: usize = 0;
    while k < oi.len()
        invariant
            keys_ascending(entry_keys(oi@)),
            keys_ascending(entry_keys(ni@)),
            forall|a: int|
                0 <= a < oi@.len() ==> (#[trigger] oi@[a]).1 as int == last_with_path(
                    old.files@,
                    oi@[a].0@,
                    old.files@.len() as int,
                ),
            forall|a: int|
                0 <= a < ni@.len() ==> (#[trigger] ni@[a]).1 as int == last_with_path(
                    new.files@,
                    ni@[a].0@,
                    new.files@.len() as int,
                ),
            0 <= k <= oi@.len(),
            keys_ascending(entry_keys(r@)),
            r@.len() > 0 ==> exists|a: int| 0 <= a < k && r@.last().0@ == (#[trigger] oi@[a]).0@,
            forall|m: int|
                0 <= m < r@.len() ==> {
                    &&& is_shared_path(*old, *new, (#[trigger] r@[m]).0@)
                    &&& r@[m].1.0 as int == last_with_path(old.files@, r@[m].0@, old.files@.len() as int)
                    &&& r@[m].1.1 as int == last_with_path(new.files@, r@[m].0@, new.files@.len() as int)
                },
            forall|a: int|
                0 <= a < k && (exists|b: int| 0 <= b < ni@.len() && (#[trigger] ni@[b]).0@ == (#[trigger] oi@[a]).0@)
                    ==> exists|m: int| 0 <= m < r@.len() && (#[trigger] r@[m]).0@ == oi@[a].0@,
        decreases oi@.len() - k,
    {
        let ghost before = r@;
        match search_key(&ni, oi[k].0.as_str()) {
            Ok(pos) => {
                let key = oi[k].0.clone();
                let entry = (key, (oi[k].1, ni[pos].1));
                r.push(entry);
                proof {
                    let p = oi@[k as int].0@;
                    lemma_last_with_path(old.files@, p, old.files@.len() as int);
                    lemma_last_with_path(new.files@, p, new.files@.len() as int);
                    assert(entry_keys(oi@)[k as int] == p);
                    let oj = last_with_path(old.files@, p, old.files@.len() as int);
                    let nj = last_with_path(new.files@, p, new.files@.len() as int);
                    assert(old.files@[oj].path@ == p);
                    assert(new.files@[nj].path@ == p);
                    assert(has_path(old.files@, p));
                    assert(has_path(new.files@, p));
                    assert(entry_keys(r@) =~= entry_keys(before).push(p));
                    if before.len() > 0 {
                        let a = choose|a: int| 0 <= a < k && before.last().0@ == (#[trigger] oi@[a]).0@;
                        assert(entry_keys(oi@)[a] == oi@[a].0@);
                        assert(text_lt(before.last().0@, p));
                        assert forall|x: int, y: int| 0 <= x < y < entry_keys(r@).len() implies text_lt(
                            entry_keys(r@)[x],
                            entry_keys(r@)[y],
                        ) by {
                            if y == entry_keys(r@).len() - 1 && x < y - 1 {
                                assert(entry_keys(before)[x] == entry_keys(r@)[x]);
                                assert(entry_keys(before)[before.len() - 1] == before.last().0@);
                                crate::order::lemma_text_order(entry_keys(r@)[x], before.last().0@, p);
                            }
                        }
                    }
                    assert forall|a: int|
                        0 <= a < k + 1 && (exists|b: int| 0 <= b < ni@.len() && (#[trigger] ni@[b]).0@ == (#[trigger] oi@[a]).0@)
                            implies exists|m: int| 0 <= m < r@.len() && (#[trigger] r@[m]).0@ == oi@[a].0@ by {
                        if a < k {
                            let m = choose|m: int| 0 <= m < before.len() && (#[trigger] before[m]).0@ == oi@[a].0@;
                            assert(r@[m] == before[m]);
                        } else {
                            assert(r@[r@.len() - 1].0@ == oi@[a].0@);
                        }
                    }
                }
            },
            Err(pos) => {
                proof {
                    assert forall|a: int|
                        0 <= a < k + 1 && (exists|b: int| 0 <= b < ni@.len() && (#[trigger] ni@[b]).0@ == (#[trigger] oi@[a]).0@)
                            implies exists|m: int| 0 <= m < r@.len() && (#[trigger] r@[m]).0@ == oi@[a].0@ by {
                        if a == k {
                            let b = choose|b: int| 0 <= b < ni@.len() && (#[trigger] ni@[b]).0@ == oi@[a].0@;
                            crate::order::lemma_text_order(ni@[b].0@, ni@[b].0@, ni@[b].0@);
                        }
                    }
                }
            },
        }
        k = k + 1;
    }
    proof {
        assert forall|p: Seq<char>| is_shared_path(*old, *new, p) implies exists|m: int|
            0 <= m < r@.len() && (#[trigger] r@[m]).0@ == p by {
            let a = choose|a: int| 0 <= a < oi@.len() && (#[trigger] oi@[a]).0@ == p;
            let b = choose|b: int| 0 <= b < ni@.len() && (#[trigger] ni@[b]).0@ == p;
            assert(exists|b: int| 0 <= b < ni@.len() && (#[trigger] ni@[b]).0@ == (#[trigger] oi@[a]).0@);
        }
    }
    r
}


/// The keys of a keyed list.
fn keys_of<V>(entries: &Vec<(String, V)>) -> (r: Vec<String>)
    ensures
        views(r@) == entry_keys(entries@),
{
    let mut r: Vec<String> = Vec::new();
    let mut i: usize = 0;
    while i < entries.len()
        invariant
            0 <= i <= entries@.len(),
            r@.len() == i,
            views(r@) == entry_keys(entries@.take(i as int)),
        decreases entries@.len() - i,
    {
        let ghost before = r@;
        r.push(crate::text::copy_string(&entries[i].0));
        i = i + 1;
        assert(entries@.take(i as int) == entries@.take(i - 1).push(entries@[i - 1]));
        assert forall|k: int| 0 <= k < i implies #[trigger] views(r@)[k] == entry_keys(entries@.take(i as int))[k] by {
            if k < i - 1 {
                assert(views(before)[k] == entry_keys(entries@.take(i - 1))[k]);
                assert(r@[k] == before[k]);
            }
        }
        assert(views(r@) =~= entry_keys(entries@.take(i as int)));
    }
    assert(entries@.take(i as int) == entries@);
    r
}

/// The indices of the members of a group are the indices of files.
proof fn lemma_members_bounded(files: Seq<FileResult>, ex: Set<Seq<char>>, key: Seq<char>, n: int)
    requires
        0 <= n <= files.len(),
    ensures
        forall|i: int| 0 <= i < members(files, ex, key, n).len() ==> (#[trigger] members(files, ex, key, n)[i]) < n,
    decreases n,
{
    if n > 0 {
        lemma_members_bounded(files, ex, key, n - 1);
        let p = members(files, ex, key, n - 1);
        let m = members(files, ex, key, n);
        assert forall|i: int| 0 <= i < m.len() implies (#[trigger] m[i]) < n by {
            if i < p.len() {
                assert(m[i] == p[i]);
            }
        }
    }
}

/// The sides of the files at the given indices of a report.
fn sides_of(report: &Report, indices: &[usize]) -> (r: Vec<Side>)
    requires
        forall|i: int| 0 <= i < indices@.len() ==> (#[trigger] indices@[i]) < report.files@.len(),
    ensures
        r@.len() == indices@.len(),
        forall|i: int|
            0 <= i < indices@.len() ==> is_side_of(#[trigger] r@[i], report.files@[indices@[i] as int], report.matches@)
                && side_normalizable(r@[i]) && side_ranges_ordered(r@[i]),
{
    let mut r: Vec<Side> = Vec::new();
    let mut i: usize = 0;
    while i < indices.len()
        invariant
            0 <= i <= indices@.len(),
            forall|k: int| 0 <= k < indices@.len() ==> (#[trigger] indices@[k]) < report.files@.len(),
            r@.len() == i,
            forall|k: int|
                0 <= k < i ==> is_side_of(#[trigger] r@[k], report.files@[indices@[k] as int], report.matches@)
                    && side_normalizable(r@[k]) && side_ranges_ordered(r@[k]),
        decreases indices@.len() - i,
    {
        let s = side(&report.files[indices[i]], report);
        r.push(s);
        i = i + 1;
    }
    r
}

/// The shared-context entry of a path that both reports have files at.
fn shared_entry(old: &Report, new: &Report, path: &String, oi: usize, ni: usize) -> (e: Entry)
    requires
        is_shared_path(*old, *new, path@),
        oi as int == last_with_path(old.files@, path@, old.files@.len() as int),
        ni as int == last_with_path(new.files@, path@, new.files@.len() as int),
    ensures
        e is SharedContext,
        path_of(e) == path@,
        shared_entry_of(e, *old, *new),
{
    proof {
        lemma_last_with_path(old.files@, path@, old.files@.len() as int);
        lemma_last_with_path(new.files@, path@, new.files@.len() as int);
    }
    let os = side(&old.files[oi], old);
    let ns = side(&new.files[ni], new);
    let (region_comparison, warnings) = compare_regions(&os, &ns);
    Entry::SharedContext {
        path: path.clone(),
        classification: Classification::Paired,
        old: Box::new(os),
        new: Box::new(ns),
        region_comparison,
        warnings,
    }
}

/// The entry of a group key: the sides of the files grouped under it in
/// each report, classified by their numbers, with the smart diff of the
/// two files when they pair one to one.
fn pair_entry(old: &Report, new: &Report, path: &String, om: &[usize], nm: &[usize]) -> (e: Entry)
    requires
        om@ == group_of(*old, *old, *new, path@),
        nm@ == group_of(*new, *old, *new, path@),
        om@.len() + nm@.len() > 0,
    ensures
        e is FilePair,
        path_of(e) == path@,
        pair_entry_of(e, *old, *new),
{
    proof {
        lemma_members_bounded(old.files@, shared_set(*old, *new), path@, old.files@.len() as int);
        lemma_members_bounded(new.files@, shared_set(*old, *new), path@, new.files@.len() as int);
    }
    let os = sides_of(old, om);
    let ns = sides_of(new, nm);
    let classification = if om.len() == 1 && nm.len() == 1 {
        Classification::Paired
    } else if om.len() == 1 && nm.len() == 0 {
        Classification::OldOnly
    } else if om.len() == 0 && nm.len() == 1 {
        Classification::NewOnly
    } else {
        Classification::Ambiguous
    };
    let (smart_diff, warnings) = if om.len() == 1 && nm.len() == 1 {
        let (d, w) = smart_diff(&os[0], &ns[0]);
        (Some(d), w)
    } else {
        (None, Vec::new())
    };
    Entry::FilePair { path: path.clone(), classification, old: os, new: ns, smart_diff, warnings }
}


/// Some shared-context entry of `es` is at `p`.
spec fn has_shared_entry(es: Seq<Entry>, p: Seq<char>) -> bool {
    exists|m: int| 0 <= m < es.len() && #[trigger] es[m] is SharedContext && path_of(es[m]) == p
}

/// Some file-pair entry of `es` is at `p`.
spec fn has_pair_entry(es: Seq<Entry>, p: Seq<char>) -> bool {
    exists|m: int| 0 <= m < es.len() && #[trigger] es[m] is FilePair && path_of(es[m]) == p
}

/// Each entry of `es` is what its kind says of it.
spec fn entries_sound(es: Seq<Entry>, old: Report, new: Report) -> bool {
    forall|m: int|
        0 <= m < es.len() ==> (#[trigger] es[m] is SharedContext ==> shared_entry_of(es[m], old, new))
            && (es[m] is FilePair ==> pair_entry_of(es[m], old, new))
}

/// An entry at `p` may come before a group key `key`: it is at a smaller
/// path, or it is the shared-context entry at that very path.
spec fn before_key(e: Entry, key: Seq<char>) -> bool {
    text_lt(path_of(e), key) || (path_of(e) == key && e is SharedContext)
}

/// A key that no group has has no members.
proof fn lemma_group_absent(
    files: Seq<FileResult>,
    ex: Seq<Seq<char>>,
    g: Seq<(String, Vec<usize>)>,
    key: Seq<char>,
)
    requires
        forall|j: int|
            0 <= j < files.len() && !ex.contains((#[trigger] files[j]).path@) ==> exists|k: int|
                0 <= k < g.len() && (#[trigger] g[k]).0@ == group_key(files[j]),
        !entry_keys(g).contains(key),
    ensures
        members(files, ex.to_set(), key, files.len() as int).len() == 0,
{
    if members(files, ex.to_set(), key, files.len() as int).len() > 0 {
        lemma_members_witness(files, ex.to_set(), key, files.len() as int);
        let j = choose|j: int|
            0 <= j < files.len() && !ex.to_set().contains((#[trigger] files[j]).path@) && group_key(files[j]) == key;
        assert(!ex.contains(files[j].path@));
        let k = choose|k: int| 0 <= k < g.len() && (#[trigger] g[k]).0@ == group_key(files[j]);
        assert(entry_keys(g)[k] == key);
    }
}

/// A key that some file outside the excluded paths is grouped under is a
/// key of the groups.
proof fn lemma_group_present(
    files: Seq<FileResult>,
    ex: Seq<Seq<char>>,
    g: Seq<(String, Vec<usize>)>,
    key: Seq<char>,
)
    requires
        forall|j: int|
            0 <= j < files.len() && !ex.contains((#[trigger] files[j]).path@) ==> exists|k: int|
                0 <= k < g.len() && (#[trigger] g[k]).0@ == group_key(files[j]),
        members(files, ex.to_set(), key, files.len() as int).len() > 0,
    ensures
        exists|k: int| 0 <= k < g.len() && (#[trigger] g[k]).0@ == key,
{
    lemma_members_witness(files, ex.to_set(), key, files.len() as int);
    let j = choose|j: int|
        0 <= j < files.len() && !ex.to_set().contains((#[trigger] files[j]).path@) && group_key(files[j]) == key;
    assert(!ex.contains(files[j].path@));
}

/// The correlation of two map reports: a shared-context entry for each path
/// that both reports have files at, comparing the regions around the
/// matches; and, for the files at the other paths, an entry for each key
/// they are grouped under (the path with the matched text replaced by the
/// sentinel), pairing one old file with one new file when the key has
/// exactly those. Entries come by path, a shared-context entry first.
#[verifier::spinoff_prover]
pub fn correlate(old: &Report, new: &Report) -> (entries: Vec<Entry>)
    ensures
        correlation_of(entries@, *old, *new),
{
    let shared = shared_files(old, new);
    let excluded = keys_of(&shared);
    proof {
        lemma_excluded_paths(*old, *new, shared@, excluded@);
    }
    let og = groups(old.files.as_slice(), &excluded);
    let ng = groups(new.files.as_slice(), &excluded);
    let keys = union_keys(&og, &ng);
    let ghost sk = entry_keys(shared@);
    let ghost uk = entry_keys(keys@);
    let ghost ex = views(excluded@);
    let empty: Vec<usize> = Vec::new();
    let mut entries: Vec<Entry> = Vec::new();
    let mut i: usize = 0;
    let mut j: usize = 0;
    let mut more = i < shared.len() || j < keys.len();
    while more
        invariant
            more == (i < shared@.len() || j < keys@.len()),
            0 <= i <= shared@.len(),
            0 <= j <= keys@.len(),
            sk == entry_keys(shared@),
            uk == entry_keys(keys@),
            ex == views(excluded@),
            empty@.len() == 0,
            keys_ascending(sk),
            keys_ascending(uk),
            ex.to_set() == shared_set(*old, *new),
            forall|k: int|
                0 <= k < shared@.len() ==> {
                    &&& is_shared_path(*old, *new, (#[trigger] shared@[k]).0@)
                    &&& shared@[k].1.0 as int == last_with_path(old.files@, shared@[k].0@, old.files@.len() as int)
                    &&& shared@[k].1.1 as int == last_with_path(new.files@, shared@[k].0@, new.files@.len() as int)
                },
            groups_of(old.files@, ex, og@),
            groups_of(new.files@, ex, ng@),
            forall|k: int|
                0 <= k < keys@.len() ==> located(entry_keys(og@), (#[trigger] keys@[k]).0@, keys@[k].1.0) && located(
                    entry_keys(ng@),
                    keys@[k].0@,
                    keys@[k].1.1,
                ) && (keys@[k].1.0 is Some || keys@[k].1.1 is Some),
            entries_sound(entries@, *old, *new),
            entries_ordered(entries@),
            forall|m: int, k: int|
                0 <= m < entries@.len() && i <= k < sk.len() ==> text_lt(path_of(#[trigger] entries@[m]), #[trigger] sk[k]),
            forall|m: int, k: int|
                0 <= m < entries@.len() && j <= k < uk.len() ==> before_key(#[trigger] entries@[m], #[trigger] uk[k]),
            forall|k: int| 0 <= k < i ==> has_shared_entry(entries@, #[trigger] sk[k]),
            forall|k: int| 0 <= k < j ==> has_pair_entry(entries@, #[trigger] uk[k]),
        decreases shared@.len() + keys@.len() - i - j,
    {
        let ghost before = entries@;
        let take_shared = i < shared.len() && (j >= keys.len() || !less_text(
            keys[j].0.as_str(),
            shared[i].0.as_str(),
        ));
        if take_shared {
            let e = shared_entry(old, new, &shared[i].0, shared[i].1.0, shared[i].1.1);
            entries.push(e);
            proof {
                assert(sk[i as int] == shared@[i as int].0@);
                if j < keys@.len() {
                    assert(uk[j as int] == keys@[j as int].0@);
                }
                lemma_shared_step(before, entries@, sk, uk, i as int, j as int, *old, *new);
            }
            i = i + 1;
        } else {
            let key_count = keys.len();
            assert(j < key_count);
            let ghost p = keys@[j as int].0@;
            proof {
                assert(uk[j as int] == p);
                if i < shared@.len() {
                    assert(sk[i as int] == shared@[i as int].0@);
                }
            }
            let om: &Vec<usize> = match keys[j].1.0 {
                Some(a) => &og[a].1,
                None => &empty,
            };
            let nm: &Vec<usize> = match keys[j].1.1 {
                Some(a) => &ng[a].1,
                None => &empty,
            };
            proof {
                lemma_located_members(old.files@, ex, og@, p, keys@[j as int].1.0, om@);
                lemma_located_members(new.files@, ex, ng@, p, keys@[j as int].1.1, nm@);
            }
            proof {
                if keys@[j as int].1.0 is Some {
                    assert(om@.len() > 0);
                } else {
                    assert(nm@.len() > 0);
                }
            }
            let e = pair_entry(old, new, &keys[j].0, om.as_slice(), nm.as_slice());
            entries.push(e);
            proof {
                lemma_pair_step(before, entries@, sk, uk, i as int, j as int, *old, *new);
            }
            j = j + 1;
        }
        more = i < shared.len() || j < keys.len();
    }
    proof {
        lemma_correlation_complete(entries@, *old, *new, shared@, ex, og@, ng@, keys@);
    }
    entries
}

/// `g` holds the groups of `files` outside the excluded paths: each key
/// with its members, and a key for every file outside them.
spec fn groups_of(files: Seq<FileResult>, ex: Seq<Seq<char>>, g: Seq<(String, Vec<usize>)>) -> bool {
    &&& forall|k: int|
        0 <= k < g.len() ==> (#[trigger] g[k]).1@ == members(files, ex.to_set(), g[k].0@, files.len() as int)
            && g[k].1@.len() > 0
    &&& forall|j: int|
        0 <= j < files.len() && !ex.contains((#[trigger] files[j]).path@) ==> exists|k: int|
            0 <= k < g.len() && (#[trigger] g[k]).0@ == group_key(files[j])
}

/// The keys of the shared files, as a set, are the shared paths.
proof fn lemma_excluded_paths(
    old: Report,
    new: Report,
    shared: Seq<(String, (usize, usize))>,
    excluded: Seq<String>,
)
    requires
        views(excluded) == entry_keys(shared),
        forall|k: int| 0 <= k < shared.len() ==> is_shared_path(old, new, (#[trigger] shared[k]).0@),
        forall|p: Seq<char>|
            is_shared_path(old, new, p) ==> exists|k: int| 0 <= k < shared.len() && (#[trigger] shared[k]).0@ == p,
    ensures
        views(excluded).to_set() == shared_set(old, new),
{
    let ss = shared_set(old, new);
    assert forall|p: Seq<char>| views(excluded).to_set().contains(p) <==> ss.contains(p) by {
        if views(excluded).contains(p) {
            let k = choose|k: int| 0 <= k < views(excluded).len() && views(excluded)[k] == p;
            assert(entry_keys(shared)[k] == shared[k].0@);
            assert(is_shared_path(old, new, shared[k].0@));
        }
        if ss.contains(p) {
            assert(is_shared_path(old, new, p));
            let k = choose|k: int| 0 <= k < shared.len() && (#[trigger] shared[k]).0@ == p;
            assert(entry_keys(shared)[k] == p);
            assert(views(excluded)[k] == p);
        }
    }
    assert(views(excluded).to_set() =~= ss);
}

/// Once the merge has taken every shared path and every group key, each
/// shared path and each group key has its entry.
proof fn lemma_correlation_complete(
    entries: Seq<Entry>,
    old: Report,
    new: Report,
    shared: Seq<(String, (usize, usize))>,
    ex: Seq<Seq<char>>,
    og: Seq<(String, Vec<usize>)>,
    ng: Seq<(String, Vec<usize>)>,
    keys: Seq<(String, (Option<usize>, Option<usize>))>,
)
    requires
        ex.to_set() == shared_set(old, new),
        forall|p: Seq<char>|
            is_shared_path(old, new, p) ==> exists|k: int| 0 <= k < shared.len() && (#[trigger] shared[k]).0@ == p,
        groups_of(old.files@, ex, og),
        groups_of(new.files@, ex, ng),
        forall|x: int| 0 <= x < og.len() ==> entry_keys(keys).contains((#[trigger] og[x]).0@),
        forall|y: int| 0 <= y < ng.len() ==> entry_keys(keys).contains((#[trigger] ng[y]).0@),
        entries_sound(entries, old, new),
        entries_ordered(entries),
        forall|k: int| 0 <= k < shared.len() ==> has_shared_entry(entries, #[trigger] entry_keys(shared)[k]),
        forall|k: int| 0 <= k < keys.len() ==> has_pair_entry(entries, #[trigger] entry_keys(keys)[k]),
    ensures
        correlation_of(entries, old, new),
{
    assert forall|p: Seq<char>| is_shared_path(old, new, p) implies exists|m: int|
        0 <= m < entries.len() && #[trigger] entries[m] is SharedContext && path_of(entries[m]) == p by {
        let k = choose|k: int| 0 <= k < shared.len() && (#[trigger] shared[k]).0@ == p;
        assert(entry_keys(shared)[k] == p);
        assert(has_shared_entry(entries, entry_keys(shared)[k]));
    }
    assert forall|p: Seq<char>|
        group_of(old, old, new, p).len() > 0 || group_of(new, old, new, p).len() > 0 implies exists|m: int|
            0 <= m < entries.len() && #[trigger] entries[m] is FilePair && path_of(entries[m]) == p by {
        if group_of(old, old, new, p).len() > 0 {
            lemma_group_present(old.files@, ex, og, p);
            let k = choose|k: int| 0 <= k < og.len() && (#[trigger] og[k]).0@ == p;
            assert(entry_keys(keys).contains(og[k].0@));
        } else {
            lemma_group_present(new.files@, ex, ng, p);
            let k = choose|k: int| 0 <= k < ng.len() && (#[trigger] ng[k]).0@ == p;
            assert(entry_keys(keys).contains(ng[k].0@));
        }
        let t = choose|t: int| 0 <= t < entry_keys(keys).len() && entry_keys(keys)[t] == p;
        assert(has_pair_entry(entries, entry_keys(keys)[t]));
    }
}

/// Pushing the shared-context entry of the next shared path keeps the
/// merge's invariant.
proof fn lemma_shared_step(
    before: Seq<Entry>,
    after: Seq<Entry>,
    sk: Seq<Seq<char>>,
    uk: Seq<Seq<char>>,
    i: int,
    j: int,
    old: Report,
    new: Report,
)
    requires
        keys_ascending(sk),
        keys_ascending(uk),
        0 <= i < sk.len(),
        0 <= j <= uk.len(),
        j < uk.len() ==> !text_lt(uk[j], sk[i]),
        after.len() == before.len() + 1,
        forall|m: int| 0 <= m < before.len() ==> after[m] == before[m],
        after.last() is SharedContext,
        path_of(after.last()) == sk[i],
        shared_entry_of(after.last(), old, new),
        entries_sound(before, old, new),
        entries_ordered(before),
        forall|m: int, k: int|
            0 <= m < before.len() && i <= k < sk.len() ==> text_lt(path_of(#[trigger] before[m]), #[trigger] sk[k]),
        forall|m: int, k: int|
            0 <= m < before.len() && j <= k < uk.len() ==> before_key(#[trigger] before[m], #[trigger] uk[k]),
        forall|k: int| 0 <= k < i ==> has_shared_entry(before, #[trigger] sk[k]),
        forall|k: int| 0 <= k < j ==> has_pair_entry(before, #[trigger] uk[k]),
    ensures
        entries_sound(after, old, new),
        entries_ordered(after),
        forall|m: int, k: int|
            0 <= m < after.len() && i + 1 <= k < sk.len() ==> text_lt(path_of(#[trigger] after[m]), #[trigger] sk[k]),
        forall|m: int, k: int|
            0 <= m < after.len() && j <= k < uk.len() ==> before_key(#[trigger] after[m], #[trigger] uk[k]),
        forall|k: int| 0 <= k < i + 1 ==> has_shared_entry(after, #[trigger] sk[k]),
        forall|k: int| 0 <= k < j ==> has_pair_entry(after, #[trigger] uk[k]),
{
    let n = before.len() as int;
    let p = sk[i];
    assert(after[n] == after.last());
    assert forall|m: int| 0 <= m < after.len() implies (#[trigger] after[m] is SharedContext ==> shared_entry_of(
        after[m],
        old,
        new,
    )) && (after[m] is FilePair ==> pair_entry_of(after[m], old, new)) by {
        if m < n {
            assert(after[m] == before[m]);
        }
    }
    assert forall|x: int, y: int| 0 <= x < y < after.len() implies text_lt(
        path_of(#[trigger] after[x]),
        path_of(#[trigger] after[y]),
    ) || (path_of(after[x]) == path_of(after[y]) && after[x] is SharedContext && after[y] is FilePair) by {
        assert(after[x] == before[x]);
        if y < n {
            assert(after[y] == before[y]);
        } else {
            assert(text_lt(path_of(before[x]), sk[i]));
        }
    }
    assert forall|m: int, k: int|
        0 <= m < after.len() && i + 1 <= k < sk.len() implies text_lt(path_of(#[trigger] after[m]), #[trigger] sk[k]) by {
        if m < n {
            assert(after[m] == before[m]);
        } else {
            assert(text_lt(sk[i], sk[k]));
        }
    }
    assert forall|m: int, k: int|
        0 <= m < after.len() && j <= k < uk.len() implies before_key(#[trigger] after[m], #[trigger] uk[k]) by {
        if m < n {
            assert(after[m] == before[m]);
        } else {
            lemma_text_order(p, uk[j], p);
            if k > j {
                assert(text_lt(uk[j], uk[k]));
                lemma_text_order(p, uk[j], uk[k]);
            }
        }
    }
    assert forall|k: int| 0 <= k < i + 1 implies has_shared_entry(after, #[trigger] sk[k]) by {
        if k < i {
            assert(has_shared_entry(before, sk[k]));
            let m = choose|m: int| 0 <= m < before.len() && #[trigger] before[m] is SharedContext && path_of(before[m]) == sk[k];
            assert(after[m] == before[m]);
        } else {
            assert(after[n] is SharedContext);
        }
    }
    assert forall|k: int| 0 <= k < j implies has_pair_entry(after, #[trigger] uk[k]) by {
        assert(has_pair_entry(before, uk[k]));
        let m = choose|m: int| 0 <= m < before.len() && #[trigger] before[m] is FilePair && path_of(before[m]) == uk[k];
        assert(after[m] == before[m]);
    }
}

/// Pushing the entry of the next group key keeps the merge's invariant.
proof fn lemma_pair_step(
    before: Seq<Entry>,
    after: Seq<Entry>,
    sk: Seq<Seq<char>>,
    uk: Seq<Seq<char>>,
    i: int,
    j: int,
    old: Report,
    new: Report,
)
    requires
        keys_ascending(sk),
        keys_ascending(uk),
        0 <= i <= sk.len(),
        0 <= j < uk.len(),
        i < sk.len() ==> text_lt(uk[j], sk[i]),
        after.len() == before.len() + 1,
        forall|m: int| 0 <= m < before.len() ==> after[m] == before[m],
        after.last() is FilePair,
        path_of(after.last()) == uk[j],
        pair_entry_of(after.last(), old, new),
        entries_sound(before, old, new),
        entries_ordered(before),
        forall|m: int, k: int|
            0 <= m < before.len() && i <= k < sk.len() ==> text_lt(path_of(#[trigger] before[m]), #[trigger] sk[k]),
        forall|m: int, k: int|
            0 <= m < before.len() && j <= k < uk.len() ==> before_key(#[trigger] before[m], #[trigger] uk[k]),
        forall|k: int| 0 <= k < i ==> has_shared_entry(before, #[trigger] sk[k]),
        forall|k: int| 0 <= k < j ==> has_pair_entry(before, #[trigger] uk[k]),
    ensures
        entries_sound(after, old, new),
        entries_ordered(after),
        forall|m: int, k: int|
            0 <= m < after.len() && i <= k < sk.len() ==> text_lt(path_of(#[trigger] after[m]), #[trigger] sk[k]),
        forall|m: int, k: int|
            0 <= m < after.len() && j + 1 <= k < uk.len() ==> before_key(#[trigger] after[m], #[trigger] uk[k]),
        forall|k: int| 0 <= k < i ==> has_shared_entry(after, #[trigger] sk[k]),
        forall|k: int| 0 <= k < j + 1 ==> has_pair_entry(after, #[trigger] uk[k]),
{
    let n = before.len() as int;
    let p = uk[j];
    assert(after[n] == after.last());
    assert forall|m: int| 0 <= m < after.len() implies (#[trigger] after[m] is SharedContext ==> shared_entry_of(
        after[m],
        old,
        new,
    )) && (after[m] is FilePair ==> pair_entry_of(after[m], old, new)) by {
        if m < n {
            assert(after[m] == before[m]);
        }
    }
    assert forall|x: int, y: int| 0 <= x < y < after.len() implies text_lt(
        path_of(#[trigger] after[x]),
        path_of(#[trigger] after[y]),
    ) || (path_of(after[x]) == path_of(after[y]) && after[x] is SharedContext && after[y] is FilePair) by {
        assert(after[x] == before[x]);
        if y < n {
            assert(after[y] == before[y]);
        } else {
            assert(before_key(before[x], uk[j]));
        }
    }
    assert forall|m: int, k: int|
        0 <= m < after.len() && i <= k < sk.len() implies text_lt(path_of(#[trigger] after[m]), #[trigger] sk[k]) by {
        if m < n {
            assert(after[m] == before[m]);
        } else {
            if k > i {
                assert(text_lt(sk[i], sk[k]));
                lemma_text_order(p, sk[i], sk[k]);
            }
        }
    }
    assert forall|m: int, k: int|
        0 <= m < after.len() && j + 1 <= k < uk.len() implies before_key(#[trigger] after[m], #[trigger] uk[k]) by {
        if m < n {
            assert(after[m] == before[m]);
            assert(before_key(before[m], uk[k]));
        } else {
            assert(text_lt(uk[j], uk[k]));
        }
    }
    assert forall|k: int| 0 <= k < i implies has_shared_entry(after, #[trigger] sk[k]) by {
        assert(has_shared_entry(before, sk[k]));
        let m = choose|m: int| 0 <= m < before.len() && #[trigger] before[m] is SharedContext && path_of(before[m]) == sk[k];
        assert(after[m] == before[m]);
    }
    assert forall|k: int| 0 <= k < j + 1 implies has_pair_entry(after, #[trigger] uk[k]) by {
        if k < j {
            assert(has_pair_entry(before, uk[k]));
            let m = choose|m: int| 0 <= m < before.len() && #[trigger] before[m] is FilePair && path_of(before[m]) == uk[k];
            assert(after[m] == before[m]);
        } else {
            assert(after[n] is FilePair);
        }
    }
}


/// The members that a located key picks out of the groups are the
/// members of that key.
proof fn lemma_located_members(
    files: Seq<FileResult>,
    ex: Seq<Seq<char>>,
    g: Seq<(String, Vec<usize>)>,
    key: Seq<char>,
    at: Option<usize>,
    chosen: Seq<usize>,
)
    requires
        forall|k: int|
            0 <= k < g.len() ==> (#[trigger] g[k]).1@ == members(files, ex.to_set(), g[k].0@, files.len() as int),
        forall|j: int|
            0 <= j < files.len() && !ex.contains((#[trigger] files[j]).path@) ==> exists|k: int|
                0 <= k < g.len() && (#[trigger] g[k]).0@ == group_key(files[j]),
        located(entry_keys(g), key, at),
        at matches Some(a) ==> chosen == g[a as int].1@,
        at is None ==> chosen.len() == 0,
    ensures
        chosen == members(files, ex.to_set(), key, files.len() as int),
{
    match at {
        Some(a) => {
            assert(entry_keys(g)[a as int] == g[a as int].0@);
        },
        None => {
            lemma_group_absent(files, ex, g, key);
        },
    }
}


/// A file outside the excluded paths is a member of its group.
proof fn lemma_member_of_group(files: Seq<FileResult>, ex: Set<Seq<char>>, j: int, n: int)
    requires
        0 <= j < n <= files.len(),
        !ex.contains(files[j].path@),
    ensures
        members(files, ex, group_key(files[j]), n).contains(j as usize),
    decreases n,
{
    let key = group_key(files[j]);
    if j < n - 1 {
        lemma_member_of_group(files, ex, j, n - 1);
        let p = members(files, ex, key, n - 1);
        let k = choose|k: int| 0 <= k < p.len() && p[k] == j as usize;
        assert(members(files, ex, key, n)[k] == j as usize);
    } else {
        let m = members(files, ex, key, n);
        assert(m[m.len() - 1] == j as usize);
    }
}

/// Each member of a group is a file outside the excluded paths with the
/// group's key.
proof fn lemma_members_sound(files: Seq<FileResult>, ex: Set<Seq<char>>, key: Seq<char>, n: int, i: int)
    requires
        0 <= n <= files.len(),
        files.len() <= usize::MAX,
        0 <= i < members(files, ex, key, n).len(),
    ensures
        ({
            let j = members(files, ex, key, n)[i] as int;
            0 <= j < n && !ex.contains(files[j].path@) && group_key(files[j]) == key
        }),
    decreases n,
{
    let p = members(files, ex, key, n - 1);
    if i < p.len() {
        lemma_members_sound(files, ex, key, n - 1, i);
        assert(members(files, ex, key, n)[i] == p[i]);
    } else {
        assert(!ex.contains(files[n - 1].path@) && group_key(files[n - 1]) == key);
        assert(members(files, ex, key, n)[i] == (n - 1) as usize);
    }
}

/// Every file of a report is in the correlation: at its own path when both
/// reports have a file there, and otherwise among the files of the entry of
/// its group key.
pub proof fn lemma_every_file_is_correlated(entries: Seq<Entry>, old: Report, new: Report, from_old: bool, j: int)
    requires
        correlation_of(entries, old, new),
        0 <= j < (if from_old {
            old.files@.len()
        } else {
            new.files@.len()
        }),
    ensures
        ({
            let r = if from_old {
                old
            } else {
                new
            };
            let f = r.files@[j];
            &&& is_shared_path(old, new, f.path@) ==> exists|m: int|
                0 <= m < entries.len() && #[trigger] entries[m] is SharedContext && path_of(entries[m]) == f.path@
            &&& !is_shared_path(old, new, f.path@) ==> exists|m: int|
                0 <= m < entries.len() && #[trigger] entries[m] is FilePair && path_of(entries[m]) == group_key(f)
                    && group_of(r, old, new, group_key(f)).contains(j as usize)
        }),
{
    let r = if from_old {
        old
    } else {
        new
    };
    let f = r.files@[j];
    if !is_shared_path(old, new, f.path@) {
        assert(!shared_set(old, new).contains(f.path@));
        lemma_member_of_group(r.files@, shared_set(old, new), j, r.files@.len() as int);
        let key = group_key(f);
        assert(group_of(r, old, new, key).len() > 0);
        if from_old {
            assert(group_of(old, old, new, key).len() > 0);
        } else {
            assert(group_of(new, old, new, key).len() > 0);
        }
    }
}

/// No file at a path that both reports have is grouped by its key: the
/// files of a file-pair entry all lie at paths that only one report has.
pub proof fn lemma_shared_paths_are_not_grouped(
    entries: Seq<Entry>,
    old: Report,
    new: Report,
    from_old: bool,
    m: int,
    i: int,
)
    requires
        correlation_of(entries, old, new),
        0 <= m < entries.len(),
        entries[m] is FilePair,
        0 <= i < group_of(
            if from_old {
                old
            } else {
                new
            },
            old,
            new,
            path_of(entries[m]),
        ).len(),
    ensures
        ({
            let r = if from_old {
                old
            } else {
                new
            };
            let j = group_of(r, old, new, path_of(entries[m]))[i] as int;
            &&& 0 <= j < r.files@.len()
            &&& !is_shared_path(old, new, r.files@[j].path@)
            &&& group_key(r.files@[j]) == path_of(entries[m])
        }),
{
    let r = if from_old {
        old
    } else {
        new
    };
    assert(r.files@.len() == r.files.len());
    lemma_members_sound(r.files@, shared_set(old, new), path_of(entries[m]), r.files@.len() as int, i);
}


/// `e` is the file-pair entry that pairs the old file `fo` with the new file
/// `fnew` under their group key.
pub open spec fn pairs_up(e: Entry, fo: FileResult, fnew: FileResult, old: Report, new: Report) -> bool {
    match e {
        Entry::FilePair { path, classification, old: os, new: ns, .. } => {
            &&& path@ == group_key(fo)
            &&& classification == Classification::Paired
            &&& os@.len() == 1
            &&& ns@.len() == 1
            &&& is_side_of(os@[0], fo, old.matches@)
            &&& is_side_of(ns@[0], fnew, new.matches@)
        },
        _ => false,
    }
}

/// A file renamed along with the pattern pairs up with its old self: when a
/// file of the old report and a file of the new one lie at paths that only
/// one report has, share their group key, and no other file of either report
/// has that key, the entry of the key pairs the two files.
pub proof fn lemma_renamed_file_pairs(entries: Seq<Entry>, old: Report, new: Report, jo: int, jn: int)
    requires
        correlation_of(entries, old, new),
        0 <= jo < old.files@.len(),
        0 <= jn < new.files@.len(),
        !is_shared_path(old, new, old.files@[jo].path@),
        !is_shared_path(old, new, new.files@[jn].path@),
        group_key(old.files@[jo]) == group_key(new.files@[jn]),
        group_of(old, old, new, group_key(old.files@[jo])).len() == 1,
        group_of(new, old, new, group_key(old.files@[jo])).len() == 1,
    ensures
        exists|m: int|
            0 <= m < entries.len() && pairs_up(#[trigger] entries[m], old.files@[jo], new.files@[jn], old, new),
{
    let key = group_key(old.files@[jo]);
    lemma_every_file_is_correlated(entries, old, new, true, jo);
    let m = choose|m: int|
        0 <= m < entries.len() && #[trigger] entries[m] is FilePair && path_of(entries[m]) == key && group_of(
            old,
            old,
            new,
            key,
        ).contains(jo as usize);
    assert(pair_entry_of(entries[m], old, new));
    let om = group_of(old, old, new, key);
    let nm = group_of(new, old, new, key);
    assert(om[0] == jo as usize);
    assert(!shared_set(old, new).contains(new.files@[jn].path@));
    lemma_member_of_group(new.files@, shared_set(old, new), jn, new.files@.len() as int);
    assert(nm.contains(jn as usize));
    assert(nm[0] == jn as usize);
    assert(old.files@.len() == old.files.len());
    assert(new.files@.len() == new.files.len());
    assert(om[0] as int == jo);
    assert(nm[0] as int == jn);
    match entries[m] {
        Entry::FilePair { path, classification, old: os, new: ns, smart_diff, warnings } => {
            assert(is_side_of(os@[0], old.files@[om[0] as int], old.matches@));
            assert(is_side_of(ns@[0], new.files@[nm[0] as int], new.matches@));
        },
        _ => {},
    }
    assert(pairs_up(entries[m], old.files@[jo], new.files@[jn], old, new));
}

} // verus!
