//! Which files a map holds: the files whose contents match, the files
//! whose names match, and what each mode keeps of them.
use vstd::prelude::*;

use crate::model::{FileResult, Graph, MapMode, Match, Node};
use crate::order::{
    entry_keys, keys_ascending, lemma_insert_ascending, lemma_text_order, located, search_key, search_str,
    text_lt, union_keys,
};
use crate::text::{append_str, copy_string, owned, views};

verus! {

/// The mode that a name on the command line stands for.
pub open spec fn mode_named(v: Seq<char>) -> Option<MapMode> {
    if v == "all"@ {
        Some(MapMode::All)
    } else if v == "filenames"@ {
        Some(MapMode::Filenames)
    } else if v == "contents"@ {
        Some(MapMode::Contents)
    } else if v == "sprinkles"@ {
        Some(MapMode::Sprinkles)
    } else {
        None
    }
}

impl MapMode {
    /// The mode named `value`, or an error naming the modes there are.
    pub fn parse(value: &str) -> (r: Result<MapMode, String>)
        ensures
            match r {
                Ok(m) => mode_named(value@) == Some(m),
                Err(e) => mode_named(value@) is None && e@ == "unknown mode `"@ + value@
                    + "`; expected all, filenames, contents, or sprinkles"@,
            },
    {
        if crate::text::same_text(value, "all") {
            Ok(MapMode::All)
        } else if crate::text::same_text(value, "filenames") {
            Ok(MapMode::Filenames)
        } else if crate::text::same_text(value, "contents") {
            Ok(MapMode::Contents)
        } else if crate::text::same_text(value, "sprinkles") {
            Ok(MapMode::Sprinkles)
        } else {
            let mut e = owned("unknown mode `");
            append_str(&mut e, value);
            append_str(&mut e, "`; expected all, filenames, contents, or sprinkles");
            Err(e)
        }
    }

    /// Every mode but `Filenames` searches file contents.
    pub fn searches_contents(self) -> (r: bool)
        ensures
            r == (self != MapMode::Filenames),
    {
        !matches!(self, MapMode::Filenames)
    }

    /// Every mode but `Contents` checks file names.
    pub fn checks_filenames(self) -> (r: bool)
        ensures
            r == (self != MapMode::Contents),
    {
        !matches!(self, MapMode::Contents)
    }
}

// ---------------------------------------------------------------------------
// Keyed lists as maps
// ---------------------------------------------------------------------------

/// The value of the last entry of `s` with key `p`.
pub open spec fn lookup<V>(s: Seq<(String, V)>, p: Seq<char>) -> Option<V>
    decreases s.len(),
{
    if s.len() == 0 {
        None
    } else if s.last().0@ == p {
        Some(s.last().1)
    } else {
        lookup(s.drop_last(), p)
    }
}

/// In a list with ascending keys, looking up the key of an entry gives
/// its value.
pub proof fn lemma_lookup<V>(s: Seq<(String, V)>, k: int)
    requires
        keys_ascending(entry_keys(s)),
        0 <= k < s.len(),
    ensures
        lookup(s, s[k].0@) == Some(s[k].1),
    decreases s.len(),
{
    if k < s.len() - 1 {
        let t = s.drop_last();
        assert(entry_keys(s)[k] == s[k].0@);
        assert(entry_keys(s)[s.len() - 1] == s.last().0@);
        lemma_text_order(s[k].0@, s.last().0@, s[k].0@);
        assert(entry_keys(t) =~= entry_keys(s).drop_last());
        assert(t[k] == s[k]);
        lemma_lookup(t, k);
    }
}

/// Looking up a key gives a value just when the list has the key.
pub proof fn lemma_lookup_has<V>(s: Seq<(String, V)>, p: Seq<char>)
    ensures
        lookup(s, p) is Some <==> entry_keys(s).contains(p),
    decreases s.len(),
{
    if s.len() > 0 {
        let t = s.drop_last();
        lemma_lookup_has(t, p);
        assert(entry_keys(t) =~= entry_keys(s).drop_last());
        assert(entry_keys(s)[s.len() - 1] == s.last().0@);
        if entry_keys(s).contains(p) && s.last().0@ != p {
            let k = choose|k: int| 0 <= k < entry_keys(s).len() && entry_keys(s)[k] == p;
            assert(entry_keys(t)[k] == p);
        }
        if entry_keys(t).contains(p) {
            let k = choose|k: int| 0 <= k < entry_keys(t).len() && entry_keys(t)[k] == p;
            assert(entry_keys(s)[k] == p);
        }
    }
}

// ---------------------------------------------------------------------------
// Content matches per file
// ---------------------------------------------------------------------------

/// How many of the matches are in the file at `p`.
pub open spec fn count_in(ms: Seq<Match>, p: Seq<char>) -> nat
    decreases ms.len(),
{
    if ms.len() == 0 {
        0
    } else {
        count_in(ms.drop_last(), p) + if ms.last().file@ == p {
            1nat
        } else {
            0nat
        }
    }
}

proof fn lemma_count_bound(ms: Seq<Match>, p: Seq<char>)
    ensures
        count_in(ms, p) <= ms.len(),
    decreases ms.len(),
{
    if ms.len() > 0 {
        lemma_count_bound(ms.drop_last(), p);
    }
}

/// The number of matches in each file that has any, by path.
pub fn content_match_counts(matches: &[Match]) -> (r: Vec<(String, usize)>)
    ensures
        keys_ascending(entry_keys(r@)),
        forall|k: int|
            0 <= k < r@.len() ==> (#[trigger] r@[k]).1 == count_in(matches@, r@[k].0@) && r@[k].1 > 0,
        forall|p: Seq<char>| #[trigger] count_in(matches@, p) > 0 ==> entry_keys(r@).contains(p),
{
    let mut r: Vec<(String, usize)> = Vec::new();
    let mut i: usize = 0;
    while i < matches.len()
        invariant
            0 <= i <= matches@.len(),
            keys_ascending(entry_keys(r@)),
            forall|k: int|
                0 <= k < r@.len() ==> (#[trigger] r@[k]).1 == count_in(matches@.take(i as int), r@[k].0@)
                    && r@[k].1 > 0,
            forall|p: Seq<char>| #[trigger] count_in(matches@.take(i as int), p) > 0 ==> entry_keys(r@).contains(p),
        decreases matches@.len() - i,
    {
        let ghost before = r@;
        let ghost pre = matches@.take(i as int);
        let ghost post = matches@.take(i + 1);
        let ghost f = matches@[i as int].file@;
        proof {
            assert(post.drop_last() == pre);
            assert(post.last() == matches@[i as int]);
            lemma_count_bound(pre, f);
        }
        match search_key(&r, matches[i].file.as_str()) {
            Ok(pos) => {
                let n = r[pos].1;
                let key = copy_string(&r[pos].0);
                r.set(pos, (key, n + 1));
                proof {
                    assert(entry_keys(r@) =~= entry_keys(before));
                    assert forall|k: int| 0 <= k < r@.len() implies (#[trigger] r@[k]).1 == count_in(
                        post,
                        r@[k].0@,
                    ) && r@[k].1 > 0 by {
                        if k != pos {
                            assert(r@[k] == before[k]);
                            assert(entry_keys(before)[k] == before[k].0@);
                            assert(entry_keys(before)[pos as int] == before[pos as int].0@);
                            if k < pos {
                                lemma_text_order(before[k].0@, before[pos as int].0@, before[k].0@);
                            } else {
                                lemma_text_order(before[pos as int].0@, before[k].0@, before[k].0@);
                            }
                        }
                    }
                    assert forall|p: Seq<char>| #[trigger] count_in(post, p) > 0 implies entry_keys(r@).contains(p) by {
                        if p != f {
                            assert(count_in(pre, p) > 0);
                        } else {
                            assert(entry_keys(r@)[pos as int] == p);
                        }
                    }
                }
            },
            Err(pos) => {
                r.insert(pos, (copy_string(&matches[i].file), 1));
                proof {
                    assert(entry_keys(r@) =~= entry_keys(before).insert(pos as int, f));
                    lemma_insert_ascending(entry_keys(before), pos as int, f);
                    assert(!entry_keys(before).contains(f)) by {
                        if entry_keys(before).contains(f) {
                            let k = choose|k: int| 0 <= k < entry_keys(before).len() && entry_keys(before)[k] == f;
                            assert(entry_keys(before)[k] == before[k].0@);
                            lemma_text_order(f, f, f);
                        }
                    }
                    assert(count_in(pre, f) == 0);
                    assert forall|k: int| 0 <= k < r@.len() implies (#[trigger] r@[k]).1 == count_in(
                        post,
                        r@[k].0@,
                    ) && r@[k].1 > 0 by {
                        if k < pos {
                            assert(r@[k] == before[k]);
                            assert(text_lt(before[k].0@, f));
                            lemma_text_order(before[k].0@, f, f);
                        } else if k > pos {
                            assert(r@[k] == before[k - 1]);
                            assert(text_lt(f, before[k - 1].0@));
                            lemma_text_order(f, before[k - 1].0@, f);
                        }
                    }
                    assert forall|p: Seq<char>| #[trigger] count_in(post, p) > 0 implies entry_keys(r@).contains(p) by {
                        if p != f {
                            assert(count_in(pre, p) > 0);
                            let k = choose|k: int| 0 <= k < entry_keys(before).len() && entry_keys(before)[k] == p;
                            if k < pos {
                                assert(entry_keys(r@)[k] == p);
                            } else {
                                assert(entry_keys(r@)[k + 1] == p);
                            }
                        } else {
                            assert(entry_keys(r@)[pos as int] == p);
                        }
                    }
                }
            },
        }
        i = i + 1;
    }
    assert(matches@.take(i as int) == matches@);
    r
}

// ---------------------------------------------------------------------------
// Selecting files
// ---------------------------------------------------------------------------

/// How one selected file counts in a map.
#[derive(Clone, Copy, Debug, PartialEq, Eq, Structural)]
pub struct FileSelection {
    pub match_count: usize,
    pub is_target: bool,
}

/// What `mode` makes of the file at `p`, given the files' match counts and
/// the files whose names match (the targets): all files with content
/// matches, marked as targets where their names match too, and the other
/// targets with no matches; only the targets; only the files with content
/// matches; or the files with content matches whose names do not match.
pub open spec fn selection(
    mode: MapMode,
    counts: Seq<(String, usize)>,
    targets: Seq<Seq<char>>,
    p: Seq<char>,
) -> Option<FileSelection> {
    let c = lookup(counts, p);
    let t = targets.contains(p);
    match mode {
        MapMode::All => match c {
            Some(n) => Some(FileSelection { match_count: n, is_target: t }),
            None => if t {
                Some(FileSelection { match_count: 0, is_target: true })
            } else {
                None
            },
        },
        MapMode::Filenames => if t {
            Some(FileSelection { match_count: 0, is_target: true })
        } else {
            None
        },
        MapMode::Contents => match c {
            Some(n) => Some(FileSelection { match_count: n, is_target: false }),
            None => None,
        },
        MapMode::Sprinkles => match c {
            Some(n) => if !t {
                Some(FileSelection { match_count: n, is_target: false })
            } else {
                None
            },
            None => None,
        },
    }
}

/// `r` is the selection of `mode`: by ascending path, each path that the
/// mode selects with what it makes of it.
pub open spec fn selected(
    r: Seq<(String, FileSelection)>,
    mode: MapMode,
    counts: Seq<(String, usize)>,
    targets: Seq<Seq<char>>,
) -> bool {
    &&& keys_ascending(entry_keys(r))
    &&& forall|k: int|
        0 <= k < r.len() ==> selection(mode, counts, targets, (#[trigger] r[k]).0@) == Some(r[k].1)
    &&& forall|p: Seq<char>| #[trigger] selection(mode, counts, targets, p) is Some ==> entry_keys(r).contains(p)
}

/// A sprinkles map holds what a contents map holds, but for the files
/// whose names match.
pub proof fn lemma_sprinkles_are_untargeted_contents(
    counts: Seq<(String, usize)>,
    targets: Seq<Seq<char>>,
    p: Seq<char>,
)
    ensures
        selection(MapMode::Sprinkles, counts, targets, p) == if targets.contains(p) {
            None
        } else {
            selection(MapMode::Contents, counts, targets, p)
        },
{
}

/// A full map holds just the files that a contents map or a file-names map
/// holds; a file counts its content matches (none for a target without
/// any) and is a target when its name matches.
pub proof fn lemma_all_joins_contents_and_filenames(
    counts: Seq<(String, usize)>,
    targets: Seq<Seq<char>>,
    p: Seq<char>,
)
    ensures
        selection(MapMode::All, counts, targets, p) is Some <==> (selection(
            MapMode::Contents,
            counts,
            targets,
            p,
        ) is Some || selection(MapMode::Filenames, counts, targets, p) is Some),
        selection(MapMode::All, counts, targets, p) matches Some(s) ==> s.is_target == targets.contains(p)
            && s.match_count == match lookup(counts, p) {
            Some(n) => n,
            None => 0,
        },
{
}

/// The targets as a keyed list, each marked as a target.
fn target_entries(targets: &Vec<String>) -> (r: Vec<(String, bool)>)
    ensures
        entry_keys(r@) == views(targets@),
{
    let mut r: Vec<(String, bool)> = Vec::new();
    let mut i: usize = 0;
    while i < targets.len()
        invariant
            0 <= i <= targets@.len(),
            r@.len() == i,
            entry_keys(r@) == views(targets@).take(i as int),
        decreases targets@.len() - i,
    {
        let ghost before = r@;
        r.push((copy_string(&targets[i]), true));
        i = i + 1;
        assert forall|k: int| 0 <= k < i implies #[trigger] entry_keys(r@)[k] == views(targets@).take(i as int)[k] by {
            if k < i - 1 {
                assert(entry_keys(before)[k] == views(targets@).take(i - 1)[k]);
                assert(r@[k] == before[k]);
            }
        }
        assert(entry_keys(r@) =~= views(targets@).take(i as int));
    }
    assert(views(targets@).take(i as int) == views(targets@));
    r
}

/// The files that `mode` selects, by ascending path, from the match counts
/// of the files with content matches and the files whose names match.
pub fn select_files(mode: MapMode, counts: &Vec<(String, usize)>, targets: &Vec<String>) -> (r: Vec<
    (String, FileSelection),
>)
    requires
        keys_ascending(entry_keys(counts@)),
        keys_ascending(views(targets@)),
    ensures
        selected(r@, mode, counts@, views(targets@)),
{
    match mode {
        MapMode::All => select_all(counts, targets),
        MapMode::Filenames => select_targets(counts, targets),
        MapMode::Contents => select_counted(mode, counts, targets),
        MapMode::Sprinkles => select_counted(mode, counts, targets),
    }
}

/// The selection of `All`: the union of the counted files and the targets.
fn select_all(counts: &Vec<(String, usize)>, targets: &Vec<String>) -> (r: Vec<(String, FileSelection)>)
    requires
        keys_ascending(entry_keys(counts@)),
        keys_ascending(views(targets@)),
    ensures
        selected(r@, MapMode::All, counts@, views(targets@)),
{
    let tp = target_entries(targets);
    let keys = union_keys(counts, &tp);
    let ghost tv = views(targets@);
    let mut r: Vec<(String, FileSelection)> = Vec::new();
    let mut k: usize = 0;
    while k < keys.len()
        invariant
            0 <= k <= keys@.len(),
            entry_keys(tp@) == tv,
            tv == views(targets@),
            keys_ascending(entry_keys(counts@)),
            keys_ascending(entry_keys(keys@)),
            forall|x: int|
                0 <= x < keys@.len() ==> located(entry_keys(counts@), (#[trigger] keys@[x]).0@, keys@[x].1.0)
                    && located(entry_keys(tp@), keys@[x].0@, keys@[x].1.1) && (keys@[x].1.0 is Some
                    || keys@[x].1.1 is Some),
            r@.len() == k,
            forall|x: int| 0 <= x < k ==> (#[trigger] r@[x]).0@ == keys@[x].0@,
            forall|x: int|
                0 <= x < k ==> selection(MapMode::All, counts@, tv, (#[trigger] r@[x]).0@) == Some(r@[x].1),
        decreases keys@.len() - k,
    {
        let ghost p = keys@[k as int].0@;
        let sel = match keys[k].1.0 {
            Some(a) => FileSelection { match_count: counts[a].1, is_target: keys[k].1.1.is_some() },
            None => FileSelection { match_count: 0, is_target: true },
        };
        proof {
            match keys@[k as int].1.0 {
                Some(a) => {
                    assert(entry_keys(counts@)[a as int] == counts@[a as int].0@);
                    lemma_lookup(counts@, a as int);
                },
                None => {
                    lemma_lookup_has(counts@, p);
                },
            }
            match keys@[k as int].1.1 {
                Some(b) => {
                    assert(tv[b as int] == p);
                },
                None => {},
            }
        }
        r.push((copy_string(&keys[k].0), sel));
        k = k + 1;
    }
    proof {
        assert(entry_keys(r@) =~= entry_keys(keys@));
        assert forall|p: Seq<char>| #[trigger] selection(MapMode::All, counts@, tv, p) is Some implies entry_keys(
            r@,
        ).contains(p) by {
            if lookup(counts@, p) is Some {
                lemma_lookup_has(counts@, p);
                let a = choose|a: int| 0 <= a < entry_keys(counts@).len() && entry_keys(counts@)[a] == p;
                assert(entry_keys(counts@)[a] == counts@[a].0@);
                assert(entry_keys(keys@).contains(counts@[a].0@));
            } else {
                let b = choose|b: int| 0 <= b < tv.len() && tv[b] == p;
                assert(entry_keys(tp@)[b] == tp@[b].0@);
                assert(entry_keys(keys@).contains(tp@[b].0@));
            }
        }
    }
    r
}

/// The selection of `Filenames`: the targets.
fn select_targets(counts: &Vec<(String, usize)>, targets: &Vec<String>) -> (r: Vec<(String, FileSelection)>)
    requires
        keys_ascending(views(targets@)),
    ensures
        selected(r@, MapMode::Filenames, counts@, views(targets@)),
{
    let ghost tv = views(targets@);
    let mut r: Vec<(String, FileSelection)> = Vec::new();
    let mut k: usize = 0;
    while k < targets.len()
        invariant
            0 <= k <= targets@.len(),
            tv == views(targets@),
            r@.len() == k,
            forall|x: int| 0 <= x < k ==> (#[trigger] r@[x]).0@ == tv[x],
            forall|x: int|
                0 <= x < k ==> selection(MapMode::Filenames, counts@, tv, (#[trigger] r@[x]).0@) == Some(r@[x].1),
        decreases targets@.len() - k,
    {
        proof {
            assert(tv[k as int] == targets@[k as int]@);
            assert(tv.contains(tv[k as int]));
        }
        r.push((copy_string(&targets[k]), FileSelection { match_count: 0, is_target: true }));
        k = k + 1;
    }
    proof {
        assert(entry_keys(r@) =~= tv);
    }
    r
}

/// The selection of `Contents` or `Sprinkles`: the counted files, leaving
/// out the targets for `Sprinkles`.
fn select_counted(mode: MapMode, counts: &Vec<(String, usize)>, targets: &Vec<String>) -> (r: Vec<
    (String, FileSelection),
>)
    requires
        mode == MapMode::Contents || mode == MapMode::Sprinkles,
        keys_ascending(entry_keys(counts@)),
        keys_ascending(views(targets@)),
    ensures
        selected(r@, mode, counts@, views(targets@)),
{
    let ghost tv = views(targets@);
    let ghost ck = entry_keys(counts@);
    let mut r: Vec<(String, FileSelection)> = Vec::new();
    let mut k: usize = 0;
    while k < counts.len()
        invariant
            mode == MapMode::Contents || mode == MapMode::Sprinkles,
            0 <= k <= counts@.len(),
            tv == views(targets@),
            ck == entry_keys(counts@),
            keys_ascending(ck),
            keys_ascending(tv),
            keys_ascending(entry_keys(r@)),
            r@.len() > 0 ==> exists|x: int| 0 <= x < k && r@.last().0@ == ck[x],
            forall|x: int|
                0 <= x < r@.len() ==> selection(mode, counts@, tv, (#[trigger] r@[x]).0@) == Some(r@[x].1),
            forall|x: int|
                0 <= x < k && selection(mode, counts@, tv, #[trigger] ck[x]) is Some ==> entry_keys(r@).contains(ck[x]),
        decreases counts@.len() - k,
    {
        let ghost before = r@;
        let ghost p = ck[k as int];
        proof {
            assert(p == counts@[k as int].0@);
            lemma_lookup(counts@, k as int);
        }
        let keep = match mode {
            MapMode::Sprinkles => match search_str(targets, counts[k].0.as_str()) {
                Ok(_) => false,
                Err(_) => true,
            },
            _ => true,
        };
        proof {
            if mode == MapMode::Sprinkles {
                if keep {
                    assert(!tv.contains(p)) by {
                        if tv.contains(p) {
                            let x = choose|x: int| 0 <= x < tv.len() && tv[x] == p;
                            assert(tv[x] == targets@[x]@);
                            lemma_text_order(p, p, p);
                        }
                    }
                } else {
                    let x = choose|x: int| 0 <= x < targets@.len() && targets@[x]@ == p;
                    assert(tv[x] == p);
                }
            }
        }
        if keep {
            let sel = FileSelection { match_count: counts[k].1, is_target: false };
            r.push((copy_string(&counts[k].0), sel));
            proof {
                assert(entry_keys(r@) =~= entry_keys(before).push(p));
                if before.len() > 0 {
                    let x = choose|x: int| 0 <= x < k && before.last().0@ == ck[x];
                    assert(text_lt(ck[x], p));
                    assert forall|a: int, b: int| 0 <= a < b < entry_keys(r@).len() implies text_lt(
                        entry_keys(r@)[a],
                        entry_keys(r@)[b],
                    ) by {
                        if b == before.len() && a < b - 1 {
                            assert(entry_keys(before)[a] == entry_keys(r@)[a]);
                            assert(entry_keys(before)[before.len() - 1] == before.last().0@);
                            lemma_text_order(entry_keys(r@)[a], before.last().0@, p);
                        }
                    }
                }
                assert forall|x: int|
                    0 <= x < r@.len() implies selection(mode, counts@, tv, (#[trigger] r@[x]).0@) == Some(r@[x].1) by {
                    if x < before.len() {
                        assert(r@[x] == before[x]);
                    }
                }
                assert forall|x: int|
                    0 <= x < k + 1 && selection(mode, counts@, tv, #[trigger] ck[x]) is Some implies entry_keys(
                        r@,
                    ).contains(ck[x]) by {
                    if x < k {
                        let y = choose|y: int| 0 <= y < entry_keys(before).len() && entry_keys(before)[y] == ck[x];
                        assert(entry_keys(r@)[y] == ck[x]);
                    } else {
                        assert(entry_keys(r@)[before.len() as int] == ck[x]);
                    }
                }
            }
        }
        k = k + 1;
    }
    proof {
        assert forall|p: Seq<char>| #[trigger] selection(mode, counts@, tv, p) is Some implies entry_keys(r@).contains(
            p,
        ) by {
            lemma_lookup_has(counts@, p);
            let x = choose|x: int| 0 <= x < ck.len() && ck[x] == p;
            assert(selection(mode, counts@, tv, ck[x]) is Some);
        }
    }
    r
}

// ---------------------------------------------------------------------------
// Files that are there
// ---------------------------------------------------------------------------

/// The items whose flags hold, in order.
pub open spec fn kept(items: Seq<Seq<char>>, flags: Seq<bool>) -> Seq<Seq<char>>
    decreases items.len(),
{
    if items.len() == 0 || flags.len() == 0 {
        Seq::empty()
    } else if flags.last() {
        kept(items.drop_last(), flags.drop_last()).push(items.last())
    } else {
        kept(items.drop_last(), flags.drop_last())
    }
}

/// The files that are there, in order: the `i`-th file stays when
/// `available[i]` says that the working tree has it as a file.
pub fn filter_available_files(files: Vec<String>, available: &[bool]) -> (r: Vec<String>)
    requires
        files@.len() == available@.len(),
    ensures
        views(r@) == kept(views(files@), available@),
{
    let mut r: Vec<String> = Vec::new();
    let mut i: usize = 0;
    while i < files.len()
        invariant
            files@.len() == available@.len(),
            0 <= i <= files@.len(),
            views(r@) == kept(views(files@).take(i as int), available@.take(i as int)),
        decreases files@.len() - i,
    {
        let ghost before = r@;
        proof {
            assert(views(files@).take(i + 1).drop_last() =~= views(files@).take(i as int));
            assert(available@.take(i + 1).drop_last() =~= available@.take(i as int));
            assert(views(files@).take(i + 1).last() == files@[i as int]@);
        }
        if available[i] {
            r.push(copy_string(&files[i]));
            assert(views(r@) =~= views(before).push(files@[i as int]@));
        }
        i = i + 1;
    }
    assert(views(files@).take(i as int) =~= views(files@));
    assert(available@.take(i as int) =~= available@);
    r
}

/// The files that no workspace exclusion rule matches, in order: the
/// `i`-th file stays unless `ignored[i]` says that a `.topoignore` rule
/// matches it.
pub fn filter_topoignored_files(files: Vec<String>, ignored: &[bool]) -> (r: Vec<String>)
    requires
        files@.len() == ignored@.len(),
    ensures
        views(r@) == kept(views(files@), ignored@.map_values(|b: bool| !b)),
{
    let mut keep: Vec<bool> = Vec::new();
    let mut i: usize = 0;
    while i < ignored.len()
        invariant
            0 <= i <= ignored@.len(),
            keep@ == ignored@.take(i as int).map_values(|b: bool| !b),
        decreases ignored@.len() - i,
    {
        keep.push(!ignored[i]);
        i = i + 1;
        assert(keep@ =~= ignored@.take(i as int).map_values(|b: bool| !b));
    }
    assert(ignored@.take(i as int) =~= ignored@);
    filter_available_files(files, keep.as_slice())
}

/// `path` is one of the nonempty lines of one of the outputs (what
/// `git check-ignore` prints: the paths that its ignore rules match).
pub open spec fn listed(outputs: Seq<Seq<char>>, path: Seq<char>) -> bool {
    path.len() > 0 && exists|k: int| 0 <= k < outputs.len() && crate::text::lines_spec(#[trigger] outputs[k]).contains(path)
}

/// The files that `git check-ignore` did not list, in order, from the
/// text of what it printed for each batch of paths.
pub fn filter_git_ignored(files: Vec<String>, outputs: &Vec<String>) -> (r: Vec<String>)
    ensures
        views(r@) == kept(views(files@), views(files@).map_values(|f: Seq<char>| !listed(views(outputs@), f))),
{
    let mut listed_paths: Vec<String> = Vec::new();
    let mut i: usize = 0;
    while i < outputs.len()
        invariant
            0 <= i <= outputs@.len(),
            forall|p: Seq<char>|
                #![trigger views(listed_paths@).contains(p)]
                views(listed_paths@).contains(p) <==> (p.len() > 0 && exists|k: int|
                    0 <= k < i && crate::text::lines_spec(#[trigger] views(outputs@)[k]).contains(p)),
        decreases outputs@.len() - i,
    {
        let ls = crate::text::lines(outputs[i].as_str());
        let mut j: usize = 0;
        let ghost before = views(listed_paths@);
        proof {
            assert(views(outputs@)[i as int] == outputs@[i as int]@);
        }
        while j < ls.len()
            invariant
                0 <= j <= ls@.len(),
                i < outputs@.len(),
                views(ls@) == crate::text::lines_spec(views(outputs@)[i as int]),
                forall|p: Seq<char>|
                    #![trigger views(listed_paths@).contains(p)]
                    views(listed_paths@).contains(p) <==> (before.contains(p) || (p.len() > 0 && exists|t: int|
                        0 <= t < j && (#[trigger] views(ls@)[t]) == p)),
            decreases ls@.len() - j,
        {
            if ls[j].unicode_len() > 0 {
                let ghost prev = views(listed_paths@);
                listed_paths.push(copy_string(&ls[j]));
                proof {
                    assert(views(listed_paths@) =~= prev.push(ls@[j as int]@));
                    assert forall|p: Seq<char>|
                        #![trigger views(listed_paths@).contains(p)]
                        views(listed_paths@).contains(p) <==> (before.contains(p) || (p.len() > 0 && exists|t: int|
                            0 <= t < j + 1 && (#[trigger] views(ls@)[t]) == p)) by {
                        if views(listed_paths@).contains(p) && !prev.contains(p) {
                            let q = choose|q: int| 0 <= q < views(listed_paths@).len() && views(listed_paths@)[q] == p;
                            if q < prev.len() {
                                assert(prev[q] == p);
                            } else {
                                assert(views(ls@)[j as int] == p);
                            }
                        }
                        if prev.contains(p) {
                            let q = choose|q: int| 0 <= q < prev.len() && prev[q] == p;
                            assert(views(listed_paths@)[q] == p);
                        }
                        if p.len() > 0 && exists|t: int| 0 <= t < j + 1 && (#[trigger] views(ls@)[t]) == p {
                            let t = choose|t: int| 0 <= t < j + 1 && (#[trigger] views(ls@)[t]) == p;
                            if t == j {
                                assert(views(listed_paths@)[prev.len() as int] == p);
                            }
                        }
                    }
                }
            } else {
                proof {
                    assert forall|p: Seq<char>|
                        #![trigger views(listed_paths@).contains(p)]
                        views(listed_paths@).contains(p) <==> (before.contains(p) || (p.len() > 0 && exists|t: int|
                            0 <= t < j + 1 && (#[trigger] views(ls@)[t]) == p)) by {
                        if p.len() > 0 && exists|t: int| 0 <= t < j + 1 && (#[trigger] views(ls@)[t]) == p {
                            let t = choose|t: int| 0 <= t < j + 1 && (#[trigger] views(ls@)[t]) == p;
                            assert(views(ls@)[j as int].len() == 0);
                        }
                    }
                }
            }
            j = j + 1;
        }
        proof {
            assert forall|p: Seq<char>|
                #![trigger views(listed_paths@).contains(p)]
                views(listed_paths@).contains(p) <==> (p.len() > 0 && exists|k: int|
                    0 <= k < i + 1 && crate::text::lines_spec(#[trigger] views(outputs@)[k]).contains(p)) by {
                if p.len() > 0 && exists|k: int| 0 <= k < i + 1 && crate::text::lines_spec(#[trigger] views(outputs@)[k]).contains(p) {
                    let k = choose|k: int| 0 <= k < i + 1 && crate::text::lines_spec(#[trigger] views(outputs@)[k]).contains(p);
                    if k == i {
                        let t = choose|t: int| 0 <= t < views(ls@).len() && views(ls@)[t] == p;
                        assert(views(ls@)[t] == p);
                    } else {
                        assert(before.contains(p));
                    }
                }
                if views(listed_paths@).contains(p) && !before.contains(p) {
                    let t = choose|t: int| 0 <= t < j && (#[trigger] views(ls@)[t]) == p;
                    assert(crate::text::lines_spec(views(outputs@)[i as int]).contains(p));
                }
            }
        }
        i = i + 1;
    }
    let ghost ov = views(outputs@);
    let mut keep: Vec<bool> = Vec::new();
    let mut f: usize = 0;
    while f < files.len()
        invariant
            0 <= f <= files@.len(),
            ov == views(outputs@),
            i == outputs@.len(),
            forall|p: Seq<char>|
                #![trigger views(listed_paths@).contains(p)]
                views(listed_paths@).contains(p) <==> (p.len() > 0 && exists|k: int|
                    0 <= k < i && crate::text::lines_spec(#[trigger] views(outputs@)[k]).contains(p)),
            keep@ == views(files@).take(f as int).map_values(|x: Seq<char>| !listed(ov, x)),
        decreases files@.len() - f,
    {
        let mut found = false;
        let mut q: usize = 0;
        while q < listed_paths.len()
            invariant
                0 <= q <= listed_paths@.len(),
                f < files@.len(),
                found <==> exists|t: int| 0 <= t < q && views(listed_paths@)[t] == files@[f as int]@,
            decreases listed_paths@.len() - q,
        {
            if crate::text::same_text(listed_paths[q].as_str(), files[f].as_str()) {
                found = true;
            }
            proof {
                assert(views(listed_paths@)[q as int] == listed_paths@[q as int]@);
            }
            q = q + 1;
        }
        proof {
            let x = files@[f as int]@;
            assert(views(files@)[f as int] == x);
            if found {
                let t = choose|t: int| 0 <= t < q && views(listed_paths@)[t] == x;
                assert(views(listed_paths@).contains(x));
            } else {
                if views(listed_paths@).contains(x) {
                    let t = choose|t: int| 0 <= t < views(listed_paths@).len() && views(listed_paths@)[t] == x;
                }
            }
            assert(views(listed_paths@).contains(x) == listed(ov, x));
        }
        keep.push(!found);
        f = f + 1;
        assert(keep@ =~= views(files@).take(f as int).map_values(|x: Seq<char>| !listed(ov, x)));
    }
    assert(views(files@).take(f as int) =~= views(files@));
    filter_available_files(files, keep.as_slice())
}

// ---------------------------------------------------------------------------
// The report's files and graph
// ---------------------------------------------------------------------------

/// The file results of the selected files, in the same order.
pub fn collect_file_results(selected_files: &Vec<(String, FileSelection)>) -> (r: Vec<FileResult>)
    ensures
        r@.len() == selected_files@.len(),
        forall|k: int|
            0 <= k < r@.len() ==> {
                &&& (#[trigger] r@[k]).path@ == selected_files@[k].0@
                &&& r@[k].match_count == selected_files@[k].1.match_count
                &&& r@[k].is_target == selected_files@[k].1.is_target
                &&& r@[k].path_match_ranges@.len() == 0
                &&& r@[k].content is None
            },
{
    let mut r: Vec<FileResult> = Vec::new();
    let mut k: usize = 0;
    while k < selected_files.len()
        invariant
            0 <= k <= selected_files@.len(),
            r@.len() == k,
            forall|x: int|
                0 <= x < k ==> {
                    &&& (#[trigger] r@[x]).path@ == selected_files@[x].0@
                    &&& r@[x].match_count == selected_files@[x].1.match_count
                    &&& r@[x].is_target == selected_files@[x].1.is_target
                    &&& r@[x].path_match_ranges@.len() == 0
                    &&& r@[x].content is None
                },
        decreases selected_files@.len() - k,
    {
        r.push(
            FileResult {
                path: copy_string(&selected_files[k].0),
                match_count: selected_files[k].1.match_count,
                is_target: selected_files[k].1.is_target,
                path_match_ranges: Vec::new(),
                content: None,
            },
        );
        k = k + 1;
    }
    r
}

/// The id of the graph node of the file at `path`.
pub open spec fn file_node_id_spec(path: Seq<char>) -> Seq<char> {
    "file:"@ + path
}

/// The id of the graph node of the file at `path`.
pub fn file_node_id(path: &str) -> (r: String)
    ensures
        r@ == file_node_id_spec(path@),
{
    let mut r = owned("file:");
    append_str(&mut r, path);
    r
}

/// The graph of a map: one file node per file, in the same order.
pub fn build_graph(files: &[FileResult]) -> (g: Graph)
    ensures
        g.nodes@.len() == files@.len(),
        forall|k: int|
            0 <= k < files@.len() ==> {
                &&& (#[trigger] g.nodes@[k]).id@ == file_node_id_spec(files@[k].path@)
                &&& g.nodes@[k].kind@ == "file"@
                &&& g.nodes@[k].label@ == files@[k].path@
                &&& g.nodes@[k].match_count == Some(files@[k].match_count)
                &&& g.nodes@[k].is_target == files@[k].is_target
            },
{
    let mut nodes: Vec<Node> = Vec::new();
    let mut k: usize = 0;
    while k < files.len()
        invariant
            0 <= k <= files@.len(),
            nodes@.len() == k,
            forall|x: int|
                0 <= x < k ==> {
                    &&& (#[trigger] nodes@[x]).id@ == file_node_id_spec(files@[x].path@)
                    &&& nodes@[x].kind@ == "file"@
                    &&& nodes@[x].label@ == files@[x].path@
                    &&& nodes@[x].match_count == Some(files@[x].match_count)
                    &&& nodes@[x].is_target == files@[x].is_target
                },
        decreases files@.len() - k,
    {
        nodes.push(
            Node {
                id: file_node_id(files[k].path.as_str()),
                kind: owned("file"),
                label: copy_string(&files[k].path),
                match_count: Some(files[k].match_count),
                is_target: files[k].is_target,
            },
        );
        k = k + 1;
    }
    Graph { nodes }
}

} // verus!
