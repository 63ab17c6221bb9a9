use vstd::prelude::*;
use vstd::utf8::encode_utf8;

verus! {

/// Byte-wise lexicographic order (a proper prefix comes first).
pub open spec fn bytes_lt(a: Seq<u8>, b: Seq<u8>) -> bool
    decreases a.len(),
{
    if a.len() == 0 {
        b.len() > 0
    } else if b.len() == 0 {
        false
    } else if a[0] != b[0] {
        a[0] < b[0]
    } else {
        bytes_lt(a.drop_first(), b.drop_first())
    }
}

/// The order of strings: by the bytes of their UTF-8 encoding (the order of
/// `str` and `String`).
pub open spec fn text_lt(a: Seq<char>, b: Seq<char>) -> bool {
    bytes_lt(encode_utf8(a), encode_utf8(b))
}


pub proof fn lemma_bytes_lt_irreflexive(a: Seq<u8>)
    ensures
        !bytes_lt(a, a),
    decreases a.len(),
{
    if a.len() > 0 {
        lemma_bytes_lt_irreflexive(a.drop_first());
    }
}

pub proof fn lemma_bytes_lt_transitive(a: Seq<u8>, b: Seq<u8>, c: Seq<u8>)
    requires
        bytes_lt(a, b),
        bytes_lt(b, c),
    ensures
        bytes_lt(a, c),
    decreases a.len(),
{
    if a.len() > 0 && b.len() > 0 && c.len() > 0 && a[0] == b[0] && b[0] == c[0] {
        lemma_bytes_lt_transitive(a.drop_first(), b.drop_first(), c.drop_first());
    }
}

pub proof fn lemma_bytes_lt_total(a: Seq<u8>, b: Seq<u8>)
    ensures
        a == b || bytes_lt(a, b) || bytes_lt(b, a),
    decreases a.len(),
{
    if a.len() > 0 && b.len() > 0 && a[0] == b[0] {
        lemma_bytes_lt_total(a.drop_first(), b.drop_first());
        if a.drop_first() == b.drop_first() {
            assert(a =~= seq![a[0]] + a.drop_first());
            assert(b =~= seq![b[0]] + b.drop_first());
        }
    } else if a.len() == 0 && b.len() == 0 {
        assert(a =~= b);
    }
}

pub proof fn lemma_bytes_lt_asymmetric(a: Seq<u8>, b: Seq<u8>)
    requires
        bytes_lt(a, b),
    ensures
        !bytes_lt(b, a),
{
    if bytes_lt(b, a) {
        lemma_bytes_lt_transitive(a, b, a);
        lemma_bytes_lt_irreflexive(a);
    }
}

/// The order of strings is a strict total order.
pub proof fn lemma_text_order(a: Seq<char>, b: Seq<char>, c: Seq<char>)
    ensures
        !text_lt(a, a),
        text_lt(a, b) ==> !text_lt(b, a),
        text_lt(a, b) && text_lt(b, c) ==> text_lt(a, c),
        a == b || text_lt(a, b) || text_lt(b, a),
{
    broadcast use vstd::utf8::encode_utf8_decode_utf8;

    lemma_bytes_lt_irreflexive(encode_utf8(a));
    if text_lt(a, b) {
        lemma_bytes_lt_asymmetric(encode_utf8(a), encode_utf8(b));
        if text_lt(b, c) {
            lemma_bytes_lt_transitive(encode_utf8(a), encode_utf8(b), encode_utf8(c));
        }
    }
    lemma_bytes_lt_total(encode_utf8(a), encode_utf8(b));
    if encode_utf8(a) == encode_utf8(b) {
        assert(vstd::utf8::decode_utf8(encode_utf8(a)) == a);
    }
}

/// The outcome of comparing two strings.
#[derive(Clone, Copy, Debug, PartialEq, Eq, Structural)]
pub enum Cmp {
    Less,
    Equal,
    Greater,
}

/// Compares two strings by the bytes of their UTF-8 encoding.
pub fn compare_text(a: &str, b: &str) -> (r: Cmp)
    ensures
        r == Cmp::Less <==> text_lt(a@, b@),
        r == Cmp::Equal <==> a@ == b@,
        r == Cmp::Greater <==> text_lt(b@, a@),
{
    let x = a.as_bytes();
    let y = b.as_bytes();
    let ghost ex = encode_utf8(a@);
    let ghost ey = encode_utf8(b@);
    proof {
        lemma_text_order(a@, b@, b@);
        lemma_text_order(b@, a@, a@);
    }
    let mut k: usize = 0;
    assert(ex.skip(0) == ex);
    assert(ey.skip(0) == ey);
    while k < x.len() && k < y.len()
        invariant
            x@ == ex,
            y@ == ey,
            ex == encode_utf8(a@),
            ey == encode_utf8(b@),
            !text_lt(a@, a@),
            text_lt(a@, b@) ==> !text_lt(b@, a@),
            text_lt(b@, a@) ==> !text_lt(a@, b@),
            0 <= k <= x@.len(),
            k <= y@.len(),
            bytes_lt(ex, ey) == bytes_lt(ex.skip(k as int), ey.skip(k as int)),
            bytes_lt(ey, ex) == bytes_lt(ey.skip(k as int), ex.skip(k as int)),
            ex.take(k as int) == ey.take(k as int),
        decreases x@.len() - k,
    {
        assert(ex.skip(k as int)[0] == x@[k as int]);
        assert(ey.skip(k as int)[0] == y@[k as int]);
        if x[k] < y[k] {
            assert(bytes_lt(ex.skip(k as int), ey.skip(k as int)));
            return Cmp::Less;
        }
        if x[k] > y[k] {
            assert(bytes_lt(ey.skip(k as int), ex.skip(k as int)));
            return Cmp::Greater;
        }
        assert(ex.skip(k as int).drop_first() == ex.skip(k + 1));
        assert(ey.skip(k as int).drop_first() == ey.skip(k + 1));
        assert(ex.take(k + 1) == ex.take(k as int).push(ex[k as int]));
        assert(ey.take(k + 1) == ey.take(k as int).push(ey[k as int]));
        k = k + 1;
    }
    if x.len() == y.len() {
        assert(ex == ex.take(k as int));
        assert(ey == ey.take(k as int));
        Cmp::Equal
    } else if k == x.len() {
        assert(ex == ex.take(k as int));
        assert(ex != ey);
        Cmp::Less
    } else {
        assert(ey == ey.take(k as int));
        assert(ex != ey);
        Cmp::Greater
    }
}

/// Whether `a` sorts strictly before `b`.
pub fn less_text(a: &str, b: &str) -> (r: bool)
    ensures
        r == text_lt(a@, b@),
{
    match compare_text(a, b) {
        Cmp::Less => true,
        _ => false,
    }
}

/// Keys in strictly ascending order.
pub open spec fn keys_ascending(keys: Seq<Seq<char>>) -> bool {
    forall|i: int, j: int| 0 <= i < j < keys.len() ==> text_lt(keys[i], keys[j])
}

/// The keys of a sequence of keyed entries.
pub open spec fn entry_keys<V>(entries: Seq<(String, V)>) -> Seq<Seq<char>> {
    entries.map_values(|e: (String, V)| e.0@)
}

/// Finds `key` among entries sorted by key: `Ok` with its index, or `Err`
/// with the index where it would go.
pub fn search_key<V>(entries: &Vec<(String, V)>, key: &str) -> (r: Result<usize, usize>)
    requires
        keys_ascending(entry_keys(entries@)),
    ensures
        r matches Ok(i) ==> i < entries@.len() && entries@[i as int].0@ == key@,
        r matches Err(i) ==> i <= entries@.len() && (forall|k: int|
            0 <= k < i ==> text_lt(#[trigger] entries@[k].0@, key@)) && (forall|k: int|
            i <= k < entries@.len() ==> text_lt(key@, #[trigger] entries@[k].0@)),
{
    let ghost keys = entry_keys(entries@);
    let mut lo: usize = 0;
    let mut hi: usize = entries.len();
    while lo < hi
        invariant
            keys == entry_keys(entries@),
            keys_ascending(keys),
            0 <= lo <= hi <= entries@.len(),
            forall|k: int| 0 <= k < lo ==> text_lt(#[trigger] entries@[k].0@, key@),
            forall|k: int| hi <= k < entries@.len() ==> text_lt(key@, #[trigger] entries@[k].0@),
        decreases hi - lo,
    {
        let mid = lo + (hi - lo) / 2;
        match compare_text(entries[mid].0.as_str(), key) {
            Cmp::Equal => {
                return Ok(mid);
            },
            Cmp::Less => {
                proof {
                    assert forall|k: int| 0 <= k < mid + 1 implies text_lt(
                        #[trigger] entries@[k].0@,
                        key@,
                    ) by {
                        if k < mid {
                            assert(keys[k] == entries@[k].0@);
                            assert(keys[mid as int] == entries@[mid as int].0@);
                            lemma_text_order(entries@[k].0@, entries@[mid as int].0@, key@);
                        }
                    }
                }
                lo = mid + 1;
            },
            Cmp::Greater => {
                proof {
                    assert forall|k: int| mid <= k < entries@.len() implies text_lt(
                        key@,
                        #[trigger] entries@[k].0@,
                    ) by {
                        if k > mid {
                            assert(keys[k] == entries@[k].0@);
                            assert(keys[mid as int] == entries@[mid as int].0@);
                            lemma_text_order(key@, entries@[mid as int].0@, entries@[k].0@);
                        }
                    }
                }
                hi = mid;
            },
        }
    }
    Err(lo)
}


/// Finds `key` among strings sorted ascending: `Ok` with its index, or `Err`
/// with the index where it would go.
pub fn search_str(keys: &Vec<String>, key: &str) -> (r: Result<usize, usize>)
    requires
        keys_ascending(crate::text::views(keys@)),
    ensures
        r matches Ok(i) ==> i < keys@.len() && keys@[i as int]@ == key@,
        r matches Err(i) ==> i <= keys@.len() && (forall|k: int|
            0 <= k < i ==> text_lt(#[trigger] keys@[k]@, key@)) && (forall|k: int|
            i <= k < keys@.len() ==> text_lt(key@, #[trigger] keys@[k]@)),
{
    let ghost v = crate::text::views(keys@);
    let mut lo: usize = 0;
    let mut hi: usize = keys.len();
    while lo < hi
        invariant
            v == crate::text::views(keys@),
            keys_ascending(v),
            0 <= lo <= hi <= keys@.len(),
            forall|k: int| 0 <= k < lo ==> text_lt(#[trigger] keys@[k]@, key@),
            forall|k: int| hi <= k < keys@.len() ==> text_lt(key@, #[trigger] keys@[k]@),
        decreases hi - lo,
    {
        let mid = lo + (hi - lo) / 2;
        match compare_text(keys[mid].as_str(), key) {
            Cmp::Equal => {
                return Ok(mid);
            },
            Cmp::Less => {
                proof {
                    assert forall|k: int| 0 <= k < mid + 1 implies text_lt(#[trigger] keys@[k]@, key@) by {
                        if k < mid {
                            assert(v[k] == keys@[k]@);
                            assert(v[mid as int] == keys@[mid as int]@);
                            lemma_text_order(keys@[k]@, keys@[mid as int]@, key@);
                        }
                    }
                }
                lo = mid + 1;
            },
            Cmp::Greater => {
                proof {
                    assert forall|k: int| mid <= k < keys@.len() implies text_lt(key@, #[trigger] keys@[k]@) by {
                        if k > mid {
                            assert(v[k] == keys@[k]@);
                            assert(v[mid as int] == keys@[mid as int]@);
                            lemma_text_order(key@, keys@[mid as int]@, keys@[k]@);
                        }
                    }
                }
                hi = mid;
            },
        }
    }
    Err(lo)
}

/// Inserting a key at the place that `search` reported keeps the keys
/// ascending.
pub proof fn lemma_insert_ascending(keys: Seq<Seq<char>>, i: int, key: Seq<char>)
    requires
        keys_ascending(keys),
        0 <= i <= keys.len(),
        forall|k: int| 0 <= k < i ==> text_lt(#[trigger] keys[k], key),
        forall|k: int| i <= k < keys.len() ==> text_lt(key, #[trigger] keys[k]),
    ensures
        keys_ascending(keys.insert(i, key)),
{
    let t = keys.insert(i, key);
    assert forall|a: int, b: int| 0 <= a < b < t.len() implies text_lt(t[a], t[b]) by {
        if b < i {
        } else if b == i {
        } else if a < i {
            lemma_text_order(keys[a], key, keys[b - 1]);
        } else if a == i {
        } else {
        }
    }
}

/// `at` locates `key` in `keys`: its index there, or `None` when `keys`
/// does not hold it.
pub open spec fn located(keys: Seq<Seq<char>>, key: Seq<char>, at: Option<usize>) -> bool {
    match at {
        Some(i) => i < keys.len() && keys[i as int] == key,
        None => !keys.contains(key),
    }
}

/// The keys of two lists, each ascending, merged into one ascending list;
/// each key comes with its index in either list, where that list has it.
pub fn union_keys<V, W>(a: &Vec<(String, V)>, b: &Vec<(String, W)>) -> (u: Vec<(String, (Option<usize>, Option<usize>))>)
    requires
        keys_ascending(entry_keys(a@)),
        keys_ascending(entry_keys(b@)),
    ensures
        keys_ascending(entry_keys(u@)),
        forall|k: int|
            0 <= k < u@.len() ==> located(entry_keys(a@), (#[trigger] u@[k]).0@, u@[k].1.0) && located(
                entry_keys(b@),
                u@[k].0@,
                u@[k].1.1,
            ) && (u@[k].1.0 is Some || u@[k].1.1 is Some),
        forall|x: int| 0 <= x < a@.len() ==> entry_keys(u@).contains((#[trigger] a@[x]).0@),
        forall|y: int| 0 <= y < b@.len() ==> entry_keys(u@).contains((#[trigger] b@[y]).0@),
{
    let ghost ka = entry_keys(a@);
    let ghost kb = entry_keys(b@);
    let mut u: Vec<(String, (Option<usize>, Option<usize>))> = Vec::new();
    let mut i: usize = 0;
    let mut j: usize = 0;
    let mut more = i < a.len() || j < b.len();
    while more
        invariant
            more == (i < a@.len() || j < b@.len()),
            ka == entry_keys(a@),
            kb == entry_keys(b@),
            keys_ascending(ka),
            keys_ascending(kb),
            0 <= i <= a@.len(),
            0 <= j <= b@.len(),
            keys_ascending(entry_keys(u@)),
            forall|k: int|
                0 <= k < u@.len() ==> located(ka, (#[trigger] u@[k]).0@, u@[k].1.0) && located(kb, u@[k].0@, u@[k].1.1)
                    && (u@[k].1.0 is Some || u@[k].1.1 is Some),
            forall|x: int, y: int| 0 <= x < i && j <= y < kb.len() ==> text_lt(#[trigger] ka[x], #[trigger] kb[y]),
            forall|x: int, y: int| 0 <= y < j && i <= x < ka.len() ==> text_lt(#[trigger] kb[y], #[trigger] ka[x]),
            u@.len() > 0 && i < ka.len() ==> text_lt(u@.last().0@, ka[i as int]),
            u@.len() > 0 && j < kb.len() ==> text_lt(u@.last().0@, kb[j as int]),
            forall|x: int| 0 <= x < i ==> exists|k: int| 0 <= k < u@.len() && (#[trigger] u@[k]).0@ == (#[trigger] a@[x]).0@,
            forall|y: int| 0 <= y < j ==> exists|k: int| 0 <= k < u@.len() && (#[trigger] u@[k]).0@ == (#[trigger] b@[y]).0@,
        decreases a@.len() + b@.len() - i - j,
    {
        let ghost before = u@;
        let from_a = i < a.len() && (j >= b.len() || !less_text(b[j].0.as_str(), a[i].0.as_str()));
        let from_b = j < b.len() && (i >= a.len() || !less_text(a[i].0.as_str(), b[j].0.as_str()));
        proof {
            if i < a.len() {
                assert(ka[i as int] == a@[i as int].0@);
            }
            if j < b.len() {
                assert(kb[j as int] == b@[j as int].0@);
            }
            if i < a.len() && j < b.len() {
                lemma_text_order(ka[i as int], kb[j as int], ka[i as int]);
            }
        }
        let key = if from_a {
            a[i].0.clone()
        } else {
            b[j].0.clone()
        };
        let ghost kk = key@;
        let at_a = if from_a {
            Some(i)
        } else {
            None
        };
        let at_b = if from_b {
            Some(j)
        } else {
            None
        };
        proof {
            // the new key is the least of the remaining keys
            assert(from_a ==> kk == ka[i as int]);
            assert(!from_a ==> from_b && kk == kb[j as int]);
            assert(from_a && from_b ==> ka[i as int] == kb[j as int]);
            if !from_a {
                assert(!ka.contains(kk)) by {
                    if ka.contains(kk) {
                        let x = choose|x: int| 0 <= x < ka.len() && ka[x] == kk;
                        if x < i {
                            assert(text_lt(ka[x], kb[j as int]));
                            lemma_text_order(kk, kk, kk);
                        } else {
                            if x > i {
                                lemma_text_order(kk, ka[i as int], ka[x]);
                            }
                            lemma_text_order(kk, ka[i as int], kk);
                        }
                    }
                }
            }
            if !from_b {
                assert(!kb.contains(kk)) by {
                    if kb.contains(kk) {
                        let y = choose|y: int| 0 <= y < kb.len() && kb[y] == kk;
                        if y < j {
                            assert(text_lt(kb[y], ka[i as int]));
                            lemma_text_order(kk, kk, kk);
                        } else {
                            if y > j {
                                lemma_text_order(kk, kb[j as int], kb[y]);
                            }
                            lemma_text_order(kk, kb[j as int], kk);
                        }
                    }
                }
            }
        }
        u.push((key, (at_a, at_b)));
        let ghost ni: int = if from_a { i + 1 } else { i as int };
        let ghost nj: int = if from_b { j + 1 } else { j as int };
        proof {
            assert(entry_keys(u@) =~= entry_keys(before).push(kk));
            assert forall|x: int, y: int| 0 <= x < y < entry_keys(u@).len() implies text_lt(
                entry_keys(u@)[x],
                entry_keys(u@)[y],
            ) by {
                if y == before.len() {
                    assert(entry_keys(u@)[x] == entry_keys(before)[x]);
                    assert(entry_keys(before)[before.len() - 1] == before.last().0@);
                    if x < before.len() - 1 {
                        lemma_text_order(entry_keys(before)[x], before.last().0@, kk);
                    }
                }
            }
            assert forall|x: int, y: int| 0 <= x < ni && nj <= y < kb.len() implies text_lt(
                #[trigger] ka[x],
                #[trigger] kb[y],
            ) by {
                if x == i {
                    if y > j {
                        lemma_text_order(ka[x], kb[j as int], kb[y]);
                    }
                }
            }
            assert forall|x: int, y: int| 0 <= y < nj && ni <= x < ka.len() implies text_lt(
                #[trigger] kb[y],
                #[trigger] ka[x],
            ) by {
                if y == j {
                    if x > i {
                        lemma_text_order(kb[y], ka[i as int], ka[x]);
                    }
                }
            }
            if ni < ka.len() {
                if from_a {
                    assert(text_lt(kk, ka[ni]));
                } else {
                    assert(text_lt(kk, ka[ni]));
                }
            }
            if nj < kb.len() {
                assert(text_lt(kk, kb[nj]));
            }
            assert forall|x: int| 0 <= x < ni implies exists|k: int|
                0 <= k < u@.len() && (#[trigger] u@[k]).0@ == (#[trigger] a@[x]).0@ by {
                if x < i {
                    let k = choose|k: int| 0 <= k < before.len() && (#[trigger] before[k]).0@ == a@[x].0@;
                    assert(u@[k] == before[k]);
                } else {
                    assert(u@[before.len() as int].0@ == a@[x].0@);
                }
            }
            assert forall|y: int| 0 <= y < nj implies exists|k: int|
                0 <= k < u@.len() && (#[trigger] u@[k]).0@ == (#[trigger] b@[y]).0@ by {
                if y < j {
                    let k = choose|k: int| 0 <= k < before.len() && (#[trigger] before[k]).0@ == b@[y].0@;
                    assert(u@[k] == before[k]);
                } else {
                    assert(u@[before.len() as int].0@ == b@[y].0@);
                }
            }
        }
        if from_a {
            i = i + 1;
        }
        if from_b {
            j = j + 1;
        }
        more = i < a.len() || j < b.len();
    }
    proof {
        assert forall|x: int| 0 <= x < a@.len() implies entry_keys(u@).contains((#[trigger] a@[x]).0@) by {
            let k = choose|k: int| 0 <= k < u@.len() && (#[trigger] u@[k]).0@ == a@[x].0@;
            assert(entry_keys(u@)[k] == u@[k].0@);
        }
        assert forall|y: int| 0 <= y < b@.len() implies entry_keys(u@).contains((#[trigger] b@[y]).0@) by {
            let k = choose|k: int| 0 <= k < u@.len() && (#[trigger] u@[k]).0@ == b@[y].0@;
            assert(entry_keys(u@)[k] == u@[k].0@);
        }
    }
    u
}


} // verus!
