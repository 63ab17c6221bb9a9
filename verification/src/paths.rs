//! Paths held as text, separated by `/` and read component by component the
//! way `std::path::Path` reads them on Unix: empty components and `.` name
//! nothing, a leading `/` roots the path.
use vstd::prelude::*;

use crate::text::{append_str, chars_of, join_spec, join_strings, owned, same_text, split_char, split_spec, views};

verus! {

/// A component that names something: not empty and not `.`.
pub open spec fn is_named(c: Seq<char>) -> bool {
    c.len() > 0 && c != seq!['.']
}

/// The parts that name something, in order.
pub open spec fn named_parts(parts: Seq<Seq<char>>) -> Seq<Seq<char>>
    decreases parts.len(),
{
    if parts.len() == 0 {
        parts
    } else if is_named(parts.last()) {
        named_parts(parts.drop_last()).push(parts.last())
    } else {
        named_parts(parts.drop_last())
    }
}

/// The named components of a path, in order.
pub open spec fn components(p: Seq<char>) -> Seq<Seq<char>> {
    named_parts(split_spec(p, '/'))
}

/// The path starts at the root.
pub open spec fn rooted(p: Seq<char>) -> bool {
    p.len() > 0 && p[0] == '/'
}


/// `p` appended to `base` (as `Path::join`): a rooted `p` replaces `base`,
/// otherwise a `/` goes between them unless `base` is empty or ends in one.
pub open spec fn joined(base: Seq<char>, p: Seq<char>) -> Seq<char> {
    if rooted(p) || base.len() == 0 {
        p
    } else if base.last() == '/' {
        base + p
    } else {
        base + seq!['/'] + p
    }
}

/// The last component of a path, unless the path ends at the root or in
/// `..` (as `Path::file_name`).
pub open spec fn file_name_spec(p: Seq<char>) -> Option<Seq<char>> {
    let c = components(p);
    if c.len() > 0 && c.last() != seq!['.', '.'] {
        Some(c.last())
    } else {
        None
    }
}

/// The pieces that follow the `n`-th piece that names something (all of
/// them for `n` = 0; none when fewer name something).
pub open spec fn pieces_after_named(parts: Seq<Seq<char>>, n: nat) -> Seq<Seq<char>>
    decreases parts.len(),
{
    if n == 0 || parts.len() == 0 {
        parts
    } else if is_named(parts[0]) {
        pieces_after_named(parts.drop_first(), (n - 1) as nat)
    } else {
        pieces_after_named(parts.drop_first(), n)
    }
}

/// The pieces without the leading ones that name nothing.
pub open spec fn trim_front(parts: Seq<Seq<char>>) -> Seq<Seq<char>>
    decreases parts.len(),
{
    if parts.len() > 0 && !is_named(parts[0]) {
        trim_front(parts.drop_first())
    } else {
        parts
    }
}

/// The pieces without the trailing ones that name nothing.
pub open spec fn trim_back(parts: Seq<Seq<char>>) -> Seq<Seq<char>>
    decreases parts.len(),
{
    if parts.len() > 0 && !is_named(parts.last()) {
        trim_back(parts.drop_last())
    } else {
        parts
    }
}

/// What remains of `p` after the components of `base`, when `base` is a
/// prefix of `p` (as `Path::strip_prefix`): the text of `p` after the
/// last component that `base` names, as written, without the separators
/// and `.` pieces at either end.
pub open spec fn strip_prefix_spec(p: Seq<char>, base: Seq<char>) -> Option<Seq<char>> {
    let cp = components(p);
    let cb = components(base);
    if rooted(p) == rooted(base) && cb.len() <= cp.len() && cp.take(cb.len() as int) == cb {
        Some(
            join_spec(
                trim_front(trim_back(pieces_after_named(split_spec(p, '/'), cb.len()))),
                seq!['/'],
            ),
        )
    } else {
        None
    }
}

proof fn lemma_trim_front(s: Seq<Seq<char>>, lo: int)
    requires
        0 <= lo <= s.len(),
        forall|i: int| 0 <= i < lo ==> !is_named(#[trigger] s[i]),
        lo < s.len() ==> is_named(s[lo]),
    ensures
        trim_front(s) == s.skip(lo),
    decreases lo,
{
    if lo == 0 {
        assert(s.skip(0) =~= s);
    } else {
        let t = s.drop_first();
        assert forall|i: int| 0 <= i < lo - 1 implies !is_named(#[trigger] t[i]) by {
            assert(t[i] == s[i + 1]);
        }
        lemma_trim_front(t, lo - 1);
        assert(!is_named(s[0]));
        assert(t.skip(lo - 1) =~= s.skip(lo));
    }
}

proof fn lemma_trim_back(s: Seq<Seq<char>>, hi: int)
    requires
        0 <= hi <= s.len(),
        forall|i: int| hi <= i < s.len() ==> !is_named(#[trigger] s[i]),
        hi > 0 ==> is_named(s[hi - 1]),
    ensures
        trim_back(s) == s.take(hi),
    decreases s.len() - hi,
{
    if hi == s.len() {
        if s.len() > 0 {
            assert(s.last() == s[s.len() - 1]);
        }
        assert(s.take(hi) =~= s);
    } else {
        let t = s.drop_last();
        assert forall|i: int| hi <= i < t.len() implies !is_named(#[trigger] t[i]) by {
            assert(t[i] == s[i]);
        }
        assert(!is_named(s[s.len() - 1]));
        if hi > 0 {
            assert(t[hi - 1] == s[hi - 1]);
        }
        lemma_trim_back(t, hi);
        assert(t.take(hi) =~= s.take(hi));
    }
}

proof fn lemma_pieces_after_step(parts: Seq<Seq<char>>, i: int, m: nat)
    requires
        0 <= i < parts.len(),
        m > 0,
    ensures
        pieces_after_named(parts.skip(i), m) == if is_named(parts[i]) {
            pieces_after_named(parts.skip(i + 1), (m - 1) as nat)
        } else {
            pieces_after_named(parts.skip(i + 1), m)
        },
{
    assert(parts.skip(i).drop_first() =~= parts.skip(i + 1));
    assert(parts.skip(i)[0] == parts[i]);
}

/// The parent of `p` is the directory `d` (as `p.parent() == Some(d)`).
pub open spec fn parent_is_spec(p: Seq<char>, d: Seq<char>) -> bool {
    let c = components(p);
    c.len() > 0 && rooted(p) == rooted(d) && c.drop_last() == components(d)
}

/// The named components of a path.
pub fn components_of(p: &str) -> (r: Vec<String>)
    ensures
        views(r@) == components(p@),
{
    let parts = split_char(p, '/');
    let ghost all = views(parts@);
    let mut r: Vec<String> = Vec::new();
    let mut i: usize = 0;
    while i < parts.len()
        invariant
            all == views(parts@),
            all == split_spec(p@, '/'),
            0 <= i <= parts@.len(),
            views(r@) == named_parts(all.take(i as int)),
        decreases parts@.len() - i,
    {
        let ghost before = r@;
        let part = &parts[i];
        let named = part.as_str().unicode_len() > 0 && !same_text(part.as_str(), ".");
        proof {
            reveal_strlit(".");
            assert("."@ =~= seq!['.']);
            assert(all[i as int] == part@);
            assert(all.take(i + 1).drop_last() == all.take(i as int));
            assert(named == is_named(part@));
        }
        if named {
            r.push(crate::text::copy_string(part));
            proof {
                assert(views(r@) =~= views(before).push(part@));
            }
        }
        i = i + 1;
        proof {
            assert(all.take(i as int).last() == part@);
            if !named {
                assert(r@ == before);
            }
        }
    }
    assert(all.take(i as int) == all);
    r
}

/// Whether the path starts at the root.
pub fn is_rooted(p: &str) -> (r: bool)
    ensures
        r == rooted(p@),
{
    let cs = chars_of(p);
    cs.len() > 0 && cs[0] == '/'
}

/// `p` appended to `base`.
pub fn join_path(base: &str, p: &str) -> (r: String)
    ensures
        r@ == joined(base@, p@),
{
    let cs = chars_of(base);
    if is_rooted(p) || cs.len() == 0 {
        owned(p)
    } else {
        let mut r = owned(base);
        if cs[cs.len() - 1] != '/' {
            append_str(&mut r, "/");
            proof {
                reveal_strlit("/");
            }
        }
        append_str(&mut r, p);
        r
    }
}

/// Whether two lists of components are equal.
fn same_components(a: &Vec<String>, b: &Vec<String>) -> (r: bool)
    ensures
        r == (views(a@) == views(b@)),
{
    if a.len() != b.len() {
        proof {
            assert(views(a@).len() != views(b@).len());
        }
        return false;
    }
    let mut i: usize = 0;
    while i < a.len()
        invariant
            a@.len() == b@.len(),
            0 <= i <= a@.len(),
            forall|k: int| 0 <= k < i ==> views(a@)[k] == views(b@)[k],
        decreases a@.len() - i,
    {
        if !same_text(a[i].as_str(), b[i].as_str()) {
            proof {
                assert(views(a@)[i as int] != views(b@)[i as int]);
            }
            return false;
        }
        i = i + 1;
    }
    assert(views(a@) =~= views(b@));
    true
}

/// The last component of a path, unless it ends at the root or in `..`.
pub fn file_name(p: &str) -> (r: Option<String>)
    ensures
        r.deep_view() == file_name_spec(p@),
{
    let mut c = components_of(p);
    if c.len() == 0 {
        return None;
    }
    let last = c.pop().unwrap();
    proof {
        reveal_strlit("..");
        assert(".."@ =~= seq!['.', '.']);
        assert(views(c@.push(last)).last() == last@);
    }
    if same_text(last.as_str(), "..") {
        None
    } else {
        Some(last)
    }
}

/// The index of the last `.` in a name, or -1 when it has none.
pub open spec fn last_dot(n: Seq<char>) -> int
    decreases n.len(),
{
    if n.len() == 0 {
        -1
    } else if n.last() == '.' {
        n.len() - 1
    } else {
        last_dot(n.drop_last())
    }
}

/// The extension of a file name: what follows its last `.`, unless that
/// `.` is the name's first character or the name has none (as
/// `Path::extension` reads a file name).
pub open spec fn name_extension(n: Seq<char>) -> Option<Seq<char>> {
    if last_dot(n) > 0 {
        Some(n.skip(last_dot(n) + 1))
    } else {
        None
    }
}

/// The extension of the path's file name (as `Path::extension`).
pub open spec fn extension_spec(p: Seq<char>) -> Option<Seq<char>> {
    match file_name_spec(p) {
        Some(n) => name_extension(n),
        None => None,
    }
}

/// Where nothing after `k` is a `.`, the last `.` is the last one
/// before `k`.
proof fn lemma_last_dot_before(n: Seq<char>, k: int)
    requires
        0 <= k <= n.len(),
        forall|j: int| k <= j < n.len() ==> n[j] != '.',
    ensures
        last_dot(n) == last_dot(n.take(k)),
    decreases n.len(),
{
    if n.len() > k {
        lemma_last_dot_before(n.drop_last(), k);
        assert(n.drop_last().take(k) =~= n.take(k));
    } else {
        assert(n.take(k) =~= n);
    }
}

/// The extension of the path's file name.
pub fn extension(p: &str) -> (r: Option<String>)
    ensures
        r.deep_view() == extension_spec(p@),
{
    let name = match file_name(p) {
        Some(n) => n,
        None => return None,
    };
    let cs = chars_of(name.as_str());
    let mut i: usize = cs.len();
    while i > 0 && cs[i - 1] != '.'
        invariant
            cs@ == name@,
            0 <= i <= cs@.len(),
            forall|j: int| i <= j < cs@.len() ==> cs@[j] != '.',
        decreases i,
    {
        i = i - 1;
    }
    proof {
        lemma_last_dot_before(name@, i as int);
        if i > 0 {
            assert(name@.take(i as int).last() == '.');
        } else {
            assert(name@.take(0) =~= Seq::<char>::empty());
        }
    }
    if i <= 1 {
        None
    } else {
        let rest = vstd::slice::slice_subrange(cs.as_slice(), i, cs.len());
        let r = crate::text::string_from_chars(rest);
        assert(r@ =~= name@.skip(i as int));
        Some(r)
    }
}

/// What remains of `p` after the components of `base`, when `base` is a
/// prefix of `p`.
#[verifier::loop_isolation(false)]
pub fn strip_path_prefix(p: &str, base: &str) -> (r: Option<String>)
    ensures
        r.deep_view() == strip_prefix_spec(p@, base@),
{
    let cp = components_of(p);
    let cb = components_of(base);
    if is_rooted(p) != is_rooted(base) || cb.len() > cp.len() {
        return None;
    }
    let mut i: usize = 0;
    while i < cb.len()
        invariant
            cb@.len() <= cp@.len(),
            0 <= i <= cb@.len(),
            forall|k: int| 0 <= k < i ==> views(cp@)[k] == views(cb@)[k],
        decreases cb@.len() - i,
    {
        if !same_text(cp[i].as_str(), cb[i].as_str()) {
            proof {
                assert(views(cp@).take(cb@.len() as int)[i as int] != views(cb@)[i as int]);
                assert(views(cp@).take(cb@.len() as int) != views(cb@));
            }
            return None;
        }
        i = i + 1;
    }
    assert(views(cp@).take(cb@.len() as int) =~= views(cb@));
    let parts = split_char(p, '/');
    let ghost all = views(parts@);
    let n = cb.len();
    let mut at: usize = 0;
    let mut count: usize = 0;
    assert(all.skip(0) =~= all);
    while count < n && at < parts.len()
        invariant
            all == views(parts@),
            0 <= at <= parts@.len(),
            count <= n,
            pieces_after_named(all, n as nat) == pieces_after_named(all.skip(at as int), (n - count) as nat),
        decreases parts@.len() - at,
    {
        let piece = parts[at].as_str();
        let named = piece.unicode_len() > 0 && !same_text(piece, ".");
        proof {
            reveal_strlit(".");
            assert("."@ =~= seq!['.']);
            assert(all[at as int] == piece@);
            lemma_pieces_after_step(all, at as int, (n - count) as nat);
        }
        if named {
            count = count + 1;
        }
        at = at + 1;
    }
    let ghost rest = all.skip(at as int);
    proof {
        if count < n {
            assert(rest.len() == 0);
        }
        assert(pieces_after_named(all, n as nat) == rest);
    }
    let mut hi: usize = parts.len();
    while hi > at && !(parts[hi - 1].as_str().unicode_len() > 0 && !same_text(parts[hi - 1].as_str(), "."))
        invariant
            all == views(parts@),
            at <= hi <= parts@.len(),
            forall|i: int| hi <= i < parts@.len() ==> !is_named(#[trigger] all[i]),
        decreases hi,
    {
        proof {
            reveal_strlit(".");
            assert("."@ =~= seq!['.']);
            assert(all[hi - 1] == parts@[hi - 1]@);
        }
        hi = hi - 1;
    }
    proof {
        reveal_strlit(".");
        assert("."@ =~= seq!['.']);
        if hi > at {
            assert(all[hi - 1] == parts@[hi - 1]@);
        }
        assert forall|i: int| hi - at <= i < rest.len() implies !is_named(#[trigger] rest[i]) by {
            assert(rest[i] == all[at + i]);
        }
        if hi > at {
            assert(rest[hi - at - 1] == all[hi - 1]);
        }
        lemma_trim_back(rest, hi - at);
    }
    let ghost kept = rest.take(hi - at);
    let mut lo: usize = at;
    while lo < hi && !(parts[lo].as_str().unicode_len() > 0 && !same_text(parts[lo].as_str(), "."))
        invariant
            all == views(parts@),
            at <= lo <= hi <= parts@.len(),
            forall|i: int| at <= i < lo ==> !is_named(#[trigger] all[i]),
        decreases hi - lo,
    {
        proof {
            reveal_strlit(".");
            assert("."@ =~= seq!['.']);
            assert(all[lo as int] == parts@[lo as int]@);
        }
        lo = lo + 1;
    }
    proof {
        reveal_strlit(".");
        assert("."@ =~= seq!['.']);
        if lo < hi {
            assert(all[lo as int] == parts@[lo as int]@);
            assert(kept[lo - at] == all[lo as int]);
        }
        assert forall|i: int| 0 <= i < lo - at implies !is_named(#[trigger] kept[i]) by {
            assert(kept[i] == all[at + i]);
        }
        lemma_trim_front(kept, lo - at);
        assert(kept.skip(lo - at) =~= views(parts@.subrange(lo as int, hi as int)));
    }
    let r = join_strings(vstd::slice::slice_subrange(parts.as_slice(), lo, hi), "/");
    proof {
        reveal_strlit("/");
        assert("/"@ =~= seq!['/']);
    }
    Some(r)
}

/// Whether the parent of `p` is the directory `d`.
pub fn parent_is(p: &str, d: &str) -> (r: bool)
    ensures
        r == parent_is_spec(p@, d@),
{
    let mut cp = components_of(p);
    let cd = components_of(d);
    if cp.len() == 0 || is_rooted(p) != is_rooted(d) {
        return false;
    }
    let ghost full = cp@;
    cp.pop();
    proof {
        assert(views(cp@) =~= views(full).drop_last());
    }
    same_components(&cp, &cd)
}

} // verus!
