//! Searching file contents with ripgrep: the batches of paths that each
//! run gets, what its output says, and when a run failed.
use vstd::prelude::*;
use vstd::utf8::encode_utf8;

use serde_json::Value;

use crate::cli::{trim, trim_spec};
use crate::model::Match;
use crate::text::{append_str, chars_of, copy_string, owned, string_from_chars, views};

verus! {

// ---------------------------------------------------------------------------
// Fields of command output
// ---------------------------------------------------------------------------

/// The pieces of `s` between occurrences of `sep`.
pub open spec fn split_bytes(s: Seq<u8>, sep: u8) -> Seq<Seq<u8>>
    decreases s.len(),
{
    if s.len() == 0 {
        seq![Seq::<u8>::empty()]
    } else {
        let p = split_bytes(s.drop_last(), sep);
        if s.last() == sep {
            p.push(Seq::<u8>::empty())
        } else {
            p.update(p.len() - 1, p.last().push(s.last()))
        }
    }
}

/// The pieces that are not empty, in order.
pub open spec fn nonempty(parts: Seq<Seq<u8>>) -> Seq<Seq<u8>>
    decreases parts.len(),
{
    if parts.len() == 0 {
        parts
    } else if parts.last().len() > 0 {
        nonempty(parts.drop_last()).push(parts.last())
    } else {
        nonempty(parts.drop_last())
    }
}

/// The byte strings of a list of byte vectors.
pub open spec fn byte_views(v: Seq<Vec<u8>>) -> Seq<Seq<u8>> {
    v.map_values(|x: Vec<u8>| x@)
}

proof fn lemma_split_bytes_len(s: Seq<u8>, sep: u8)
    ensures
        split_bytes(s, sep).len() >= 1,
    decreases s.len(),
{
    if s.len() > 0 {
        lemma_split_bytes_len(s.drop_last(), sep);
    }
}

/// The pieces of `bytes` between occurrences of `sep` that are not empty
/// (the lines of an output, or its NUL-separated fields).
pub fn nonempty_fields(bytes: &[u8], sep: u8) -> (r: Vec<Vec<u8>>)
    ensures
        byte_views(r@) == nonempty(split_bytes(bytes@, sep)),
{
    let mut r: Vec<Vec<u8>> = Vec::new();
    let mut cur: Vec<u8> = Vec::new();
    let mut i: usize = 0;
    while i < bytes.len()
        invariant
            0 <= i <= bytes@.len(),
            split_bytes(bytes@.take(i as int), sep).len() >= 1,
            split_bytes(bytes@.take(i as int), sep).last() == cur@,
            byte_views(r@) == nonempty(split_bytes(bytes@.take(i as int), sep).drop_last()),
        decreases bytes@.len() - i,
    {
        let b = bytes[i];
        let ghost s0 = split_bytes(bytes@.take(i as int), sep);
        proof {
            assert(bytes@.take(i + 1).drop_last() == bytes@.take(i as int));
            assert(bytes@.take(i + 1).last() == b);
        }
        if b == sep {
            let ghost before = r@;
            if cur.len() > 0 {
                r.push(cur);
                proof {
                    assert(byte_views(r@) =~= byte_views(before).push(s0.last()));
                }
            }
            cur = Vec::new();
            proof {
                let s1 = split_bytes(bytes@.take(i + 1), sep);
                assert(s1 == s0.push(Seq::<u8>::empty()));
                assert(s1.drop_last() == s0);
                assert(s0 =~= s0.drop_last().push(s0.last()));
            }
        } else {
            cur.push(b);
            proof {
                let s1 = split_bytes(bytes@.take(i + 1), sep);
                assert(s1.drop_last() =~= s0.drop_last());
            }
        }
        i = i + 1;
    }
    assert(bytes@.take(i as int) == bytes@);
    let ghost all = split_bytes(bytes@, sep);
    let ghost before = r@;
    if cur.len() > 0 {
        r.push(cur);
        proof {
            assert(byte_views(r@) =~= byte_views(before).push(all.last()));
        }
    }
    proof {
        assert(all =~= all.drop_last().push(all.last()));
    }
    r
}

// ---------------------------------------------------------------------------
// Batches of paths
// ---------------------------------------------------------------------------

/// The most bytes of paths that one run of a command is given.
pub const MAX_ARGUMENT_BYTES: usize = 100000;

/// The bytes that a path takes among a command's arguments.
pub open spec fn arg_bytes(p: Seq<char>) -> int {
    encode_utf8(p).len() as int + 1
}

/// The bytes that a batch of paths takes.
pub open spec fn batch_bytes(b: Seq<Seq<char>>) -> int
    decreases b.len(),
{
    if b.len() == 0 {
        0
    } else {
        batch_bytes(b.drop_last()) + arg_bytes(b.last())
    }
}

/// The batches one after the other.
pub open spec fn flatten(bs: Seq<Seq<Seq<char>>>) -> Seq<Seq<char>>
    decreases bs.len(),
{
    if bs.len() == 0 {
        Seq::empty()
    } else {
        flatten(bs.drop_last()) + bs.last()
    }
}

/// `bs` splits `files` into batches in order: none is empty; one with
/// several paths stays within the limit; and each (but the last) is full,
/// in that the next path would not fit in it.
pub open spec fn batches_of(bs: Seq<Seq<Seq<char>>>, files: Seq<Seq<char>>) -> bool {
    &&& flatten(bs) == files
    &&& forall|k: int| 0 <= k < bs.len() ==> (#[trigger] bs[k]).len() > 0
    &&& forall|k: int| 0 <= k < bs.len() ==> (#[trigger] bs[k]).len() == 1 || batch_bytes(bs[k]) <= MAX_ARGUMENT_BYTES
    &&& forall|k: int|
        0 <= k < bs.len() - 1 ==> batch_bytes(#[trigger] bs[k]) + arg_bytes(bs[k + 1][0]) > MAX_ARGUMENT_BYTES
}

/// The paths of a list of batches.
pub open spec fn batch_views(v: Seq<Vec<String>>) -> Seq<Seq<Seq<char>>> {
    v.map_values(|b: Vec<String>| views(b@))
}

/// Splits the paths into batches for separate runs of a command: a batch
/// takes paths while they fit in `MAX_ARGUMENT_BYTES`.
pub fn path_batches(files: &[String]) -> (r: Vec<Vec<String>>)
    ensures
        batches_of(batch_views(r@), views(files@)),
{
    let ghost fv = views(files@);
    let mut batches: Vec<Vec<String>> = Vec::new();
    let mut batch: Vec<String> = Vec::new();
    let mut bytes: u128 = 0;
    let mut i: usize = 0;
    while i < files.len()
        invariant
            fv == views(files@),
            0 <= i <= files@.len(),
            flatten(batch_views(batches@)) + views(batch@) == fv.take(i as int),
            bytes as int == batch_bytes(views(batch@)),
            bytes <= usize::MAX as u128 + 1,
            batch@.len() == 1 || batch_bytes(views(batch@)) <= MAX_ARGUMENT_BYTES,
            forall|k: int| 0 <= k < batches@.len() ==> (#[trigger] batch_views(batches@)[k]).len() > 0,
            forall|k: int|
                0 <= k < batches@.len() ==> (#[trigger] batch_views(batches@)[k]).len() == 1 || batch_bytes(
                    batch_views(batches@)[k],
                ) <= MAX_ARGUMENT_BYTES,
            forall|k: int|
                0 <= k < batches@.len() - 1 ==> batch_bytes(#[trigger] batch_views(batches@)[k]) + arg_bytes(
                    batch_views(batches@)[k + 1][0],
                ) > MAX_ARGUMENT_BYTES,
            batches@.len() > 0 ==> batch@.len() > 0 && batch_bytes(batch_views(batches@).last()) + arg_bytes(
                views(batch@)[0],
            ) > MAX_ARGUMENT_BYTES,
        decreases files@.len() - i,
    {
        let file_bytes: u128 = files[i].as_str().as_bytes().len() as u128 + 1;
        let ghost f = fv[i as int];
        proof {
            assert(f == files@[i as int]@);
            assert(file_bytes == arg_bytes(f));
            assert(fv.take(i + 1) =~= fv.take(i as int).push(f));
        }
        if batch.len() > 0 && bytes + file_bytes > MAX_ARGUMENT_BYTES as u128 {
            let ghost old_batches = batch_views(batches@);
            let ghost full = views(batch@);
            batches.push(batch);
            batch = Vec::new();
            bytes = 0;
            proof {
                let nb = batch_views(batches@);
                assert(nb =~= old_batches.push(full));
                assert(nb.drop_last() =~= old_batches);
                assert(flatten(nb) == flatten(old_batches) + full);
                assert(views(batch@) =~= Seq::<Seq<char>>::empty());
                assert(flatten(nb) + views(batch@) =~= fv.take(i as int));
                assert forall|k: int|
                    0 <= k < nb.len() - 1 implies batch_bytes(#[trigger] nb[k]) + arg_bytes(nb[k + 1][0])
                        > MAX_ARGUMENT_BYTES by {
                    assert(nb[k] == old_batches[k]);
                    if k < old_batches.len() - 1 {
                        assert(nb[k + 1] == old_batches[k + 1]);
                    }
                }
                assert forall|k: int| 0 <= k < nb.len() implies (#[trigger] nb[k]).len() > 0 && (nb[k].len() == 1
                    || batch_bytes(nb[k]) <= MAX_ARGUMENT_BYTES) by {
                    if k < old_batches.len() {
                        assert(nb[k] == old_batches[k]);
                    }
                }
                assert(batch_bytes(nb.last()) + arg_bytes(f) > MAX_ARGUMENT_BYTES);
            }
        }
        let ghost was = views(batch@);
        let ghost head = flatten(batch_views(batches@));
        batch.push(copy_string(&files[i]));
        bytes = bytes + file_bytes;
        proof {
            let now = views(batch@);
            assert(now =~= was.push(f));
            assert(now.drop_last() =~= was);
            assert(batch_bytes(now) == batch_bytes(was) + arg_bytes(f));
            assert(head + now =~= (head + was).push(f));
            if was.len() > 0 {
                assert(now[0] == was[0]);
            }
        }
        i = i + 1;
    }
    assert(fv.take(i as int) == fv);
    if batch.len() > 0 {
        let ghost old_batches = batch_views(batches@);
        let ghost full = views(batch@);
        batches.push(batch);
        proof {
            let nb = batch_views(batches@);
            assert(nb =~= old_batches.push(full));
            assert(nb.drop_last() =~= old_batches);
            assert(flatten(nb) == flatten(old_batches) + full);
            assert forall|k: int|
                0 <= k < nb.len() - 1 implies batch_bytes(#[trigger] nb[k]) + arg_bytes(nb[k + 1][0])
                    > MAX_ARGUMENT_BYTES by {
                assert(nb[k] == old_batches[k]);
                if k < old_batches.len() - 1 {
                    assert(nb[k + 1] == old_batches[k + 1]);
                }
            }
            assert forall|k: int| 0 <= k < nb.len() implies (#[trigger] nb[k]).len() > 0 && (nb[k].len() == 1
                || batch_bytes(nb[k]) <= MAX_ARGUMENT_BYTES) by {
                if k < old_batches.len() {
                    assert(nb[k] == old_batches[k]);
                }
            }
        }
    } else {
        assert(views(batch@) =~= Seq::<Seq<char>>::empty());
        assert(flatten(batch_views(batches@)) + views(batch@) =~= flatten(batch_views(batches@)));
    }
    batches
}

// ---------------------------------------------------------------------------
// Ripgrep's output
// ---------------------------------------------------------------------------

/// One submatch of a ripgrep match event: its byte offsets in the line,
/// where they are numbers.
#[derive(Clone, Copy, Debug, PartialEq, Eq, Structural)]
pub struct RgSubmatch {
    pub start: Option<u64>,
    pub end: Option<u64>,
}

/// One event of ripgrep's JSON output, as far as a map reads it: its type,
/// and for a match the path, line number, line text and submatches, each
/// where it has the expected form.
#[derive(Debug)]
pub struct RgEvent {
    pub kind: Option<String>,
    pub path: Option<String>,
    pub line_number: Option<u64>,
    pub lines: Option<String>,
    pub submatches: Option<Vec<RgSubmatch>>,
}

/// What an event holds, as plain values.
pub struct RgEventV {
    pub kind: Option<Seq<char>>,
    pub path: Option<Seq<char>>,
    pub line_number: Option<u64>,
    pub lines: Option<Seq<char>>,
    pub submatches: Option<Seq<RgSubmatch>>,
}

/// The abstract value of an event.
pub open spec fn event_view(e: RgEvent) -> RgEventV {
    RgEventV {
        kind: e.kind.deep_view(),
        path: e.path.deep_view(),
        line_number: e.line_number,
        lines: e.lines.deep_view(),
        submatches: match e.submatches {
            Some(v) => Some(v@),
            None => None,
        },
    }
}

/// The abstract value of a line of output read as an event, or of why it
/// could not be read.
pub open spec fn read_view(r: Result<RgEvent, String>) -> Result<RgEventV, Seq<char>> {
    match r {
        Ok(e) => Ok(event_view(e)),
        Err(m) => Err(m@),
    }
}

/// The abstract values of lines of output read as events.
pub open spec fn read_views(s: Seq<Result<RgEvent, String>>) -> Seq<Result<RgEventV, Seq<char>>> {
    s.map_values(|r: Result<RgEvent, String>| read_view(r))
}

/// The abstract value of a match.
pub type MatchV = (Seq<char>, u64, u64, u64, Seq<char>);

/// The abstract value of a match.
pub open spec fn match_view(m: Match) -> MatchV {
    (m.file@, m.line, m.column, m.end_column, m.text@)
}

/// `s` without the line breaks (`\r`, `\n`) at its end.
pub open spec fn trim_line_end(s: Seq<char>) -> Seq<char>
    decreases s.len(),
{
    if s.len() > 0 && (s.last() == '\r' || s.last() == '\n') {
        trim_line_end(s.drop_last())
    } else {
        s
    }
}

/// The matches of the submatches from `k` on: 1-based columns, with the
/// event's file, line and text.
pub open spec fn submatches_from(
    subs: Seq<RgSubmatch>,
    k: int,
    file: Seq<char>,
    line: u64,
    text: Seq<char>,
) -> Result<Seq<MatchV>, Seq<char>>
    decreases subs.len() - k,
{
    if k < 0 || k >= subs.len() {
        Ok(Seq::empty())
    } else {
        match (subs[k].start, subs[k].end) {
            (None, _) => Err("ripgrep omitted match start"@),
            (Some(_), None) => Err("ripgrep omitted match end"@),
            (Some(s), Some(e)) => match submatches_from(subs, k + 1, file, line, text) {
                Ok(rest) => Ok(seq![(file, line, (s + 1) as u64, (e + 1) as u64, text)] + rest),
                Err(m) => Err(m),
            },
        }
    }
}

/// The matches of one event: none unless it is a match event; an error
/// when a match event lacks its path, line number or submatches, or when
/// the line could not be read.
pub open spec fn event_matches(ev: Result<RgEventV, Seq<char>>) -> Result<Seq<MatchV>, Seq<char>> {
    match ev {
        Err(e) => Err("could not read ripgrep output: "@ + e),
        Ok(ev) => if ev.kind != Some("match"@) {
            Ok(Seq::empty())
        } else {
            match ev.path {
                None => Err("ripgrep returned a non-text file path"@),
                Some(file) => match ev.line_number {
                    None => Err("ripgrep omitted a line number"@),
                    Some(line) => {
                        let text = trim_line_end(
                            match ev.lines {
                                Some(t) => t,
                                None => "<binary line>"@,
                            },
                        );
                        match ev.submatches {
                            None => Err("ripgrep omitted submatches"@),
                            Some(subs) => submatches_from(subs, 0, file, line, text),
                        }
                    },
                },
            }
        },
    }
}

/// The matches of the events from `i` on, or the first error among them.
pub open spec fn events_matches(evs: Seq<Result<RgEventV, Seq<char>>>, i: int) -> Result<Seq<MatchV>, Seq<char>>
    decreases evs.len() - i,
{
    if i < 0 || i >= evs.len() {
        Ok(Seq::empty())
    } else {
        match event_matches(evs[i]) {
            Err(e) => Err(e),
            Ok(ms) => match events_matches(evs, i + 1) {
                Ok(rest) => Ok(ms + rest),
                Err(e) => Err(e),
            },
        }
    }
}

/// Reading the submatches from `k` on reaches an offset that cannot be
/// made 1-based (`u64::MAX`) before a missing offset stops it.
pub open spec fn submatches_overflow(subs: Seq<RgSubmatch>, k: int) -> bool
    decreases subs.len() - k,
{
    if k < 0 || k >= subs.len() {
        false
    } else {
        match (subs[k].start, subs[k].end) {
            (Some(s), Some(e)) => s == u64::MAX || e == u64::MAX || submatches_overflow(subs, k + 1),
            _ => false,
        }
    }
}

/// Reading the event reaches such an offset: a match event with its path,
/// line number and submatches, whose submatches do.
pub open spec fn event_overflows(ev: Result<RgEventV, Seq<char>>) -> bool {
    match ev {
        Err(_) => false,
        Ok(ev) => ev.kind == Some("match"@) && ev.path is Some && ev.line_number is Some && match ev.submatches {
            Some(subs) => submatches_overflow(subs, 0),
            None => false,
        },
    }
}

/// Reading the events from `i` on, in order, reaches such an offset before
/// any error stops it.
pub open spec fn events_overflow(evs: Seq<Result<RgEventV, Seq<char>>>, i: int) -> bool
    decreases evs.len() - i,
{
    if i < 0 || i >= evs.len() {
        false
    } else if event_overflows(evs[i]) {
        true
    } else {
        match event_matches(evs[i]) {
            Err(_) => false,
            Ok(_) => events_overflow(evs, i + 1),
        }
    }
}

/// `m` is the match of the submatch `sm` on the line `line` of `file`,
/// whose text is `text`: the submatch's offsets made 1-based as columns.
pub open spec fn match_of_submatch(m: MatchV, sm: RgSubmatch, file: Seq<char>, line: u64, text: Seq<char>) -> bool {
    &&& sm.start is Some && sm.end is Some
    &&& m.0 == file && m.1 == line && m.4 == text
    &&& m.2 as int == sm.start->Some_0 + 1
    &&& m.3 as int == sm.end->Some_0 + 1
}

proof fn lemma_submatches_shape(subs: Seq<RgSubmatch>, k: int, file: Seq<char>, line: u64, text: Seq<char>)
    requires
        0 <= k <= subs.len(),
        !submatches_overflow(subs, k),
        submatches_from(subs, k, file, line, text) is Ok,
    ensures
        submatches_from(subs, k, file, line, text)->Ok_0.len() == subs.len() - k,
        forall|t: int|
            0 <= t < subs.len() - k ==> match_of_submatch(
                #[trigger] submatches_from(subs, k, file, line, text)->Ok_0[t],
                subs[k + t],
                file,
                line,
                text,
            ),
    decreases subs.len() - k,
{
    if k < subs.len() {
        lemma_submatches_shape(subs, k + 1, file, line, text);
        let rest = submatches_from(subs, k + 1, file, line, text)->Ok_0;
        let ms = submatches_from(subs, k, file, line, text)->Ok_0;
        let st = subs[k].start->Some_0;
        let en = subs[k].end->Some_0;
        assert(st < u64::MAX && en < u64::MAX);
        assert(ms == seq![(file, line, (st + 1) as u64, (en + 1) as u64, text)] + rest);
        assert forall|t: int| 0 <= t < subs.len() - k implies match_of_submatch(
            #[trigger] submatches_from(subs, k, file, line, text)->Ok_0[t],
            subs[k + t],
            file,
            line,
            text,
        ) by {
            if t > 0 {
                assert(ms[t] == rest[t - 1]);
                assert(subs[k + t] == subs[(k + 1) + (t - 1)]);
            }
        }
    }
}

/// A match event that reads without error gives one match per submatch,
/// in order, each with the event's path, line number and line text, and
/// with the submatch's offsets made 1-based as its columns.
pub proof fn lemma_one_match_per_submatch(ev: RgEventV)
    requires
        ev.kind == Some("match"@),
        event_matches(Ok(ev)) is Ok,
        !event_overflows(Ok::<RgEventV, Seq<char>>(ev)),
    ensures
        ev.path is Some && ev.line_number is Some && ev.submatches is Some,
        event_matches(Ok(ev))->Ok_0.len() == ev.submatches->Some_0.len(),
        forall|k: int|
            0 <= k < ev.submatches->Some_0.len() ==> match_of_submatch(
                #[trigger] event_matches(Ok(ev))->Ok_0[k],
                ev.submatches->Some_0[k],
                ev.path->Some_0,
                ev.line_number->Some_0,
                trim_line_end(
                    match ev.lines {
                        Some(t) => t,
                        None => "<binary line>"@,
                    },
                ),
            ),
{
    let subs = ev.submatches->Some_0;
    let text = trim_line_end(
        match ev.lines {
            Some(t) => t,
            None => "<binary line>"@,
        },
    );
    lemma_submatches_shape(subs, 0, ev.path->Some_0, ev.line_number->Some_0, text);
    assert forall|k: int| 0 <= k < subs.len() implies match_of_submatch(
        #[trigger] event_matches(Ok(ev))->Ok_0[k],
        subs[k],
        ev.path->Some_0,
        ev.line_number->Some_0,
        text,
    ) by {
        assert(subs[0 + k] == subs[k]);
        assert(submatches_from(subs, 0, ev.path->Some_0, ev.line_number->Some_0, text)->Ok_0[k]
            == event_matches(Ok(ev))->Ok_0[k]);
    }
}

/// One of the submatches from `k` on lacks an offset.
pub open spec fn submatches_missing(subs: Seq<RgSubmatch>, k: int) -> bool
    decreases subs.len() - k,
{
    if k < 0 || k >= subs.len() {
        false
    } else {
        match (subs[k].start, subs[k].end) {
            (Some(_), Some(_)) => submatches_missing(subs, k + 1),
            _ => true,
        }
    }
}

proof fn lemma_submatches_missing(subs: Seq<RgSubmatch>, k: int, file: Seq<char>, line: u64, text: Seq<char>)
    requires
        0 <= k,
    ensures
        submatches_from(subs, k, file, line, text) is Err <==> submatches_missing(subs, k),
    decreases subs.len() - k,
{
    if k < subs.len() {
        lemma_submatches_missing(subs, k + 1, file, line, text);
    }
}

/// Whether reading the submatches reaches an offset that cannot be made
/// 1-based; and whether one of them lacks an offset.
fn submatches_check(subs: &Vec<RgSubmatch>) -> (r: (bool, bool))
    ensures
        r.0 == submatches_overflow(subs@, 0),
        !r.0 ==> r.1 == submatches_missing(subs@, 0),
{
    let mut k: usize = 0;
    while k < subs.len()
        invariant
            0 <= k <= subs@.len(),
            submatches_overflow(subs@, 0) == submatches_overflow(subs@, k as int),
            submatches_missing(subs@, 0) == submatches_missing(subs@, k as int),
        decreases subs@.len() - k,
    {
        match (subs[k].start, subs[k].end) {
            (Some(s), Some(e)) => {
                if s == u64::MAX || e == u64::MAX {
                    return (true, false);
                }
            },
            _ => {
                return (false, true);
            },
        }
        k = k + 1;
    }
    (false, false)
}

/// Whether reading the events in order reaches an offset that cannot be
/// made 1-based before an error stops it: the one case that
/// `matches_from_events` is not for.
pub fn offsets_overflow(events: &Vec<Result<RgEvent, String>>) -> (r: bool)
    ensures
        r == events_overflow(read_views(events@), 0),
{
    let mut i: usize = 0;
    while i < events.len()
        invariant
            0 <= i <= events@.len(),
            events_overflow(read_views(events@), 0) == events_overflow(read_views(events@), i as int),
        decreases events@.len() - i,
    {
        match &events[i] {
            Err(_) => {
                return false;
            },
            Ok(ev) => {
                let is_match = match &ev.kind {
                    Some(k) => crate::text::same_text(k.as_str(), "match"),
                    None => false,
                };
                proof {
                    reveal_strlit("match");
                }
                if is_match {
                    if ev.path.is_none() || ev.line_number.is_none() {
                        return false;
                    }
                    let subs = match &ev.submatches {
                        Some(s) => s,
                        None => {
                            return false;
                        },
                    };
                    let (overflow, missing) = submatches_check(subs);
                    proof {
                        let text = trim_line_end(
                            match &ev.lines {
                                Some(t) => t@,
                                None => "<binary line>"@,
                            },
                        );
                        lemma_submatches_missing(subs@, 0, ev.path->Some_0@, ev.line_number->Some_0, text);
                    }
                    if overflow {
                        return true;
                    }
                    if missing {
                        return false;
                    }
                }
            },
        }
        i = i + 1;
    }
    false
}

/// `s` without the line breaks at its end.
fn without_line_end(s: &str) -> (r: String)
    ensures
        r@ == trim_line_end(s@),
{
    let cs = chars_of(s);
    let mut n: usize = cs.len();
    assert(cs@.take(n as int) =~= cs@);
    while n > 0 && (cs[n - 1] == '\r' || cs[n - 1] == '\n')
        invariant
            cs@ == s@,
            0 <= n <= cs@.len(),
            trim_line_end(s@) == trim_line_end(cs@.take(n as int)),
        decreases n,
    {
        assert(cs@.take(n as int).drop_last() =~= cs@.take(n - 1));
        n = n - 1;
    }
    string_from_chars(vstd::slice::slice_subrange(cs.as_slice(), 0, n))
}

/// The matches of one event's submatches from `k` on, appended to `out`.
fn push_submatches(
    out: &mut Vec<Match>,
    subs: &Vec<RgSubmatch>,
    file: &String,
    line: u64,
    text: &String,
) -> (r: Result<(), String>)
    requires
        !submatches_overflow(subs@, 0),
    ensures
        match submatches_from(subs@, 0, file@, line, text@) {
            Ok(ms) => r is Ok && final(out)@.map_values(|m: Match| match_view(m)) == old(out)@.map_values(
                |m: Match| match_view(m),
            ) + ms,
            Err(e) => r is Err && r->Err_0@ == e,
        },
{
    let ghost start = out@.map_values(|m: Match| match_view(m));
    let mut k: usize = 0;
    while k < subs.len()
        invariant
            0 <= k <= subs@.len(),
            !submatches_overflow(subs@, k as int),
            start == old(out)@.map_values(|m: Match| match_view(m)),
            submatches_from(subs@, 0, file@, line, text@) == match submatches_from(subs@, k as int, file@, line, text@) {
                Ok(rest) => Ok(out@.map_values(|m: Match| match_view(m)).subrange(start.len() as int, out@.len() as int) + rest),
                Err(e) => Err::<Seq<MatchV>, Seq<char>>(e),
            },
            out@.len() >= start.len(),
            out@.map_values(|m: Match| match_view(m)).subrange(0, start.len() as int) == start,
        decreases subs@.len() - k,
    {
        let sub = subs[k];
        let s = match sub.start {
            Some(s) => s,
            None => {
                return Err(owned("ripgrep omitted match start"));
            },
        };
        let e = match sub.end {
            Some(e) => e,
            None => {
                return Err(owned("ripgrep omitted match end"));
            },
        };
        let ghost before = out@;
        out.push(Match { file: copy_string(file), line, column: s + 1, end_column: e + 1, text: copy_string(text) });
        proof {
            let bv = before.map_values(|m: Match| match_view(m));
            let av = out@.map_values(|m: Match| match_view(m));
            assert(av =~= bv.push((file@, line, (s + 1) as u64, (e + 1) as u64, text@)));
            assert(av.subrange(0, start.len() as int) =~= bv.subrange(0, start.len() as int));
            assert(av.subrange(start.len() as int, out@.len() as int) =~= bv.subrange(
                start.len() as int,
                before.len() as int,
            ).push((file@, line, (s + 1) as u64, (e + 1) as u64, text@)));
            match submatches_from(subs@, k + 1, file@, line, text@) {
                Ok(rest) => {
                    assert(bv.subrange(start.len() as int, before.len() as int) + (seq![
                        (file@, line, (s + 1) as u64, (e + 1) as u64, text@),
                    ] + rest) =~= av.subrange(start.len() as int, out@.len() as int) + rest);
                },
                Err(_) => {},
            }
        }
        k = k + 1;
    }
    proof {
        let av = out@.map_values(|m: Match| match_view(m));
        assert(av =~= av.subrange(0, start.len() as int) + av.subrange(start.len() as int, out@.len() as int));
        assert(av.subrange(start.len() as int, out@.len() as int) + Seq::<MatchV>::empty() =~= av.subrange(
            start.len() as int,
            out@.len() as int,
        ));
    }
    Ok(())
}

/// The matches that ripgrep reported, from its events in order (each the
/// event read from one line of its output, or why that line could not be
/// read), or the first problem with them.
pub fn matches_from_events(events: &Vec<Result<RgEvent, String>>) -> (r: Result<Vec<Match>, String>)
    requires
        !events_overflow(read_views(events@), 0),
    ensures
        match events_matches(read_views(events@), 0) {
            Ok(ms) => r is Ok && r->Ok_0@.map_values(|m: Match| match_view(m)) == ms,
            Err(e) => r is Err && r->Err_0@ == e,
        },
{
    let mut out: Vec<Match> = Vec::new();
    let mut i: usize = 0;
    while i < events.len()
        invariant
            0 <= i <= events@.len(),
            !events_overflow(read_views(events@), i as int),
            events_matches(read_views(events@), 0) == match events_matches(read_views(events@), i as int) {
                Ok(rest) => Ok(out@.map_values(|m: Match| match_view(m)) + rest),
                Err(e) => Err::<Seq<MatchV>, Seq<char>>(e),
            },
        decreases events@.len() - i,
    {
        let ghost before = out@.map_values(|m: Match| match_view(m));
        match &events[i] {
            Err(msg) => {
                let mut e = owned("could not read ripgrep output: ");
                append_str(&mut e, msg.as_str());
                return Err(e);
            },
            Ok(ev) => {
                let is_match = match &ev.kind {
                    Some(k) => crate::text::same_text(k.as_str(), "match"),
                    None => false,
                };
                if is_match {
                    let file = match &ev.path {
                        Some(p) => p,
                        None => {
                            return Err(owned("ripgrep returned a non-text file path"));
                        },
                    };
                    let line = match ev.line_number {
                        Some(n) => n,
                        None => {
                            return Err(owned("ripgrep omitted a line number"));
                        },
                    };
                    let text = match &ev.lines {
                        Some(t) => without_line_end(t.as_str()),
                        None => without_line_end("<binary line>"),
                    };
                    let subs = match &ev.submatches {
                        Some(s) => s,
                        None => {
                            return Err(owned("ripgrep omitted submatches"));
                        },
                    };
                    proof {
                        reveal_strlit("match");
                        assert(read_views(events@)[i as int] == read_view(events@[i as int]));
                        assert(!event_overflows(read_views(events@)[i as int]));
                    }
                    match push_submatches(&mut out, subs, file, line, &text) {
                        Ok(()) => {},
                        Err(e) => {
                            return Err(e);
                        },
                    }
                    proof {
                        match events_matches(read_views(events@), i + 1) {
                            Ok(rest) => {
                                let ms = event_matches(read_views(events@)[i as int])->Ok_0;
                                assert(before + (ms + rest) =~= out@.map_values(|m: Match| match_view(m)) + rest);
                            },
                            Err(_) => {},
                        }
                    }
                } else {
                    proof {
                        match events_matches(read_views(events@), i + 1) {
                            Ok(rest) => {
                                assert(Seq::<MatchV>::empty() + rest =~= rest);
                            },
                            Err(_) => {},
                        }
                    }
                }
            },
        }
        i = i + 1;
    }
    proof {
        let ov = out@.map_values(|m: Match| match_view(m));
        assert(ov + Seq::<MatchV>::empty() =~= ov);
    }
    Ok(out)
}

/// The event that `serde_json` reads from one line of ripgrep's output
/// (its type and, under `data`, the path text, line number, line text and
/// submatch offsets, each where it has that form), or the text of the
/// error that refuses the line.
pub uninterp spec fn rg_event_of(line: Seq<u8>) -> Result<RgEventV, Seq<char>>;

/// `serde_json::from_slice` of one line of ripgrep's JSON output into a
/// `serde_json::Value`, then the fields a map reads picked out of it with
/// `as_str`, `as_u64` and `as_array`; a refused line gives the error's
/// text. The result depends on the line alone, and is named `rg_event_of`.
#[verifier::external_body]
fn read_event(line: &[u8]) -> (r: Result<RgEvent, String>)
    ensures
        read_view(r) == rg_event_of(line@),
{
    let value: Value = serde_json::from_slice(line).map_err(|error| error.to_string())?;
    let data = &value["data"];
    Ok(RgEvent {
        kind: value["type"].as_str().map(str::to_owned),
        path: data["path"]["text"].as_str().map(str::to_owned),
        line_number: data["line_number"].as_u64(),
        lines: data["lines"]["text"].as_str().map(str::to_owned),
        submatches: data["submatches"].as_array().map(
            |items| items.iter().map(|item| RgSubmatch { start: item["start"].as_u64(), end: item["end"].as_u64() }).collect(),
        ),
    })
}

/// The events of ripgrep's output: each of its nonempty lines, read.
pub open spec fn output_events(output: Seq<u8>) -> Seq<Result<RgEventV, Seq<char>>> {
    nonempty(split_bytes(output, 10u8)).map_values(|line: Seq<u8>| rg_event_of(line))
}

/// The matches in ripgrep's JSON output, or the first problem with it;
/// nothing where reading it would reach a match offset that cannot be made
/// 1-based (`u64::MAX`), which no column can hold.
pub fn parse_rg_output(output: &[u8]) -> (r: Option<Result<Vec<Match>, String>>)
    ensures
        r is None <==> events_overflow(output_events(output@), 0),
        r matches Some(res) ==> match events_matches(output_events(output@), 0) {
            Ok(ms) => res is Ok && res->Ok_0@.map_values(|m: Match| match_view(m)) == ms,
            Err(e) => res is Err && res->Err_0@ == e,
        },
{
    let lines = nonempty_fields(output, 10u8);
    let ghost all = byte_views(lines@);
    let mut events: Vec<Result<RgEvent, String>> = Vec::new();
    let mut i: usize = 0;
    while i < lines.len()
        invariant
            all == byte_views(lines@),
            0 <= i <= lines@.len(),
            events@.len() == i,
            read_views(events@) == all.take(i as int).map_values(|line: Seq<u8>| rg_event_of(line)),
        decreases lines@.len() - i,
    {
        let ghost before = events@;
        let ev = read_event(lines[i].as_slice());
        events.push(ev);
        proof {
            assert(all[i as int] == lines@[i as int]@);
            assert(events@ == before.push(ev));
            assert forall|k: int| 0 <= k < events@.len() implies #[trigger] read_views(events@)[k] == all.take(
                i + 1,
            ).map_values(|line: Seq<u8>| rg_event_of(line))[k] by {
                if k < i {
                    assert(events@[k] == before[k]);
                    assert(read_views(before)[k] == read_view(before[k]));
                }
            }
        }
        i = i + 1;
        assert(read_views(events@) =~= all.take(i as int).map_values(|line: Seq<u8>| rg_event_of(line)));
    }
    assert(all.take(i as int) =~= all);
    assert(read_views(events@) =~= output_events(output@));
    if offsets_overflow(&events) {
        return None;
    }
    Some(matches_from_events(&events))
}

// ---------------------------------------------------------------------------
// How a run ended
// ---------------------------------------------------------------------------

/// What a finished ripgrep run means: success, or no match (exit code 1),
/// is fine; otherwise an error with what it wrote to stderr, or with its
/// status when it wrote nothing.
pub open spec fn rg_status_of(
    success: bool,
    code: Option<i32>,
    status_text: Seq<char>,
    stderr_text: Seq<char>,
) -> Result<(), Seq<char>> {
    if success || code == Some(1i32) {
        Ok(())
    } else if trim_spec(stderr_text).len() == 0 {
        Err("ripgrep exited unsuccessfully ("@ + status_text + ")"@)
    } else {
        Err("ripgrep could not compile or run the regex: "@ + trim_spec(stderr_text))
    }
}

/// Checks how a ripgrep run ended, from whether it succeeded, its exit
/// code, its status as text and what it wrote to stderr.
pub fn check_rg_status(success: bool, code: Option<i32>, status_text: &str, stderr_text: &str) -> (r: Result<
    (),
    String,
>)
    ensures
        match rg_status_of(success, code, status_text@, stderr_text@) {
            Ok(()) => r is Ok,
            Err(e) => r is Err && r->Err_0@ == e,
        },
{
    if success || code == Some(1i32) {
        return Ok(());
    }
    let details = trim(stderr_text);
    if details.unicode_len() == 0 {
        let mut e = owned("ripgrep exited unsuccessfully (");
        append_str(&mut e, status_text);
        append_str(&mut e, ")");
        Err(e)
    } else {
        let mut e = owned("ripgrep could not compile or run the regex: ");
        append_str(&mut e, details.as_str());
        Err(e)
    }
}

/// What a finished `git check-ignore` run means: success, or no path
/// ignored (exit code 1), is fine; otherwise an error with what it wrote
/// to stderr.
pub open spec fn ignore_status_of(success: bool, code: Option<i32>, stderr_text: Seq<char>) -> Result<(), Seq<char>> {
    if success || code == Some(1i32) {
        Ok(())
    } else {
        Err("could not apply ignore rules: "@ + trim_spec(stderr_text))
    }
}

/// Checks how a `git check-ignore` run ended.
pub fn check_ignore_status(success: bool, code: Option<i32>, stderr_text: &str) -> (r: Result<(), String>)
    ensures
        match ignore_status_of(success, code, stderr_text@) {
            Ok(()) => r is Ok,
            Err(e) => r is Err && r->Err_0@ == e,
        },
{
    if success || code == Some(1i32) {
        return Ok(());
    }
    let details = trim(stderr_text);
    let mut e = owned("could not apply ignore rules: ");
    append_str(&mut e, details.as_str());
    Err(e)
}

} // verus!
