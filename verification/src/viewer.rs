//! The local report viewer: which reports it shows, the lines of a source
//! file, HTML escaping, the page, and the answer to a request.
use vstd::prelude::*;

use crate::cli::white_space;
use crate::model::FORMAT_VERSION;
use crate::page::{page_spec, viewer_template};
use crate::text::{append_str, chars_of, decimal, decimal_u64, decimal_usize, owned, push_char, same_text, split_char, split_spec, string_from_chars, views};

verus! {

// ---------------------------------------------------------------------------
// Which reports the viewer shows
// ---------------------------------------------------------------------------

/// What the viewer makes of a report with the given type (a map when it
/// has none) and format version: it shows maps and correlations of the
/// formats it reads.
pub open spec fn report_check_of(report_type: Option<Seq<char>>, version: Option<u64>) -> Result<(), Seq<char>> {
    let t = match report_type {
        Some(t) => t,
        None => "topo_map"@,
    };
    match version {
        None => Err("report is missing a numeric format_version"@),
        Some(v) => if t == "topo_map"@ && v <= FORMAT_VERSION {
            Ok(())
        } else if t == "topo_correlation"@ && v <= 1 {
            Ok(())
        } else if t == "topo_map"@ || t == "topo_correlation"@ {
            Err("unsupported "@ + t + " format version "@ + decimal(v as nat))
        } else {
            Err("unsupported report type `"@ + t + "`"@)
        },
    }
}

/// Checks that the viewer can show a report with the given type (where the
/// report gives one as text) and format version (where it gives one as a
/// number).
pub fn validate_report(report_type: Option<String>, format_version: Option<u64>) -> (r: Result<(), String>)
    ensures
        match report_check_of(report_type.deep_view(), format_version) {
            Ok(()) => r is Ok,
            Err(e) => r is Err && r->Err_0@ == e,
        },
{
    let t = match report_type {
        Some(t) => t,
        None => owned("topo_map"),
    };
    let v = match format_version {
        Some(v) => v,
        None => {
            return Err(owned("report is missing a numeric format_version"));
        },
    };
    let is_map = same_text(t.as_str(), "topo_map");
    let is_correlation = same_text(t.as_str(), "topo_correlation");
    if is_map && v <= FORMAT_VERSION as u64 {
        Ok(())
    } else if is_correlation && v <= 1 {
        Ok(())
    } else if is_map || is_correlation {
        let mut e = owned("unsupported ");
        append_str(&mut e, t.as_str());
        append_str(&mut e, " format version ");
        let d = decimal_u64(v);
        append_str(&mut e, d.as_str());
        Err(e)
    } else {
        let mut e = owned("unsupported report type `");
        append_str(&mut e, t.as_str());
        append_str(&mut e, "`");
        Err(e)
    }
}

// ---------------------------------------------------------------------------
// Source lines and HTML
// ---------------------------------------------------------------------------

/// `s` without one `\r` at its end.
pub open spec fn without_cr(s: Seq<char>) -> Seq<char> {
    if s.len() > 0 && s.last() == '\r' {
        s.drop_last()
    } else {
        s
    }
}

/// The lines of a source file as the viewer highlights them: one empty
/// line for an empty file; otherwise the pieces between line feeds, but
/// for an empty piece after a final line feed; each without a final `\r`.
pub open spec fn source_lines_spec(content: Seq<char>) -> Seq<Seq<char>> {
    if content.len() == 0 {
        seq![Seq::<char>::empty()]
    } else {
        let p = split_spec(content, '\n');
        let q = if p.last().len() == 0 {
            p.drop_last()
        } else {
            p
        };
        q.map_values(|l: Seq<char>| without_cr(l))
    }
}

/// `s` without one `\r` at its end.
fn strip_cr(s: &str) -> (r: String)
    ensures
        r@ == without_cr(s@),
{
    let cs = chars_of(s);
    if cs.len() > 0 && cs[cs.len() - 1] == '\r' {
        string_from_chars(vstd::slice::slice_subrange(cs.as_slice(), 0, cs.len() - 1))
    } else {
        owned(s)
    }
}

/// The lines of a source file as the viewer highlights them.
pub fn source_lines(content: &str) -> (r: Vec<String>)
    ensures
        views(r@) == source_lines_spec(content@),
{
    if content.unicode_len() == 0 {
        let mut r: Vec<String> = Vec::new();
        r.push(String::new());
        assert(views(r@) =~= seq![Seq::<char>::empty()]);
        return r;
    }
    let mut parts = split_char(content, '\n');
    proof {
        crate::text::lemma_split_len(content@, '\n');
    }
    let ghost all = views(parts@);
    if parts[parts.len() - 1].unicode_len() == 0 {
        parts.pop();
        assert(views(parts@) =~= all.drop_last());
    }
    let ghost q = views(parts@);
    let mut r: Vec<String> = Vec::new();
    let mut i: usize = 0;
    while i < parts.len()
        invariant
            q == views(parts@),
            0 <= i <= parts@.len(),
            r@.len() == i,
            forall|k: int| 0 <= k < i ==> (#[trigger] r@[k])@ == without_cr(q[k]),
        decreases parts@.len() - i,
    {
        proof {
            assert(q[i as int] == parts@[i as int]@);
        }
        r.push(strip_cr(parts[i].as_str()));
        i = i + 1;
    }
    assert(views(r@) =~= q.map_values(|l: Seq<char>| without_cr(l)));
    r
}

/// How a character is written in HTML text.
pub open spec fn html_char(c: char) -> Seq<char> {
    if c == '&' {
        "&amp;"@
    } else if c == '<' {
        "&lt;"@
    } else if c == '>' {
        "&gt;"@
    } else if c == '"' {
        "&quot;"@
    } else if c == '\'' {
        "&#39;"@
    } else {
        seq![c]
    }
}

/// `s` written as HTML text.
pub open spec fn escape_html_spec(s: Seq<char>) -> Seq<char>
    decreases s.len(),
{
    if s.len() == 0 {
        s
    } else {
        escape_html_spec(s.drop_last()) + html_char(s.last())
    }
}

/// `value` written as HTML text: `&`, `<`, `>`, `"` and `'` as entities.
pub fn escape_html(value: &str) -> (r: String)
    ensures
        r@ == escape_html_spec(value@),
{
    let cs = chars_of(value);
    let mut r = String::new();
    let mut i: usize = 0;
    while i < cs.len()
        invariant
            cs@ == value@,
            0 <= i <= cs@.len(),
            r@ == escape_html_spec(cs@.take(i as int)),
        decreases cs@.len() - i,
    {
        let c = cs[i];
        if c == '&' {
            append_str(&mut r, "&amp;");
        } else if c == '<' {
            append_str(&mut r, "&lt;");
        } else if c == '>' {
            append_str(&mut r, "&gt;");
        } else if c == '"' {
            append_str(&mut r, "&quot;");
        } else if c == '\'' {
            append_str(&mut r, "&#39;");
        } else {
            push_char(&mut r, c);
        }
        i = i + 1;
        assert(cs@.take(i as int).drop_last() == cs@.take(i - 1));
    }
    assert(cs@.take(i as int) == cs@);
    r
}

/// Escaped text holds none of the characters that HTML gives a meaning:
/// no `<`, `>`, `"` or `'`.
pub proof fn lemma_escape_html_inert(s: Seq<char>)
    ensures
        !escape_html_spec(s).contains('<'),
        !escape_html_spec(s).contains('>'),
        !escape_html_spec(s).contains('"'),
        !escape_html_spec(s).contains('\''),
    decreases s.len(),
{
    reveal_strlit("&amp;");
    reveal_strlit("&lt;");
    reveal_strlit("&gt;");
    reveal_strlit("&quot;");
    reveal_strlit("&#39;");
    if s.len() > 0 {
        lemma_escape_html_inert(s.drop_last());
        let p = escape_html_spec(s.drop_last());
        let h = html_char(s.last());
        let r = escape_html_spec(s);
        assert(r == p + h);
        assert forall|c: char| c == '<' || c == '>' || c == '"' || c == '\'' implies !r.contains(c) by {
            if r.contains(c) {
                let k = choose|k: int| 0 <= k < r.len() && r[k] == c;
                if k < p.len() {
                    assert(p[k] == c);
                    assert(p.contains(c));
                } else {
                    assert(h[k - p.len()] == c);
                }
            }
        }
    }
}

/// A character that HTML text writes as an entity.
pub open spec fn is_special_html(c: char) -> bool {
    c == '&' || c == '<' || c == '>' || c == '"' || c == '\''
}

/// `t` begins with `p`.
pub open spec fn begins_with(t: Seq<char>, p: Seq<char>) -> bool {
    p.len() <= t.len() && t.take(p.len() as int) == p
}

pub open spec fn amp_entity() -> Seq<char> {
    seq!['&', 'a', 'm', 'p', ';']
}

pub open spec fn lt_entity() -> Seq<char> {
    seq!['&', 'l', 't', ';']
}

pub open spec fn gt_entity() -> Seq<char> {
    seq!['&', 'g', 't', ';']
}

pub open spec fn quot_entity() -> Seq<char> {
    seq!['&', 'q', 'u', 'o', 't', ';']
}

pub open spec fn apos_entity() -> Seq<char> {
    seq!['&', '#', '3', '9', ';']
}

/// `t` begins with one of the entities that escaping writes.
pub open spec fn begins_entity(t: Seq<char>) -> bool {
    ||| begins_with(t, amp_entity())
    ||| begins_with(t, lt_entity())
    ||| begins_with(t, gt_entity())
    ||| begins_with(t, quot_entity())
    ||| begins_with(t, apos_entity())
}

/// Escaped HTML text read back: each entity that escaping writes becomes
/// its character again, read from left to right.
pub open spec fn unescape_html_spec(e: Seq<char>) -> Seq<char>
    decreases e.len(),
{
    if e.len() == 0 {
        e
    } else if begins_with(e, amp_entity()) {
        seq!['&'] + unescape_html_spec(e.skip(5))
    } else if begins_with(e, lt_entity()) {
        seq!['<'] + unescape_html_spec(e.skip(4))
    } else if begins_with(e, gt_entity()) {
        seq!['>'] + unescape_html_spec(e.skip(4))
    } else if begins_with(e, quot_entity()) {
        seq!['"'] + unescape_html_spec(e.skip(6))
    } else if begins_with(e, apos_entity()) {
        seq!['\''] + unescape_html_spec(e.skip(5))
    } else {
        seq![e[0]] + unescape_html_spec(e.skip(1))
    }
}

proof fn lemma_html_char_entities(c: char)
    ensures
        c == '&' ==> html_char(c) == amp_entity(),
        c == '<' ==> html_char(c) == lt_entity(),
        c == '>' ==> html_char(c) == gt_entity(),
        c == '"' ==> html_char(c) == quot_entity(),
        c == '\'' ==> html_char(c) == apos_entity(),
        !is_special_html(c) ==> html_char(c) == seq![c],
{
    reveal_strlit("&amp;");
    reveal_strlit("&lt;");
    reveal_strlit("&gt;");
    reveal_strlit("&quot;");
    reveal_strlit("&#39;");
    assert("&amp;"@ =~= amp_entity());
    assert("&lt;"@ =~= lt_entity());
    assert("&gt;"@ =~= gt_entity());
    assert("&quot;"@ =~= quot_entity());
    assert("&#39;"@ =~= apos_entity());
}

proof fn lemma_escape_html_add(a: Seq<char>, b: Seq<char>)
    ensures
        escape_html_spec(a + b) == escape_html_spec(a) + escape_html_spec(b),
    decreases b.len(),
{
    if b.len() == 0 {
        assert(a + b =~= a);
        assert(escape_html_spec(a) + escape_html_spec(b) =~= escape_html_spec(a));
    } else {
        lemma_escape_html_add(a, b.drop_last());
        assert((a + b).drop_last() =~= a + b.drop_last());
        assert((a + b).last() == b.last());
        assert(escape_html_spec(a) + escape_html_spec(b.drop_last()) + html_char(b.last()) =~= escape_html_spec(
            a,
        ) + (escape_html_spec(b.drop_last()) + html_char(b.last())));
    }
}

/// Reading back one escaped character and what follows.
proof fn lemma_unescape_char(c: char, rest: Seq<char>)
    ensures
        unescape_html_spec(html_char(c) + rest) == seq![c] + unescape_html_spec(rest),
{
    lemma_html_char_entities(c);
    let e = html_char(c) + rest;
    if c == '&' {
        assert(e.take(5) =~= amp_entity());
        assert(e.skip(5) =~= rest);
    } else if c == '<' {
        assert(e[1] == 'l');
        assert(e.take(5) != amp_entity() || e.len() < 5) by {
            if e.len() >= 5 {
                assert(e.take(5)[1] != amp_entity()[1]);
            }
        }
        assert(e.take(4) =~= lt_entity());
        assert(e.skip(4) =~= rest);
    } else if c == '>' {
        assert(!begins_with(e, amp_entity())) by {
            if e.len() >= 5 {
                assert(e.take(5)[1] != amp_entity()[1]);
            }
        }
        assert(!begins_with(e, lt_entity())) by {
            assert(e.take(4)[1] != lt_entity()[1]);
        }
        assert(e.take(4) =~= gt_entity());
        assert(e.skip(4) =~= rest);
    } else if c == '"' {
        assert(!begins_with(e, amp_entity())) by {
            assert(e.take(5)[1] != amp_entity()[1]);
        }
        assert(!begins_with(e, lt_entity())) by {
            assert(e.take(4)[1] != lt_entity()[1]);
        }
        assert(!begins_with(e, gt_entity())) by {
            assert(e.take(4)[1] != gt_entity()[1]);
        }
        assert(e.take(6) =~= quot_entity());
        assert(e.skip(6) =~= rest);
    } else if c == '\'' {
        assert(!begins_with(e, amp_entity())) by {
            assert(e.take(5)[1] != amp_entity()[1]);
        }
        assert(!begins_with(e, lt_entity())) by {
            assert(e.take(4)[1] != lt_entity()[1]);
        }
        assert(!begins_with(e, gt_entity())) by {
            assert(e.take(4)[1] != gt_entity()[1]);
        }
        assert(!begins_with(e, quot_entity())) by {
            if e.len() >= 6 {
                assert(e.take(6)[1] != quot_entity()[1]);
            }
        }
        assert(e.take(5) =~= apos_entity());
        assert(e.skip(5) =~= rest);
    } else {
        assert(e[0] == c);
        assert(!begins_with(e, amp_entity())) by {
            if e.len() >= 5 {
                assert(e.take(5)[0] != amp_entity()[0]);
            }
        }
        assert(!begins_with(e, lt_entity())) by {
            if e.len() >= 4 {
                assert(e.take(4)[0] != lt_entity()[0]);
            }
        }
        assert(!begins_with(e, gt_entity())) by {
            if e.len() >= 4 {
                assert(e.take(4)[0] != gt_entity()[0]);
            }
        }
        assert(!begins_with(e, quot_entity())) by {
            if e.len() >= 6 {
                assert(e.take(6)[0] != quot_entity()[0]);
            }
        }
        assert(!begins_with(e, apos_entity())) by {
            if e.len() >= 5 {
                assert(e.take(5)[0] != apos_entity()[0]);
            }
        }
        assert(e.skip(1) =~= rest);
    }
}

/// Reading escaped text back gives the text that was escaped.
proof fn lemma_unescape_escape(s: Seq<char>)
    ensures
        unescape_html_spec(escape_html_spec(s)) == s,
    decreases s.len(),
{
    if s.len() > 0 {
        lemma_unescape_escape(s.drop_first());
        lemma_escape_html_add(seq![s[0]], s.drop_first());
        assert(seq![s[0]] + s.drop_first() =~= s);
        let one = seq![s[0]];
        assert(one.drop_last() =~= Seq::<char>::empty());
        assert(one.last() == s[0]);
        assert(escape_html_spec(one.drop_last()) =~= Seq::<char>::empty());
        assert(escape_html_spec(one) =~= html_char(s[0]));
        lemma_unescape_char(s[0], escape_html_spec(s.drop_first()));
    }
}

/// Every `&` of escaped text begins an entity.
proof fn lemma_escape_ampersands(s: Seq<char>)
    ensures
        forall|i: int|
            0 <= i < escape_html_spec(s).len() && escape_html_spec(s)[i] == '&' ==> begins_entity(
                #[trigger] escape_html_spec(s).skip(i),
            ),
    decreases s.len(),
{
    if s.len() > 0 {
        lemma_escape_ampersands(s.drop_last());
        let p = escape_html_spec(s.drop_last());
        let c = s.last();
        let h = html_char(c);
        let r = escape_html_spec(s);
        lemma_html_char_entities(c);
        assert(r == p + h);
        assert forall|i: int| 0 <= i < r.len() && r[i] == '&' implies begins_entity(#[trigger] r.skip(i)) by {
            if i < p.len() {
                assert(p[i] == '&');
                assert(begins_entity(p.skip(i)));
                let ps = p.skip(i);
                assert(r.skip(i) =~= ps + h);
                assert forall|q: Seq<char>| begins_with(ps, q) implies begins_with(ps + h, q) by {
                    assert((ps + h).take(q.len() as int) =~= ps.take(q.len() as int));
                }
            } else {
                assert(h[i - p.len()] == '&');
                assert(i == p.len());
                assert(r.skip(i) =~= h);
                assert(h.take(h.len() as int) =~= h);
            }
        }
    }
}

/// Escaping writes `&` only to begin an entity, leaves text with no
/// character that HTML gives a meaning as it is, and reading the escaped
/// text back gives the text again.
pub proof fn lemma_escape_html_entities(s: Seq<char>)
    ensures
        forall|i: int|
            0 <= i < escape_html_spec(s).len() && escape_html_spec(s)[i] == '&' ==> begins_entity(
                #[trigger] escape_html_spec(s).skip(i),
            ),
        (forall|i: int| 0 <= i < s.len() ==> !is_special_html(#[trigger] s[i])) ==> escape_html_spec(s) == s,
        unescape_html_spec(escape_html_spec(s)) == s,
{
    lemma_escape_ampersands(s);
    lemma_unescape_escape(s);
    if forall|i: int| 0 <= i < s.len() ==> !is_special_html(#[trigger] s[i]) {
        lemma_escape_plain(s);
    }
}

proof fn lemma_escape_plain(s: Seq<char>)
    requires
        forall|i: int| 0 <= i < s.len() ==> !is_special_html(#[trigger] s[i]),
    ensures
        escape_html_spec(s) == s,
    decreases s.len(),
{
    if s.len() > 0 {
        assert forall|i: int| 0 <= i < s.drop_last().len() implies !is_special_html(#[trigger] s.drop_last()[i]) by {
            assert(s.drop_last()[i] == s[i]);
        }
        lemma_escape_plain(s.drop_last());
        assert(!is_special_html(s[s.len() - 1]));
        lemma_html_char_entities(s.last());
        assert(s.drop_last().push(s.last()) =~= s);
    }
}

// ---------------------------------------------------------------------------
// The page
// ---------------------------------------------------------------------------

/// The lowercase hexadecimal digit for `d` (meant for `d < 16`).
pub open spec fn hex_digit(d: nat) -> char {
    if d < 10 {
        crate::text::digit_char(d)
    } else if d == 10 {
        'a'
    } else if d == 11 {
        'b'
    } else if d == 12 {
        'c'
    } else if d == 13 {
        'd'
    } else if d == 14 {
        'e'
    } else {
        'f'
    }
}

/// How a character is written inside a JSON string: quote and backslash
/// after a backslash; backspace, tab, line feed, form feed and carriage
/// return as `\b`, `\t`, `\n`, `\f`, `\r`; the other characters below
/// U+0020 as `\u00` and two lowercase hexadecimal digits; every other
/// character as it is.
pub open spec fn json_char(c: char) -> Seq<char> {
    if c == '"' {
        seq!['\\', '"']
    } else if c == '\\' {
        seq!['\\', '\\']
    } else if c == '\u{8}' {
        seq!['\\', 'b']
    } else if c == '\t' {
        seq!['\\', 't']
    } else if c == '\n' {
        seq!['\\', 'n']
    } else if c == '\u{c}' {
        seq!['\\', 'f']
    } else if c == '\r' {
        seq!['\\', 'r']
    } else if (c as nat) < 0x20 {
        seq!['\\', 'u', '0', '0', hex_digit((c as nat) / 16), hex_digit((c as nat) % 16)]
    } else {
        seq![c]
    }
}

/// The characters of `s` written inside a JSON string.
pub open spec fn json_escaped(s: Seq<char>) -> Seq<char>
    decreases s.len(),
{
    if s.len() == 0 {
        s
    } else {
        json_escaped(s.drop_last()) + json_char(s.last())
    }
}

/// The JSON text of an optional string: `null`, or the string between
/// quotes with its characters escaped.
pub open spec fn json_text(value: Option<Seq<char>>) -> Seq<char> {
    match value {
        None => seq!['n', 'u', 'l', 'l'],
        Some(s) => seq!['"'] + json_escaped(s) + seq!['"'],
    }
}

/// `serde_json::to_string` of an optional string: `null`, or the string
/// between quotes, escaped as `json_char` says (the escapes that
/// serde_json's serializer writes); serialising an optional string does
/// not fail.
#[verifier::external_body]
fn json_of(value: Option<&str>) -> (r: String)
    ensures
        r@ == json_text(value.deep_view()),
{
    serde_json::to_string(&value).unwrap_or_default()
}

/// `s` with each occurrence of `pat`, from the left and not overlapping,
/// replaced by `rep` (as `str::replace`).
pub open spec fn replace_all(s: Seq<char>, pat: Seq<char>, rep: Seq<char>) -> Seq<char>
    decreases s.len(),
{
    if s.len() == 0 || pat.len() == 0 {
        s
    } else if pat.len() <= s.len() && s.take(pat.len() as int) == pat {
        rep + replace_all(s.skip(pat.len() as int), pat, rep)
    } else {
        seq![s[0]] + replace_all(s.drop_first(), pat, rep)
    }
}

/// Whether `cs[at..]` starts with `pat`.
fn starts_at(cs: &Vec<char>, at: usize, pat: &Vec<char>) -> (r: bool)
    requires
        at <= cs@.len(),
    ensures
        r == (pat@.len() <= cs@.len() - at && cs@.skip(at as int).take(pat@.len() as int) == pat@),
{
    if pat.len() > cs.len() - at {
        return false;
    }
    let mut k: usize = 0;
    while k < pat.len()
        invariant
            at <= cs@.len(),
            cs@.len() <= usize::MAX,
            pat@.len() <= cs@.len() - at,
            0 <= k <= pat@.len(),
            forall|x: int| 0 <= x < k ==> cs@[at + x] == pat@[x],
        decreases pat@.len() - k,
    {
        if cs[at + k] != pat[k] {
            assert(cs@.skip(at as int).take(pat@.len() as int)[k as int] != pat@[k as int]);
            return false;
        }
        k = k + 1;
    }
    assert(cs@.skip(at as int).take(pat@.len() as int) =~= pat@);
    true
}

/// `s` with each occurrence of `pat` replaced by `rep`.
pub fn replace_text(s: &str, pat: &str, rep: &str) -> (r: String)
    ensures
        r@ == replace_all(s@, pat@, rep@),
{
    let cs = chars_of(s);
    let ps = chars_of(pat);
    if ps.len() == 0 {
        return owned(s);
    }
    let mut r = String::new();
    let mut i: usize = 0;
    assert(cs@.skip(0) =~= cs@);
    assert(r@ + replace_all(cs@.skip(0), pat@, rep@) =~= replace_all(s@, pat@, rep@));
    while i < cs.len()
        invariant
            cs@ == s@,
            ps@ == pat@,
            ps@.len() > 0,
            0 <= i <= cs@.len(),
            replace_all(s@, pat@, rep@) == r@ + replace_all(cs@.skip(i as int), pat@, rep@),
        decreases cs@.len() - i,
    {
        let ghost rest = cs@.skip(i as int);
        if starts_at(&cs, i, &ps) {
            append_str(&mut r, rep);
            proof {
                assert(rest.skip(ps@.len() as int) =~= cs@.skip(i + ps@.len()));
            }
            i = i + ps.len();
        } else {
            push_char(&mut r, cs[i]);
            proof {
                assert(rest.drop_first() =~= cs@.skip(i + 1));
                assert(rest[0] == cs@[i as int]);
            }
            i = i + 1;
        }
    }
    proof {
        assert(cs@.skip(i as int).len() == 0);
    }
    r
}

/// The viewer page with the home directory filled in as JSON.
pub fn viewer_html(home_directory: Option<&str>) -> (r: String)
    ensures
        r@ == replace_all(page_spec(), "__TOPO_HOME__"@, json_text(home_directory.deep_view())),
{
    let home = json_of(home_directory);
    let template = viewer_template();
    replace_text(template.as_str(), "__TOPO_HOME__", home.as_str())
}

// ---------------------------------------------------------------------------
// Requests
// ---------------------------------------------------------------------------

/// The words of `s`, separated by white space (as `str::split_whitespace`).
pub open spec fn words(s: Seq<char>) -> Seq<Seq<char>>
    decreases s.len(),
{
    if s.len() == 0 {
        Seq::empty()
    } else {
        let w = words(s.drop_last());
        let c = s.last();
        if white_space(c) {
            w
        } else if s.len() >= 2 && !white_space(s[s.len() - 2]) && w.len() > 0 {
            w.update(w.len() - 1, w.last().push(c))
        } else {
            w.push(seq![c])
        }
    }
}

/// What a request asks for.
#[derive(Clone, Copy, Debug, PartialEq, Eq, Structural)]
pub enum Route {
    /// The viewer page.
    Page,
    /// The report data.
    Report,
    /// The site icon, which there is none of.
    Icon,
    /// Anything else.
    Missing,
}

/// The path that a request line asks for: its second word, without the
/// query, or `/`.
pub open spec fn request_path(line: Seq<char>) -> Seq<char> {
    let w = words(line);
    let target = if w.len() > 1 {
        w[1]
    } else {
        "/"@
    };
    split_spec(target, '?')[0]
}

/// What the path asks for.
pub open spec fn route_of(path: Seq<char>) -> Route {
    if path == "/"@ {
        Route::Page
    } else if path == "/report.json"@ {
        Route::Report
    } else if path == "/favicon.ico"@ {
        Route::Icon
    } else {
        Route::Missing
    }
}

/// The second word of `s`, if it has one.
fn second_word(s: &str) -> (r: Option<String>)
    ensures
        r.deep_view() == (if words(s@).len() > 1 {
            Some(words(s@)[1])
        } else {
            None
        }),
{
    let cs = chars_of(s);
    let mut ws: Vec<String> = Vec::new();
    let mut cur = String::new();
    let mut in_word = false;
    let mut i: usize = 0;
    while i < cs.len()
        invariant
            cs@ == s@,
            0 <= i <= cs@.len(),
            in_word ==> i > 0 && !white_space(cs@[i - 1]),
            !in_word ==> (i == 0 || white_space(cs@[i - 1])),
            in_word ==> views(ws@).push(cur@) == words(cs@.take(i as int)),
            !in_word ==> views(ws@) == words(cs@.take(i as int)),
        decreases cs@.len() - i,
    {
        let c = cs[i];
        let ghost pre = cs@.take(i as int);
        let ghost post = cs@.take(i + 1);
        proof {
            assert(post.drop_last() == pre);
            assert(post.last() == c);
            if i > 0 {
                assert(post[post.len() - 2] == cs@[i - 1]);
            }
        }
        if crate::cli::is_white_space(c) {
            if in_word {
                let ghost before = views(ws@);
                ws.push(cur);
                cur = String::new();
                assert(views(ws@) =~= before.push(views(ws@).last()));
            }
            in_word = false;
        } else {
            if in_word {
                push_char(&mut cur, c);
                assert(views(ws@).push(cur@) =~= words(post));
            } else {
                cur = String::new();
                push_char(&mut cur, c);
                assert(cur@ =~= seq![c]);
            }
            in_word = true;
        }
        i = i + 1;
    }
    assert(cs@.take(i as int) == cs@);
    if in_word {
        ws.push(cur);
    }
    if ws.len() > 1 {
        proof {
            assert(views(ws@)[1] == ws@[1]@);
        }
        Some(crate::text::copy_string(&ws[1]))
    } else {
        None
    }
}

/// What a request line asks for.
pub fn route(request_line: &str) -> (r: Route)
    ensures
        r == route_of(request_path(request_line@)),
{
    let target = match second_word(request_line) {
        Some(w) => w,
        None => owned("/"),
    };
    let pieces = split_char(target.as_str(), '?');
    proof {
        crate::text::lemma_split_len(target@, '?');
        assert(views(pieces@)[0] == pieces@[0]@);
    }
    let path = pieces[0].as_str();
    if same_text(path, "/") {
        Route::Page
    } else if same_text(path, "/report.json") {
        Route::Report
    } else if same_text(path, "/favicon.ico") {
        Route::Icon
    } else {
        Route::Missing
    }
}

/// The head of an HTTP response with the given status, content type and
/// body length.
pub open spec fn response_head_spec(status: Seq<char>, content_type: Seq<char>, length: nat) -> Seq<char> {
    "HTTP/1.1 "@ + status + "\r\nContent-Type: "@ + content_type + "\r\nContent-Length: "@ + decimal(length)
        + "\r\nConnection: close\r\n\r\n"@
}

/// The head of an HTTP response with the given status, content type and
/// body length.
pub fn response_head(status: &str, content_type: &str, length: usize) -> (r: String)
    ensures
        r@ == response_head_spec(status@, content_type@, length as nat),
{
    let mut r = owned("HTTP/1.1 ");
    append_str(&mut r, status);
    append_str(&mut r, "\r\nContent-Type: ");
    append_str(&mut r, content_type);
    append_str(&mut r, "\r\nContent-Length: ");
    let d = decimal_usize(length);
    append_str(&mut r, d.as_str());
    append_str(&mut r, "\r\nConnection: close\r\n\r\n");
    r
}

} // verus!
