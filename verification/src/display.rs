//! What `topo map` shows while it works and when it is done: numbers with
//! thousands separators, progress lines, and compact paths.
use vstd::prelude::*;

use crate::paths::{file_name, file_name_spec, join_path, joined, parent_is, parent_is_spec, rooted, is_rooted, strip_path_prefix, strip_prefix_spec};
use crate::text::{append_str, chars_of, decimal, decimal_u64, decimal_usize, owned, string_from_chars};

verus! {

// ---------------------------------------------------------------------------
// Numbers
// ---------------------------------------------------------------------------

/// The digits with a comma before each group of three, counting from the
/// right.
pub open spec fn group_digits(d: Seq<char>) -> Seq<char>
    decreases d.len(),
{
    if d.len() <= 3 {
        d
    } else {
        group_digits(d.subrange(0, d.len() - 3)) + seq![','] + d.subrange(d.len() - 3, d.len() as int)
    }
}

/// The characters of `s` that are not commas.
pub open spec fn without_commas(s: Seq<char>) -> Seq<char>
    decreases s.len(),
{
    if s.len() == 0 {
        s
    } else if s.last() == ',' {
        without_commas(s.drop_last())
    } else {
        without_commas(s.drop_last()).push(s.last())
    }
}

proof fn lemma_without_commas_add(a: Seq<char>, b: Seq<char>)
    ensures
        without_commas(a + b) == without_commas(a) + without_commas(b),
    decreases b.len(),
{
    if b.len() > 0 {
        lemma_without_commas_add(a, b.drop_last());
        assert((a + b).drop_last() =~= a + b.drop_last());
        assert((a + b).last() == b.last());
    } else {
        assert(a + b =~= a);
    }
}

proof fn lemma_without_commas_plain(s: Seq<char>)
    requires
        !s.contains(','),
    ensures
        without_commas(s) == s,
    decreases s.len(),
{
    if s.len() > 0 {
        assert(!s.drop_last().contains(',')) by {
            if s.drop_last().contains(',') {
                let k = choose|k: int| 0 <= k < s.drop_last().len() && s.drop_last()[k] == ',';
                assert(s[k] == ',');
            }
        }
        lemma_without_commas_plain(s.drop_last());
        assert(s.last() == s[s.len() - 1]);
        assert(s.drop_last().push(s.last()) =~= s);
    }
}

/// Taking the commas out of grouped digits gives the digits back.
pub proof fn lemma_group_digits_round_trip(d: Seq<char>)
    requires
        !d.contains(','),
    ensures
        without_commas(group_digits(d)) == d,
    decreases d.len(),
{
    if d.len() > 3 {
        let head = d.subrange(0, d.len() - 3);
        let tail = d.subrange(d.len() - 3, d.len() as int);
        assert(!head.contains(',')) by {
            if head.contains(',') {
                let k = choose|k: int| 0 <= k < head.len() && head[k] == ',';
                assert(d[k] == ',');
            }
        }
        assert(!tail.contains(',')) by {
            if tail.contains(',') {
                let k = choose|k: int| 0 <= k < tail.len() && tail[k] == ',';
                assert(d[d.len() - 3 + k] == ',');
            }
        }
        lemma_group_digits_round_trip(head);
        lemma_without_commas_add(group_digits(head) + seq![','], tail);
        lemma_without_commas_add(group_digits(head), seq![',']);
        assert(without_commas(seq![',']) =~= Seq::<char>::empty()) by {
            let one = seq![','];
            assert(one.drop_last() =~= Seq::<char>::empty());
            assert(one.last() == ',');
            assert(without_commas(one) == without_commas(one.drop_last()));
            assert(without_commas(Seq::<char>::empty()) == Seq::<char>::empty());
        }
        lemma_without_commas_plain(tail);
        assert(head + tail =~= d);
    } else {
        lemma_without_commas_plain(d);
    }
}

proof fn lemma_decimal_digits(n: nat)
    ensures
        !decimal(n).contains(','),
{
    crate::text::lemma_decimal_chars(n);
}

/// The digits with a comma before each group of three from the right.
fn grouped(d: &[char]) -> (r: Vec<char>)
    ensures
        r@ == group_digits(d@),
    decreases d@.len(),
{
    if d.len() <= 3 {
        let mut r: Vec<char> = Vec::new();
        let mut i: usize = 0;
        while i < d.len()
            invariant
                0 <= i <= d@.len(),
                r@ == d@.take(i as int),
            decreases d@.len() - i,
        {
            r.push(d[i]);
            i = i + 1;
            assert(r@ =~= d@.take(i as int));
        }
        assert(d@.take(i as int) =~= d@);
        r
    } else {
        let n = d.len();
        let mut r = grouped(vstd::slice::slice_subrange(d, 0, n - 3));
        r.push(',');
        r.push(d[n - 3]);
        r.push(d[n - 2]);
        r.push(d[n - 1]);
        assert(r@ =~= group_digits(d@));
        r
    }
}

/// The decimal numeral of a number with thousands separated by commas.
pub open spec fn format_number_spec(n: nat) -> Seq<char> {
    group_digits(decimal(n))
}

/// The decimal numeral of `number` with thousands separated by commas.
pub fn format_number(number: usize) -> (r: String)
    ensures
        r@ == format_number_spec(number as nat),
{
    let digits = decimal_usize(number);
    let cs = chars_of(digits.as_str());
    let g = grouped(cs.as_slice());
    string_from_chars(g.as_slice())
}

/// A formatted number reads back as the plain numeral once its commas are
/// taken out.
pub proof fn lemma_format_number_digits(n: nat)
    ensures
        without_commas(format_number_spec(n)) == decimal(n),
{
    lemma_decimal_digits(n);
    lemma_group_digits_round_trip(decimal(n));
}

/// Every character is an ASCII digit.
pub open spec fn all_digits(s: Seq<char>) -> bool {
    forall|i: int| 0 <= i < s.len() ==> '0' <= #[trigger] s[i] <= '9'
}

proof fn lemma_group_digits_groups(d: Seq<char>)
    requires
        d.len() > 0,
        all_digits(d),
    ensures
        ({
            let g = crate::text::split_spec(group_digits(d), ',');
            &&& 1 <= g[0].len() <= 3
            &&& forall|k: int| 1 <= k < g.len() ==> (#[trigger] g[k]).len() == 3
            &&& forall|k: int| 0 <= k < g.len() ==> all_digits(#[trigger] g[k])
        }),
    decreases d.len(),
{
    if d.len() <= 3 {
        crate::text::lemma_split_plain(d, ',');
    } else {
        let head = d.subrange(0, d.len() - 3);
        let tail = d.subrange(d.len() - 3, d.len() as int);
        assert(all_digits(head)) by {
            assert forall|i: int| 0 <= i < head.len() implies '0' <= #[trigger] head[i] <= '9' by {
                assert(head[i] == d[i]);
            }
        }
        assert(all_digits(tail)) by {
            assert forall|i: int| 0 <= i < tail.len() implies '0' <= #[trigger] tail[i] <= '9' by {
                assert(tail[i] == d[d.len() - 3 + i]);
            }
        }
        lemma_group_digits_groups(head);
        crate::text::lemma_split_append(group_digits(head), tail, ',');
        let p = crate::text::split_spec(group_digits(head), ',');
        let g = p.push(tail);
        assert(g[0] == p[0]) by {
            crate::text::lemma_split_len(group_digits(head), ',');
        }
        assert forall|k: int| 1 <= k < g.len() implies (#[trigger] g[k]).len() == 3 by {
            if k < p.len() {
                assert(g[k] == p[k]);
            }
        }
        assert forall|k: int| 0 <= k < g.len() implies all_digits(#[trigger] g[k]) by {
            if k < p.len() {
                assert(g[k] == p[k]);
            }
        }
    }
}

proof fn lemma_group_digits_chars(d: Seq<char>)
    requires
        all_digits(d),
    ensures
        forall|i: int|
            0 <= i < group_digits(d).len() ==> #[trigger] group_digits(d)[i] == ',' || '0' <= group_digits(d)[i]
                <= '9',
    decreases d.len(),
{
    if d.len() > 3 {
        let head = d.subrange(0, d.len() - 3);
        let tail = d.subrange(d.len() - 3, d.len() as int);
        assert(all_digits(head)) by {
            assert forall|i: int| 0 <= i < head.len() implies '0' <= #[trigger] head[i] <= '9' by {
                assert(head[i] == d[i]);
            }
        }
        lemma_group_digits_chars(head);
        let g = group_digits(d);
        let gh = group_digits(head);
        assert(g == gh + seq![','] + tail);
        assert forall|i: int| 0 <= i < g.len() implies #[trigger] g[i] == ',' || '0' <= g[i] <= '9' by {
            if i < gh.len() {
                assert(g[i] == gh[i]);
            } else if i > gh.len() {
                assert(g[i] == d[d.len() - 3 + (i - gh.len() - 1)]);
            }
        }
    }
}

/// A formatted number holds only digits and commas.
pub proof fn lemma_format_number_chars(n: nat)
    ensures
        forall|i: int|
            0 <= i < format_number_spec(n).len() ==> #[trigger] format_number_spec(n)[i] == ',' || '0'
                <= format_number_spec(n)[i] <= '9',
{
    crate::text::lemma_decimal_chars(n);
    lemma_group_digits_chars(decimal(n));
}

/// A formatted number is made of comma-separated groups of digits: the
/// first of one to three digits, each other of exactly three.
pub proof fn lemma_format_number_groups(n: nat)
    ensures
        ({
            let g = crate::text::split_spec(format_number_spec(n), ',');
            &&& 1 <= g[0].len() <= 3
            &&& forall|k: int| 1 <= k < g.len() ==> (#[trigger] g[k]).len() == 3
            &&& forall|k: int| 0 <= k < g.len() ==> all_digits(#[trigger] g[k])
        }),
{
    crate::text::lemma_decimal_chars(n);
    assert(decimal(n).len() > 0) by {
        reveal_with_fuel(decimal, 2);
        if n >= 10 {
            assert(decimal(n) == decimal(n / 10).push(crate::text::digit_char(n % 10)));
        }
    }
    lemma_group_digits_groups(decimal(n));
}

// ---------------------------------------------------------------------------
// Progress
// ---------------------------------------------------------------------------

/// `x * 100`, or `usize::MAX` where that does not fit.
pub open spec fn times_hundred_saturating(x: usize) -> usize {
    if x * 100 > usize::MAX {
        usize::MAX
    } else {
        (x * 100) as usize
    }
}

/// `x - 1`, or 0 for 0.
pub open spec fn minus_one_saturating(x: usize) -> usize {
    if x == 0 {
        0
    } else {
        (x - 1) as usize
    }
}

/// A progress line is refreshed when there is nothing to do, when all is
/// done, and when the whole percentage changes.
pub open spec fn refresh_spec(completed: usize, total: usize) -> bool {
    total == 0 || completed == total || times_hundred_saturating(completed) / total
        != times_hundred_saturating(minus_one_saturating(completed)) / total
}

fn times_hundred(x: usize) -> (r: usize)
    ensures
        r == times_hundred_saturating(x),
{
    if x > usize::MAX / 100 {
        usize::MAX
    } else {
        x * 100
    }
}

/// Whether a progress line should be shown again after `completed` of
/// `total` items.
pub fn should_refresh_progress(completed: usize, total: usize) -> (r: bool)
    ensures
        r == refresh_spec(completed, total),
        completed == total ==> r,
{
    if total == 0 || completed == total {
        return true;
    }
    let before = if completed == 0 {
        0
    } else {
        completed - 1
    };
    times_hundred(completed) / total != times_hundred(before) / total
}

/// The width of the progress bar.
pub const BAR_WIDTH: usize = 16;

/// `n` copies of the text `t`.
pub open spec fn repeat_text(t: Seq<char>, n: nat) -> Seq<char>
    decreases n,
{
    if n == 0 {
        Seq::empty()
    } else {
        repeat_text(t, (n - 1) as nat) + t
    }
}

/// `s` padded on the left with spaces to at least `width` characters.
pub open spec fn pad_left(s: Seq<char>, width: nat) -> Seq<char> {
    if s.len() >= width {
        s
    } else {
        repeat_text(seq![' '], (width - s.len()) as nat) + s
    }
}

/// The percentage and the filled cells of the bar after `completed` of
/// `total` items.
pub open spec fn progress_parts(completed: usize, total: usize) -> (nat, nat) {
    let c: int = if completed < total {
        completed as int
    } else {
        total as int
    };
    if total == 0 {
        (100, BAR_WIDTH as nat)
    } else {
        (((c * 100) / (total as int)) as nat, ((c * (BAR_WIDTH as int)) / (total as int)) as nat)
    }
}

/// The progress line of a phase: its label, a bar, the percentage, and the
/// number of files done of all.
pub open spec fn progress_line(label: Seq<char>, completed: usize, total: usize) -> Seq<char> {
    let c = if completed < total {
        completed as nat
    } else {
        total as nat
    };
    let (percentage, filled) = progress_parts(completed, total);
    let bar = repeat_text("█"@, filled) + repeat_text("░"@, (BAR_WIDTH - filled) as nat);
    let unit = if total == 1 {
        "file"@
    } else {
        "files"@
    };
    "󰄬  "@ + label + "  "@ + bar + "  "@ + pad_left(decimal(percentage), 3) + "%  "@ + format_number_spec(c)
        + " / "@ + format_number_spec(total as nat) + " "@ + unit
}

fn append_repeated(s: &mut String, t: &str, n: usize)
    ensures
        final(s)@ == old(s)@ + repeat_text(t@, n as nat),
{
    let mut i: usize = 0;
    while i < n
        invariant
            0 <= i <= n,
            s@ == old(s)@ + repeat_text(t@, i as nat),
        decreases n - i,
    {
        append_str(s, t);
        i = i + 1;
        assert(s@ =~= old(s)@ + repeat_text(t@, i as nat));
    }
}

fn progress_numbers(completed: usize, total: usize) -> (r: (usize, usize))
    requires
        (if completed < total {
            completed
        } else {
            total
        }) * 100 <= usize::MAX,
    ensures
        r.0 as nat == progress_parts(completed, total).0,
        r.1 as nat == progress_parts(completed, total).1,
        r.1 <= BAR_WIDTH,
{
    let c = if completed < total {
        completed
    } else {
        total
    };
    if total == 0 {
        (100usize, BAR_WIDTH)
    } else {
        assert(c * 16 <= c * 100) by (nonlinear_arith);
        assert((c as int) * 16 / (total as int) <= 16) by (nonlinear_arith)
            requires
                c <= total,
                total > 0,
        ;
        (c * 100 / total, c * BAR_WIDTH / total)
    }
}

fn progress_bar(filled: usize) -> (r: String)
    requires
        filled <= BAR_WIDTH,
    ensures
        r@ == repeat_text("█"@, filled as nat) + repeat_text("░"@, (BAR_WIDTH - filled) as nat),
{
    let mut r = String::new();
    append_repeated(&mut r, "█", filled);
    append_repeated(&mut r, "░", BAR_WIDTH - filled);
    r
}

fn padded(digits: &str, width: usize) -> (r: String)
    ensures
        r@ == pad_left(digits@, width as nat),
{
    let n = digits.unicode_len();
    let mut r = String::new();
    if n < width {
        append_repeated(&mut r, " ", width - n);
        proof {
            reveal_strlit(" ");
            assert(" "@ =~= seq![' ']);
        }
    }
    append_str(&mut r, digits);
    r
}

/// The progress line of a phase after `completed` of `total` files.
pub fn status_progress(label: &str, completed: usize, total: usize) -> (r: String)
    requires
        (if completed < total {
            completed
        } else {
            total
        }) * 100 <= usize::MAX,
    ensures
        r@ == progress_line(label@, completed, total),
{
    let c = if completed < total {
        completed
    } else {
        total
    };
    let (percentage, filled) = progress_numbers(completed, total);
    let bar = progress_bar(filled);
    let digits = decimal_usize(percentage);
    let pct = padded(digits.as_str(), 3);
    let done = format_number(c);
    let all = format_number(total);
    let unit = if total == 1 {
        "file"
    } else {
        "files"
    };
    let mut r = owned("󰄬  ");
    append_str(&mut r, label);
    append_str(&mut r, "  ");
    append_str(&mut r, bar.as_str());
    append_str(&mut r, "  ");
    append_str(&mut r, pct.as_str());
    append_str(&mut r, "%  ");
    append_str(&mut r, done.as_str());
    append_str(&mut r, " / ");
    append_str(&mut r, all.as_str());
    append_str(&mut r, " ");
    append_str(&mut r, unit);
    r
}

/// The line shown while a phase without a count runs.
pub open spec fn working_line(message: Seq<char>) -> Seq<char> {
    "󰄬  "@ + message
}

/// The line shown while a phase without a count runs.
pub fn status_working(message: &str) -> (r: String)
    ensures
        r@ == working_line(message@),
{
    let mut r = owned("󰄬  ");
    append_str(&mut r, message);
    r
}

/// The first line of a map: its pattern and where it scans.
pub fn header_line(pattern: &str, place: &str) -> (r: String)
    ensures
        r@ == "󰗄  "@ + pattern@ + "  󰉋  "@ + place@,
{
    let mut r = owned("󰗄  ");
    append_str(&mut r, pattern);
    append_str(&mut r, "  󰉋  ");
    append_str(&mut r, place);
    r
}

/// The summary line of a map: how many occurrences in how many files.
pub fn occurrences_line(occurrences: usize, files: usize) -> (r: String)
    ensures
        r@ == "󰈤  "@ + format_number_spec(occurrences as nat) + " occurrences in "@ + format_number_spec(
            files as nat,
        ) + " files"@,
{
    let mut r = owned("󰈤  ");
    let a = format_number(occurrences);
    append_str(&mut r, a.as_str());
    append_str(&mut r, " occurrences in ");
    let b = format_number(files);
    append_str(&mut r, b.as_str());
    append_str(&mut r, " files");
    r
}

/// The line that names a file that was written.
pub fn written_line(place: &str) -> (r: String)
    ensures
        r@ == "󰈙  "@ + place@,
{
    let mut r = owned("󰈙  ");
    append_str(&mut r, place);
    r
}

// ---------------------------------------------------------------------------
// File names and paths
// ---------------------------------------------------------------------------

/// The default name of a report: the scan directory's name (or `topo`),
/// the time it was made, and `.topo.json`.
pub open spec fn default_filename_spec(dir: Seq<char>, timestamp: u64) -> Seq<char> {
    let base = match file_name_spec(dir) {
        Some(n) => if n.len() > 0 {
            n
        } else {
            "topo"@
        },
        None => "topo"@,
    };
    base + "."@ + decimal(timestamp as nat) + ".topo.json"@
}

/// The default name of a report on `search_directory` made at `timestamp`.
pub fn default_filename(search_directory: &str, timestamp: u64) -> (r: String)
    ensures
        r@ == default_filename_spec(search_directory@, timestamp),
{
    let mut r = match file_name(search_directory) {
        Some(n) => if n.unicode_len() > 0 {
            n
        } else {
            owned("topo")
        },
        None => owned("topo"),
    };
    append_str(&mut r, ".");
    let t = decimal_u64(timestamp);
    append_str(&mut r, t.as_str());
    append_str(&mut r, ".topo.json");
    r
}

/// How a path is shown: by its name when it is in the current directory,
/// under `~` when it is under the home directory, and in full otherwise.
pub open spec fn display_path_spec(path: Seq<char>, current: Seq<char>, home: Option<Seq<char>>) -> Seq<char> {
    let absolute = if rooted(path) {
        path
    } else {
        joined(current, path)
    };
    if parent_is_spec(absolute, current) {
        match file_name_spec(absolute) {
            Some(n) => n,
            None => Seq::empty(),
        }
    } else {
        match home {
            Some(h) => match strip_prefix_spec(absolute, h) {
                Some(rel) => if rel.len() == 0 {
                    "~"@
                } else {
                    "~/"@ + rel
                },
                None => absolute,
            },
            None => absolute,
        }
    }
}

/// How `path` is shown, seen from `current_directory`.
pub fn display_path(path: &str, current_directory: &str, home: Option<&str>) -> (r: String)
    ensures
        r@ == display_path_spec(path@, current_directory@, home.deep_view()),
{
    let absolute = if is_rooted(path) {
        owned(path)
    } else {
        join_path(current_directory, path)
    };
    if parent_is(absolute.as_str(), current_directory) {
        return match file_name(absolute.as_str()) {
            Some(n) => n,
            None => String::new(),
        };
    }
    match home {
        Some(h) => match strip_path_prefix(absolute.as_str(), h) {
            Some(rel) => {
                if rel.unicode_len() == 0 {
                    owned("~")
                } else {
                    let mut r = owned("~/");
                    append_str(&mut r, rel.as_str());
                    r
                }
            },
            None => absolute,
        },
        None => absolute,
    }
}

} // verus!
