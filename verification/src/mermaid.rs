//! The Mermaid sidecar of a map: one node per file, grouped in a subgraph
//! per directory that holds files directly, nested as the directories
//! nest, with the targets highlighted.
use vstd::prelude::*;

use crate::display::{format_number, format_number_spec, repeat_text};
use crate::model::{Graph, MapMode, Node};
use crate::order::{keys_ascending, lemma_text_order, search_str, text_lt};
use crate::text::{chars_of, decimal, decimal_usize, join_spec, join_strings, split_char, split_spec, string_from_chars, views};

verus! {

// ---------------------------------------------------------------------------
// Labels
// ---------------------------------------------------------------------------

/// `s` with every double quote written as `#quot;`.
pub open spec fn mermaid_label_spec(s: Seq<char>) -> Seq<char>
    decreases s.len(),
{
    if s.len() == 0 {
        s
    } else if s.last() == '"' {
        mermaid_label_spec(s.drop_last()) + "#quot;"@
    } else {
        mermaid_label_spec(s.drop_last()).push(s.last())
    }
}

/// Appends the characters of `s` to `out`.
fn push_chars(out: &mut Vec<char>, s: &str)
    ensures
        final(out)@ == old(out)@ + s@,
{
    let cs = chars_of(s);
    let mut i: usize = 0;
    while i < cs.len()
        invariant
            cs@ == s@,
            0 <= i <= cs@.len(),
            out@ == old(out)@ + cs@.take(i as int),
        decreases cs@.len() - i,
    {
        out.push(cs[i]);
        i = i + 1;
        assert(out@ =~= old(out)@ + cs@.take(i as int));
    }
    assert(cs@.take(i as int) == cs@);
}

/// A label as Mermaid reads it inside double quotes.
pub fn mermaid_label(label: &str) -> (r: String)
    ensures
        r@ == mermaid_label_spec(label@),
{
    let cs = chars_of(label);
    let mut out: Vec<char> = Vec::new();
    let mut i: usize = 0;
    while i < cs.len()
        invariant
            cs@ == label@,
            0 <= i <= cs@.len(),
            out@ == mermaid_label_spec(cs@.take(i as int)),
        decreases cs@.len() - i,
    {
        if cs[i] == '"' {
            push_chars(&mut out, "#quot;");
        } else {
            out.push(cs[i]);
        }
        i = i + 1;
        assert(cs@.take(i as int).drop_last() == cs@.take(i - 1));
    }
    assert(cs@.take(i as int) == cs@);
    string_from_chars(out.as_slice())
}

/// A label written for Mermaid holds no double quote, so it cannot end
/// the quoted text early.
pub proof fn lemma_mermaid_label_unquoted(s: Seq<char>)
    ensures
        !mermaid_label_spec(s).contains('"'),
    decreases s.len(),
{
    reveal_strlit("#quot;");
    if s.len() > 0 {
        lemma_mermaid_label_unquoted(s.drop_last());
        let p = mermaid_label_spec(s.drop_last());
        let r = mermaid_label_spec(s);
        assert(!r.contains('"')) by {
            if r.contains('"') {
                let k = choose|k: int| 0 <= k < r.len() && r[k] == '"';
                if k < p.len() {
                    assert(r[k] == p[k]);
                }
            }
        }
    }
}

// ---------------------------------------------------------------------------
// Directories
// ---------------------------------------------------------------------------

/// The directories of a node's path, outermost first.
pub open spec fn node_dirs(n: Node) -> Seq<Seq<char>> {
    split_spec(n.label@, '/').drop_last()
}

/// The last part of a node's path.
pub open spec fn leaf_name(n: Node) -> Seq<char> {
    split_spec(n.label@, '/').last()
}

/// The directory `d` is `prefix` or lies inside it.
pub open spec fn under(d: Seq<Seq<char>>, prefix: Seq<Seq<char>>) -> bool {
    prefix.len() <= d.len() && d.subrange(0, prefix.len() as int) == prefix
}

/// `c` names a subdirectory of `dir` that holds some file.
pub open spec fn is_child(nodes: Seq<Node>, dir: Seq<Seq<char>>, c: Seq<char>) -> bool {
    exists|i: int| 0 <= i < nodes.len() && under(node_dirs(#[trigger] nodes[i]), dir.push(c))
}

/// `s` lists the subdirectories of `dir` that hold files, ascending.
pub open spec fn is_child_list(s: Seq<Seq<char>>, nodes: Seq<Node>, dir: Seq<Seq<char>>) -> bool {
    keys_ascending(s) && forall|c: Seq<char>| s.contains(c) <==> is_child(nodes, dir, c)
}

/// The subdirectories of `dir` that hold files, ascending.
pub open spec fn children(nodes: Seq<Node>, dir: Seq<Seq<char>>) -> Seq<Seq<char>> {
    choose|s: Seq<Seq<char>>| is_child_list(s, nodes, dir)
}

/// Some file lies directly in `dir`.
pub open spec fn has_files(nodes: Seq<Node>, dir: Seq<Seq<char>>) -> bool {
    exists|i: int| 0 <= i < nodes.len() && node_dirs(#[trigger] nodes[i]) == dir
}

/// The deepest nesting of directories among the nodes.
pub open spec fn depth(nodes: Seq<Node>) -> nat
    decreases nodes.len(),
{
    if nodes.len() == 0 {
        0
    } else {
        let d = depth(nodes.drop_last());
        let l = node_dirs(nodes.last()).len();
        if l > d {
            l
        } else {
            d
        }
    }
}

proof fn lemma_depth(nodes: Seq<Node>, i: int)
    requires
        0 <= i < nodes.len(),
    ensures
        node_dirs(nodes[i]).len() <= depth(nodes),
    decreases nodes.len(),
{
    if i < nodes.len() - 1 {
        lemma_depth(nodes.drop_last(), i);
        assert(nodes.drop_last()[i] == nodes[i]);
    }
}

/// Two ascending lists with the same members are the same list.
proof fn lemma_ascending_unique(a: Seq<Seq<char>>, b: Seq<Seq<char>>)
    requires
        keys_ascending(a),
        keys_ascending(b),
        forall|c: Seq<char>| a.contains(c) <==> b.contains(c),
    ensures
        a == b,
    decreases a.len(),
{
    if a.len() == 0 {
        if b.len() > 0 {
            assert(b.contains(b[0]));
        }
    } else {
        assert(a.contains(a[0]));
        let j = choose|j: int| 0 <= j < b.len() && b[j] == a[0];
        assert(b.contains(b[0]));
        let i = choose|i: int| 0 <= i < a.len() && a[i] == b[0];
        if j > 0 {
            if i > 0 {
                lemma_text_order(a[0], a[i], b[j]);
                lemma_text_order(b[0], b[j], a[i]);
            }
            lemma_text_order(b[0], b[j], b[0]);
        }
        assert(a[0] == b[0]);
        let ta = a.drop_first();
        let tb = b.drop_first();
        assert forall|c: Seq<char>| ta.contains(c) <==> tb.contains(c) by {
            if ta.contains(c) {
                let x = choose|x: int| 0 <= x < ta.len() && ta[x] == c;
                assert(a[x + 1] == c);
                assert(a.contains(c));
                assert(text_lt(a[0], a[x + 1]));
                lemma_text_order(a[0], c, a[0]);
                assert(b.contains(c));
                let y = choose|y: int| 0 <= y < b.len() && b[y] == c;
                assert(y != 0);
                assert(tb[y - 1] == c);
            }
            if tb.contains(c) {
                let y = choose|y: int| 0 <= y < tb.len() && tb[y] == c;
                assert(b[y + 1] == c);
                assert(b.contains(c));
                assert(text_lt(b[0], b[y + 1]));
                lemma_text_order(b[0], c, b[0]);
                assert(a.contains(c));
                let x = choose|x: int| 0 <= x < a.len() && a[x] == c;
                assert(x != 0);
                assert(ta[x - 1] == c);
            }
        }
        lemma_ascending_unique(ta, tb);
        assert(a =~= seq![a[0]] + ta);
        assert(b =~= seq![b[0]] + tb);
    }
}

/// Any list of the subdirectories of `dir` is the list.
proof fn lemma_children(s: Seq<Seq<char>>, nodes: Seq<Node>, dir: Seq<Seq<char>>)
    requires
        is_child_list(s, nodes, dir),
    ensures
        children(nodes, dir) == s,
{
    let t = children(nodes, dir);
    assert(is_child_list(t, nodes, dir));
    lemma_ascending_unique(s, t);
}

// ---------------------------------------------------------------------------
// Lines of the diagram
// ---------------------------------------------------------------------------

/// The indentation of a line at `indent` levels.
pub open spec fn pad(indent: nat) -> Seq<char> {
    repeat_text("    "@, indent)
}

/// The index of the last of the first `n` nodes with id `id`, or -1.
pub open spec fn last_with_id(nodes: Seq<Node>, id: Seq<char>, n: int) -> int
    decreases n,
{
    if n <= 0 {
        -1
    } else if nodes[n - 1].id@ == id {
        n - 1
    } else {
        last_with_id(nodes, id, n - 1)
    }
}

/// The Mermaid name of the node with id `id`: `N` and the index of the
/// last node with that id.
pub open spec fn node_name(nodes: Seq<Node>, id: Seq<char>) -> Seq<char> {
    "N"@ + decimal(last_with_id(nodes, id, nodes.len() as int) as nat)
}

/// What a node shows: its file name, with its match count unless the map
/// is of file names only, marked when it is a target of a full map.
pub open spec fn node_text(n: Node, mode: MapMode) -> Seq<char> {
    let name = leaf_name(n);
    match n.match_count {
        Some(c) => if mode == MapMode::Filenames {
            name
        } else if mode == MapMode::All && n.is_target {
            "◆ "@ + name + " ("@ + format_number_spec(c as nat) + ")"@
        } else {
            name + " ("@ + format_number_spec(c as nat) + ")"@
        },
        None => name,
    }
}

proof fn lemma_label_plain_suffix(a: Seq<char>, b: Seq<char>)
    requires
        !b.contains('"'),
    ensures
        mermaid_label_spec(a + b) == mermaid_label_spec(a) + b,
    decreases b.len(),
{
    if b.len() == 0 {
        assert(a + b =~= a);
    } else {
        lemma_label_plain_suffix(a, b.drop_last());
        assert((a + b).drop_last() =~= a + b.drop_last());
        assert((a + b).last() == b.last());
        assert(b.last() == b[b.len() - 1]);
        assert(mermaid_label_spec(a) + b.drop_last().push(b.last()) =~= mermaid_label_spec(a) + b);
    }
}

/// In every mode but a filenames map, the diagram's line for a node with
/// a match count ends with that count, formatted, in parentheses, closing
/// the node's label.
pub proof fn lemma_node_line_shows_its_count(nodes: Seq<Node>, i: int, indent: nat, mode: MapMode)
    requires
        0 <= i < nodes.len(),
        nodes[i].match_count is Some,
        mode != MapMode::Filenames,
    ensures
        (" ("@ + format_number_spec(nodes[i].match_count->Some_0 as nat) + ")\"]\n"@).is_suffix_of(
            node_line(nodes, i, indent, mode),
        ),
{
    let n = nodes[i];
    let c = n.match_count->Some_0 as nat;
    lemma_node_shows_its_count(n, mode);
    let t = node_text(n, mode);
    let tail = " ("@ + format_number_spec(c) + ")"@;
    let head = t.subrange(0, t.len() - tail.len());
    assert(t =~= head + tail);
    crate::display::lemma_format_number_chars(c);
    reveal_strlit(" (");
    reveal_strlit(")");
    reveal_strlit(")\"]\n");
    reveal_strlit("\"]\n");
    assert(!tail.contains('"')) by {
        if tail.contains('"') {
            let k = choose|k: int| 0 <= k < tail.len() && tail[k] == '"';
            if 2 <= k < tail.len() - 1 {
                assert(tail[k] == format_number_spec(c)[k - 2]);
            }
        }
    }
    lemma_label_plain_suffix(head, tail);
    let line = node_line(nodes, i, indent, mode);
    let end = " ("@ + format_number_spec(c) + ")\"]\n"@;
    assert(end =~= tail + "\"]\n"@);
    assert(line == pad(indent) + node_name(nodes, nodes[i].id@) + "[\""@ + mermaid_label_spec(head) + tail
        + "\"]\n"@);
    assert(line.subrange(line.len() - end.len(), line.len() as int) =~= end);
}

/// Every mode but a filenames map shows each node's match count: the text
/// of a node with a count ends with it, formatted, in parentheses after
/// the file name; a filenames map, or a node without a count, shows the
/// file name alone.
pub proof fn lemma_node_shows_its_count(n: Node, mode: MapMode)
    ensures
        n.match_count is Some && mode != MapMode::Filenames ==> (" ("@ + format_number_spec(
            n.match_count->Some_0 as nat,
        ) + ")"@).is_suffix_of(node_text(n, mode)),
        n.match_count is Some && mode != MapMode::Filenames ==> leaf_name(n).is_prefix_of(node_text(n, mode))
            || ("◆ "@ + leaf_name(n)).is_prefix_of(node_text(n, mode)),
        mode == MapMode::Filenames || n.match_count is None ==> node_text(n, mode) == leaf_name(n),
{
    if n.match_count is Some && mode != MapMode::Filenames {
        let c = n.match_count->Some_0;
        let name = leaf_name(n);
        let tail = " ("@ + format_number_spec(c as nat) + ")"@;
        let t = node_text(n, mode);
        if mode == MapMode::All && n.is_target {
            let head = "◆ "@ + name;
            assert(t == head + tail);
            assert(t.subrange(t.len() - tail.len(), t.len() as int) =~= tail);
            assert(t.subrange(0, head.len() as int) =~= head);
        } else {
            assert(t == name + tail);
            assert(t.subrange(t.len() - tail.len(), t.len() as int) =~= tail);
            assert(t.subrange(0, name.len() as int) =~= name);
        }
    }
}

/// The line of the `i`-th node.
pub open spec fn node_line(nodes: Seq<Node>, i: int, indent: nat, mode: MapMode) -> Seq<char> {
    pad(indent) + node_name(nodes, nodes[i].id@) + "[\""@ + mermaid_label_spec(node_text(nodes[i], mode))
        + "\"]\n"@
}

/// The lines of the first `n` nodes that lie directly in `dir`.
pub open spec fn file_lines(nodes: Seq<Node>, dir: Seq<Seq<char>>, indent: nat, mode: MapMode, n: int) -> Seq<
    char,
>
    decreases n,
{
    if n <= 0 {
        Seq::empty()
    } else {
        file_lines(nodes, dir, indent, mode, n - 1) + if node_dirs(nodes[n - 1]) == dir {
            node_line(nodes, n - 1, indent, mode)
        } else {
            Seq::empty()
        }
    }
}

/// The line that opens the subgraph of `dir`, numbered `id`.
pub open spec fn subgraph_line(dir: Seq<Seq<char>>, indent: nat, id: nat) -> Seq<char> {
    pad(indent) + "subgraph D"@ + decimal(id) + "[\""@ + mermaid_label_spec(join_spec(dir, "/"@)) + "\"]\n"@
}

/// The lines of the directory `dir` at `indent`, with subgraphs numbered
/// from `next`: its files, then its subdirectories in order; the number
/// after the last subgraph comes with them.
pub open spec fn block(nodes: Seq<Node>, dir: Seq<Seq<char>>, indent: nat, next: nat, mode: MapMode) -> (
    Seq<char>,
    nat,
)
    decreases depth(nodes) - dir.len(), children(nodes, dir).len() + 1,
{
    let (t, n) = subdirs(nodes, dir, children(nodes, dir), 0, indent, next, mode);
    (file_lines(nodes, dir, indent, mode, nodes.len() as int) + t, n)
}

/// The lines of the subdirectories `cs[k..]` of `dir`: one that holds files
/// directly is a subgraph, named by its full path, with its lines one level
/// deeper; any other is written in place.
pub open spec fn subdirs(
    nodes: Seq<Node>,
    dir: Seq<Seq<char>>,
    cs: Seq<Seq<char>>,
    k: int,
    indent: nat,
    next: nat,
    mode: MapMode,
) -> (Seq<char>, nat)
    decreases depth(nodes) - dir.len(), cs.len() - k,
{
    if k < 0 || k >= cs.len() || dir.len() >= depth(nodes) {
        (Seq::empty(), next)
    } else {
        let c = dir.push(cs[k]);
        if has_files(nodes, c) {
            let (inner, n1) = block(nodes, c, indent + 1, next + 1, mode);
            let (rest, n2) = subdirs(nodes, dir, cs, k + 1, indent, n1, mode);
            (subgraph_line(c, indent, next) + inner + pad(indent) + "end\n"@ + rest, n2)
        } else {
            let (inner, n1) = block(nodes, c, indent, next, mode);
            let (rest, n2) = subdirs(nodes, dir, cs, k + 1, indent, n1, mode);
            (inner + rest, n2)
        }
    }
}

/// The names of the first `n` nodes that a full map marks as targets.
pub open spec fn target_names(nodes: Seq<Node>, mode: MapMode, n: int) -> Seq<Seq<char>>
    decreases n,
{
    if n <= 0 {
        Seq::empty()
    } else if mode == MapMode::All && nodes[n - 1].is_target {
        target_names(nodes, mode, n - 1).push(node_name(nodes, nodes[n - 1].id@))
    } else {
        target_names(nodes, mode, n - 1)
    }
}

/// The style of target nodes.
pub open spec fn target_style() -> Seq<char> {
    "    classDef target fill:#FEF3C7,stroke:#D97706,stroke-width:3px,color:#451A03\n"@
}

/// The Mermaid diagram of a graph.
pub open spec fn mermaid_spec(nodes: Seq<Node>, mode: MapMode) -> Seq<char> {
    let targets = target_names(nodes, mode, nodes.len() as int);
    "flowchart LR\n"@ + block(nodes, Seq::empty(), 1, 0, mode).0 + if targets.len() == 0 {
        Seq::empty()
    } else {
        target_style() + "    class "@ + join_spec(targets, ","@) + " target\n"@
    }
}

// ---------------------------------------------------------------------------
// Writing the diagram
// ---------------------------------------------------------------------------

/// The directories of a node's path.
fn dirs_of(node: &Node) -> (r: Vec<String>)
    ensures
        views(r@) == node_dirs(*node),
{
    let mut parts = split_char(node.label.as_str(), '/');
    proof {
        crate::text::lemma_split_len(node.label@, '/');
    }
    let ghost all = parts@;
    parts.pop();
    assert(views(parts@) =~= views(all).drop_last());
    parts
}

/// Whether `d` is `prefix` or lies inside it.
fn is_under(d: &Vec<String>, prefix: &Vec<String>) -> (r: bool)
    ensures
        r == under(views(d@), views(prefix@)),
{
    if prefix.len() > d.len() {
        return false;
    }
    let mut k: usize = 0;
    while k < prefix.len()
        invariant
            prefix@.len() <= d@.len(),
            0 <= k <= prefix@.len(),
            forall|x: int| 0 <= x < k ==> views(d@)[x] == views(prefix@)[x],
        decreases prefix@.len() - k,
    {
        if !crate::text::same_text(d[k].as_str(), prefix[k].as_str()) {
            proof {
                assert(views(d@).subrange(0, prefix@.len() as int)[k as int] != views(prefix@)[k as int]);
            }
            return false;
        }
        k = k + 1;
    }
    assert(views(d@).subrange(0, prefix@.len() as int) =~= views(prefix@));
    true
}

/// Whether two directories are the same.
fn same_dir(a: &Vec<String>, b: &Vec<String>) -> (r: bool)
    ensures
        r == (views(a@) == views(b@)),
{
    if a.len() != b.len() {
        proof {
            assert(views(a@).len() != views(b@).len());
        }
        return false;
    }
    let r = is_under(a, b);
    proof {
        assert(views(a@) =~= views(a@).subrange(0, views(b@).len() as int));
    }
    r
}

/// The subdirectories of `dir` that hold files, ascending.
fn child_names(nodes: &Vec<Node>, dir: &Vec<String>) -> (r: Vec<String>)
    ensures
        is_child_list(views(r@), nodes@, views(dir@)),
        r@.len() > 0 ==> dir@.len() < depth(nodes@),
{
    let ghost dv = views(dir@);
    let mut r: Vec<String> = Vec::new();
    let mut i: usize = 0;
    while i < nodes.len()
        invariant
            dv == views(dir@),
            0 <= i <= nodes@.len(),
            keys_ascending(views(r@)),
            forall|c: Seq<char>|
                views(r@).contains(c) <==> exists|j: int|
                    0 <= j < i && under(node_dirs(#[trigger] nodes@[j]), dv.push(c)),
            r@.len() > 0 ==> dir@.len() < depth(nodes@),
        decreases nodes@.len() - i,
    {
        let d = dirs_of(&nodes[i]);
        let ghost before = r@;
        let ghost nd = node_dirs(nodes@[i as int]);
        if d.len() > dir.len() && is_under(&d, dir) {
            let name = &d[dir.len()];
            proof {
                lemma_depth(nodes@, i as int);
                assert(nd[dv.len() as int] == name@);
                assert(nd.subrange(0, dv.len() as int + 1) =~= nd.subrange(0, dv.len() as int).push(nd[dv.len() as int]));
                assert(under(nd, dv.push(name@)));
            }
            match search_str(&r, name.as_str()) {
                Ok(pos) => {
                    proof {
                        assert forall|c: Seq<char>| views(r@).contains(c) <==> exists|j: int|
                            0 <= j < i + 1 && under(node_dirs(#[trigger] nodes@[j]), dv.push(c)) by {
                            if exists|j: int| 0 <= j < i + 1 && under(node_dirs(#[trigger] nodes@[j]), dv.push(c)) {
                                let j = choose|j: int| 0 <= j < i + 1 && under(node_dirs(#[trigger] nodes@[j]), dv.push(c));
                                if j == i {
                                    assert(nd.subrange(0, dv.len() as int + 1)[dv.len() as int] == c);
                                    assert(c == name@);
                                    assert(views(r@)[pos as int] == c);
                                }
                            }
                        }
                    }
                },
                Err(pos) => {
                    r.insert(pos, crate::text::copy_string(name));
                    proof {
                        assert(views(r@) =~= views(before).insert(pos as int, name@));
                        assert forall|k: int| 0 <= k < pos implies text_lt(#[trigger] views(before)[k], name@) by {
                            assert(views(before)[k] == before[k]@);
                        }
                        assert forall|k: int| pos <= k < views(before).len() implies text_lt(
                            name@,
                            #[trigger] views(before)[k],
                        ) by {
                            assert(views(before)[k] == before[k]@);
                        }
                        crate::order::lemma_insert_ascending(views(before), pos as int, name@);
                        assert forall|c: Seq<char>| views(r@).contains(c) <==> exists|j: int|
                            0 <= j < i + 1 && under(node_dirs(#[trigger] nodes@[j]), dv.push(c)) by {
                            if views(r@).contains(c) {
                                let k = choose|k: int| 0 <= k < views(r@).len() && views(r@)[k] == c;
                                if k < pos {
                                    assert(views(before)[k] == c);
                                    assert(views(before).contains(c));
                                } else if k > pos {
                                    assert(views(before)[k - 1] == c);
                                    assert(views(before).contains(c));
                                } else {
                                    assert(under(node_dirs(nodes@[i as int]), dv.push(c)));
                                }
                            }
                            if exists|j: int| 0 <= j < i + 1 && under(node_dirs(#[trigger] nodes@[j]), dv.push(c)) {
                                let j = choose|j: int| 0 <= j < i + 1 && under(node_dirs(#[trigger] nodes@[j]), dv.push(c));
                                if j == i {
                                    assert(nd.subrange(0, dv.len() as int + 1)[dv.len() as int] == c);
                                    assert(views(r@)[pos as int] == c);
                                } else {
                                    assert(views(before).contains(c));
                                    let k = choose|k: int| 0 <= k < views(before).len() && views(before)[k] == c;
                                    if k < pos {
                                        assert(views(r@)[k] == c);
                                    } else {
                                        assert(views(r@)[k + 1] == c);
                                    }
                                }
                            }
                        }
                    }
                },
            }
        } else {
            proof {
                assert forall|c: Seq<char>| views(r@).contains(c) <==> exists|j: int|
                    0 <= j < i + 1 && under(node_dirs(#[trigger] nodes@[j]), dv.push(c)) by {
                    if exists|j: int| 0 <= j < i + 1 && under(node_dirs(#[trigger] nodes@[j]), dv.push(c)) {
                        let j = choose|j: int| 0 <= j < i + 1 && under(node_dirs(#[trigger] nodes@[j]), dv.push(c));
                        if j == i {
                            assert(nd.subrange(0, dv.len() as int) =~= nd.subrange(0, dv.len() as int + 1).subrange(
                                0,
                                dv.len() as int,
                            ));
                            assert(dv.push(c).subrange(0, dv.len() as int) =~= dv);
                        }
                    }
                }
            }
        }
        i = i + 1;
    }
    proof {
        assert forall|c: Seq<char>| views(r@).contains(c) <==> is_child(nodes@, dv, c) by {
            if is_child(nodes@, dv, c) {
                let j = choose|j: int| 0 <= j < nodes@.len() && under(node_dirs(#[trigger] nodes@[j]), dv.push(c));
            }
        }
    }
    r
}

/// The Mermaid name of the node with id `id`, which some node has.
fn name_of(nodes: &Vec<Node>, id: &str) -> (r: String)
    requires
        exists|j: int| 0 <= j < nodes@.len() && (#[trigger] nodes@[j]).id@ == id@,
    ensures
        r@ == node_name(nodes@, id@),
{
    let mut last: usize = 0;
    let mut i: usize = 0;
    while i < nodes.len()
        invariant
            0 <= i <= nodes@.len(),
            last_with_id(nodes@, id@, i as int) >= 0 ==> last as int == last_with_id(nodes@, id@, i as int),
        decreases nodes@.len() - i,
    {
        if crate::text::same_text(nodes[i].id.as_str(), id) {
            last = i;
        }
        i = i + 1;
    }
    proof {
        let j = choose|j: int| 0 <= j < nodes@.len() && (#[trigger] nodes@[j]).id@ == id@;
        lemma_last_with_id(nodes@, id@, nodes@.len() as int, j);
    }
    let mut r = crate::text::owned("N");
    let d = decimal_usize(last);
    crate::text::append_str(&mut r, d.as_str());
    r
}

proof fn lemma_last_with_id(nodes: Seq<Node>, id: Seq<char>, n: int, j: int)
    requires
        0 <= j < n <= nodes.len(),
        nodes[j].id@ == id,
    ensures
        j <= last_with_id(nodes, id, n) < n,
        nodes[last_with_id(nodes, id, n)].id@ == id,
    decreases n,
{
    if nodes[n - 1].id@ != id {
        lemma_last_with_id(nodes, id, n - 1, j);
    }
}

/// What a node shows.
fn node_text_of(node: &Node, mode: MapMode) -> (r: String)
    ensures
        r@ == node_text(*node, mode),
{
    let parts = split_char(node.label.as_str(), '/');
    proof {
        crate::text::lemma_split_len(node.label@, '/');
    }
    let name = parts[parts.len() - 1].as_str();
    proof {
        assert(views(parts@).last() == name@);
    }
    match node.match_count {
        Some(c) => {
            if matches!(mode, MapMode::Filenames) {
                crate::text::owned(name)
            } else {
                let count = format_number(c);
                let mut r = if matches!(mode, MapMode::All) && node.is_target {
                    let mut r = crate::text::owned("◆ ");
                    crate::text::append_str(&mut r, name);
                    r
                } else {
                    crate::text::owned(name)
                };
                crate::text::append_str(&mut r, " (");
                crate::text::append_str(&mut r, count.as_str());
                crate::text::append_str(&mut r, ")");
                r
            }
        },
        None => crate::text::owned(name),
    }
}

/// Appends `indent` levels of indentation.
fn push_pad(out: &mut Vec<char>, indent: usize)
    ensures
        final(out)@ == old(out)@ + pad(indent as nat),
{
    let mut k: usize = 0;
    while k < indent
        invariant
            0 <= k <= indent,
            out@ == old(out)@ + pad(k as nat),
        decreases indent - k,
    {
        push_chars(out, "    ");
        k = k + 1;
        assert(out@ =~= old(out)@ + pad(k as nat));
    }
}

/// Appends the line of the `i`-th node.
pub fn write_mermaid_node(out: &mut Vec<char>, nodes: &Vec<Node>, i: usize, indent: usize, mode: MapMode)
    requires
        i < nodes@.len(),
    ensures
        final(out)@ == old(out)@ + node_line(nodes@, i as int, indent as nat, mode),
{
    push_pad(out, indent);
    let name = name_of(nodes, nodes[i].id.as_str());
    push_chars(out, name.as_str());
    push_chars(out, "[\"");
    let text = node_text_of(&nodes[i], mode);
    let label = mermaid_label(text.as_str());
    push_chars(out, label.as_str());
    push_chars(out, "\"]\n");
    assert(out@ =~= old(out)@ + node_line(nodes@, i as int, indent as nat, mode));
}

/// Appends the lines of the nodes that lie directly in `dir`.
fn write_files(
    out: &mut Vec<char>,
    tree: &DirectoryTree,
    nodes: &Vec<Node>,
    dir: &Vec<String>,
    indent: usize,
    mode: MapMode,
)
    requires
        indexes(*tree, nodes@, nodes@.len() as int),
    ensures
        final(out)@ == old(out)@ + file_lines(nodes@, views(dir@), indent as nat, mode, nodes@.len() as int),
{
    proof {
        lemma_file_lines(nodes@, views(dir@), indent as nat, mode, nodes@.len() as int);
    }
    match files_of_dir(tree, dir) {
        None => {
            proof {
                lemma_files_in_present(nodes@, views(dir@), nodes@.len() as int);
                if files_in(nodes@, views(dir@), nodes@.len() as int).len() > 0 {
                    let i = choose|i: int| 0 <= i < nodes@.len() && #[trigger] node_dirs(nodes@[i]) == views(dir@);
                    assert(tree_dirs(*tree).contains(node_dirs(nodes@[i])));
                }
                assert(old(out)@ + node_lines_of(nodes@, Seq::<usize>::empty(), indent as nat, mode) =~= old(out)@);
            }
        },
        Some(files) => {
            let ghost idx = files@;
            let mut k: usize = 0;
            while k < files.len()
                invariant
                    idx == files@,
                    idx == files_in(nodes@, views(dir@), nodes@.len() as int),
                    forall|x: int| 0 <= x < idx.len() ==> (#[trigger] idx[x]) < nodes@.len(),
                    0 <= k <= idx.len(),
                    out@ == old(out)@ + node_lines_of(nodes@, idx.take(k as int), indent as nat, mode),
                decreases idx.len() - k,
            {
                write_mermaid_node(out, nodes, files[k], indent, mode);
                k = k + 1;
                assert(idx.take(k as int).drop_last() =~= idx.take(k - 1));
                assert(out@ =~= old(out)@ + node_lines_of(nodes@, idx.take(k as int), indent as nat, mode));
            }
            assert(idx.take(k as int) =~= idx);
        },
    }
}

/// Appends the lines of the directory `dir` at `indent`, numbering its
/// subgraphs from `*next`.
#[verifier::spinoff_prover]
#[verifier::rlimit(50)]
pub fn write_directory_tree(
    out: &mut Vec<char>,
    tree: &DirectoryTree,
    nodes: &Vec<Node>,
    dir: &Vec<String>,
    indent: usize,
    next: &mut usize,
    mode: MapMode,
)
    requires
        indexes(*tree, nodes@, nodes@.len() as int),
        *old(next) as int <= old(out)@.len(),
    ensures
        final(out)@ == old(out)@ + block(nodes@, views(dir@), indent as nat, *old(next) as nat, mode).0,
        *final(next) as nat == block(nodes@, views(dir@), indent as nat, *old(next) as nat, mode).1,
        *final(next) as int <= final(out)@.len(),
    decreases depth(nodes@) - dir@.len(),
{
    let ghost dv = views(dir@);
    let ghost start = out@;
    let ghost next0 = *next as nat;
    write_files(out, tree, nodes, dir, indent, mode);
    let cs = child_names(nodes, dir);
    proof {
        lemma_children(views(cs@), nodes@, dv);
    }
    let ghost files = file_lines(nodes@, dv, indent as nat, mode, nodes@.len() as int);
    let ghost mid = out@;
    let mut k: usize = 0;
    while k < cs.len()
        invariant
            dv == views(dir@),
            indexes(*tree, nodes@, nodes@.len() as int),
            views(cs@) == children(nodes@, dv),
            cs@.len() > 0 ==> dir@.len() < depth(nodes@),
            0 <= k <= cs@.len(),
            mid == start + files,
            out@.len() >= mid.len(),
            *next as int <= out@.len(),
            subdirs(nodes@, dv, views(cs@), 0, indent as nat, next0, mode) == (
                out@.subrange(mid.len() as int, out@.len() as int) + subdirs(
                    nodes@,
                    dv,
                    views(cs@),
                    k as int,
                    indent as nat,
                    *next as nat,
                    mode,
                ).0,
                subdirs(nodes@, dv, views(cs@), k as int, indent as nat, *next as nat, mode).1,
            ),
            out@.subrange(0, mid.len() as int) == mid,
        decreases cs@.len() - k,
    {
        let ghost before = out@;
        let ghost n0 = *next as nat;
        let mut child = crate::text::copy_vec_strings(dir);
        child.push(crate::text::copy_string(&cs[k]));
        let ghost cv = views(child@);
        proof {
            assert(cv =~= dv.push(views(cs@)[k as int]));
        }
        if holds_files(tree, nodes, &child) {
            push_pad(out, indent);
            push_chars(out, "subgraph D");
            let id = decimal_usize(*next);
            push_chars(out, id.as_str());
            push_chars(out, "[\"");
            let path = join_strings(child.as_slice(), "/");
            let label = mermaid_label(path.as_str());
            push_chars(out, label.as_str());
            push_chars(out, "\"]\n");
            let opened = out.len();
            proof {
                assert(out@ =~= before + subgraph_line(cv, indent as nat, n0));
                assert(*next < opened);
                assert(indent as int * 4 <= pad(indent as nat).len()) by {
                    lemma_pad_len(indent as nat);
                }
                assert(indent < opened);
            }
            *next = *next + 1;
            write_directory_tree(out, tree, nodes, &child, indent + 1, next, mode);
            let ghost after_inner = out@;
            push_pad(out, indent);
            push_chars(out, "end\n");
            proof {
                let (inner, n1) = block(nodes@, cv, (indent + 1) as nat, n0 + 1, mode);
                assert(out@ =~= before + subgraph_line(cv, indent as nat, n0) + inner + pad(indent as nat)
                    + "end\n"@);
                assert(out@.subrange(mid.len() as int, out@.len() as int) =~= before.subrange(
                    mid.len() as int,
                    before.len() as int,
                ) + (subgraph_line(cv, indent as nat, n0) + inner + pad(indent as nat) + "end\n"@));
                assert(out@.subrange(0, mid.len() as int) =~= before.subrange(0, mid.len() as int));
            }
        } else {
            write_directory_tree(out, tree, nodes, &child, indent, next, mode);
            proof {
                let (inner, n1) = block(nodes@, cv, indent as nat, n0, mode);
                assert(out@.subrange(mid.len() as int, out@.len() as int) =~= before.subrange(
                    mid.len() as int,
                    before.len() as int,
                ) + inner);
                assert(out@.subrange(0, mid.len() as int) =~= before.subrange(0, mid.len() as int));
            }
        }
        k = k + 1;
    }
    proof {
        assert(out@ =~= out@.subrange(0, mid.len() as int) + out@.subrange(mid.len() as int, out@.len() as int));
        let rest = out@.subrange(mid.len() as int, out@.len() as int);
        assert(rest + Seq::<char>::empty() =~= rest);
    }
}

proof fn lemma_pad_len(indent: nat)
    ensures
        pad(indent).len() == 4 * indent,
    decreases indent,
{
    reveal_strlit("    ");
    if indent > 0 {
        lemma_pad_len((indent - 1) as nat);
    }
}

/// The names of the nodes that a full map marks as targets.
fn targets_of(nodes: &Vec<Node>, mode: MapMode) -> (r: Vec<String>)
    ensures
        views(r@) == target_names(nodes@, mode, nodes@.len() as int),
{
    let mut r: Vec<String> = Vec::new();
    let mut i: usize = 0;
    while i < nodes.len()
        invariant
            0 <= i <= nodes@.len(),
            views(r@) == target_names(nodes@, mode, i as int),
        decreases nodes@.len() - i,
    {
        if matches!(mode, MapMode::All) && nodes[i].is_target {
            let ghost before = r@;
            let name = name_of(nodes, nodes[i].id.as_str());
            let ghost nv = name@;
            r.push(name);
            assert(views(r@) =~= views(before).push(nv));
        }
        i = i + 1;
    }
    r
}

/// The indices of the first `n` nodes that lie directly in `dir`, ascending.
pub open spec fn files_in(nodes: Seq<Node>, dir: Seq<Seq<char>>, n: int) -> Seq<usize>
    decreases n,
{
    if n <= 0 {
        Seq::empty()
    } else if node_dirs(nodes[n - 1]) == dir {
        files_in(nodes, dir, n - 1).push((n - 1) as usize)
    } else {
        files_in(nodes, dir, n - 1)
    }
}

/// The lines of the nodes at the given indices, in order.
pub open spec fn node_lines_of(nodes: Seq<Node>, idx: Seq<usize>, indent: nat, mode: MapMode) -> Seq<char>
    decreases idx.len(),
{
    if idx.len() == 0 {
        Seq::empty()
    } else {
        node_lines_of(nodes, idx.drop_last(), indent, mode) + node_line(nodes, idx.last() as int, indent, mode)
    }
}

/// The lines of the nodes directly in `dir` are the lines of its files.
proof fn lemma_file_lines(nodes: Seq<Node>, dir: Seq<Seq<char>>, indent: nat, mode: MapMode, n: int)
    requires
        0 <= n <= nodes.len(),
        nodes.len() <= usize::MAX,
    ensures
        file_lines(nodes, dir, indent, mode, n) == node_lines_of(nodes, files_in(nodes, dir, n), indent, mode),
        forall|x: int| 0 <= x < files_in(nodes, dir, n).len() ==> (#[trigger] files_in(nodes, dir, n)[x]) < n,
    decreases n,
{
    if n > 0 {
        lemma_file_lines(nodes, dir, indent, mode, n - 1);
        let p = files_in(nodes, dir, n - 1);
        if node_dirs(nodes[n - 1]) == dir {
            let q = p.push((n - 1) as usize);
            assert(q.drop_last() =~= p);
            assert forall|x: int| 0 <= x < q.len() implies (#[trigger] q[x]) < n by {
                if x < p.len() {
                    assert(q[x] == p[x]);
                }
            }
        } else {
            assert(file_lines(nodes, dir, indent, mode, n) =~= file_lines(nodes, dir, indent, mode, n - 1));
        }
    }
}

/// A directory with files has a first one among the first `n` nodes.
proof fn lemma_files_in_present(nodes: Seq<Node>, dir: Seq<Seq<char>>, n: int)
    requires
        0 <= n <= nodes.len(),
    ensures
        files_in(nodes, dir, n).len() > 0 <==> exists|i: int| 0 <= i < n && #[trigger] node_dirs(nodes[i]) == dir,
    decreases n,
{
    if n > 0 {
        lemma_files_in_present(nodes, dir, n - 1);
        if exists|i: int| 0 <= i < n && #[trigger] node_dirs(nodes[i]) == dir {
            let i = choose|i: int| 0 <= i < n && #[trigger] node_dirs(nodes[i]) == dir;
            if i < n - 1 {
                assert(exists|i2: int| 0 <= i2 < n - 1 && #[trigger] node_dirs(nodes[i2]) == dir);
            }
        }
    }
}

/// The directories that hold files directly, each with the indices of its
/// files (the nodes inserted so far), in the order they were first met.
pub struct DirectoryTree {
    pub directories: Vec<(Vec<String>, Vec<usize>)>,
}

/// The directories of a tree.
pub open spec fn tree_dirs(t: DirectoryTree) -> Seq<Seq<Seq<char>>> {
    t.directories@.map_values(|e: (Vec<String>, Vec<usize>)| views(e.0@))
}

/// `t` files the first `n` nodes: each directory once, with its files; and
/// every node's directory among them.
pub open spec fn indexes(t: DirectoryTree, nodes: Seq<Node>, n: int) -> bool {
    &&& 0 <= n <= nodes.len()
    &&& nodes.len() <= usize::MAX
    &&& forall|k: int|
        0 <= k < t.directories@.len() ==> (#[trigger] t.directories@[k]).1@ == files_in(
            nodes,
            tree_dirs(t)[k],
            n,
        ) && t.directories@[k].1@.len() > 0
    &&& forall|k1: int, k2: int|
        0 <= k1 < k2 < t.directories@.len() ==> #[trigger] tree_dirs(t)[k1] != #[trigger] tree_dirs(t)[k2]
    &&& forall|i: int| 0 <= i < n ==> tree_dirs(t).contains(#[trigger] node_dirs(nodes[i]))
}

/// Files the `index`-th node under its directory.
pub fn insert_file_node(tree: &mut DirectoryTree, nodes: &Vec<Node>, index: usize)
    requires
        index < nodes@.len(),
        indexes(*old(tree), nodes@, index as int),
    ensures
        indexes(*final(tree), nodes@, index + 1),
{
    let d = dirs_of(&nodes[index]);
    let ghost dv = views(d@);
    let ghost before = tree_dirs(*tree);
    let ghost n = index as int;
    let mut k: usize = 0;
    while k < tree.directories.len()
        invariant
            0 <= k <= tree.directories@.len(),
            *tree == *old(tree),
            index < nodes@.len(),
            n == index as int,
            indexes(*old(tree), nodes@, n),
            before == tree_dirs(*tree),
            dv == views(d@),
            dv == node_dirs(nodes@[n]),
            forall|x: int| 0 <= x < k ==> before[x] != dv,
        decreases tree.directories@.len() - k,
    {
        proof {
            assert(before[k as int] == views(tree.directories@[k as int].0@));
        }
        if same_dir(&tree.directories[k].0, &d) {
            let ghost old_entries = tree.directories@;
            tree.directories[k].1.push(index);
            proof {
                let e = tree.directories@;
                assert(e.len() == old_entries.len());
                assert(e[k as int].0 == old_entries[k as int].0);
                assert(e[k as int].1@ == old_entries[k as int].1@.push(index));
                assert(forall|x: int| 0 <= x < e.len() && x != k ==> e[x] == old_entries[x]);
                assert(tree_dirs(*tree) =~= before);
                assert(before[k as int] == dv);
                assert forall|x: int|
                    0 <= x < e.len() implies (#[trigger] e[x]).1@ == files_in(nodes@, tree_dirs(*tree)[x], n + 1)
                        && e[x].1@.len() > 0 by {
                    if x != k {
                        assert(e[x] == old_entries[x]);
                        if x < k {
                            assert(before[x] != before[k as int]);
                        } else {
                            assert(before[k as int] != before[x]);
                        }
                    }
                }
                assert forall|i: int| 0 <= i < n + 1 implies tree_dirs(*tree).contains(
                    #[trigger] node_dirs(nodes@[i]),
                ) by {
                    if i == n {
                        assert(tree_dirs(*tree)[k as int] == dv);
                    }
                }
            }
            return;
        }
        k = k + 1;
    }
    proof {
        assert(!before.contains(dv)) by {
            if before.contains(dv) {
                let x = choose|x: int| 0 <= x < before.len() && before[x] == dv;
            }
        }
        lemma_files_in_present(nodes@, dv, n);
        assert(files_in(nodes@, dv, n).len() == 0) by {
            if files_in(nodes@, dv, n).len() > 0 {
                let i = choose|i: int| 0 <= i < n && #[trigger] node_dirs(nodes@[i]) == dv;
                assert(before.contains(node_dirs(nodes@[i])));
            }
        }
    }
    let ghost old_entries = tree.directories@;
    let mut files: Vec<usize> = Vec::new();
    files.push(index);
    tree.directories.push((d, files));
    proof {
        let e = tree.directories@;
        assert(tree_dirs(*tree) =~= before.push(dv));
        assert(files_in(nodes@, dv, n + 1) =~= seq![index]);
        assert forall|x: int|
            0 <= x < e.len() implies (#[trigger] e[x]).1@ == files_in(nodes@, tree_dirs(*tree)[x], n + 1)
                && e[x].1@.len() > 0 by {
            if x < old_entries.len() {
                assert(e[x] == old_entries[x]);
                assert(tree_dirs(*tree)[x] == before[x]);
                assert(before[x] != dv) by {
                    if before[x] == dv {
                        assert(before.contains(dv));
                    }
                }
            }
        }
        assert forall|k1: int, k2: int|
            0 <= k1 < k2 < e.len() implies #[trigger] tree_dirs(*tree)[k1] != #[trigger] tree_dirs(*tree)[k2] by {
            assert(tree_dirs(*tree)[k1] == before[k1]);
            if k2 == old_entries.len() {
                if before[k1] == dv {
                    assert(before.contains(dv));
                }
            } else {
                assert(tree_dirs(*tree)[k2] == before[k2]);
            }
        }
        assert forall|i: int| 0 <= i < n + 1 implies tree_dirs(*tree).contains(#[trigger] node_dirs(nodes@[i])) by {
            if i == n {
                assert(tree_dirs(*tree)[old_entries.len() as int] == dv);
            } else {
                assert(before.contains(node_dirs(nodes@[i])));
                let x = choose|x: int| 0 <= x < before.len() && before[x] == node_dirs(nodes@[i]);
                assert(tree_dirs(*tree)[x] == before[x]);
            }
        }
    }
}

/// The files of `dir` in the tree, if it has any.
fn files_of_dir<'a>(tree: &'a DirectoryTree, dir: &Vec<String>) -> (r: Option<&'a Vec<usize>>)
    ensures
        match r {
            Some(files) => exists|k: int|
                0 <= k < tree.directories@.len() && tree_dirs(*tree)[k] == views(dir@) && files
                    == &(#[trigger] tree.directories@[k]).1,
            None => !tree_dirs(*tree).contains(views(dir@)),
        },
{
    let mut k: usize = 0;
    while k < tree.directories.len()
        invariant
            0 <= k <= tree.directories@.len(),
            forall|x: int| 0 <= x < k ==> tree_dirs(*tree)[x] != views(dir@),
        decreases tree.directories@.len() - k,
    {
        if same_dir(&tree.directories[k].0, dir) {
            proof {
                assert(tree_dirs(*tree)[k as int] == views(tree.directories@[k as int].0@));
            }
            return Some(&tree.directories[k].1);
        }
        k = k + 1;
    }
    None
}

/// Whether some file lies directly in `dir`.
fn holds_files(tree: &DirectoryTree, nodes: &Vec<Node>, dir: &Vec<String>) -> (r: bool)
    requires
        indexes(*tree, nodes@, nodes@.len() as int),
    ensures
        r == has_files(nodes@, views(dir@)),
{
    let found = files_of_dir(tree, dir);
    proof {
        lemma_files_in_present(nodes@, views(dir@), nodes@.len() as int);
        if found is None {
            if has_files(nodes@, views(dir@)) {
                let i = choose|i: int| 0 <= i < nodes@.len() && node_dirs(#[trigger] nodes@[i]) == views(dir@);
                assert(tree_dirs(*tree).contains(node_dirs(nodes@[i])));
            }
        } else {
            let k = choose|k: int|
                0 <= k < tree.directories@.len() && tree_dirs(*tree)[k] == views(dir@) && found->Some_0
                    == &(#[trigger] tree.directories@[k]).1;
            assert(files_in(nodes@, views(dir@), nodes@.len() as int).len() > 0);
            let i = choose|i: int| 0 <= i < nodes@.len() && #[trigger] node_dirs(nodes@[i]) == views(dir@);
            assert(has_files(nodes@, views(dir@)));
        }
    }
    found.is_some()
}

/// The Mermaid diagram of a map's graph.
pub fn mermaid(graph: &Graph, mode: MapMode) -> (r: String)
    ensures
        r@ == mermaid_spec(graph.nodes@, mode),
{
    let nodes = &graph.nodes;
    let mut out: Vec<char> = Vec::new();
    push_chars(&mut out, "flowchart LR\n");
    let root: Vec<String> = Vec::new();
    let mut next: usize = 0;
    proof {
        assert(views(root@) =~= Seq::<Seq<char>>::empty());
    }
    let mut tree = DirectoryTree { directories: Vec::new() };
    let node_count = nodes.len();
    proof {
        assert(tree_dirs(tree) =~= Seq::<Seq<Seq<char>>>::empty());
    }
    let mut i: usize = 0;
    while i < nodes.len()
        invariant
            0 <= i <= nodes@.len(),
            node_count == nodes@.len(),
            indexes(tree, nodes@, i as int),
        decreases nodes@.len() - i,
    {
        insert_file_node(&mut tree, nodes, i);
        i = i + 1;
    }
    write_directory_tree(&mut out, &tree, nodes, &root, 1, &mut next, mode);
    let targets = targets_of(nodes, mode);
    if targets.len() > 0 {
        push_chars(&mut out, "    classDef target fill:#FEF3C7,stroke:#D97706,stroke-width:3px,color:#451A03\n");
        push_chars(&mut out, "    class ");
        let joined = join_strings(targets.as_slice(), ",");
        push_chars(&mut out, joined.as_str());
        push_chars(&mut out, " target\n");
    }
    string_from_chars(out.as_slice())
}

} // verus!
