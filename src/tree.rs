use vstd::prelude::*;
use crate::render::{EntryKind, connector, fillers_of, label, line_of, render_line, styled};
use crate::render::{
    color_open, color_reset, filler, lemma_directory_line_colored, lemma_plain_line_has_no_escape,
    lemma_prefix_segments, prefix_of,
};

verus! {

/// One filesystem entry with the entries listed under it, in listing order.
#[derive(Debug)]
pub struct Node {
    pub name: String,
    pub kind: EntryKind,
    pub children: Vec<Node>,
}

/// The views of a list of lines.
pub open spec fn texts(lines: Seq<String>) -> Seq<Seq<char>> {
    lines.map_values(|s: String| s@)
}

/// The lines of `node` and everything under it, depth first, where `stack` holds the
/// last-sibling flags of the levels above it.
pub open spec fn tree_lines(node: Node, stack: Seq<bool>, color: bool) -> Seq<Seq<char>>
    decreases node, 1nat, 0nat,
{
    seq![line_of(stack, node.name@, node.kind, color)]
        + children_lines(node, node.children@.len(), stack, color)
}

/// The lines of the first `j` children of `node`; the last child is marked as such.
pub open spec fn children_lines(node: Node, j: nat, stack: Seq<bool>, color: bool) -> Seq<Seq<char>>
    decreases node, 0nat, j,
{
    let n = node.children@.len();
    if j == 0 || j > n {
        Seq::empty()
    } else {
        children_lines(node, (j - 1) as nat, stack, color)
            + tree_lines(node.children@[j - 1], stack.push(j - 1 == n - 1), color)
    }
}

fn render_node(node: &Node, stack: &mut Vec<bool>, color: bool, out: &mut Vec<String>)
    ensures
        final(stack)@ == old(stack)@,
        texts(final(out)@) == texts(old(out)@) + tree_lines(*node, old(stack)@, color),
    decreases node, 1nat,
{
    let ghost out0 = texts(out@);
    let depth = stack.len();
    let line = render_line(stack, depth, node.name.as_str(), node.kind, color);
    assert(stack@.subrange(0, depth as int) =~= stack@);
    out.push(line);
    assert(texts(out@) =~= out0 + seq![line@]);
    render_children(node, stack, color, out);
    assert(texts(out@) =~= out0 + tree_lines(*node, stack@, color));
}

fn render_children(node: &Node, stack: &mut Vec<bool>, color: bool, out: &mut Vec<String>)
    ensures
        final(stack)@ == old(stack)@,
        texts(final(out)@) == texts(old(out)@) + children_lines(
            *node,
            node.children@.len(),
            old(stack)@,
            color,
        ),
    decreases node, 0nat,
{
    let ghost s0 = stack@;
    let ghost out0 = texts(out@);
    let n = node.children.len();
    let mut j: usize = 0;
    while j < n
        invariant
            j <= n == node.children@.len(),
            stack@ == s0,
            texts(out@) == out0 + children_lines(*node, j as nat, s0, color),
        decreases n - j,
    {
        stack.push(j + 1 == n);
        render_node(&node.children[j], stack, color, out);
        stack.pop();
        assert(stack@ =~= s0);
        assert(s0.push(j + 1 == n) == s0.push(j == n - 1));
        j = j + 1;
    }
}

/// The lines of a whole tree: the root labelled as a directory and without a prefix,
/// then everything under it.
pub open spec fn tree_output(root: Node, color: bool) -> Seq<Seq<char>> {
    seq![line_of(Seq::empty(), root.name@, EntryKind::Directory, color)] + children_lines(
        root,
        root.children@.len(),
        Seq::empty(),
        color,
    )
}

/// Renders a whole tree, one line per entry, the root first, always labelled as a
/// directory, and without a prefix.
pub fn render_tree(root: &Node, color: bool) -> (lines: Vec<String>)
    ensures
        texts(lines@) == tree_output(*root, color),
{
    let mut out: Vec<String> = Vec::new();
    let mut stack: Vec<bool> = Vec::new();
    let line = render_line(&stack, 0, root.name.as_str(), EntryKind::Directory, color);
    assert(stack@.subrange(0, 0) =~= Seq::<bool>::empty());
    out.push(line);
    assert(texts(out@) =~= seq![line@]);
    render_children(root, &mut stack, color, &mut out);
    out
}

/// The number of entries in `node` and everything under it.
pub open spec fn tree_size(node: Node) -> nat
    decreases node, 1nat, 0nat,
{
    1 + children_size(node, node.children@.len())
}

/// The number of entries in the first `j` children of `node` and everything under them.
pub open spec fn children_size(node: Node, j: nat) -> nat
    decreases node, 0nat, j,
{
    if j == 0 || j > node.children@.len() {
        0
    } else {
        children_size(node, (j - 1) as nat) + tree_size(node.children@[j - 1])
    }
}

/// Every entry of a tree gives exactly one line.
pub proof fn lemma_line_count(node: Node, stack: Seq<bool>, color: bool)
    ensures
        tree_lines(node, stack, color).len() == tree_size(node),
    decreases node, 1nat, 0nat,
{
    lemma_children_line_count(node, node.children@.len(), stack, color);
}

/// The first `j` children of a node give one line per entry under them.
pub proof fn lemma_children_line_count(node: Node, j: nat, stack: Seq<bool>, color: bool)
    ensures
        children_lines(node, j, stack, color).len() == children_size(node, j),
    decreases node, 0nat, j,
{
    let n = node.children@.len();
    if j == 0 || j > n {
    } else {
        lemma_children_line_count(node, (j - 1) as nat, stack, color);
        lemma_line_count(node.children@[j - 1], stack.push(j - 1 == n - 1), color);
    }
}

proof fn lemma_children_line_at(node: Node, j: nat, m: nat, stack: Seq<bool>, color: bool)
    requires
        j < m <= node.children@.len(),
    ensures
        children_size(node, j) < children_lines(node, m, stack, color).len(),
        children_lines(node, m, stack, color)[children_size(node, j) as int] == line_of(
            stack.push(j == node.children@.len() - 1),
            node.children@[j as int].name@,
            node.children@[j as int].kind,
            color,
        ),
    decreases m,
{
    let n = node.children@.len();
    lemma_children_line_count(node, (m - 1) as nat, stack, color);
    lemma_line_count(node.children@[m - 1], stack.push(m - 1 == n - 1), color);
    if m > j + 1 {
        lemma_children_line_at(node, j, (m - 1) as nat, stack, color);
    }
}

/// Among the children of a directory, the last one is drawn with the `└── ` connector
/// and every other one with `├── `: the line of child `j` sits right after the lines of
/// the children before it and everything under them.
pub proof fn lemma_last_sibling_connector(node: Node, stack: Seq<bool>, color: bool, j: nat)
    requires
        j < node.children@.len(),
    ensures
        ({
            let lines = tree_lines(node, stack, color);
            let child = node.children@[j as int];
            let at = 1 + children_size(node, j) as int;
            &&& at < lines.len()
            &&& lines[at] == fillers_of(stack) + connector(j == node.children@.len() - 1)
                + styled(label(child.name@, child.kind), child.kind, color)
        }),
{
    let n = node.children@.len();
    lemma_children_line_at(node, j, n, stack, color);
    let s = stack.push(j == n - 1);
    assert(s.drop_last() =~= stack);
}

/// Rendering the same tree twice gives the same lines.
pub proof fn lemma_render_deterministic(a: Node, b: Node, color: bool)
    requires
        a == b,
    ensures
        tree_output(a, color) == tree_output(b, color),
{
}

/// One entry of a tree as met in a depth-first walk: its depth below the root, whether
/// it is the last child of its parent, its name and its kind.
pub struct Visit {
    pub depth: nat,
    pub is_last: bool,
    pub name: Seq<char>,
    pub kind: EntryKind,
}

/// The entries of `node` and everything under it, depth first, where `node` sits at
/// `depth` and `is_last` tells whether it is its parent's last child.
pub open spec fn visits(node: Node, depth: nat, is_last: bool) -> Seq<Visit>
    decreases node, 1nat, 0nat,
{
    seq![Visit { depth, is_last, name: node.name@, kind: node.kind }] + child_visits(
        node,
        node.children@.len(),
        depth + 1,
    )
}

/// The entries under the first `j` children of `node`, the children sitting at `depth`.
pub open spec fn child_visits(node: Node, j: nat, depth: nat) -> Seq<Visit>
    decreases node, 0nat, j,
{
    let n = node.children@.len();
    if j == 0 || j > n {
        Seq::empty()
    } else {
        child_visits(node, (j - 1) as nat, depth) + visits(
            node.children@[j - 1],
            depth,
            j - 1 == n - 1,
        )
    }
}

/// Whether `line` is the line of visit `v`: drawn for a stack of `v.depth` levels whose
/// deepest flag is `v.is_last`.
pub open spec fn line_of_visit(line: Seq<char>, v: Visit, color: bool) -> bool {
    exists|st: Seq<bool>|
        st.len() == v.depth && st.last() == v.is_last && line == line_of(
            st,
            v.name,
            v.kind,
            color,
        )
}

proof fn lemma_node_visits(node: Node, stack: Seq<bool>, color: bool)
    requires
        stack.len() > 0,
    ensures
        tree_lines(node, stack, color).len() == visits(node, stack.len(), stack.last()).len(),
        forall|k: int|
            0 <= k < tree_lines(node, stack, color).len() ==> line_of_visit(
                #[trigger] tree_lines(node, stack, color)[k],
                visits(node, stack.len(), stack.last())[k],
                color,
            ),
    decreases node, 1nat, 0nat,
{
    let n = node.children@.len();
    lemma_children_visits(node, n, stack, color);
    let lines = tree_lines(node, stack, color);
    let vs = visits(node, stack.len(), stack.last());
    let head = seq![line_of(stack, node.name@, node.kind, color)];
    let rest = children_lines(node, n, stack, color);
    let vrest = child_visits(node, n, stack.len() + 1);
    assert forall|k: int| 0 <= k < lines.len() implies line_of_visit(
        #[trigger] lines[k],
        vs[k],
        color,
    ) by {
        if k == 0 {
            assert(line_of_visit(lines[0], vs[0], color));
        } else {
            assert(lines[k] == rest[k - 1]);
            assert(vs[k] == vrest[k - 1]);
            assert(line_of_visit(rest[k - 1], vrest[k - 1], color));
        }
    }
}

proof fn lemma_children_visits(node: Node, j: nat, stack: Seq<bool>, color: bool)
    ensures
        children_lines(node, j, stack, color).len() == child_visits(
            node,
            j,
            stack.len() + 1,
        ).len(),
        forall|k: int|
            0 <= k < children_lines(node, j, stack, color).len() ==> line_of_visit(
                #[trigger] children_lines(node, j, stack, color)[k],
                child_visits(node, j, stack.len() + 1)[k],
                color,
            ),
    decreases node, 0nat, j,
{
    let n = node.children@.len();
    if j == 0 || j > n {
    } else {
        let child = node.children@[j - 1];
        let s = stack.push(j - 1 == n - 1);
        lemma_children_visits(node, (j - 1) as nat, stack, color);
        lemma_node_visits(child, s, color);
        let a = children_lines(node, (j - 1) as nat, stack, color);
        let va = child_visits(node, (j - 1) as nat, stack.len() + 1);
        let b = tree_lines(child, s, color);
        let vb = visits(child, s.len(), s.last());
        let lines = children_lines(node, j, stack, color);
        let vs = child_visits(node, j, stack.len() + 1);
        assert(lines == a + b);
        assert(vs == va + vb);
        assert forall|k: int| 0 <= k < lines.len() implies line_of_visit(
            #[trigger] lines[k],
            vs[k],
            color,
        ) by {
            if k < a.len() {
                assert(lines[k] == a[k]);
                assert(vs[k] == va[k]);
                assert(line_of_visit(a[k], va[k], color));
            } else {
                assert(lines[k] == b[k - a.len()]);
                assert(vs[k] == vb[k - a.len()]);
                assert(line_of_visit(b[k - a.len()], vb[k - a.len()], color));
            }
        }
    }
}

/// Over the whole output of a tree, line `k` belongs to the `k`-th entry met depth
/// first: the root's line is its label, and every other entry at depth `d` is drawn
/// with a stack of `d` levels whose deepest flag says whether it is its parent's last
/// child. So it has `d` segments before its name, and its connector is `└── ` exactly
/// when it is the last child.
pub proof fn lemma_output_lines(root: Node, color: bool)
    ensures
        ({
            let lines = tree_output(root, color);
            let vs = visits(root, 0, true);
            &&& lines.len() == vs.len()
            &&& lines[0] == line_of(Seq::empty(), root.name@, EntryKind::Directory, color)
            &&& forall|k: int|
                1 <= k < lines.len() ==> vs[k].depth > 0 && line_of_visit(
                    #[trigger] lines[k],
                    vs[k],
                    color,
                )
        }),
{
    let n = root.children@.len();
    let lines = tree_output(root, color);
    let vs = visits(root, 0, true);
    let rest = children_lines(root, n, Seq::empty(), color);
    let vrest = child_visits(root, n, 1);
    lemma_children_visits(root, n, Seq::empty(), color);
    lemma_child_depths(root, n, 1);
    assert forall|k: int| 1 <= k < lines.len() implies vs[k].depth > 0 && line_of_visit(
        #[trigger] lines[k],
        vs[k],
        color,
    ) by {
        assert(lines[k] == rest[k - 1]);
        assert(vs[k] == vrest[k - 1]);
        assert(line_of_visit(rest[k - 1], vrest[k - 1], color));
    }
}

proof fn lemma_node_depths(node: Node, depth: nat, is_last: bool)
    ensures
        forall|k: int|
            0 <= k < visits(node, depth, is_last).len() ==> #[trigger] visits(
                node,
                depth,
                is_last,
            )[k].depth >= depth,
    decreases node, 1nat, 0nat,
{
    lemma_child_depths(node, node.children@.len(), depth + 1);
    let vs = visits(node, depth, is_last);
    let rest = child_visits(node, node.children@.len(), depth + 1);
    assert forall|k: int| 0 <= k < vs.len() implies #[trigger] vs[k].depth >= depth by {
        if k > 0 {
            assert(vs[k] == rest[k - 1]);
        }
    }
}

proof fn lemma_child_depths(node: Node, j: nat, depth: nat)
    ensures
        forall|k: int|
            0 <= k < child_visits(node, j, depth).len() ==> #[trigger] child_visits(
                node,
                j,
                depth,
            )[k].depth >= depth,
    decreases node, 0nat, j,
{
    let n = node.children@.len();
    if j == 0 || j > n {
    } else {
        lemma_child_depths(node, (j - 1) as nat, depth);
        lemma_node_depths(node.children@[j - 1], depth, j - 1 == n - 1);
        let a = child_visits(node, (j - 1) as nat, depth);
        let b = visits(node.children@[j - 1], depth, j - 1 == n - 1);
        let vs = child_visits(node, j, depth);
        assert(vs == a + b);
        assert forall|k: int| 0 <= k < vs.len() implies #[trigger] vs[k].depth >= depth by {
            if k < a.len() {
                assert(vs[k] == a[k]);
            } else {
                assert(vs[k] == b[k - a.len()]);
            }
        }
    }
}

/// Whether `line` draws visit `v`, below the root, in `v.depth` segments of four characters: a filler
/// for each ancestor level, then `└── ` if `v` is its parent's last child and `├── `
/// otherwise, then its styled name.
pub open spec fn drawn_in_segments(line: Seq<char>, v: Visit, color: bool) -> bool {
    let d = v.depth as int;
    &&& d > 0
    &&& line.len() >= 4 * d
    &&& forall|l: int|
        0 <= l < d - 1 ==> #[trigger] line.subrange(4 * l, 4 * l + 4) == filler(true)
            || line.subrange(4 * l, 4 * l + 4) == filler(false)
    &&& line.subrange(4 * d - 4, 4 * d) == connector(v.is_last)
    &&& line.subrange(4 * d, line.len() as int) == styled(label(v.name, v.kind), v.kind, color)
}

/// Over the whole output of a tree, the line of every entry at depth `d > 0` starts
/// with exactly `d` segments, and its connector is `└── ` exactly when the entry is its
/// parent's last child.
pub proof fn lemma_output_segments(root: Node, color: bool)
    ensures
        forall|k: int|
            1 <= k < tree_output(root, color).len() ==> drawn_in_segments(
                #[trigger] tree_output(root, color)[k],
                visits(root, 0, true)[k],
                color,
            ),
{
    lemma_output_lines(root, color);
    let lines = tree_output(root, color);
    let vs = visits(root, 0, true);
    assert forall|k: int| 1 <= k < lines.len() implies drawn_in_segments(
        #[trigger] lines[k],
        vs[k],
        color,
    ) by {
        let line = lines[k];
        let v = vs[k];
        let d = v.depth as int;
        assert(line_of_visit(line, v, color));
        let st = choose|st: Seq<bool>|
            st.len() == v.depth && st.last() == v.is_last && line == line_of(
                st,
                v.name,
                v.kind,
                color,
            );
        lemma_prefix_segments(st);
        let p = prefix_of(st);
        let t = styled(label(v.name, v.kind), v.kind, color);
        assert(line == p + t);
        assert forall|l: int| 0 <= l < d - 1 implies #[trigger] line.subrange(4 * l, 4 * l + 4)
            == filler(true) || line.subrange(4 * l, 4 * l + 4) == filler(false) by {
            assert(p.subrange(4 * l, 4 * l + 4) == crate::render::segment(st, l));
            assert(line.subrange(4 * l, 4 * l + 4) =~= p.subrange(4 * l, 4 * l + 4));
        }
        let m = d - 1;
        assert(p.subrange(4 * m, 4 * m + 4) == crate::render::segment(st, m));
        assert(4 * m == 4 * d - 4 && 4 * m + 4 == 4 * d);
        assert(line.subrange(4 * d - 4, 4 * d) =~= p.subrange(4 * d - 4, 4 * d));
        assert(line.subrange(4 * d, line.len() as int) =~= t);
    }
}

/// With colour off, no line of a tree's output holds an escape character, as long as no
/// entry's name holds one.
pub proof fn lemma_output_plain(root: Node)
    requires
        forall|k: int|
            0 <= k < visits(root, 0, true).len() ==> !(#[trigger] visits(root, 0, true)[k]).name.contains(
                '\x1b',
            ),
    ensures
        forall|k: int|
            0 <= k < tree_output(root, false).len() ==> !(#[trigger] tree_output(
                root,
                false,
            )[k]).contains('\x1b'),
{
    lemma_output_lines(root, false);
    let lines = tree_output(root, false);
    let vs = visits(root, 0, true);
    assert forall|k: int| 0 <= k < lines.len() implies !(#[trigger] lines[k]).contains('\x1b') by {
        let v = vs[k];
        assert(!v.name.contains('\x1b'));
        if k == 0 {
            lemma_plain_line_has_no_escape(Seq::empty(), root.name@, EntryKind::Directory);
        } else {
            assert(line_of_visit(lines[k], v, false));
            let st = choose|st: Seq<bool>|
                st.len() == v.depth && st.last() == v.is_last && lines[k] == line_of(
                    st,
                    v.name,
                    v.kind,
                    false,
                );
            lemma_plain_line_has_no_escape(st, v.name, v.kind);
        }
    }
}

/// With colour on, the line of every directory of a tree, the root included, holds the
/// directory's name with its `/`, wrapped in the directory colour and a reset.
pub proof fn lemma_output_directories_colored(root: Node)
    ensures
        forall|k: int|
            0 <= k < tree_output(root, true).len() && (k == 0 || visits(root, 0, true)[k].kind
                == EntryKind::Directory) ==> exists|p: Seq<char>|
                #[trigger] tree_output(root, true)[k] == p + color_open(EntryKind::Directory)
                    + visits(root, 0, true)[k].name.push('/') + color_reset(),
{
    lemma_output_lines(root, true);
    let lines = tree_output(root, true);
    let vs = visits(root, 0, true);
    assert forall|k: int|
        0 <= k < lines.len() && (k == 0 || vs[k].kind == EntryKind::Directory) implies exists|
        p: Seq<char>,
    | #[trigger] lines[k] == p + color_open(EntryKind::Directory) + vs[k].name.push('/')
        + color_reset() by {
        let v = vs[k];
        if k == 0 {
            lemma_directory_line_colored(Seq::empty(), root.name@);
            assert(lines[k] == prefix_of(Seq::empty()) + color_open(EntryKind::Directory)
                + v.name.push('/') + color_reset());
        } else {
            assert(line_of_visit(lines[k], v, true));
            let st = choose|st: Seq<bool>|
                st.len() == v.depth && st.last() == v.is_last && lines[k] == line_of(
                    st,
                    v.name,
                    v.kind,
                    true,
                );
            lemma_directory_line_colored(st, v.name);
            assert(lines[k] == prefix_of(st) + color_open(EntryKind::Directory) + v.name.push('/')
                + color_reset());
        }
    }
}

} // verus!
