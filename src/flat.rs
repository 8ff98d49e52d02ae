use vstd::prelude::*;
use crate::render::{EntryKind, lemma_plain_line_has_no_escape, line_of, render_line};
use crate::tree::texts;

verus! {

/// One entry of a flattened, pre-order walk: its path components below the root, and its
/// kind. The root itself has no components.
#[derive(Debug)]
pub struct FlatEntry {
    pub parts: Vec<String>,
    pub kind: EntryKind,
}

/// What the flattened renderer remembers between entries: the last-sibling flag and the
/// component of each level of the path rendered last.
pub struct FlatState {
    pub stack: Seq<bool>,
    pub comps: Seq<Seq<char>>,
}

/// The first index at or after `i` where `parts` leaves the remembered components.
pub open spec fn first_diff(comps: Seq<Seq<char>>, parts: Seq<Seq<char>>, i: nat) -> nat
    decreases parts.len() - i,
{
    if i >= parts.len() || i >= comps.len() || comps[i as int] != parts[i as int] {
        i
    } else {
        first_diff(comps, parts, i + 1)
    }
}

/// The state left after backing out of every level at or below `depth`.
pub open spec fn backtrack(st: FlatState, depth: nat) -> FlatState {
    if st.stack.len() >= depth && depth > 0 {
        FlatState { stack: st.stack.take(depth - 1), comps: st.comps.take(depth - 1) }
    } else {
        st
    }
}

/// The state and the lines after one entry of the flattened walk. The root gives the
/// root label; any other entry gives one line, for the first component that differs
/// from the path rendered before it: fillers for the levels above that component, then
/// a connector marked last when that component is the entry's own name.
pub open spec fn flat_step(
    st: FlatState,
    parts: Seq<Seq<char>>,
    kind: EntryKind,
    root: Seq<char>,
    color: bool,
) -> (FlatState, Seq<Seq<char>>) {
    let depth = parts.len();
    if depth == 0 {
        (st, seq![line_of(Seq::empty(), root, EntryKind::Directory, color)])
    } else {
        let b = backtrack(st, depth);
        let i = first_diff(b.comps, parts, 0);
        if i >= depth {
            (b, Seq::empty())
        } else {
            let last = i == depth - 1;
            let pre = b.stack.take(i as int).push(last);
            let stack = if i >= b.stack.len() { b.stack.push(last) } else { b.stack };
            let comps = if i >= b.comps.len() {
                b.comps.push(parts[i as int])
            } else {
                b.comps.update(i as int, parts[i as int])
            };
            (FlatState { stack, comps }, seq![line_of(pre, parts[i as int], kind, color)])
        }
    }
}

/// The state and the lines after the whole of `entries`, from an empty state.
pub open spec fn flat_run(root: Seq<char>, entries: Seq<FlatEntry>, color: bool) -> (
    FlatState,
    Seq<Seq<char>>,
)
    decreases entries.len(),
{
    if entries.len() == 0 {
        (FlatState { stack: Seq::empty(), comps: Seq::empty() }, Seq::empty())
    } else {
        let (st, lines) = flat_run(root, entries.drop_last(), color);
        let e = entries.last();
        let (st2, more) = flat_step(st, texts(e.parts@), e.kind, root, color);
        (st2, lines + more)
    }
}

/// The lines of a flattened walk.
pub open spec fn flat_lines(root: Seq<char>, entries: Seq<FlatEntry>, color: bool) -> Seq<Seq<char>> {
    flat_run(root, entries, color).1
}

fn take_push(stack: &Vec<bool>, k: usize, last: bool) -> (r: Vec<bool>)
    requires
        k <= stack@.len(),
    ensures
        r@ == stack@.take(k as int).push(last),
{
    let mut r: Vec<bool> = Vec::new();
    let mut i: usize = 0;
    while i < k
        invariant
            i <= k <= stack@.len(),
            r@ == stack@.take(i as int),
        decreases k - i,
    {
        r.push(stack[i]);
        assert(r@ =~= stack@.take(i + 1));
        i = i + 1;
    }
    r.push(last);
    r
}

fn step(
    stack: &mut Vec<bool>,
    comps: &mut Vec<String>,
    entry: &FlatEntry,
    root: &str,
    color: bool,
    out: &mut Vec<String>,
)
    requires
        old(stack)@.len() == old(comps)@.len(),
    ensures
        final(stack)@.len() == final(comps)@.len(),
        ({
            let (st, more) = flat_step(
                FlatState { stack: old(stack)@, comps: texts(old(comps)@) },
                texts(entry.parts@),
                entry.kind,
                root@,
                color,
            );
            &&& final(stack)@ == st.stack
            &&& texts(final(comps)@) == st.comps
            &&& texts(final(out)@) == texts(old(out)@) + more
        }),
{
    let ghost parts = texts(entry.parts@);
    let ghost st0 = FlatState { stack: stack@, comps: texts(comps@) };
    let ghost out0 = texts(out@);
    let depth = entry.parts.len();
    if depth == 0 {
        let none: Vec<bool> = Vec::new();
        let line = render_line(&none, 0, root, EntryKind::Directory, color);
        assert(none@.subrange(0, 0) =~= Seq::<bool>::empty());
        out.push(line);
        assert(texts(out@) =~= out0 + seq![line@]);
        return;
    }
    while stack.len() >= depth
        invariant
            depth > 0,
            st0.comps.len() == st0.stack.len(),
            stack@.len() == comps@.len(),
            stack@.len() <= st0.stack.len(),
            stack@.len() == st0.stack.len() || stack@.len() >= depth - 1,
            stack@ == st0.stack.take(stack@.len() as int),
            texts(comps@) == st0.comps.take(stack@.len() as int),
        decreases stack@.len(),
    {
        let ghost c_before = comps@;
        stack.pop();
        comps.pop();
        assert(comps@ == c_before.drop_last());
        assert(stack@ =~= st0.stack.take(stack@.len() as int));
        assert forall|j: int| 0 <= j < comps@.len() implies texts(comps@)[j] == st0.comps[j] by {
            assert(texts(c_before)[j] == st0.comps.take(c_before.len() as int)[j]);
        }
        assert(texts(comps@) =~= st0.comps.take(stack@.len() as int));
    }
    let ghost b = backtrack(st0, depth as nat);
    proof {
        if st0.stack.len() < depth as nat {
            assert(st0.stack.take(st0.stack.len() as int) =~= st0.stack);
            assert(st0.comps.take(st0.stack.len() as int) =~= st0.comps);
        }
    }
    assert(stack@ =~= b.stack);
    assert(texts(comps@) =~= b.comps);
    let mut i: usize = 0;
    while i < depth && i < comps.len() && comps[i] == entry.parts[i]
        invariant
            i <= depth == parts.len(),
            depth == entry.parts@.len(),
            parts == texts(entry.parts@),
            i <= comps@.len(),
            texts(comps@) == b.comps,
            first_diff(b.comps, parts, i as nat) == first_diff(b.comps, parts, 0),
        decreases depth - i,
    {
        assert(b.comps[i as int] == comps@[i as int]@);
        assert(parts[i as int] == entry.parts@[i as int]@);
        i = i + 1;
    }
    assert(first_diff(b.comps, parts, i as nat) == i);
    if i < depth {
        let last = i + 1 == depth;
        let pre = take_push(stack, i, last);
        let line = render_line(&pre, pre.len(), entry.parts[i].as_str(), entry.kind, color);
        assert(pre@.subrange(0, pre@.len() as int) =~= pre@);
        out.push(line);
        assert(texts(out@) =~= out0 + seq![line@]);
        if i >= stack.len() {
            stack.push(last);
        }
        if i >= comps.len() {
            comps.push(entry.parts[i].clone());
            assert(texts(comps@) =~= b.comps.push(parts[i as int]));
        } else {
            comps.set(i, entry.parts[i].clone());
            assert(texts(comps@) =~= b.comps.update(i as int, parts[i as int]));
        }
    }
}

/// Renders a flattened pre-order walk, one line per entry, rebuilding the nesting from
/// the path components of consecutive entries.
pub fn render_flat(root: &str, entries: &Vec<FlatEntry>, color: bool) -> (lines: Vec<String>)
    ensures
        texts(lines@) == flat_lines(root@, entries@, color),
{
    let mut stack: Vec<bool> = Vec::new();
    let mut comps: Vec<String> = Vec::new();
    let mut out: Vec<String> = Vec::new();
    let mut k: usize = 0;
    while k < entries.len()
        invariant
            k <= entries@.len(),
            stack@.len() == comps@.len(),
            ({
                let (st, lines) = flat_run(root@, entries@.take(k as int), color);
                &&& stack@ == st.stack
                &&& texts(comps@) == st.comps
                &&& texts(out@) == lines
            }),
        decreases entries@.len() - k,
    {
        assert(entries@.take(k + 1).drop_last() =~= entries@.take(k as int));
        step(&mut stack, &mut comps, &entries[k], root, color, &mut out);
        k = k + 1;
    }
    assert(entries@.take(k as int) =~= entries@);
    out
}

proof fn lemma_first_diff_bound(comps: Seq<Seq<char>>, parts: Seq<Seq<char>>, i: nat)
    requires
        i <= comps.len() < parts.len(),
    ensures
        i <= first_diff(comps, parts, i) <= comps.len(),
    decreases parts.len() - i,
{
    if i < comps.len() && comps[i as int] == parts[i as int] {
        lemma_first_diff_bound(comps, parts, i + 1);
    }
}

/// In a flattened walk every entry gives exactly one line, and the remembered flags and
/// components always cover the same levels.
pub proof fn lemma_flat_line_count(root: Seq<char>, entries: Seq<FlatEntry>, color: bool)
    ensures
        flat_run(root, entries, color).0.stack.len() == flat_run(root, entries, color).0.comps.len(),
        flat_lines(root, entries, color).len() == entries.len(),
    decreases entries.len(),
{
    if entries.len() > 0 {
        let init = entries.drop_last();
        lemma_flat_line_count(root, init, color);
        let st = flat_run(root, init, color).0;
        let parts = texts(entries.last().parts@);
        let depth = parts.len();
        if depth > 0 {
            let b = backtrack(st, depth);
            lemma_first_diff_bound(b.comps, parts, 0);
        }
    }
}

/// Rendering the same flattened walk twice gives the same lines.
pub proof fn lemma_flat_deterministic(
    root: Seq<char>,
    a: Seq<FlatEntry>,
    b: Seq<FlatEntry>,
    color: bool,
)
    requires
        a == b,
    ensures
        flat_lines(root, a, color) == flat_lines(root, b, color),
{
}

/// Whether an entry with components `cur` may follow one with components `prev` in a
/// pre-order walk: it is not the root, and its parent is `prev` or an ancestor of `prev`.
pub open spec fn follows_in_preorder(prev: Seq<Seq<char>>, cur: Seq<Seq<char>>) -> bool {
    &&& cur.len() > 0
    &&& cur.len() - 1 <= prev.len()
    &&& prev.take(cur.len() - 1) == cur.drop_last()
}

/// Whether `entries` is a pre-order walk: the root first, and every later entry placed
/// right after its parent or after the last entry of an earlier sibling's subtree.
pub open spec fn is_preorder(entries: Seq<FlatEntry>) -> bool {
    &&& entries.len() > 0 ==> entries[0].parts@.len() == 0
    &&& forall|k: int|
        1 <= k < entries.len() ==> #[trigger] follows_in_preorder(
            texts(entries[k - 1].parts@),
            texts(entries[k].parts@),
        )
}

/// A flag marking the last sibling at each of `n` levels.
pub open spec fn all_last(n: nat) -> Seq<bool> {
    Seq::new(n, |l: int| true)
}

/// The line of an entry of a pre-order walk: the root label for the root, else one
/// segment per level (blank fillers, then the corner connector) and the entry's own
/// name.
pub open spec fn preorder_line(root: Seq<char>, e: FlatEntry, color: bool) -> Seq<char> {
    let parts = texts(e.parts@);
    if parts.len() == 0 {
        line_of(Seq::empty(), root, EntryKind::Directory, color)
    } else {
        line_of(all_last(parts.len()), parts.last(), e.kind, color)
    }
}

proof fn lemma_first_diff_at_parent(comps: Seq<Seq<char>>, parts: Seq<Seq<char>>, i: nat)
    requires
        i <= comps.len(),
        parts.len() == comps.len() + 1,
        comps == parts.drop_last(),
    ensures
        first_diff(comps, parts, i) == comps.len(),
    decreases parts.len() - i,
{
    if i < comps.len() {
        assert(comps[i as int] == parts[i as int]);
        lemma_first_diff_at_parent(comps, parts, i + 1);
    }
}

/// On a pre-order walk, every entry at depth `d` gets exactly one line of `d` segments,
/// blank fillers then the corner connector, followed by its own last component; the
/// root gets its label.
pub proof fn lemma_flat_preorder(root: Seq<char>, entries: Seq<FlatEntry>, color: bool)
    requires
        is_preorder(entries),
    ensures
        flat_lines(root, entries, color).len() == entries.len(),
        forall|k: int|
            0 <= k < entries.len() ==> #[trigger] flat_lines(root, entries, color)[k]
                == preorder_line(root, entries[k], color),
        entries.len() > 0 ==> flat_run(root, entries, color).0.comps == texts(
            entries.last().parts@,
        ),
        entries.len() > 0 ==> flat_run(root, entries, color).0.stack == all_last(
            entries.last().parts@.len(),
        ),
    decreases entries.len(),
{
    if entries.len() > 0 {
        let init = entries.drop_last();
        assert forall|k: int| 1 <= k < init.len() implies #[trigger] follows_in_preorder(
            texts(init[k - 1].parts@),
            texts(init[k].parts@),
        ) by {
            assert(follows_in_preorder(texts(entries[k - 1].parts@), texts(entries[k].parts@)));
        }
        lemma_flat_preorder(root, init, color);
        let st = flat_run(root, init, color).0;
        let e = entries.last();
        let cur = texts(e.parts@);
        let d = cur.len();
        if entries.len() == 1 {
            assert(cur =~= Seq::<Seq<char>>::empty());
            assert(st.comps =~= cur);
            assert(st.stack =~= all_last(0));
        } else {
            let prev = texts(init.last().parts@);
            assert(follows_in_preorder(
                texts(entries[entries.len() - 2].parts@),
                texts(entries[entries.len() - 1].parts@),
            ));
            assert(follows_in_preorder(prev, cur));
            let b = backtrack(st, d);
            if prev.len() >= d {
                assert(b.comps == prev.take(d - 1));
            } else {
                assert(prev.take(d - 1) =~= prev);
            }
            assert(b.comps == cur.drop_last());
            assert(b.stack =~= all_last((d - 1) as nat));
            lemma_first_diff_at_parent(b.comps, cur, 0);
            assert(b.stack.take(d - 1).push(true) =~= all_last(d));
            assert(b.comps.push(cur[d - 1]) =~= cur);
        }
        let lines = flat_lines(root, entries, color);
        assert forall|k: int| 0 <= k < entries.len() implies #[trigger] lines[k]
            == preorder_line(root, entries[k], color) by {
            if k < init.len() {
                assert(init[k] == entries[k]);
                assert(lines[k] == flat_lines(root, init, color)[k]);
            }
        }
    }
}

/// Whether no path component of any entry holds an escape character.
pub open spec fn components_plain(entries: Seq<FlatEntry>) -> bool {
    forall|k: int, i: int|
        0 <= k < entries.len() && 0 <= i < entries[k].parts@.len() ==> !(#[trigger] entries[k].parts@[i])@.contains(
            '\x1b',
        )
}

/// With colour off, no line of a flattened walk's output holds an escape character, as
/// long as neither the root nor any path component holds one.
pub proof fn lemma_flat_plain(root: Seq<char>, entries: Seq<FlatEntry>)
    requires
        !root.contains('\x1b'),
        components_plain(entries),
    ensures
        forall|k: int|
            0 <= k < flat_lines(root, entries, false).len() ==> !(#[trigger] flat_lines(
                root,
                entries,
                false,
            )[k]).contains('\x1b'),
    decreases entries.len(),
{
    if entries.len() > 0 {
        let init = entries.drop_last();
        assert forall|k: int, i: int|
            0 <= k < init.len() && 0 <= i < init[k].parts@.len() implies !(#[trigger] init[k].parts@[i])@.contains(
            '\x1b',
        ) by {
            assert(init[k] == entries[k]);
        }
        lemma_flat_plain(root, init);
        let st = flat_run(root, init, false).0;
        let e = entries.last();
        let parts = texts(e.parts@);
        let depth = parts.len();
        let more = flat_step(st, parts, e.kind, root, false).1;
        if depth == 0 {
            lemma_plain_line_has_no_escape(Seq::empty(), root, EntryKind::Directory);
        } else {
            let b = backtrack(st, depth);
            let i = first_diff(b.comps, parts, 0);
            if i < depth {
                let last = i == depth - 1;
                let pre = b.stack.take(i as int).push(last);
                assert(!entries[entries.len() - 1].parts@[i as int]@.contains('\x1b'));
                lemma_plain_line_has_no_escape(pre, parts[i as int], e.kind);
            }
        }
        let lines = flat_lines(root, entries, false);
        let prev = flat_lines(root, init, false);
        assert(lines == prev + more);
        assert forall|k: int| 0 <= k < lines.len() implies !(#[trigger] lines[k]).contains('\x1b') by {
            if k < prev.len() {
                assert(lines[k] == prev[k]);
            } else {
                assert(lines[k] == more[k - prev.len()]);
            }
        }
    }
}

} // verus!
