use vstd::prelude::*;

verus! {

/// The classification of one filesystem entry.
#[derive(Clone, Copy, Debug, PartialEq, Eq, Structural)]
pub enum EntryKind {
    Directory,
    Symlink,
    Executable,
    Regular,
}

/// The kind of an entry from its metadata: a symlink before a directory, a directory
/// before an executable file.
pub open spec fn kind_of(is_symlink: bool, is_dir: bool, is_executable: bool) -> EntryKind {
    if is_symlink {
        EntryKind::Symlink
    } else if is_dir {
        EntryKind::Directory
    } else if is_executable {
        EntryKind::Executable
    } else {
        EntryKind::Regular
    }
}

/// Classifies an entry from its symlink, directory and executable-bit status.
pub fn classify(is_symlink: bool, is_dir: bool, is_executable: bool) -> (k: EntryKind)
    ensures
        k == kind_of(is_symlink, is_dir, is_executable),
{
    if is_symlink {
        EntryKind::Symlink
    } else if is_dir {
        EntryKind::Directory
    } else if is_executable {
        EntryKind::Executable
    } else {
        EntryKind::Regular
    }
}

/// The segment drawn under an ancestor level that is not the deepest one.
pub open spec fn filler(last: bool) -> Seq<char> {
    if last {
        "    "@
    } else {
        "│   "@
    }
}

/// The segment drawn at the deepest level, just before the name.
pub open spec fn connector(last: bool) -> Seq<char> {
    if last {
        "└── "@
    } else {
        "├── "@
    }
}

/// The fillers for every level of `stack`.
pub open spec fn fillers_of(stack: Seq<bool>) -> Seq<char>
    decreases stack.len(),
{
    if stack.len() == 0 {
        Seq::empty()
    } else {
        fillers_of(stack.drop_last()) + filler(stack.last())
    }
}

/// The text before the name of an entry whose ancestors' last-sibling flags are `stack`:
/// fillers for all levels but the deepest, then the connector of the deepest.
pub open spec fn prefix_of(stack: Seq<bool>) -> Seq<char> {
    if stack.len() == 0 {
        Seq::empty()
    } else {
        fillers_of(stack.drop_last()) + connector(stack.last())
    }
}

/// The escape sequence that opens the colour of a kind.
pub open spec fn color_open(kind: EntryKind) -> Seq<char> {
    match kind {
        EntryKind::Directory => "\x1b[34m"@,
        EntryKind::Symlink => "\x1b[36m"@,
        EntryKind::Executable => "\x1b[32m"@,
        EntryKind::Regular => Seq::empty(),
    }
}

/// The escape sequence that ends a colour.
pub open spec fn color_reset() -> Seq<char> {
    "\x1b[0m"@
}

/// `text` styled for `kind`: wrapped in the kind's colour when colour is on and the kind
/// has one, else unchanged.
pub open spec fn styled(text: Seq<char>, kind: EntryKind, color: bool) -> Seq<char> {
    if color && kind != EntryKind::Regular {
        color_open(kind) + text + color_reset()
    } else {
        text
    }
}

/// The displayed name: a directory gets a trailing `/`.
pub open spec fn label(name: Seq<char>, kind: EntryKind) -> Seq<char> {
    if kind == EntryKind::Directory {
        name.push('/')
    } else {
        name
    }
}

/// The full line of one entry.
pub open spec fn line_of(stack: Seq<bool>, name: Seq<char>, kind: EntryKind, color: bool) -> Seq<char> {
    prefix_of(stack) + styled(label(name, kind), kind, color)
}

fn push_fillers(out: &mut String, stack: &Vec<bool>, n: usize)
    requires
        n <= stack@.len(),
    ensures
        final(out)@ == old(out)@ + fillers_of(stack@.subrange(0, n as int)),
{
    let mut i: usize = 0;
    while i < n
        invariant
            i <= n <= stack@.len(),
            out@ == old(out)@ + fillers_of(stack@.subrange(0, i as int)),
        decreases n - i,
    {
        proof {
            let next = stack@.subrange(0, i + 1);
            assert(next.drop_last() =~= stack@.subrange(0, i as int));
        }
        if stack[i] {
            out.append("    ");
        } else {
            out.append("│   ");
        }
        i = i + 1;
    }
}

/// Renders the line of one entry whose ancestors' last-sibling flags are the first `depth`
/// items of `stack`, with the name styled for its kind when `color` is on.
pub fn render_line(stack: &Vec<bool>, depth: usize, name: &str, kind: EntryKind, color: bool) -> (r: String)
    requires
        depth <= stack@.len(),
    ensures
        r@ == line_of(stack@.subrange(0, depth as int), name@, kind, color),
{
    let mut out = String::new();
    let ghost s = stack@.subrange(0, depth as int);
    if depth > 0 {
        push_fillers(&mut out, stack, depth - 1);
        assert(s.drop_last() =~= stack@.subrange(0, depth - 1));
        if stack[depth - 1] {
            out.append("└── ");
        } else {
            out.append("├── ");
        }
    }
    assert(out@ =~= prefix_of(s));
    let styled_on = color && kind != EntryKind::Regular;
    if styled_on {
        match kind {
            EntryKind::Directory => out.append("\x1b[34m"),
            EntryKind::Symlink => out.append("\x1b[36m"),
            EntryKind::Executable => out.append("\x1b[32m"),
            EntryKind::Regular => {},
        }
    }
    out.append(name);
    if kind == EntryKind::Directory {
        out.append("/");
        proof { reveal_strlit("/"); }
    }
    if styled_on {
        out.append("\x1b[0m");
    }
    assert(out@ =~= line_of(s, name@, kind, color));
    out
}

/// The segment at level `l` of the prefix drawn for `stack`: the connector at the
/// deepest level, a filler above it.
pub open spec fn segment(stack: Seq<bool>, l: int) -> Seq<char> {
    if l == stack.len() - 1 {
        connector(stack[l])
    } else {
        filler(stack[l])
    }
}

proof fn lemma_segment_literals()
    ensures
        filler(true).len() == 4,
        filler(false).len() == 4,
        connector(true).len() == 4,
        connector(false).len() == 4,
        !filler(true).contains('\x1b'),
        !filler(false).contains('\x1b'),
        !connector(true).contains('\x1b'),
        !connector(false).contains('\x1b'),
{
    reveal_strlit("    ");
    reveal_strlit("│   ");
    reveal_strlit("└── ");
    reveal_strlit("├── ");
    assert(!filler(true).contains('\x1b'));
    assert(!filler(false).contains('\x1b'));
    assert(!connector(true).contains('\x1b'));
    assert(!connector(false).contains('\x1b'));
}

proof fn lemma_concat_lacks(a: Seq<char>, b: Seq<char>, c: char)
    requires
        !a.contains(c),
        !b.contains(c),
    ensures
        !(a + b).contains(c),
{
    assert forall|k: int| 0 <= k < (a + b).len() implies (a + b)[k] != c by {
        if k < a.len() {
            assert((a + b)[k] == a[k]);
        } else {
            assert((a + b)[k] == b[k - a.len()]);
        }
    }
}

proof fn lemma_fillers(stack: Seq<bool>)
    ensures
        fillers_of(stack).len() == 4 * stack.len(),
        !fillers_of(stack).contains('\x1b'),
        forall|l: int|
            0 <= l < stack.len() ==> #[trigger] fillers_of(stack).subrange(4 * l, 4 * l + 4)
                == filler(stack[l]),
    decreases stack.len(),
{
    lemma_segment_literals();
    if stack.len() > 0 {
        let init = stack.drop_last();
        lemma_fillers(init);
        let f = fillers_of(stack);
        assert(f == fillers_of(init) + filler(stack.last()));
        lemma_concat_lacks(fillers_of(init), filler(stack.last()), '\x1b');
        assert forall|l: int| 0 <= l < stack.len() implies #[trigger] f.subrange(4 * l, 4 * l + 4)
            == filler(stack[l]) by {
            if l < init.len() {
                assert(f.subrange(4 * l, 4 * l + 4) =~= fillers_of(init).subrange(4 * l, 4 * l + 4));
            } else {
                assert(f.subrange(4 * l, 4 * l + 4) =~= filler(stack.last()));
            }
        }
    }
}

/// The prefix of an entry at depth `d` consists of exactly `d` segments of four
/// characters, one per level: fillers for the ancestors, then the connector.
pub proof fn lemma_prefix_segments(stack: Seq<bool>)
    ensures
        prefix_of(stack).len() == 4 * stack.len(),
        forall|l: int|
            0 <= l < stack.len() ==> #[trigger] prefix_of(stack).subrange(4 * l, 4 * l + 4)
                == segment(stack, l),
{
    lemma_segment_literals();
    if stack.len() > 0 {
        let init = stack.drop_last();
        lemma_fillers(init);
        let f = fillers_of(init);
        let c = connector(stack.last());
        let p = prefix_of(stack);
        assert(p == f + c);
        assert(f.len() == 4 * init.len());
        assert(c.len() == 4);
        assert forall|l: int| 0 <= l < stack.len() implies #[trigger] p.subrange(4 * l, 4 * l + 4)
            == segment(stack, l) by {
            if l < init.len() {
                assert(f.subrange(4 * l, 4 * l + 4) == filler(init[l]));
                assert(init[l] == stack[l]);
                assert((f + c).subrange(4 * l, 4 * l + 4) =~= f.subrange(4 * l, 4 * l + 4));
            } else {
                assert((f + c).subrange(4 * l, 4 * l + 4) =~= c);
            }
        }
    }
}

/// With colour off, a line holds no escape character unless the name itself does.
pub proof fn lemma_plain_line_has_no_escape(stack: Seq<bool>, name: Seq<char>, kind: EntryKind)
    requires
        !name.contains('\x1b'),
    ensures
        !line_of(stack, name, kind, false).contains('\x1b'),
{
    lemma_segment_literals();
    if stack.len() > 0 {
        lemma_fillers(stack.drop_last());
        lemma_concat_lacks(fillers_of(stack.drop_last()), connector(stack.last()), '\x1b');
    }
    assert(!prefix_of(stack).contains('\x1b'));
    let l = label(name, kind);
    if kind == EntryKind::Directory {
        assert forall|k: int| 0 <= k < l.len() implies l[k] != '\x1b' by {
            if k < name.len() {
                assert(l[k] == name[k]);
            }
        }
    }
    lemma_concat_lacks(prefix_of(stack), l, '\x1b');
}

/// With colour on, a directory's name is wrapped in an escape sequence and still appears
/// unchanged inside the line.
pub proof fn lemma_directory_line_colored(stack: Seq<bool>, name: Seq<char>)
    ensures
        ({
            let line = line_of(stack, name, EntryKind::Directory, true);
            let open = color_open(EntryKind::Directory);
            let at = (prefix_of(stack).len() + open.len()) as int;
            &&& line == prefix_of(stack) + open + name.push('/') + color_reset()
            &&& open[0] == '\x1b'
            &&& color_reset()[0] == '\x1b'
            &&& line.subrange(at, at + name.len()) == name
        }),
{
    reveal_strlit("\x1b[34m");
    reveal_strlit("\x1b[0m");
    let line = line_of(stack, name, EntryKind::Directory, true);
    let open = color_open(EntryKind::Directory);
    let at = (prefix_of(stack).len() + open.len()) as int;
    assert(line =~= prefix_of(stack) + open + name.push('/') + color_reset());
    assert(line.subrange(at, at + name.len()) =~= name);
}

} // verus!
