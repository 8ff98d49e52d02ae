use ftrek::{classify, render_flat, render_line, render_tree, EntryKind, FlatEntry, Node};

fn file(name: &str) -> Node {
    Node { name: name.to_string(), kind: EntryKind::Regular, children: Vec::new() }
}

fn dir(name: &str, children: Vec<Node>) -> Node {
    Node { name: name.to_string(), kind: EntryKind::Directory, children }
}

fn flat(parts: &[&str], kind: EntryKind) -> FlatEntry {
    FlatEntry { parts: parts.iter().map(|s| s.to_string()).collect(), kind }
}

#[test]
fn classify_follows_precedence() {
    assert_eq!(classify(true, true, true), EntryKind::Symlink);
    assert_eq!(classify(false, true, true), EntryKind::Directory);
    assert_eq!(classify(false, false, true), EntryKind::Executable);
    assert_eq!(classify(false, false, false), EntryKind::Regular);
}

#[test]
fn line_prefix_has_one_segment_per_level() {
    let stack = vec![false, true, false];
    assert_eq!(render_line(&stack, 0, "r", EntryKind::Directory, false), "r/");
    assert_eq!(render_line(&stack, 1, "a", EntryKind::Regular, false), "├── a");
    assert_eq!(render_line(&stack, 2, "b", EntryKind::Regular, false), "│   └── b");
    assert_eq!(render_line(&stack, 3, "c", EntryKind::Directory, false), "│       ├── c/");
}

#[test]
fn colors_by_kind() {
    let stack = vec![true];
    assert_eq!(render_line(&stack, 1, "d", EntryKind::Directory, true), "└── \x1b[34md/\x1b[0m");
    assert_eq!(render_line(&stack, 1, "l", EntryKind::Symlink, true), "└── \x1b[36ml\x1b[0m");
    assert_eq!(render_line(&stack, 1, "x", EntryKind::Executable, true), "└── \x1b[32mx\x1b[0m");
    assert_eq!(render_line(&stack, 1, "f", EntryKind::Regular, true), "└── f");
}

#[test]
fn prints_tree_for_explicit_root() {
    let root = dir("/tmp/root", vec![dir("nested", vec![file("file.txt")])]);
    let lines = render_tree(&root, false);
    assert_eq!(lines, vec!["/tmp/root/", "└── nested/", "    └── file.txt"]);
    let nested = lines.iter().position(|l| l.contains("nested/")).unwrap();
    let leaf = lines.iter().position(|l| l.contains("file.txt")).unwrap();
    let indent = |line: &String, name: &str| line.chars().count() - name.chars().count();
    assert_eq!(indent(&lines[leaf], "file.txt"), indent(&lines[nested], "nested/") + 4);
}

#[test]
fn last_sibling_gets_corner_connector() {
    let root = dir(".", vec![file("a"), dir("b", vec![file("c"), file("d")]), file("e")]);
    let lines = render_tree(&root, false);
    assert_eq!(
        lines,
        vec!["./", "├── a", "├── b/", "│   ├── c", "│   └── d", "└── e"]
    );
}

#[test]
fn one_line_per_entry() {
    let root = dir("r", vec![dir("a", vec![dir("b", vec![file("c")])]), file("d"), dir("e", vec![])]);
    assert_eq!(render_tree(&root, false).len(), 6);
    assert_eq!(render_tree(&dir("r", vec![]), false), vec!["r/"]);
}

#[test]
fn plain_output_has_no_escapes_and_color_wraps_directories() {
    let root = dir("r", vec![dir("sub", vec![file("f")])]);
    for line in render_tree(&root, false) {
        assert!(!line.contains('\x1b'));
    }
    let colored = render_tree(&root, true);
    assert_eq!(colored[0], "\x1b[34mr/\x1b[0m");
    assert_eq!(colored[1], "└── \x1b[34msub/\x1b[0m");
    assert!(colored[1].contains("sub"));
    assert_eq!(colored[2], "    └── f");
}

#[test]
fn rendering_twice_is_identical() {
    let root = dir("r", vec![file("a"), dir("b", vec![file("c")])]);
    assert_eq!(render_tree(&root, true), render_tree(&root, true));
    let entries = vec![flat(&[], EntryKind::Directory), flat(&["a"], EntryKind::Regular)];
    assert_eq!(render_flat("r", &entries, false), render_flat("r", &entries, false));
}

#[test]
fn defaults_to_current_directory_when_no_root_is_passed() {
    let root = dir(".", vec![file("local.txt")]);
    let lines = render_tree(&root, false);
    assert_eq!(lines, vec!["./", "└── local.txt"]);
}

#[test]
fn flat_walk_keeps_only_the_entries_given() {
    let entries = vec![flat(&[], EntryKind::Directory), flat(&["kept.txt"], EntryKind::Regular)];
    let lines = render_flat("/tmp/root", &entries, false);
    assert_eq!(lines, vec!["/tmp/root/", "└── kept.txt"]);
    assert!(lines.iter().all(|l| !l.contains("ignored")));
}

#[test]
fn flat_walk_rebuilds_nesting_from_paths() {
    let entries = vec![
        flat(&[], EntryKind::Directory),
        flat(&["a"], EntryKind::Directory),
        flat(&["a", "b.txt"], EntryKind::Regular),
        flat(&["a", "sub"], EntryKind::Directory),
        flat(&["a", "sub", "deep"], EntryKind::Regular),
        flat(&["c.txt"], EntryKind::Regular),
    ];
    let lines = render_flat("root", &entries, false);
    assert_eq!(
        lines,
        vec![
            "root/",
            "└── a/",
            "    └── b.txt",
            "    └── sub/",
            "        └── deep",
            "└── c.txt"
        ]
    );
}

#[test]
fn flat_walk_colors_directories() {
    let entries = vec![flat(&[], EntryKind::Directory), flat(&["d"], EntryKind::Directory)];
    let lines = render_flat(".", &entries, true);
    assert_eq!(lines, vec!["\x1b[34m./\x1b[0m", "└── \x1b[34md/\x1b[0m"]);
}

#[test]
fn flat_walk_gives_one_line_per_entry() {
    let entries = vec![
        flat(&[], EntryKind::Directory),
        flat(&["x", "y", "z"], EntryKind::Regular),
        flat(&["x"], EntryKind::Directory),
        flat(&["q"], EntryKind::Symlink),
    ];
    assert_eq!(render_flat("r", &entries, false).len(), 4);
}

#[test]
fn root_is_always_labelled_as_a_directory() {
    let root = Node { name: "some/path".to_string(), kind: EntryKind::Regular, children: vec![file("x")] };
    assert_eq!(render_tree(&root, false), vec!["some/path/", "└── x"]);
}

#[test]
fn flat_and_tree_modes_draw_the_same_depths() {
    let tree = dir("r", vec![dir("a", vec![file("b")])]);
    let entries = vec![
        flat(&[], EntryKind::Directory),
        flat(&["a"], EntryKind::Directory),
        flat(&["a", "b"], EntryKind::Regular),
    ];
    assert_eq!(render_tree(&tree, false), render_flat("r", &entries, false));
}
