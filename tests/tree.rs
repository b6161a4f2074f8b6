use prdiff::model::{FileEntry, FileStatus, PathSet, TreeNode};
use prdiff::tree::{build_tree, collect_visible, compact_tree, expand_all_dirs};

fn entry(path: &str, status: FileStatus, additions: i32, deletions: i32) -> FileEntry {
    FileEntry { path: path.to_string(), status, additions, deletions }
}

fn render(nodes: &[TreeNode]) -> String {
    let mut out = String::new();
    for n in nodes {
        match n {
            TreeNode::Directory { name, children } => {
                out.push_str(&format!("D({})[{}]", name, render(children)));
            }
            TreeNode::File(f) => {
                out.push_str(&format!("F({})", f.path));
            }
        }
    }
    out
}

#[test]
fn compact_tree_does_not_merge_branching_directories() {
    let files = vec![
        FileEntry {
            path: "a/b/c/file1.txt".to_string(),
            status: FileStatus::Modified,
            additions: 1,
            deletions: 0,
        },
        FileEntry {
            path: "a/b/d/file2.txt".to_string(),
            status: FileStatus::Modified,
            additions: 1,
            deletions: 0,
        },
    ];

    let tree = build_tree(&files);
    let root_dir = tree
        .iter()
        .find(|n| matches!(n, TreeNode::Directory { name, .. } if name == "a"));
    assert!(root_dir.is_some());
}

#[test]
fn compact_tree_merges_pure_chains() {
    let mut nodes = vec![TreeNode::Directory {
        name: "a".to_string(),
        children: vec![TreeNode::Directory {
            name: "b".to_string(),
            children: vec![TreeNode::Directory {
                name: "c".to_string(),
                children: vec![TreeNode::File(FileEntry {
                    path: "a/b/c/file.txt".to_string(),
                    status: FileStatus::Modified,
                    additions: 0,
                    deletions: 0,
                })],
            }],
        }],
    }];

    compact_tree(&mut nodes);
    let TreeNode::Directory { name, .. } = &nodes[0] else {
        panic!("expected directory");
    };
    assert_eq!(name, "a/b/c");
}

#[test]
fn directories_come_before_files_and_names_are_ordered() {
    let files = vec![
        entry("b.txt", FileStatus::Modified, 1, 0),
        entry("zeta/x.rs", FileStatus::Added, 1, 0),
        entry("alpha/y.rs", FileStatus::Added, 1, 0),
        entry("a.txt", FileStatus::Deleted, 0, 3),
        entry("alpha/b.rs", FileStatus::Added, 1, 0),
    ];
    let tree = build_tree(&files);
    assert_eq!(
        render(&tree),
        "D(alpha)[F(alpha/b.rs)F(alpha/y.rs)]D(zeta)[F(zeta/x.rs)]F(a.txt)F(b.txt)"
    );
}

#[test]
fn sibling_files_under_a_lone_directory_keep_the_chain() {
    let files = vec![
        entry("a/b/c.rs", FileStatus::Modified, 3, 1),
        entry("a/b/d.rs", FileStatus::Added, 10, 0),
    ];
    let tree = build_tree(&files);
    assert_eq!(render(&tree), "D(a)[D(b)[F(a/b/c.rs)F(a/b/d.rs)]]");
    let TreeNode::Directory { children, .. } = &tree[0] else {
        panic!("expected directory");
    };
    let TreeNode::Directory { children: files_in_b, .. } = &children[0] else {
        panic!("expected directory");
    };
    let TreeNode::File(c) = &files_in_b[0] else {
        panic!("expected file");
    };
    assert_eq!(c.additions, 3);
    assert_eq!(c.deletions, 1);
    assert_eq!(c.status, FileStatus::Modified);
}

#[test]
fn long_single_child_chain_is_joined() {
    let files = vec![entry("x/y/z/w/f.rs", FileStatus::Modified, 1, 1)];
    let tree = build_tree(&files);
    assert_eq!(render(&tree), "D(x/y/z/w)[F(x/y/z/w/f.rs)]");
}

#[test]
fn branch_deep_in_a_chain_stops_the_join() {
    let files = vec![
        entry("p/q/r/s/one.rs", FileStatus::Modified, 1, 0),
        entry("p/q/r/t/two.rs", FileStatus::Modified, 1, 0),
    ];
    let tree = build_tree(&files);
    assert_eq!(render(&tree), "D(p/q)[D(r)[D(s)[F(p/q/r/s/one.rs)]D(t)[F(p/q/r/t/two.rs)]]]");
}

#[test]
fn rebuilding_gives_the_same_tree() {
    let files = vec![
        entry("src/main.rs", FileStatus::Modified, 2, 2),
        entry("src/lib/a.rs", FileStatus::Added, 5, 0),
        entry("README.md", FileStatus::Modified, 1, 1),
        entry("docs/guide/intro.md", FileStatus::Renamed, 0, 0),
    ];
    let first = build_tree(&files);
    let second = build_tree(&files);
    assert_eq!(render(&first), render(&second));
}

#[test]
fn flattening_with_everything_open_lists_every_file() {
    let files = vec![
        entry("src/main.rs", FileStatus::Modified, 2, 2),
        entry("src/lib/a.rs", FileStatus::Added, 5, 0),
        entry("README.md", FileStatus::Modified, 1, 1),
        entry("docs/guide/intro.md", FileStatus::Renamed, 0, 0),
    ];
    let tree = build_tree(&files);
    let mut expanded = PathSet::new();
    expand_all_dirs(&tree, "", &mut expanded);
    let mut rows = Vec::new();
    collect_visible(&tree, "", 0, &expanded, &mut rows);
    let mut listed: Vec<String> = rows
        .iter()
        .filter(|(_, _, n)| matches!(n, TreeNode::File(_)))
        .map(|(_, p, _)| p.clone())
        .collect();
    listed.sort();
    let mut expected: Vec<String> = files.iter().map(|f| f.path.clone()).collect();
    expected.sort();
    assert_eq!(listed, expected);
}

#[test]
fn collapsed_directory_hides_its_children() {
    let files = vec![
        entry("src/main.rs", FileStatus::Modified, 2, 2),
        entry("src/lib.rs", FileStatus::Modified, 2, 2),
        entry("top.rs", FileStatus::Added, 1, 0),
    ];
    let tree = build_tree(&files);
    let expanded = PathSet::new();
    let mut rows = Vec::new();
    collect_visible(&tree, "", 0, &expanded, &mut rows);
    let keys: Vec<(usize, String)> = rows.iter().map(|(d, p, _)| (*d, p.clone())).collect();
    assert_eq!(keys, vec![(0, "src".to_string()), (0, "top.rs".to_string())]);
}

#[test]
fn directory_keys_join_the_chain_of_names() {
    let files = vec![
        entry("a/b/one.rs", FileStatus::Modified, 1, 0),
        entry("a/b/c/d/two.rs", FileStatus::Modified, 1, 0),
    ];
    let tree = build_tree(&files);
    let mut expanded = PathSet::new();
    expand_all_dirs(&tree, "", &mut expanded);
    let mut rows = Vec::new();
    collect_visible(&tree, "", 0, &expanded, &mut rows);
    let keys: Vec<(usize, String)> = rows.iter().map(|(d, p, _)| (*d, p.clone())).collect();
    assert_eq!(
        keys,
        vec![
            (0, "a".to_string()),
            (1, "a/b".to_string()),
            (2, "a/b/c/d".to_string()),
            (3, "a/b/c/d/two.rs".to_string()),
            (2, "a/b/one.rs".to_string()),
        ]
    );
    assert!(expanded.contains("a/b/c/d"));
    assert!(!expanded.contains("a/b/c"));
}

#[test]
fn node_names_are_last_segments() {
    let file = TreeNode::File(entry("src/deep/mod.rs", FileStatus::Modified, 0, 0));
    assert_eq!(file.name(), "mod.rs");
    let top = TreeNode::File(entry("Cargo.toml", FileStatus::Modified, 0, 0));
    assert_eq!(top.name(), "Cargo.toml");
    let dir = TreeNode::Directory { name: "a/b".to_string(), children: vec![] };
    assert_eq!(dir.name(), "a/b");
}

#[test]
fn status_symbols() {
    assert_eq!(FileStatus::Added.symbol(), "+");
    assert_eq!(FileStatus::Modified.symbol(), "~");
    assert_eq!(FileStatus::Deleted.symbol(), "-");
    assert_eq!(FileStatus::Renamed.symbol(), "\u{2192}");
    assert_eq!(FileStatus::Unknown.symbol(), "?");
}

#[test]
fn empty_change_set_builds_an_empty_tree() {
    let tree = build_tree(&[]);
    assert!(tree.is_empty());
}

#[test]
fn joined_names_keep_the_place_of_their_first_segment() {
    let files = vec![
        entry("a/b/c/x.rs", FileStatus::Modified, 1, 0),
        entry("a.b/y.rs", FileStatus::Modified, 1, 0),
    ];
    let tree = build_tree(&files);
    assert_eq!(render(&tree), "D(a/b/c)[F(a/b/c/x.rs)]D(a.b)[F(a.b/y.rs)]");
}
