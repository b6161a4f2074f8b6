//! What holds of every tree that `build_tree` returns.
use vstd::prelude::*;
use crate::model::{FileView, NodeView, TreeNode, nodes_view};
use crate::text::{find_char_from, first_index_of, lemma_lex_lt_transitive,
    lemma_lex_lt_irreflexive, lemma_find_char_from_found};
use crate::tree::{split_path, head_segment, order_name, node_lt, level_sorted, forest_sorted,
    dir_index, insert_file, raw_forest, insert_pos, sort_level, sort_below, sort_forest,
    merge_chain, compact_forest, tree_of, node_path, dir_paths, deeper, visible_rows};

verus! {

// ---------------------------------------------------------------------------
// The sibling order

proof fn lemma_node_lt_transitive(a: NodeView, b: NodeView, c: NodeView)
    requires
        node_lt(a, b),
        node_lt(b, c),
    ensures
        node_lt(a, c),
{
    if (a is Dir) == (b is Dir) && (b is Dir) == (c is Dir) {
        lemma_lex_lt_transitive(order_name(a), order_name(b), order_name(c));
    }
}

proof fn lemma_insert_pos_bounds(s: Seq<NodeView>, x: NodeView)
    ensures
        0 <= insert_pos(s, x) <= s.len(),
        forall|k: int| 0 <= k < insert_pos(s, x) ==> !node_lt(x, #[trigger] s[k]),
        insert_pos(s, x) < s.len() ==> node_lt(x, s[insert_pos(s, x)]),
    decreases s.len(),
{
    if s.len() > 0 && !node_lt(x, s[0]) {
        lemma_insert_pos_bounds(s.drop_first(), x);
        assert forall|k: int| 0 <= k < insert_pos(s, x) implies !node_lt(x, #[trigger] s[k]) by {
            if k > 0 {
                assert(s[k] == s.drop_first()[k - 1]);
            }
        }
    }
}

/// `sort_level` keeps the nodes of a level, and only reorders them.
pub proof fn lemma_sort_level_same_nodes(s: Seq<NodeView>)
    ensures
        sort_level(s).len() == s.len(),
        forall|i: int| 0 <= i < s.len() ==> s.contains(#[trigger] sort_level(s)[i]),
        forall|j: int| 0 <= j < s.len() ==> sort_level(s).contains(#[trigger] s[j]),
    decreases s.len(),
{
    if s.len() > 0 {
        let d = s.drop_last();
        let t = sort_level(d);
        let x = s.last();
        lemma_sort_level_same_nodes(d);
        lemma_insert_pos_bounds(t, x);
        let p = insert_pos(t, x);
        let r = t.insert(p, x);
        assert(sort_level(s) == r);
        assert forall|i: int| 0 <= i < s.len() implies s.contains(#[trigger] r[i]) by {
            if i < p {
                assert(r[i] == t[i]);
                assert(d.contains(t[i]));
                let j = choose|j: int| 0 <= j < d.len() && d[j] == t[i];
                assert(s[j] == d[j]);
            } else if i == p {
                assert(r[i] == s[s.len() - 1]);
            } else {
                assert(r[i] == t[i - 1]);
                assert(d.contains(t[i - 1]));
                let j = choose|j: int| 0 <= j < d.len() && d[j] == t[i - 1];
                assert(s[j] == d[j]);
            }
        }
        assert forall|j: int| 0 <= j < s.len() implies r.contains(#[trigger] s[j]) by {
            if j < s.len() - 1 {
                assert(s[j] == d[j]);
                assert(t.contains(d[j]));
                let i = choose|i: int| 0 <= i < t.len() && t[i] == d[j];
                if i < p {
                    assert(r[i] == t[i]);
                } else {
                    assert(r[i + 1] == t[i]);
                }
            } else {
                assert(r[p] == x);
            }
        }
    }
}

/// `sort_level` puts every level in order.
pub proof fn lemma_sort_level_sorted(s: Seq<NodeView>)
    ensures
        level_sorted(sort_level(s)),
    decreases s.len(),
{
    if s.len() > 0 {
        let d = s.drop_last();
        let t = sort_level(d);
        let x = s.last();
        lemma_sort_level_sorted(d);
        lemma_insert_pos_bounds(t, x);
        let p = insert_pos(t, x);
        let r = t.insert(p, x);
        assert forall|i: int, j: int| 0 <= i < j < r.len() implies !node_lt(#[trigger] r[j], #[trigger] r[i]) by {
            if j < p {
                assert(r[i] == t[i] && r[j] == t[j]);
            } else if j == p {
                assert(r[i] == t[i]);
            } else if i < p {
                assert(r[i] == t[i] && r[j] == t[j - 1]);
            } else if i == p {
                assert(r[j] == t[j - 1]);
                if p < t.len() {
                    if j - 1 > p {
                        assert(!node_lt(t[j - 1], t[p]));
                    }
                    if node_lt(t[j - 1], x) {
                        lemma_node_lt_transitive(t[j - 1], x, t[p]);
                        if j - 1 == p {
                            lemma_node_lt_irreflexive(t[p]);
                        }
                    }
                }
            } else {
                assert(r[i] == t[i - 1] && r[j] == t[j - 1]);
            }
        }
    }
}

proof fn lemma_node_lt_irreflexive(a: NodeView)
    ensures
        !node_lt(a, a),
{
    lemma_lex_lt_irreflexive(order_name(a));
}

// ---------------------------------------------------------------------------
// Sorting at every depth

/// Each node of `sort_below(s)` is the node of `s` at the same place, with its
/// children (if any) sorted at every depth.
proof fn lemma_sort_below(s: Seq<NodeView>)
    ensures
        sort_below(s).len() == s.len(),
        forall|i: int|
            0 <= i < s.len() ==> {
                let a = #[trigger] sort_below(s)[i];
                &&& (a is Dir) == (s[i] is Dir)
                &&& order_name(a) == order_name(s[i])
                &&& a is Dir ==> a->name == s[i]->name && forest_sorted(a->children)
                &&& a is Leaf ==> a == s[i]
            },
    decreases s, 0nat,
{
    if s.len() > 0 {
        let d = s.subrange(0, s.len() - 1);
        lemma_sort_below(d);
        let last = s[s.len() - 1];
        match last {
            NodeView::Dir { name, children } => {
                lemma_sort_forest_sorted(children);
            },
            NodeView::Leaf { .. } => {},
        }
        assert forall|i: int| 0 <= i < s.len() - 1 implies sort_below(s)[i] == sort_below(d)[i] && s[i] == d[i] by {}
    }
}

/// Every level of a sorted forest is in order.
pub proof fn lemma_sort_forest_sorted(s: Seq<NodeView>)
    ensures
        forest_sorted(sort_forest(s)),
    decreases s, 1nat,
{
    let b = sort_below(s);
    lemma_sort_below(s);
    lemma_sort_level_sorted(b);
    lemma_sort_level_same_nodes(b);
    let r = sort_level(b);
    assert forall|i: int| 0 <= i < r.len() implies match #[trigger] r[i] {
        NodeView::Dir { children, .. } => forest_sorted(children),
        NodeView::Leaf { .. } => true,
    } by {
        assert(b.contains(r[i]));
        let j = choose|j: int| 0 <= j < b.len() && b[j] == r[i];
        assert(r[i] == b[j]);
    }
}

} // verus!

verus! {

// ---------------------------------------------------------------------------
// Joined names

proof fn lemma_find_char_concat(a: Seq<char>, t: Seq<char>, c: char, i: int)
    requires
        0 <= i <= a.len(),
    ensures
        find_char_from(a + t, c, i) == match find_char_from(a, c, i) {
            Some(k) => Some(k),
            None => find_char_from(a + t, c, a.len() as int),
        },
    decreases a.len() - i,
{
    if i < a.len() {
        assert((a + t)[i] == a[i]);
        if a[i] != c {
            lemma_find_char_concat(a, t, c, i + 1);
        }
    }
}

/// Joining a name with another keeps its first segment.
pub proof fn lemma_head_of_joined(a: Seq<char>, b: Seq<char>)
    ensures
        head_segment(a + seq!['/'] + b) == head_segment(a),
{
    let t = seq!['/'] + b;
    assert(a + seq!['/'] + b =~= a + t);
    lemma_find_char_concat(a, t, '/', 0);
    assert((a + t)[a.len() as int] == '/');
    lemma_find_char_from_found(a, '/', 0);
    match first_index_of(a, '/') {
        Some(k) => {
            assert((a + t).subrange(0, k) =~= a.subrange(0, k));
        },
        None => {
            assert((a + t).subrange(0, a.len() as int) =~= a);
        },
    }
}

/// What precedes the first `c` at or after `i` holds no `c`.
pub proof fn lemma_find_char_from_before(s: Seq<char>, c: char, i: int)
    requires
        0 <= i,
    ensures
        match find_char_from(s, c, i) {
            Some(k) => forall|m: int| i <= m < k ==> s[m] != c,
            None => forall|m: int| i <= m < s.len() ==> s[m] != c,
        },
    decreases s.len() - i,
{
    if i < s.len() && s[i] != c {
        lemma_find_char_from_before(s, c, i + 1);
    }
}

// ---------------------------------------------------------------------------
// Compaction keeps the order

proof fn lemma_merge_chain_sorted(name: Seq<char>, children: Seq<NodeView>)
    ensures
        merge_chain(name, children) is Dir,
        head_segment(merge_chain(name, children)->name) == head_segment(name),
        forest_sorted(children) ==> forest_sorted(merge_chain(name, children)->children),
    decreases children,
{
    if children.len() == 1 && children[0] is Dir && children[0]->children.len() == 1 {
        let c0 = children[0];
        if forest_sorted(children) {
            assert(forest_sorted(c0->children));
        }
        lemma_head_of_joined(name, c0->name);
        lemma_merge_chain_sorted(name + seq!['/'] + c0->name, c0->children);
    }
}

/// Compaction keeps every node's kind and order name, and keeps every level
/// of a sorted forest in order.
pub proof fn lemma_compact_keeps_order(s: Seq<NodeView>)
    ensures
        compact_forest(s).len() == s.len(),
        forall|i: int|
            0 <= i < s.len() ==> {
                let a = #[trigger] compact_forest(s)[i];
                &&& (a is Dir) == (s[i] is Dir)
                &&& order_name(a) == order_name(s[i])
                &&& a is Leaf ==> a == s[i]
            },
        forest_sorted(s) ==> forest_sorted(compact_forest(s)),
    decreases s,
{
    if s.len() > 0 {
        let d = s.subrange(0, s.len() - 1);
        let last = s[s.len() - 1];
        let r = compact_forest(s);
        lemma_compact_keeps_order(d);
        assert forall|i: int| 0 <= i < s.len() - 1 implies r[i] == compact_forest(d)[i] && s[i] == d[i] by {}
        if forest_sorted(s) {
            assert(forest_sorted(d)) by {
                assert forall|i: int| 0 <= i < d.len() implies match #[trigger] d[i] {
                    NodeView::Dir { children, .. } => forest_sorted(children),
                    NodeView::Leaf { .. } => true,
                } by {
                    assert(d[i] == s[i]);
                }
            }
        }
        match last {
            NodeView::Dir { name, children } => {
                lemma_compact_keeps_order(children);
                if forest_sorted(s) {
                    assert(forest_sorted(children));
                }
                lemma_merge_chain_sorted(name, compact_forest(children));
                if forest_sorted(s) {
                    assert(forest_sorted(compact_forest(children)));
                }
            },
            NodeView::Leaf { .. } => {},
        }
        if forest_sorted(s) {
            assert forall|i: int, j: int| 0 <= i < j < r.len() implies !node_lt(#[trigger] r[j], #[trigger] r[i]) by {
                assert(!node_lt(s[j], s[i]));
            }
            assert forall|i: int| 0 <= i < r.len() implies match #[trigger] r[i] {
                NodeView::Dir { children, .. } => forest_sorted(children),
                NodeView::Leaf { .. } => true,
            } by {
                if i < r.len() - 1 {
                    assert(r[i] == compact_forest(d)[i]);
                }
            }
        }
    }
}

/// Directories come before files at every level of a built tree, and the
/// nodes of each group are in alphabetical order of their names (of a joined
/// directory name, of its first segment).
pub proof fn lemma_built_tree_sorted(files: Seq<FileView>)
    ensures
        forest_sorted(tree_of(files)),
{
    let raw = raw_forest(files);
    lemma_sort_forest_sorted(raw);
    lemma_compact_keeps_order(sort_forest(raw));
}

// ---------------------------------------------------------------------------
// Branching directories keep their own names

/// No directory name holds a `/`.
pub open spec fn plain_dir_names(s: Seq<NodeView>) -> bool
    decreases s,
{
    forall|i: int|
        0 <= i < s.len() ==> match #[trigger] s[i] {
            NodeView::Dir { name, children } => !name.contains('/') && plain_dir_names(children),
            NodeView::Leaf { .. } => true,
        }
}

/// No directory with two or more children has a joined name.
pub open spec fn branches_unjoined(s: Seq<NodeView>) -> bool
    decreases s,
{
    forall|i: int|
        0 <= i < s.len() ==> match #[trigger] s[i] {
            NodeView::Dir { name, children } => (children.len() >= 2 ==> !name.contains('/'))
                && branches_unjoined(children),
            NodeView::Leaf { .. } => true,
        }
}

proof fn lemma_split_path_plain(p: Seq<char>)
    ensures
        forall|i: int| 0 <= i < split_path(p).len() ==> !(#[trigger] split_path(p)[i]).contains('/'),
    decreases p.len(),
{
    lemma_find_char_from_before(p, '/', 0);
    lemma_find_char_from_found(p, '/', 0);
    match first_index_of(p, '/') {
        Some(k) => {
            let rest = p.subrange(k + 1, p.len() as int);
            lemma_split_path_plain(rest);
            let seg = p.subrange(0, k);
            assert(!seg.contains('/')) by {
                if seg.contains('/') {
                    let m = choose|m: int| 0 <= m < seg.len() && seg[m] == '/';
                    assert(p[m] == '/');
                }
            }
            assert forall|i: int| 0 <= i < split_path(p).len() implies !(#[trigger] split_path(p)[i]).contains('/') by {
                if i > 0 {
                    assert(split_path(p)[i] == split_path(rest)[i - 1]);
                }
            }
        },
        None => {
            assert(!p.contains('/')) by {
                if p.contains('/') {
                    let m = choose|m: int| 0 <= m < p.len() && p[m] == '/';
                }
            }
        },
    }
}

proof fn lemma_insert_file_plain(s: Seq<NodeView>, parts: Seq<Seq<char>>, k: int, f: FileView)
    requires
        0 <= k,
        plain_dir_names(s),
        forall|i: int| 0 <= i < parts.len() ==> !(#[trigger] parts[i]).contains('/'),
    ensures
        plain_dir_names(insert_file(s, parts, k, f)),
    decreases parts.len() - k,
{
    let r = insert_file(s, parts, k, f);
    if k + 1 >= parts.len() {
        assert forall|i: int| 0 <= i < r.len() implies match #[trigger] r[i] {
            NodeView::Dir { name, children } => !name.contains('/') && plain_dir_names(children),
            NodeView::Leaf { .. } => true,
        } by {
            if i < s.len() {
                assert(r[i] == s[i]);
            }
        }
    } else {
        let i0 = dir_index(s, parts[k]);
        if i0 < s.len() {
            lemma_dir_index_found(s, parts[k]);
            assert(plain_dir_names(s[i0]->children));
            lemma_insert_file_plain(s[i0]->children, parts, k + 1, f);
        } else {
            assert(plain_dir_names(Seq::<NodeView>::empty()));
            lemma_insert_file_plain(seq![], parts, k + 1, f);
        }
        assert forall|i: int| 0 <= i < r.len() implies match #[trigger] r[i] {
            NodeView::Dir { name, children } => !name.contains('/') && plain_dir_names(children),
            NodeView::Leaf { .. } => true,
        } by {
            if i < s.len() && i != i0 {
                assert(r[i] == s[i]);
            }
        }
    }
}

proof fn lemma_dir_index_found(s: Seq<NodeView>, d: Seq<char>)
    ensures
        0 <= dir_index(s, d) <= s.len(),
        dir_index(s, d) < s.len() ==> s[dir_index(s, d)] is Dir,
    decreases s.len(),
{
    if s.len() > 0 && !(s[0] is Dir && s[0]->name == d) {
        lemma_dir_index_found(s.drop_first(), d);
    }
}

proof fn lemma_raw_forest_plain(files: Seq<FileView>)
    ensures
        plain_dir_names(raw_forest(files)),
    decreases files.len(),
{
    if files.len() > 0 {
        let last = files[files.len() - 1];
        lemma_raw_forest_plain(files.drop_last());
        lemma_split_path_plain(last.path);
        lemma_insert_file_plain(raw_forest(files.drop_last()), split_path(last.path), 0, last);
    } else {
        assert(plain_dir_names(Seq::<NodeView>::empty()));
    }
}

proof fn lemma_sort_below_plain(s: Seq<NodeView>)
    requires
        plain_dir_names(s),
    ensures
        plain_dir_names(sort_below(s)),
    decreases s, 0nat,
{
    lemma_sort_below(s);
    if s.len() > 0 {
        let d = s.subrange(0, s.len() - 1);
        assert(plain_dir_names(d)) by {
            assert forall|i: int| 0 <= i < d.len() implies match #[trigger] d[i] {
                NodeView::Dir { name, children } => !name.contains('/') && plain_dir_names(children),
                NodeView::Leaf { .. } => true,
            } by {
                assert(d[i] == s[i]);
            }
        }
        lemma_sort_below_plain(d);
        let last = s[s.len() - 1];
        match last {
            NodeView::Dir { name, children } => {
                lemma_sort_forest_plain(children);
            },
            NodeView::Leaf { .. } => {},
        }
        let r = sort_below(s);
        assert forall|i: int| 0 <= i < r.len() implies match #[trigger] r[i] {
            NodeView::Dir { name, children } => !name.contains('/') && plain_dir_names(children),
            NodeView::Leaf { .. } => true,
        } by {
            if i < r.len() - 1 {
                assert(r[i] == sort_below(d)[i]);
            }
        }
    }
}

proof fn lemma_sort_forest_plain(s: Seq<NodeView>)
    requires
        plain_dir_names(s),
    ensures
        plain_dir_names(sort_forest(s)),
    decreases s, 1nat,
{
    lemma_sort_below_plain(s);
    let b = sort_below(s);
    lemma_sort_level_same_nodes(b);
    let r = sort_level(b);
    assert forall|i: int| 0 <= i < r.len() implies match #[trigger] r[i] {
        NodeView::Dir { name, children } => !name.contains('/') && plain_dir_names(children),
        NodeView::Leaf { .. } => true,
    } by {
        assert(b.contains(r[i]));
        let j = choose|j: int| 0 <= j < b.len() && b[j] == r[i];
        assert(r[i] == b[j]);
    }
}

proof fn lemma_merge_chain_unjoined(name: Seq<char>, children: Seq<NodeView>)
    requires
        branches_unjoined(children),
        children.len() >= 2 ==> !name.contains('/'),
    ensures
        merge_chain(name, children) is Dir,
        merge_chain(name, children)->children.len() >= 2 ==> !merge_chain(name, children)->name.contains('/'),
        branches_unjoined(merge_chain(name, children)->children),
    decreases children,
{
    if children.len() == 1 && children[0] is Dir && children[0]->children.len() == 1 {
        let c0 = children[0];
        assert(branches_unjoined(c0->children));
        lemma_merge_chain_unjoined(name + seq!['/'] + c0->name, c0->children);
    }
}

proof fn lemma_compact_unjoined(s: Seq<NodeView>)
    requires
        plain_dir_names(s),
    ensures
        branches_unjoined(compact_forest(s)),
    decreases s,
{
    if s.len() > 0 {
        let d = s.subrange(0, s.len() - 1);
        assert(plain_dir_names(d)) by {
            assert forall|i: int| 0 <= i < d.len() implies match #[trigger] d[i] {
                NodeView::Dir { name, children } => !name.contains('/') && plain_dir_names(children),
                NodeView::Leaf { .. } => true,
            } by {
                assert(d[i] == s[i]);
            }
        }
        lemma_compact_unjoined(d);
        let last = s[s.len() - 1];
        match last {
            NodeView::Dir { name, children } => {
                lemma_compact_unjoined(children);
                lemma_merge_chain_unjoined(name, compact_forest(children));
            },
            NodeView::Leaf { .. } => {},
        }
        let r = compact_forest(s);
        assert forall|i: int| 0 <= i < r.len() implies match #[trigger] r[i] {
            NodeView::Dir { name, children } => (children.len() >= 2 ==> !name.contains('/'))
                && branches_unjoined(children),
            NodeView::Leaf { .. } => true,
        } by {
            if i < r.len() - 1 {
                assert(r[i] == compact_forest(d)[i]);
            }
        }
    } else {
        assert(branches_unjoined(compact_forest(s)));
    }
}

/// In a built tree, a directory with two or more children is never joined
/// into a compacted name, at any depth.
pub proof fn lemma_built_tree_branches_unjoined(files: Seq<FileView>)
    ensures
        branches_unjoined(tree_of(files)),
{
    lemma_raw_forest_plain(files);
    lemma_sort_forest_plain(raw_forest(files));
    lemma_compact_unjoined(sort_forest(raw_forest(files)));
}

} // verus!

verus! {

// ---------------------------------------------------------------------------
// Rebuilding

/// Two trees built from the same changed-file list are the same tree.
pub proof fn lemma_rebuild_identical(files: Seq<FileView>, a: Seq<TreeNode>, b: Seq<TreeNode>)
    requires
        nodes_view(a) == tree_of(files),
        nodes_view(b) == tree_of(files),
    ensures
        nodes_view(a) == nodes_view(b),
{
}

// ---------------------------------------------------------------------------
// Every file is listed

/// Whether a file with path `p` stands somewhere in the forest.
pub open spec fn has_file(s: Seq<NodeView>, p: Seq<char>) -> bool
    decreases s, 1nat,
{
    exists|i: int| 0 <= i < s.len() && node_has_file(#[trigger] s[i], p)
}

/// Whether `n` is the file `p` or holds it at some depth.
pub open spec fn node_has_file(n: NodeView, p: Seq<char>) -> bool
    decreases n, 0nat,
{
    match n {
        NodeView::Leaf { file } => file.path == p,
        NodeView::Dir { children, .. } => has_file(children, p),
    }
}

/// Whether some file row of `rows` has the key `p`.
pub open spec fn lists_file(rows: Seq<(usize, Seq<char>, NodeView)>, p: Seq<char>) -> bool {
    exists|j: int| 0 <= j < rows.len() && (#[trigger] rows[j]).2 is Leaf && rows[j].1 == p
}

/// Whether some file of `files` has the path `p`.
pub open spec fn names_path(files: Seq<FileView>, p: Seq<char>) -> bool {
    exists|i: int| 0 <= i < files.len() && (#[trigger] files[i]).path == p
}

proof fn lemma_has_file_last(s: Seq<NodeView>, p: Seq<char>)
    requires
        s.len() > 0,
    ensures
        has_file(s, p) == (has_file(s.subrange(0, s.len() - 1), p) || node_has_file(s[s.len() - 1], p)),
{
    let d = s.subrange(0, s.len() - 1);
    if has_file(s, p) {
        let i = choose|i: int| 0 <= i < s.len() && node_has_file(#[trigger] s[i], p);
        if i < s.len() - 1 {
            assert(d[i] == s[i]);
        }
    }
    if has_file(d, p) {
        let i = choose|i: int| 0 <= i < d.len() && node_has_file(#[trigger] d[i], p);
        assert(s[i] == d[i]);
    }
}

proof fn lemma_lists_file_concat(a: Seq<(usize, Seq<char>, NodeView)>, b: Seq<(usize, Seq<char>, NodeView)>, p: Seq<char>)
    ensures
        lists_file(a + b, p) == (lists_file(a, p) || lists_file(b, p)),
{
    let c = a + b;
    if lists_file(c, p) {
        let j = choose|j: int| 0 <= j < c.len() && (#[trigger] c[j]).2 is Leaf && c[j].1 == p;
        if j < a.len() {
            assert(c[j] == a[j]);
        } else {
            assert(c[j] == b[j - a.len()]);
        }
    }
    if lists_file(a, p) {
        let j = choose|j: int| 0 <= j < a.len() && (#[trigger] a[j]).2 is Leaf && a[j].1 == p;
        assert(c[j] == a[j]);
    }
    if lists_file(b, p) {
        let j = choose|j: int| 0 <= j < b.len() && (#[trigger] b[j]).2 is Leaf && b[j].1 == p;
        assert(c[j + a.len()] == b[j]);
    }
}

proof fn lemma_insert_file_has(s: Seq<NodeView>, parts: Seq<Seq<char>>, k: int, f: FileView, p: Seq<char>)
    requires
        0 <= k,
    ensures
        has_file(insert_file(s, parts, k, f), p) == (has_file(s, p) || f.path == p),
    decreases parts.len() - k,
{
    let r = insert_file(s, parts, k, f);
    if k + 1 >= parts.len() {
        lemma_has_file_last(r, p);
        assert(r.subrange(0, r.len() - 1) =~= s);
    } else {
        let i0 = dir_index(s, parts[k]);
        lemma_dir_index_found(s, parts[k]);
        if i0 < s.len() {
            let c = s[i0]->children;
            lemma_insert_file_has(c, parts, k + 1, f, p);
            if has_file(r, p) {
                let i = choose|i: int| 0 <= i < r.len() && node_has_file(#[trigger] r[i], p);
                if i != i0 {
                    assert(r[i] == s[i]);
                } else if has_file(c, p) {
                    assert(node_has_file(s[i0], p));
                }
            }
            if has_file(s, p) {
                let i = choose|i: int| 0 <= i < s.len() && node_has_file(#[trigger] s[i], p);
                if i != i0 {
                    assert(r[i] == s[i]);
                } else {
                    assert(node_has_file(r[i0], p));
                }
            }
            if f.path == p {
                assert(node_has_file(r[i0], p));
            }
        } else {
            let c: Seq<NodeView> = seq![];
            lemma_insert_file_has(c, parts, k + 1, f, p);
            assert(!has_file(c, p));
            lemma_has_file_last(r, p);
            assert(r.subrange(0, r.len() - 1) =~= s);
        }
    }
}

proof fn lemma_raw_forest_has(files: Seq<FileView>, p: Seq<char>)
    ensures
        has_file(raw_forest(files), p) == names_path(files, p),
    decreases files.len(),
{
    if files.len() > 0 {
        let d = files.drop_last();
        let last = files[files.len() - 1];
        lemma_raw_forest_has(d, p);
        lemma_insert_file_has(raw_forest(d), split_path(last.path), 0, last, p);
        if names_path(files, p) {
            let i = choose|i: int| 0 <= i < files.len() && (#[trigger] files[i]).path == p;
            if i < files.len() - 1 {
                assert(d[i] == files[i]);
            }
        }
        if names_path(d, p) {
            let i = choose|i: int| 0 <= i < d.len() && (#[trigger] d[i]).path == p;
            assert(files[i] == d[i]);
        }
    }
}

proof fn lemma_sort_level_has(s: Seq<NodeView>, p: Seq<char>)
    ensures
        has_file(sort_level(s), p) == has_file(s, p),
{
    lemma_sort_level_same_nodes(s);
    let r = sort_level(s);
    if has_file(r, p) {
        let i = choose|i: int| 0 <= i < r.len() && node_has_file(#[trigger] r[i], p);
        assert(s.contains(r[i]));
        let j = choose|j: int| 0 <= j < s.len() && s[j] == r[i];
        assert(node_has_file(s[j], p));
    }
    if has_file(s, p) {
        let j = choose|j: int| 0 <= j < s.len() && node_has_file(#[trigger] s[j], p);
        assert(r.contains(s[j]));
        let i = choose|i: int| 0 <= i < r.len() && r[i] == s[j];
        assert(node_has_file(r[i], p));
    }
}

proof fn lemma_sort_below_has(s: Seq<NodeView>, p: Seq<char>)
    ensures
        has_file(sort_below(s), p) == has_file(s, p),
    decreases s, 0nat,
{
    if s.len() > 0 {
        let d = s.subrange(0, s.len() - 1);
        let r = sort_below(s);
        lemma_sort_below_has(d, p);
        lemma_has_file_last(s, p);
        lemma_has_file_last(r, p);
        assert(r.subrange(0, r.len() - 1) =~= sort_below(d));
        let last = s[s.len() - 1];
        match last {
            NodeView::Dir { children, .. } => {
                lemma_sort_forest_has(children, p);
            },
            NodeView::Leaf { .. } => {},
        }
    }
}

proof fn lemma_sort_forest_has(s: Seq<NodeView>, p: Seq<char>)
    ensures
        has_file(sort_forest(s), p) == has_file(s, p),
    decreases s, 1nat,
{
    lemma_sort_below_has(s, p);
    lemma_sort_level_has(sort_below(s), p);
}

proof fn lemma_merge_chain_has(name: Seq<char>, children: Seq<NodeView>, p: Seq<char>)
    ensures
        merge_chain(name, children) is Dir,
        has_file(merge_chain(name, children)->children, p) == has_file(children, p),
    decreases children,
{
    if children.len() == 1 && children[0] is Dir && children[0]->children.len() == 1 {
        let c0 = children[0];
        lemma_merge_chain_has(name + seq!['/'] + c0->name, c0->children, p);
        if has_file(children, p) {
            let i = choose|i: int| 0 <= i < children.len() && node_has_file(#[trigger] children[i], p);
            assert(i == 0);
        }
        if has_file(c0->children, p) {
            assert(node_has_file(children[0], p));
        }
    }
}

proof fn lemma_compact_has(s: Seq<NodeView>, p: Seq<char>)
    ensures
        has_file(compact_forest(s), p) == has_file(s, p),
    decreases s,
{
    if s.len() > 0 {
        let d = s.subrange(0, s.len() - 1);
        let r = compact_forest(s);
        lemma_compact_has(d, p);
        lemma_has_file_last(s, p);
        lemma_has_file_last(r, p);
        assert(r.subrange(0, r.len() - 1) =~= compact_forest(d));
        let last = s[s.len() - 1];
        match last {
            NodeView::Dir { name, children } => {
                lemma_compact_has(children, p);
                lemma_merge_chain_has(name, compact_forest(children), p);
            },
            NodeView::Leaf { .. } => {},
        }
    }
}

proof fn lemma_visible_lists_files(
    s: Seq<NodeView>,
    prefix: Seq<char>,
    depth: usize,
    expanded: Set<Seq<char>>,
    p: Seq<char>,
)
    requires
        dir_paths(s, prefix).subset_of(expanded),
    ensures
        lists_file(visible_rows(s, prefix, depth, expanded), p) == has_file(s, p),
    decreases s,
{
    if s.len() > 0 {
        let d = s.subrange(0, s.len() - 1);
        let last = s[s.len() - 1];
        let q = node_path(prefix, last);
        lemma_visible_lists_files(d, prefix, depth, expanded, p);
        lemma_has_file_last(s, p);
        let head = visible_rows(d, prefix, depth, expanded);
        let row: Seq<(usize, Seq<char>, NodeView)> = seq![(depth, q, last)];
        let sub = match last {
            NodeView::Dir { children, .. } => if expanded.contains(q) {
                visible_rows(children, q, deeper(depth), expanded)
            } else {
                seq![]
            },
            NodeView::Leaf { .. } => seq![],
        };
        lemma_lists_file_concat(head + row, sub, p);
        lemma_lists_file_concat(head, row, p);
        match last {
            NodeView::Dir { children, name } => {
                assert(expanded.contains(q));
                lemma_visible_lists_files(children, q, deeper(depth), expanded, p);
                assert(!lists_file(row, p));
            },
            NodeView::Leaf { file } => {
                assert(lists_file(row, p) == (file.path == p)) by {
                    if file.path == p {
                        assert(row[0].2 is Leaf && row[0].1 == p);
                    }
                }
                assert(!lists_file(sub, p));
            },
        }
    } else {
        assert(!lists_file(visible_rows(s, prefix, depth, expanded), p));
    }
}

/// With every directory expanded, the file rows of a built tree list
/// exactly the paths of the changed-file list.
pub proof fn lemma_flatten_lists_every_file(files: Seq<FileView>, expanded: Set<Seq<char>>, p: Seq<char>)
    requires
        dir_paths(tree_of(files), seq![]).subset_of(expanded),
    ensures
        lists_file(visible_rows(tree_of(files), seq![], 0, expanded), p) == names_path(files, p),
{
    let raw = raw_forest(files);
    lemma_raw_forest_has(files, p);
    lemma_sort_forest_has(raw, p);
    lemma_compact_has(sort_forest(raw), p);
    lemma_visible_lists_files(tree_of(files), seq![], 0, expanded, p);
}

} // verus!
