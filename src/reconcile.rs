//! Folding a new changed-file list into the state a user sees: the tree, the
//! set of expanded directories, the selection and the cached diffs.
use vstd::prelude::*;
use crate::model::{FileEntry, NodeView, PathSet, TreeNode, lists, node_view, nodes_view};
use crate::tree::{build_tree, collect_visible, dir_paths, expand_all_dirs, files_view, rows_view,
    tree_of, visible_rows};

verus! {

/// The expanded set after a rebuild: the directories that stay keep the
/// user's choice, and directories that appear are expanded.
pub open spec fn next_expanded(
    expanded: Set<Seq<char>>,
    old_dirs: Set<Seq<char>>,
    new_dirs: Set<Seq<char>>,
) -> Set<Seq<char>> {
    expanded.intersect(new_dirs).union(new_dirs.difference(old_dirs))
}

/// Recomputes the expanded set after a rebuild from the directories of the
/// old tree and of the new one.
pub fn recompute_expanded(expanded: &PathSet, old_dirs: &PathSet, new_dirs: &PathSet) -> (r: PathSet)
    ensures
        r@ == next_expanded(expanded@, old_dirs@, new_dirs@),
{
    let dirs = new_dirs.to_vec();
    let mut r = PathSet::new();
    let mut i: usize = 0;
    while i < dirs.len()
        invariant
            i <= dirs@.len(),
            forall|q: Seq<char>| lists(dirs@, q) <==> new_dirs@.contains(q),
            forall|q: Seq<char>|
                #[trigger] r@.contains(q) <==> (lists(dirs@.subrange(0, i as int), q) && (expanded@.contains(q)
                    || !old_dirs@.contains(q))),
        decreases dirs.len() - i,
    {
        let d = dirs[i].as_str();
        let ghost pre = dirs@.subrange(0, i as int);
        let ghost post = dirs@.subrange(0, i + 1);
        if expanded.contains(d) || !old_dirs.contains(d) {
            r.insert(d);
        }
        assert forall|q: Seq<char>|
            #[trigger] r@.contains(q) <==> (lists(post, q) && (expanded@.contains(q) || !old_dirs@.contains(q))) by {
            if lists(post, q) {
                let j = choose|j: int| 0 <= j < post.len() && #[trigger] post[j]@ == q;
                if j < i {
                    assert(pre[j] == post[j]);
                    assert(lists(pre, q));
                }
            }
            if lists(pre, q) {
                let j = choose|j: int| 0 <= j < pre.len() && #[trigger] pre[j]@ == q;
                assert(post[j] == pre[j]);
            }
            assert(post[i as int]@ == d@);
        }
        i = i + 1;
    }
    assert(dirs@.subrange(0, dirs@.len() as int) =~= dirs@);
    assert(r@ =~= next_expanded(expanded@, old_dirs@, new_dirs@));
    r
}

/// Whether a cached diff for `path` survives an update: it is kept unless
/// every diff was invalidated, its own path was, or the path left the
/// changed-file list.
pub fn keep_cached(path: &str, invalidate_all: bool, invalidate_paths: &PathSet, current: &PathSet) -> (r: bool)
    ensures
        r == (!invalidate_all && !invalidate_paths@.contains(path@) && current@.contains(path@)),
{
    !invalidate_all && !invalidate_paths.contains(path) && current.contains(path)
}

/// The first row whose key is `p`.
pub open spec fn row_index_from(rows: Seq<(usize, Seq<char>, NodeView)>, p: Seq<char>, i: int) -> Option<int>
    decreases rows.len() - i,
{
    if i < 0 || i >= rows.len() {
        None
    } else if rows[i].1 == p {
        Some(i)
    } else {
        row_index_from(rows, p, i + 1)
    }
}

/// The selection after an update: the first row with the previously
/// selected key if there is one, else the old index, clamped to the rows.
pub open spec fn next_cursor(rows: Seq<(usize, Seq<char>, NodeView)>, selected: Option<Seq<char>>, cursor: usize) -> usize {
    let c = match selected {
        Some(p) => match row_index_from(rows, p, 0) {
            Some(k) => k as usize,
            None => cursor,
        },
        None => cursor,
    };
    if rows.len() == 0 {
        0
    } else if c >= rows.len() {
        (rows.len() - 1) as usize
    } else {
        c
    }
}

/// The files, tree, expanded directories and selection that a user sees.
pub struct TreeView {
    pub files: Vec<FileEntry>,
    pub tree: Vec<TreeNode>,
    pub expanded: PathSet,
    pub cursor: usize,
    pub scroll_offset: usize,
    pub diff_scroll: usize,
    pub tree_version: u64,
}

impl TreeView {
    /// The rows the user sees, in order.
    pub open spec fn rows(&self) -> Seq<(usize, Seq<char>, NodeView)> {
        visible_rows(nodes_view(self.tree@), seq![], 0, self.expanded@)
    }

    /// The state for a new changed-file list: every directory expanded and
    /// the first row selected.
    pub fn new(files: Vec<FileEntry>) -> (r: TreeView)
        ensures
            r.files@ == files@,
            nodes_view(r.tree@) == tree_of(files_view(files@)),
            r.expanded@ == dir_paths(tree_of(files_view(files@)), seq![]),
            r.cursor == 0,
            r.scroll_offset == 0,
            r.diff_scroll == 0,
            r.tree_version == 1,
    {
        let tree = build_tree(files.as_slice());
        let mut expanded = PathSet::new();
        expand_all_dirs(tree.as_slice(), "", &mut expanded);
        proof {
            reveal_strlit("");
            assert(""@ =~= Seq::<char>::empty());
            assert(expanded@ =~= dir_paths(tree_of(files_view(files@)), seq![]));
        }
        TreeView { files, tree, expanded, cursor: 0, scroll_offset: 0, diff_scroll: 0, tree_version: 1 }
    }

    /// The visible rows: depth, key and node, in pre-order, with the
    /// children of expanded directories only.
    pub fn visible_items(&self) -> (r: Vec<(usize, String, &TreeNode)>)
        ensures
            rows_view(r@) == self.rows(),
    {
        let mut items: Vec<(usize, String, &TreeNode)> = Vec::new();
        proof {
            reveal_strlit("");
            assert(""@ =~= Seq::<char>::empty());
            assert(rows_view(items@) =~= seq![]);
        }
        collect_visible(self.tree.as_slice(), "", 0, &self.expanded, &mut items);
        assert(rows_view(items@) =~= self.rows());
        items
    }

    /// The key of the selected row, if the cursor is on one.
    pub fn selected_path(&self) -> (r: Option<String>)
        ensures
            r is Some <==> self.cursor < self.rows().len(),
            r matches Some(p) ==> p@ == self.rows()[self.cursor as int].1,
    {
        let items = self.visible_items();
        if self.cursor < items.len() {
            let p = items[self.cursor].1.clone();
            proof {
                assert(rows_view(items@)[self.cursor as int] == (items@[self.cursor as int].0, items@[self.cursor as int].1@, node_view(*items@[self.cursor as int].2)));
            }
            Some(p)
        } else {
            None
        }
    }

    /// Replaces the changed-file list and rebuilds the tree; keeps the
    /// user's choices for the directories that stay, expands new ones, and
    /// keeps the selection on the same key where it is still visible.
    pub fn apply_update(&mut self, files: Vec<FileEntry>)
        ensures
            final(self).files@ == files@,
            nodes_view(final(self).tree@) == tree_of(files_view(files@)),
            final(self).expanded@ == next_expanded(
                old(self).expanded@,
                dir_paths(nodes_view(old(self).tree@), seq![]),
                dir_paths(tree_of(files_view(files@)), seq![]),
            ),
            final(self).cursor == next_cursor(
                final(self).rows(),
                if old(self).cursor < old(self).rows().len() {
                    Some(old(self).rows()[old(self).cursor as int].1)
                } else {
                    None
                },
                old(self).cursor,
            ),
            final(self).rows().len() == 0 ==> final(self).scroll_offset == 0 && final(self).diff_scroll == 0,
            final(self).rows().len() > 0 ==> final(self).scroll_offset == old(self).scroll_offset
                && final(self).diff_scroll == old(self).diff_scroll,
            final(self).tree_version == (old(self).tree_version + 1) % 0x1_0000_0000_0000_0000,
    {
        let old_selected = self.selected_path();
        proof {
            reveal_strlit("");
            assert(""@ =~= Seq::<char>::empty());
        }
        let mut old_dirs = PathSet::new();
        expand_all_dirs(self.tree.as_slice(), "", &mut old_dirs);
        assert(old_dirs@ =~= dir_paths(nodes_view(self.tree@), seq![]));
        let tree = build_tree(files.as_slice());
        let mut new_dirs = PathSet::new();
        expand_all_dirs(tree.as_slice(), "", &mut new_dirs);
        assert(new_dirs@ =~= dir_paths(tree_of(files_view(files@)), seq![]));
        let expanded = recompute_expanded(&self.expanded, &old_dirs, &new_dirs);
        self.files = files;
        self.tree = tree;
        self.expanded = expanded;
        self.tree_version = self.tree_version.wrapping_add(1);
        let items = self.visible_items();
        let count = items.len();
        let mut cursor = self.cursor;
        if let Some(selected) = &old_selected {
            let mut k: usize = 0;
            while k < items.len()
                invariant
                    k <= items@.len(),
                    row_index_from(rows_view(items@), selected@, 0) == row_index_from(rows_view(items@), selected@, k as int),
                ensures
                    k < items@.len() ==> row_index_from(rows_view(items@), selected@, 0) == Some(k as int),
                    k >= items@.len() ==> row_index_from(rows_view(items@), selected@, 0) is None,
                decreases items.len() - k,
            {
                if crate::model::same_text(items[k].1.as_str(), selected.as_str()) {
                    break;
                }
                k = k + 1;
            }
            if k < items.len() {
                cursor = k;
            }
        }
        if cursor >= count && count > 0 {
            cursor = count - 1;
        }
        if count == 0 {
            cursor = 0;
            self.scroll_offset = 0;
            self.diff_scroll = 0;
        }
        self.cursor = cursor;
    }

    /// Opens a closed selected directory, or closes an open one.
    pub fn toggle_expand(&mut self)
        ensures
            final(self).cursor == old(self).cursor,
            final(self).tree@ == old(self).tree@,
            ({
                let rows = old(self).rows();
                let c = old(self).cursor as int;
                if c < rows.len() && rows[c].2 is Dir {
                    &&& final(self).expanded@ == if old(self).expanded@.contains(rows[c].1) {
                        old(self).expanded@.remove(rows[c].1)
                    } else {
                        old(self).expanded@.insert(rows[c].1)
                    }
                    &&& final(self).tree_version == (old(self).tree_version + 1) % 0x1_0000_0000_0000_0000
                } else {
                    &&& final(self).expanded@ == old(self).expanded@
                    &&& final(self).tree_version == old(self).tree_version
                }
            }),
    {
        let target = {
            let items = self.visible_items();
            if self.cursor < items.len() {
                proof {
                    assert(rows_view(items@)[self.cursor as int] == (items@[self.cursor as int].0, items@[self.cursor as int].1@, node_view(*items@[self.cursor as int].2)));
                }
                match items[self.cursor].2 {
                    TreeNode::Directory { .. } => Some(items[self.cursor].1.clone()),
                    TreeNode::File(_) => None,
                }
            } else {
                None
            }
        };
        if let Some(path) = target {
            if self.expanded.contains(path.as_str()) {
                self.expanded.remove(path.as_str());
            } else {
                self.expanded.insert(path.as_str());
            }
            self.tree_version = self.tree_version.wrapping_add(1);
        }
    }

    /// Closes the selected directory if it is open.
    pub fn collapse_selected(&mut self)
        ensures
            final(self).cursor == old(self).cursor,
            final(self).tree@ == old(self).tree@,
            ({
                let rows = old(self).rows();
                let c = old(self).cursor as int;
                if c < rows.len() && old(self).expanded@.contains(rows[c].1) {
                    &&& final(self).expanded@ == old(self).expanded@.remove(rows[c].1)
                    &&& final(self).tree_version == (old(self).tree_version + 1) % 0x1_0000_0000_0000_0000
                } else {
                    &&& final(self).expanded@ == old(self).expanded@
                    &&& final(self).tree_version == old(self).tree_version
                }
            }),
    {
        if let Some(path) = self.selected_path() {
            if self.expanded.contains(path.as_str()) {
                self.expanded.remove(path.as_str());
                self.tree_version = self.tree_version.wrapping_add(1);
            }
        }
    }
}

} // verus!
