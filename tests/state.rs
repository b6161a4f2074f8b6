use prdiff::cache::DiffCache;
use prdiff::model::{DiffSource, FileEntry, FileStatus, PathSet};
use prdiff::reconcile::{keep_cached, recompute_expanded, TreeView};

fn entry(path: &str) -> FileEntry {
    FileEntry { path: path.to_string(), status: FileStatus::Modified, additions: 1, deletions: 0 }
}

fn set_of(items: &[&str]) -> PathSet {
    let mut s = PathSet::new();
    for i in items {
        s.insert(i);
    }
    s
}

fn sorted(s: &PathSet) -> Vec<String> {
    let mut v = s.to_vec();
    v.sort();
    v
}

#[test]
fn new_directory_opens_and_old_choices_stay() {
    let expanded = set_of(&["A", "A/B"]);
    let old_dirs = set_of(&["A", "A/B"]);
    let new_dirs = set_of(&["A", "A/B", "A/C"]);
    let r = recompute_expanded(&expanded, &old_dirs, &new_dirs);
    assert_eq!(sorted(&r), vec!["A".to_string(), "A/B".to_string(), "A/C".to_string()]);
}

#[test]
fn collapsed_directory_stays_collapsed_and_vanished_ones_leave() {
    let expanded = set_of(&["A", "Gone"]);
    let old_dirs = set_of(&["A", "A/B", "Gone"]);
    let new_dirs = set_of(&["A", "A/B", "New"]);
    let r = recompute_expanded(&expanded, &old_dirs, &new_dirs);
    assert_eq!(sorted(&r), vec!["A".to_string(), "New".to_string()]);
}

#[test]
fn cache_entries_survive_only_when_still_valid() {
    let stale = set_of(&["a.rs"]);
    let current = set_of(&["a.rs", "b.rs"]);
    assert!(!keep_cached("a.rs", false, &stale, &current));
    assert!(keep_cached("b.rs", false, &stale, &current));
    assert!(!keep_cached("b.rs", true, &stale, &current));
    assert!(!keep_cached("reverted.rs", false, &stale, &current));
}

#[test]
fn path_set_operations() {
    let mut s = PathSet::new();
    assert!(s.is_empty());
    s.insert("x");
    s.insert("x");
    s.insert("y");
    assert_eq!(s.to_vec().len(), 2);
    assert!(s.contains("x"));
    s.remove("x");
    assert!(!s.contains("x"));
    assert!(s.contains("y"));
    assert!(!s.is_empty());
}

#[test]
fn fresh_view_opens_every_directory() {
    let view = TreeView::new(vec![entry("src/a.rs"), entry("src/b.rs"), entry("top.rs")]);
    assert!(view.expanded.contains("src"));
    assert_eq!(view.cursor, 0);
    assert_eq!(view.tree_version, 1);
    let rows: Vec<String> = view.visible_items().iter().map(|(_, p, _)| p.clone()).collect();
    assert_eq!(rows, vec!["src", "src/a.rs", "src/b.rs", "top.rs"]);
    assert_eq!(view.selected_path(), Some("src".to_string()));
}

#[test]
fn update_keeps_the_selection_on_its_path() {
    let mut view = TreeView::new(vec![entry("src/a.rs"), entry("src/b.rs"), entry("top.rs")]);
    view.cursor = 2;
    assert_eq!(view.selected_path(), Some("src/b.rs".to_string()));
    view.apply_update(vec![entry("aaa.rs"), entry("src/b.rs"), entry("top.rs")]);
    let rows: Vec<String> = view.visible_items().iter().map(|(_, p, _)| p.clone()).collect();
    assert_eq!(rows, vec!["src", "src/b.rs", "aaa.rs", "top.rs"]);
    assert_eq!(view.cursor, 1);
    assert_eq!(view.tree_version, 2);
}

#[test]
fn update_clamps_a_lost_selection() {
    let mut view = TreeView::new(vec![entry("a.rs"), entry("b.rs"), entry("c.rs")]);
    view.cursor = 2;
    view.apply_update(vec![entry("a.rs")]);
    assert_eq!(view.cursor, 0);
    view.scroll_offset = 4;
    view.diff_scroll = 9;
    view.apply_update(vec![]);
    assert_eq!(view.cursor, 0);
    assert_eq!(view.scroll_offset, 0);
    assert_eq!(view.diff_scroll, 0);
    assert_eq!(view.selected_path(), None);
}

#[test]
fn update_respects_collapsed_directories() {
    let mut view = TreeView::new(vec![entry("src/a.rs"), entry("top.rs")]);
    view.cursor = 0;
    view.toggle_expand();
    assert!(!view.expanded.contains("src"));
    assert_eq!(view.tree_version, 2);
    view.apply_update(vec![entry("src/a.rs"), entry("src/b.rs"), entry("lib/x.rs"), entry("top.rs")]);
    let rows: Vec<String> = view.visible_items().iter().map(|(_, p, _)| p.clone()).collect();
    assert_eq!(rows, vec!["lib", "lib/x.rs", "src", "top.rs"]);
    assert_eq!(view.cursor, 2);
}

#[test]
fn toggling_and_collapsing() {
    let mut view = TreeView::new(vec![entry("src/a.rs"), entry("top.rs")]);
    view.cursor = 2;
    view.toggle_expand();
    assert_eq!(view.tree_version, 1);
    view.cursor = 0;
    view.collapse_selected();
    assert!(!view.expanded.contains("src"));
    assert_eq!(view.tree_version, 2);
    view.collapse_selected();
    assert_eq!(view.tree_version, 2);
    view.toggle_expand();
    assert!(view.expanded.contains("src"));
}

#[test]
fn diff_cache_keeps_one_diff_per_path() {
    let mut cache = DiffCache::new();
    assert!(!cache.contains("a.rs"));
    cache.insert("a.rs".to_string(), vec!["+x".to_string()], DiffSource::Worktree);
    cache.insert("b.rs".to_string(), vec!["-y".to_string()], DiffSource::Index);
    cache.insert("a.rs".to_string(), vec!["+z".to_string(), "+w".to_string()], DiffSource::Untracked);
    assert_eq!(cache.lines("a.rs"), Some(&vec!["+z".to_string(), "+w".to_string()]));
    assert_eq!(cache.source("a.rs"), Some(DiffSource::Untracked));
    assert_eq!(cache.source("b.rs"), Some(DiffSource::Index));
    assert_eq!(cache.lines("c.rs"), None);
}

#[test]
fn diff_cache_drops_stale_and_vanished_paths() {
    let mut cache = DiffCache::new();
    for p in ["a.rs", "b.rs", "c.rs"] {
        cache.insert(p.to_string(), vec![format!("+{p}")], DiffSource::Worktree);
    }
    let stale = set_of(&["a.rs"]);
    let current = set_of(&["a.rs", "b.rs"]);
    cache.retain_valid(false, &stale, &current);
    assert!(!cache.contains("a.rs"));
    assert!(cache.contains("b.rs"));
    assert!(!cache.contains("c.rs"));
    assert_eq!(cache.lines("b.rs"), Some(&vec!["+b.rs".to_string()]));
    cache.retain_valid(true, &PathSet::new(), &current);
    assert!(!cache.contains("b.rs"));
    cache.insert("d.rs".to_string(), vec![], DiffSource::Index);
    cache.clear();
    assert!(!cache.contains("d.rs"));
}
