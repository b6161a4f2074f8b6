use prdiff::model::{FileEntry, FileStatus, PathSet};
use prdiff::watch::{control_change, decide_poll, should_check_status, ControlChange, ControlMtimes};

fn entry(path: &str) -> FileEntry {
    FileEntry { path: path.to_string(), status: FileStatus::Modified, additions: 1, deletions: 1 }
}

fn mtimes(index: u128) -> ControlMtimes {
    ControlMtimes { index: Some(index), head: Some(1), refs_heads: None, refs_remotes: Some(2), packed_refs: Some(3) }
}

#[test]
fn single_tracked_file_change_invalidates_only_its_path() {
    let files = vec![entry("a.rs"), entry("b.rs"), entry("c.rs")];
    let before = vec![Some(10), Some(20), None];
    let after = vec![Some(10), Some(21), None];
    let change = control_change(&mtimes(5), &mtimes(5));
    assert_eq!(change, ControlChange { index: false, refs: false });
    let outcome = decide_poll(&files, &before, &after, change, false, false, false);
    assert!(!outcome.invalidate_all);
    assert!(outcome.needs_refresh);
    assert_eq!(outcome.invalidate_paths.to_vec(), vec!["b.rs".to_string()]);
}

#[test]
fn index_change_invalidates_everything() {
    let files = vec![entry("a.rs")];
    let before = vec![Some(10)];
    let after = vec![Some(10)];
    let change = control_change(&mtimes(5), &mtimes(6));
    assert!(change.index);
    assert!(!change.refs);
    let outcome = decide_poll(&files, &before, &after, change, false, false, false);
    assert!(outcome.invalidate_all);
    assert!(outcome.needs_refresh);
    assert!(outcome.invalidate_paths.is_empty());
}

#[test]
fn moved_refs_without_merge_base_invalidate_but_do_not_refresh() {
    let files: Vec<FileEntry> = vec![];
    let mut now = mtimes(5);
    now.head = Some(9);
    let change = control_change(&mtimes(5), &now);
    assert_eq!(change, ControlChange { index: false, refs: true });
    let outcome = decide_poll(&files, &vec![], &vec![], change, true, false, false);
    assert!(outcome.invalidate_all);
    assert!(!outcome.needs_refresh);
    let outcome = decide_poll(&files, &vec![], &vec![], change, true, true, false);
    assert!(outcome.needs_refresh);
    let outcome = decide_poll(&files, &vec![], &vec![], change, false, true, false);
    assert!(!outcome.invalidate_all);
    assert!(!outcome.needs_refresh);
}

#[test]
fn quiet_poll_does_nothing_unless_status_changed() {
    let files = vec![entry("a.rs")];
    let same = vec![Some(1)];
    let change = control_change(&mtimes(5), &mtimes(5));
    let outcome = decide_poll(&files, &same, &same, change, false, false, false);
    assert!(!outcome.invalidate_all && !outcome.needs_refresh && outcome.invalidate_paths.is_empty());
    assert!(!should_check_status(change, &outcome.invalidate_paths));
    let outcome = decide_poll(&files, &same, &same, change, false, false, true);
    assert!(outcome.needs_refresh);
    let mut moved = PathSet::new();
    moved.insert("a.rs");
    assert!(should_check_status(change, &moved));
}

#[test]
fn file_that_disappears_counts_as_changed() {
    let files = vec![entry("a.rs"), entry("b.rs")];
    let outcome = decide_poll(&files, &vec![Some(1), Some(2)], &vec![None, Some(2)], ControlChange { index: false, refs: false }, false, false, false);
    assert_eq!(outcome.invalidate_paths.to_vec(), vec!["a.rs".to_string()]);
}
