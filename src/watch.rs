//! The background watcher's decisions: which cheap signals fired on a poll,
//! and what an update must invalidate.
use vstd::prelude::*;
use crate::model::{FileEntry, PathSet};

verus! {

/// Modification times of the version-control files that the watcher polls;
/// `None` where a file could not be read.
#[derive(Clone, Copy, Debug, PartialEq, Eq, Structural)]
pub struct ControlMtimes {
    pub index: Option<u128>,
    pub head: Option<u128>,
    pub refs_heads: Option<u128>,
    pub refs_remotes: Option<u128>,
    pub packed_refs: Option<u128>,
}

/// Which of the polled control files changed since the last poll.
#[derive(Clone, Copy, Debug, PartialEq, Eq, Structural)]
pub struct ControlChange {
    /// The index file changed: content or staging may differ.
    pub index: bool,
    /// HEAD, the base branch's ref files or packed-refs changed.
    pub refs: bool,
}

impl ControlChange {
    pub open spec fn any(self) -> bool {
        self.index || self.refs
    }
}

/// What the watcher sends to the consumer.
#[derive(Debug)]
pub enum WatcherMessage {
    /// The changed-file list was collected again: the new list, the
    /// merge-base it was computed against, and which cached diffs are stale.
    FilesChanged {
        files: Vec<FileEntry>,
        merge_base: String,
        invalidate_all: bool,
        invalidate_paths: PathSet,
    },
}

/// Compares two polls of the control files.
pub fn control_change(last: &ControlMtimes, now: &ControlMtimes) -> (r: ControlChange)
    ensures
        r.index == (last.index != now.index),
        r.refs == (last.head != now.head || last.refs_heads != now.refs_heads || last.refs_remotes
            != now.refs_remotes || last.packed_refs != now.packed_refs),
{
    ControlChange {
        index: !opt_eq(last.index, now.index),
        refs: !opt_eq(last.head, now.head) || !opt_eq(last.refs_heads, now.refs_heads)
            || !opt_eq(last.refs_remotes, now.refs_remotes) || !opt_eq(last.packed_refs, now.packed_refs),
    }
}

fn opt_eq(a: Option<u128>, b: Option<u128>) -> (r: bool)
    ensures
        r == (a == b),
{
    match (a, b) {
        (Some(x), Some(y)) => x == y,
        (None, None) => true,
        _ => false,
    }
}

/// Whether a poll makes every cached diff stale: the index changed, or the
/// refs changed and HEAD or the base moved.
pub open spec fn invalidates_all(change: ControlChange, ids_moved: bool) -> bool {
    change.index || (change.refs && ids_moved)
}

/// The paths of the tracked files whose modification time differs between
/// two polls.
pub open spec fn moved_paths(files: Seq<FileEntry>, before: Seq<Option<u128>>, after: Seq<Option<u128>>) -> Set<
    Seq<char>,
> {
    Set::new(|p: Seq<char>| exists|i: int| 0 <= i < files.len() && #[trigger] files[i].path@ == p && before[i] != after[i])
}

/// What one poll decided: whether every cached diff is stale, which paths
/// are stale otherwise, and whether the changed-file list must be collected
/// again.
#[derive(Debug)]
pub struct PollOutcome {
    pub invalidate_all: bool,
    pub invalidate_paths: PathSet,
    pub needs_refresh: bool,
}

/// Decides one poll of the watcher.
///
/// `before` and `after` are the modification times of each tracked file at
/// the last and at this poll; `ids_moved` tells that HEAD or the base moved
/// (looked up only where the refs changed), `merge_base_found` that the new
/// merge-base could then be computed, and `status_changed` that the
/// fingerprint of the repository status differs (looked up only where some
/// other signal fired).
pub fn decide_poll(
    files: &Vec<FileEntry>,
    before: &Vec<Option<u128>>,
    after: &Vec<Option<u128>>,
    change: ControlChange,
    ids_moved: bool,
    merge_base_found: bool,
    status_changed: bool,
) -> (r: PollOutcome)
    requires
        before.len() == files.len(),
        after.len() == files.len(),
    ensures
        r.invalidate_all == invalidates_all(change, ids_moved),
        r.invalidate_paths@ == moved_paths(files@, before@, after@),
        r.needs_refresh == (change.index || (change.refs && ids_moved && merge_base_found)
            || moved_paths(files@, before@, after@).len() > 0 || status_changed),
{
    let mut paths = PathSet::new();
    let mut i: usize = 0;
    while i < files.len()
        invariant
            i <= files.len(),
            before.len() == files.len(),
            after.len() == files.len(),
            paths@ == moved_paths(files@.subrange(0, i as int), before@, after@),
        decreases files.len() - i,
    {
        let ghost prev = paths@;
        if !opt_eq(before[i], after[i]) {
            paths.insert(files[i].path.as_str());
        }
        proof {
            let a = files@.subrange(0, i as int);
            let b = files@.subrange(0, i + 1);
            assert forall|p: Seq<char>| #[trigger] paths@.contains(p) == moved_paths(b, before@, after@).contains(p) by {
                if moved_paths(b, before@, after@).contains(p) {
                    let k = choose|k: int| 0 <= k < b.len() && #[trigger] b[k].path@ == p && before@[k] != after@[k];
                    if k < i {
                        assert(a[k] == b[k]);
                        assert(moved_paths(a, before@, after@).contains(p));
                    }
                }
                if prev.contains(p) {
                    let k = choose|k: int| 0 <= k < a.len() && #[trigger] a[k].path@ == p && before@[k] != after@[k];
                    assert(a[k] == b[k]);
                }
                if p == files@[i as int].path@ && before@[i as int] != after@[i as int] {
                    assert(b[i as int] == files@[i as int]);
                }
            }
            assert(paths@ =~= moved_paths(b, before@, after@));
        }
        i = i + 1;
    }
    proof {
        assert(files@.subrange(0, files@.len() as int) =~= files@);
    }
    let moved = !paths.is_empty();
    PollOutcome {
        invalidate_all: change.index || (change.refs && ids_moved),
        invalidate_paths: paths,
        needs_refresh: change.index || (change.refs && ids_moved && merge_base_found) || moved || status_changed,
    }
}

/// Whether the status fingerprint is to be looked up on this poll: only
/// where a tracked file or a control file changed.
pub fn should_check_status(change: ControlChange, moved: &PathSet) -> (r: bool)
    ensures
        r == (change.any() || moved@.len() > 0),
{
    change.index || change.refs || !moved.is_empty()
}

/// When only one tracked file's modification time changed and no control
/// file did, a poll invalidates that path alone and not every cached diff.
pub proof fn lemma_single_file_change_scope(
    files: Seq<FileEntry>,
    before: Seq<Option<u128>>,
    after: Seq<Option<u128>>,
    k: int,
    change: ControlChange,
    ids_moved: bool,
)
    requires
        before.len() == files.len(),
        after.len() == files.len(),
        0 <= k < files.len(),
        before[k] != after[k],
        forall|i: int| 0 <= i < files.len() && i != k ==> before[i] == after[i],
        !change.any(),
    ensures
        !invalidates_all(change, ids_moved),
        moved_paths(files, before, after) == set![files[k].path@],
{
    assert(moved_paths(files, before, after) =~= set![files[k].path@]);
}

/// A change of the index file invalidates every cached diff.
pub proof fn lemma_index_change_invalidates_all(change: ControlChange, ids_moved: bool)
    requires
        change.index,
    ensures
        invalidates_all(change, ids_moved),
{
}

} // verus!
