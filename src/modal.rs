//! The branch picker: a list of branch names narrowed by a typed query.
use vstd::prelude::*;
use crate::fold::{lower_of, lowercase};
use crate::text::{chars_of, contains_seq, find_seq};

verus! {

/// Whether a branch, lowercased, matches a lowercased query: an empty query
/// matches every branch, another one must occur in it.
pub open spec fn folded_match(query_lower: Seq<char>, branch_lower: Seq<char>) -> bool {
    query_lower.len() == 0 || contains_seq(branch_lower, query_lower)
}

/// Whether `branch_lower` matches `query_lower`, both already lowercased.
pub fn matches_folded(query_lower: &str, branch_lower: &str) -> (r: bool)
    ensures
        r == folded_match(query_lower@, branch_lower@),
{
    let q = chars_of(query_lower);
    if q.len() == 0 {
        return true;
    }
    let b = chars_of(branch_lower);
    find_seq(&b, &q).is_some()
}

/// The indices of the branches that match the query, in increasing order.
pub open spec fn matching_indices(branches: Seq<String>, query: Seq<char>, n: int) -> Seq<usize>
    decreases n,
{
    if n <= 0 {
        seq![]
    } else {
        let prev = matching_indices(branches, query, n - 1);
        if folded_match(lower_of(query), lower_of(branches[n - 1]@)) {
            prev.push((n - 1) as usize)
        } else {
            prev
        }
    }
}

/// The branch picker's state.
pub struct BranchModal {
    pub branches: Vec<String>,
    pub filtered: Vec<usize>,
    pub query: String,
    pub cursor: usize,
    pub scroll_offset: usize,
}

impl BranchModal {
    /// A picker over `branches`, with an empty query listing them all.
    pub fn new(branches: Vec<String>) -> (r: BranchModal)
        ensures
            r.branches@ == branches@,
            r.filtered@.len() == branches@.len(),
            forall|i: int| 0 <= i < branches@.len() ==> r.filtered@[i] == i,
            r.query@.len() == 0,
            r.cursor == 0,
            r.scroll_offset == 0,
    {
        let mut filtered: Vec<usize> = Vec::new();
        let mut i: usize = 0;
        while i < branches.len()
            invariant
                i <= branches@.len(),
                filtered@.len() == i,
                forall|k: int| 0 <= k < i ==> filtered@[k] == k,
            decreases branches.len() - i,
        {
            filtered.push(i);
            i = i + 1;
        }
        BranchModal { branches, filtered, query: String::new(), cursor: 0, scroll_offset: 0 }
    }

    /// Narrows the list to the branches that hold the query, ignoring case;
    /// keeps the cursor within the list and scrolls back to the top.
    pub fn update_filter(&mut self)
        ensures
            final(self).branches@ == old(self).branches@,
            final(self).query@ == old(self).query@,
            final(self).filtered@ == matching_indices(
                old(self).branches@,
                old(self).query@,
                old(self).branches@.len() as int,
            ),
            final(self).cursor == if final(self).filtered@.len() == 0 {
                0
            } else if old(self).cursor >= final(self).filtered@.len() {
                (final(self).filtered@.len() - 1) as usize
            } else {
                old(self).cursor
            },
            final(self).scroll_offset == 0,
    {
        let query_lower = lowercase(self.query.as_str());
        let mut filtered: Vec<usize> = Vec::new();
        let mut i: usize = 0;
        while i < self.branches.len()
            invariant
                i <= self.branches@.len(),
                self.branches@ == old(self).branches@,
                self.query@ == old(self).query@,
                query_lower@ == lower_of(self.query@),
                filtered@ == matching_indices(self.branches@, self.query@, i as int),
            decreases self.branches.len() - i,
        {
            let b = lowercase(self.branches[i].as_str());
            if matches_folded(query_lower.as_str(), b.as_str()) {
                filtered.push(i);
            }
            i = i + 1;
        }
        self.filtered = filtered;
        if self.filtered.len() == 0 {
            self.cursor = 0;
        } else if self.cursor >= self.filtered.len() {
            self.cursor = self.filtered.len() - 1;
        }
        self.scroll_offset = 0;
    }

    /// The branch under the cursor, if any.
    pub fn selected_branch(&self) -> (r: Option<&str>)
        ensures
            r is Some <==> (self.cursor < self.filtered@.len() && self.filtered@[self.cursor as int]
                < self.branches@.len()),
            r matches Some(b) ==> b@ == self.branches@[self.filtered@[self.cursor as int] as int]@,
    {
        if self.cursor < self.filtered.len() {
            let i = self.filtered[self.cursor];
            if i < self.branches.len() {
                return Some(self.branches[i].as_str());
            }
        }
        None
    }
}

} // verus!
