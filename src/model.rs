use vstd::prelude::*;
use crate::text::chars_of;

verus! {

/// The kind of change recorded for one path.
#[derive(Clone, Copy, Debug, PartialEq, Eq, Structural)]
pub enum FileStatus {
    Added,
    Modified,
    Deleted,
    Renamed,
    Unknown,
}

/// Where a cached diff came from.
#[derive(Clone, Copy, Debug, PartialEq, Eq, Structural)]
pub enum DiffSource {
    Worktree,
    Index,
    Untracked,
}

/// One changed file: its repository-relative path, its status and its line
/// statistics.
#[derive(Clone, Debug)]
pub struct FileEntry {
    pub path: String,
    pub status: FileStatus,
    pub additions: i32,
    pub deletions: i32,
}

/// What a `FileEntry` holds, as plain values.
pub struct FileView {
    pub path: Seq<char>,
    pub status: FileStatus,
    pub additions: i32,
    pub deletions: i32,
}

impl View for FileEntry {
    type V = FileView;

    open spec fn view(&self) -> FileView {
        FileView {
            path: self.path@,
            status: self.status,
            additions: self.additions,
            deletions: self.deletions,
        }
    }
}

impl FileStatus {
    pub open spec fn spec_symbol(self) -> Seq<char> {
        match self {
            FileStatus::Added => seq!['+'],
            FileStatus::Modified => seq!['~'],
            FileStatus::Deleted => seq!['-'],
            FileStatus::Renamed => seq!['\u{2192}'],
            FileStatus::Unknown => seq!['?'],
        }
    }

    /// The one-character marker shown beside a file of this status.
    pub fn symbol(&self) -> (r: &'static str)
        ensures
            r@ == self.spec_symbol(),
    {
        match self {
            FileStatus::Added => {
                proof { reveal_strlit("+"); }
                "+"
            },
            FileStatus::Modified => {
                proof { reveal_strlit("~"); }
                "~"
            },
            FileStatus::Deleted => {
                proof { reveal_strlit("-"); }
                "-"
            },
            FileStatus::Renamed => {
                proof { reveal_strlit("\u{2192}"); }
                "\u{2192}"
            },
            FileStatus::Unknown => {
                proof { reveal_strlit("?"); }
                "?"
            },
        }
    }
}

impl FileEntry {
    /// A copy of this entry with the same contents.
    pub fn duplicate(&self) -> (r: FileEntry)
        ensures
            r@ == self@,
    {
        FileEntry {
            path: self.path.clone(),
            status: self.status,
            additions: self.additions,
            deletions: self.deletions,
        }
    }
}

/// A node of the changed-file tree: a directory, whose name may join several
/// path segments with `/`, or a changed file.
#[derive(Debug)]
pub enum TreeNode {
    Directory { name: String, children: Vec<TreeNode> },
    File(FileEntry),
}

/// What a `TreeNode` holds, as plain values.
pub enum NodeView {
    Dir { name: Seq<char>, children: Seq<NodeView> },
    Leaf { file: FileView },
}

pub open spec fn node_view(n: TreeNode) -> NodeView
    decreases n,
{
    match n {
        TreeNode::Directory { name, children } => NodeView::Dir {
            name: name@,
            children: nodes_view(children@),
        },
        TreeNode::File(f) => NodeView::Leaf { file: f@ },
    }
}

pub open spec fn nodes_view(s: Seq<TreeNode>) -> Seq<NodeView>
    decreases s,
{
    if s.len() == 0 {
        seq![]
    } else {
        nodes_view(s.subrange(0, s.len() - 1)).push(node_view(s[s.len() - 1]))
    }
}

pub proof fn lemma_nodes_view(s: Seq<TreeNode>)
    ensures
        nodes_view(s).len() == s.len(),
        forall|i: int| 0 <= i < s.len() ==> #[trigger] nodes_view(s)[i] == node_view(s[i]),
    decreases s.len(),
{
    if s.len() > 0 {
        let t = s.subrange(0, s.len() - 1);
        lemma_nodes_view(t);
        assert forall|i: int| 0 <= i < s.len() implies #[trigger] nodes_view(s)[i] == node_view(s[i]) by {
            if i < s.len() - 1 {
                assert(t[i] == s[i]);
            }
        }
    }
}

/// Whether one of the strings of `v` holds `q`.
pub open spec fn lists(v: Seq<String>, q: Seq<char>) -> bool {
    exists|j: int| 0 <= j < v.len() && #[trigger] v[j]@ == q
}

/// A set of repository-relative path strings.
#[derive(Clone, Debug)]
pub struct PathSet {
    items: Vec<String>,
}

impl View for PathSet {
    type V = Set<Seq<char>>;

    closed spec fn view(&self) -> Set<Seq<char>> {
        Set::new(|p: Seq<char>| lists(self.items@, p))
    }
}

impl PathSet {
    /// The empty set.
    pub fn new() -> (r: PathSet)
        ensures
            r@ == Set::<Seq<char>>::empty(),
    {
        let r = PathSet { items: Vec::new() };
        assert(r@ =~= Set::<Seq<char>>::empty());
        r
    }

    /// Whether the set has no path.
    pub fn is_empty(&self) -> (r: bool)
        ensures
            r == (self@.len() == 0),
    {
        if self.items.len() == 0 {
            assert(self@ =~= Set::<Seq<char>>::empty());
            true
        } else {
            assert(self@.contains(self.items@[0]@));
            proof {
                self.lemma_finite();
                vstd::set_lib::lemma_set_empty_equivalency_len(self@);
            }
            false
        }
    }

    pub proof fn lemma_finite(&self)
        ensures
            self@.finite(),
    {
        let m = self.items@.map_values(|s: String| s@);
        let f = m.to_set();
        assert(self@ =~= f) by {
            assert forall|p: Seq<char>| self@.contains(p) implies f.contains(p) by {
                let j = choose|j: int| 0 <= j < self.items@.len() && #[trigger] self.items@[j]@ == p;
                assert(m[j] == p);
            }
            assert forall|p: Seq<char>| f.contains(p) implies self@.contains(p) by {
                let j = choose|j: int| 0 <= j < m.len() && #[trigger] m[j] == p;
                assert(self.items@[j]@ == p);
            }
        }
        vstd::seq_lib::seq_to_set_is_finite(m);
    }

    /// Whether `p` is in the set.
    pub fn contains(&self, p: &str) -> (r: bool)
        ensures
            r == self@.contains(p@),
    {
        let mut i: usize = 0;
        while i < self.items.len()
            invariant
                i <= self.items@.len(),
                forall|j: int| 0 <= j < i ==> self.items@[j]@ != p@,
            decreases self.items.len() - i,
        {
            if same_text(self.items[i].as_str(), p) {
                assert(lists(self.items@, p@));
                return true;
            }
            i = i + 1;
        }
        false
    }

    /// Adds `p` to the set.
    pub fn insert(&mut self, p: &str)
        ensures
            final(self)@ == old(self)@.insert(p@),
    {
        if !self.contains(p) {
            let ghost before = self.items@;
            self.items.push(p.to_owned());
            assert forall|q: Seq<char>| lists(self.items@, q) <==> old(self)@.insert(p@).contains(q) by {
                if lists(before, q) {
                    let i = choose|i: int| 0 <= i < before.len() && #[trigger] before[i]@ == q;
                    assert(self.items@[i] == before[i]);
                }
                if lists(self.items@, q) && q != p@ {
                    let i = choose|i: int| 0 <= i < self.items@.len() && #[trigger] self.items@[i]@ == q;
                    assert(i < before.len());
                    assert(self.items@[i] == before[i]);
                }
                if q == p@ {
                    assert(self.items@[before.len() as int]@ == q);
                }
            }
            assert(self@ =~= old(self)@.insert(p@));
        } else {
            assert(self@ =~= old(self)@.insert(p@));
        }
    }

    /// Removes `p` from the set.
    pub fn remove(&mut self, p: &str)
        ensures
            final(self)@ == old(self)@.remove(p@),
    {
        let mut kept: Vec<String> = Vec::new();
        let mut i: usize = 0;
        while i < self.items.len()
            invariant
                i <= self.items@.len(),
                forall|q: Seq<char>|
                    #[trigger] lists(kept@, q) <==> (q != p@ && lists(self.items@.subrange(0, i as int), q)),
            decreases self.items.len() - i,
        {
            let ghost before = kept@;
            let ghost pre = self.items@.subrange(0, i as int);
            let ghost post = self.items@.subrange(0, i + 1);
            if !same_text(self.items[i].as_str(), p) {
                kept.push(self.items[i].clone());
            }
            assert forall|q: Seq<char>|
                #[trigger] lists(kept@, q) <==> (q != p@ && lists(post, q)) by {
                if lists(kept@, q) {
                    let j = choose|j: int| 0 <= j < kept@.len() && #[trigger] kept@[j]@ == q;
                    if j < before.len() {
                        assert(kept@[j] == before[j]);
                        assert(lists(before, q));
                        let m = choose|m: int| 0 <= m < pre.len() && #[trigger] pre[m]@ == q;
                        assert(post[m] == pre[m]);
                    } else {
                        assert(post[i as int] == self.items@[i as int]);
                    }
                }
                if q != p@ && lists(post, q) {
                    let j = choose|j: int| 0 <= j < post.len() && #[trigger] post[j]@ == q;
                    if j < i {
                        assert(pre[j] == post[j]);
                        assert(lists(pre, q));
                        assert(lists(before, q));
                        let m = choose|m: int| 0 <= m < before.len() && #[trigger] before[m]@ == q;
                        assert(kept@[m] == before[m]);
                    } else {
                        assert(kept@[before.len() as int]@ == q);
                    }
                }
            }
            i = i + 1;
        }
        let ghost old_set = self@;
        assert(self.items@.subrange(0, self.items@.len() as int) =~= self.items@);
        self.items = kept;
        assert(self@ =~= old_set.remove(p@));
    }

    /// The paths of the set, each once.
    pub fn to_vec(&self) -> (r: Vec<String>)
        ensures
            forall|q: Seq<char>| lists(r@, q) <==> self@.contains(q),
    {
        let mut r: Vec<String> = Vec::new();
        let mut i: usize = 0;
        while i < self.items.len()
            invariant
                i <= self.items@.len(),
                r@.len() == i,
                forall|j: int| 0 <= j < i ==> #[trigger] r@[j]@ == self.items@[j]@,
            decreases self.items.len() - i,
        {
            r.push(self.items[i].clone());
            i = i + 1;
        }
        assert forall|q: Seq<char>| lists(r@, q) <==> self@.contains(q) by {
            if lists(r@, q) {
                let j = choose|j: int| 0 <= j < r@.len() && #[trigger] r@[j]@ == q;
                assert(self.items@[j]@ == q);
            }
            if lists(self.items@, q) {
                let j = choose|j: int| 0 <= j < self.items@.len() && #[trigger] self.items@[j]@ == q;
                assert(r@[j]@ == q);
            }
        }
        r
    }
}

/// Whether two strings hold the same characters.
pub fn same_text(a: &str, b: &str) -> (r: bool)
    ensures
        r == (a@ == b@),
{
    let x = chars_of(a);
    let y = chars_of(b);
    if x.len() != y.len() {
        return false;
    }
    let mut i: usize = 0;
    while i < x.len()
        invariant
            x@ == a@,
            y@ == b@,
            x.len() == y.len(),
            i <= x.len(),
            forall|j: int| 0 <= j < i ==> x@[j] == y@[j],
        decreases x.len() - i,
    {
        if x[i] != y[i] {
            assert(x@[i as int] != y@[i as int]);
            return false;
        }
        i = i + 1;
    }
    assert(x@ =~= y@);
    true
}

pub proof fn lemma_nodes_view_ext(a: Seq<TreeNode>, b: Seq<NodeView>)
    requires
        a.len() == b.len(),
        forall|i: int| 0 <= i < a.len() ==> node_view(#[trigger] a[i]) == b[i],
    ensures
        nodes_view(a) == b,
{
    lemma_nodes_view(a);
    assert(nodes_view(a) =~= b);
}

} // verus!
