use vstd::prelude::*;
use crate::model::{FileEntry, FileView, TreeNode, NodeView, node_view, nodes_view,
    lemma_nodes_view};
use crate::text::{first_index_of, last_index_of, lex_lt,
    chars_of, string_of_range, find_char, rfind_char,
    lemma_find_char_from_found, lemma_rfind_char_below_found, lex_less, split_on, split_text, lemma_split_on_nonempty,
    strings_view};
use crate::model::lemma_nodes_view_ext;
use crate::tree_facts::{branches_unjoined, lemma_built_tree_sorted, lemma_built_tree_branches_unjoined};

verus! {

// ---------------------------------------------------------------------------
// Path segments

/// The segments of a path between its `/` separators (one segment when it
/// has none).
pub open spec fn split_path(p: Seq<char>) -> Seq<Seq<char>> {
    split_on(p, '/')
}

pub proof fn lemma_split_path_nonempty(p: Seq<char>)
    ensures
        split_path(p).len() >= 1,
{
    lemma_split_on_nonempty(p, '/');
}

/// The part of a path after its last `/`.
pub open spec fn last_segment(p: Seq<char>) -> Seq<char> {
    match last_index_of(p, '/') {
        Some(k) => p.subrange(k + 1, p.len() as int),
        None => p,
    }
}

/// The part of a name before its first `/`.
pub open spec fn head_segment(p: Seq<char>) -> Seq<char> {
    match first_index_of(p, '/') {
        Some(k) => p.subrange(0, k),
        None => p,
    }
}

/// `prefix/name`, or `name` alone under an empty prefix.
pub open spec fn join_path(prefix: Seq<char>, name: Seq<char>) -> Seq<char> {
    if prefix.len() == 0 {
        name
    } else {
        prefix + seq!['/'] + name
    }
}

// ---------------------------------------------------------------------------
// Order of siblings

/// The name shown for a node: a directory's (possibly joined) name, or the
/// last segment of a file's path.
pub open spec fn display_name(n: NodeView) -> Seq<char> {
    match n {
        NodeView::Dir { name, .. } => name,
        NodeView::Leaf { file } => last_segment(file.path),
    }
}

/// The name by which siblings are ordered: a directory's first segment (its
/// whole name until chains are joined), or a file's last path segment.
pub open spec fn order_name(n: NodeView) -> Seq<char> {
    match n {
        NodeView::Dir { name, .. } => head_segment(name),
        NodeView::Leaf { file } => last_segment(file.path),
    }
}

/// Strict sibling order: directories first, then by name.
pub open spec fn node_lt(a: NodeView, b: NodeView) -> bool {
    if (a is Dir) != (b is Dir) {
        a is Dir
    } else {
        lex_lt(order_name(a), order_name(b))
    }
}

/// No sibling stands after one that it should precede.
pub open spec fn level_sorted(s: Seq<NodeView>) -> bool {
    forall|i: int, j: int| 0 <= i < j < s.len() ==> !node_lt(#[trigger] s[j], #[trigger] s[i])
}

/// Every level of the forest is sorted.
pub open spec fn forest_sorted(s: Seq<NodeView>) -> bool
    decreases s,
{
    &&& level_sorted(s)
    &&& forall|i: int|
        0 <= i < s.len() ==> match #[trigger] s[i] {
            NodeView::Dir { children, .. } => forest_sorted(children),
            NodeView::Leaf { .. } => true,
        }
}

// ---------------------------------------------------------------------------
// Building

/// The index of the first directory named `d` among `s`, or `s.len()`.
pub open spec fn dir_index(s: Seq<NodeView>, d: Seq<char>) -> int
    decreases s.len(),
{
    if s.len() == 0 {
        0
    } else if s[0] is Dir && s[0]->name == d {
        0
    } else {
        1 + dir_index(s.drop_first(), d)
    }
}

/// `s` with `f` placed under the directories `parts[k..len-1]`, which are
/// created where missing.
pub open spec fn insert_file(s: Seq<NodeView>, parts: Seq<Seq<char>>, k: int, f: FileView) -> Seq<
    NodeView,
>
    decreases parts.len() - k,
{
    if k + 1 >= parts.len() {
        s.push(NodeView::Leaf { file: f })
    } else {
        let i = dir_index(s, parts[k]);
        if i < s.len() {
            s.update(
                i,
                NodeView::Dir { name: parts[k], children: insert_file(s[i]->children, parts, k + 1, f) },
            )
        } else {
            s.push(
                NodeView::Dir { name: parts[k], children: insert_file(seq![], parts, k + 1, f) },
            )
        }
    }
}

/// The unsorted, uncompacted forest of a list of files.
pub open spec fn raw_forest(files: Seq<FileView>) -> Seq<NodeView>
    decreases files.len(),
{
    if files.len() == 0 {
        seq![]
    } else {
        let last = files[files.len() - 1];
        insert_file(raw_forest(files.drop_last()), split_path(last.path), 0, last)
    }
}

/// Where `x` goes in the sorted `s`: after every node it does not precede.
pub open spec fn insert_pos(s: Seq<NodeView>, x: NodeView) -> int
    decreases s.len(),
{
    if s.len() == 0 {
        0
    } else if node_lt(x, s[0]) {
        0
    } else {
        1 + insert_pos(s.drop_first(), x)
    }
}

/// One level sorted by insertion, stable.
pub open spec fn sort_level(s: Seq<NodeView>) -> Seq<NodeView>
    decreases s.len(),
{
    if s.len() == 0 {
        s
    } else {
        let t = sort_level(s.drop_last());
        t.insert(insert_pos(t, s.last()), s.last())
    }
}

/// Every directory's children sorted, at every depth, leaving this level's
/// order as it is.
pub open spec fn sort_below(s: Seq<NodeView>) -> Seq<NodeView>
    decreases s,
{
    if s.len() == 0 {
        s
    } else {
        let last = s[s.len() - 1];
        sort_below(s.subrange(0, s.len() - 1)).push(
            match last {
                NodeView::Dir { name, children } => NodeView::Dir {
                    name,
                    children: sort_level(sort_below(children)),
                },
                NodeView::Leaf { file } => NodeView::Leaf { file },
            },
        )
    }
}

/// The whole forest sorted.
pub open spec fn sort_forest(s: Seq<NodeView>) -> Seq<NodeView> {
    sort_level(sort_below(s))
}

/// A directory named `name` with `children`, joined with its lone child
/// directory for as long as that child itself has exactly one child.
pub open spec fn merge_chain(name: Seq<char>, children: Seq<NodeView>) -> NodeView
    decreases children,
{
    if children.len() == 1 && children[0] is Dir && children[0]->children.len() == 1 {
        merge_chain(name + seq!['/'] + children[0]->name, children[0]->children)
    } else {
        NodeView::Dir { name, children }
    }
}

/// The forest with every single-child chain joined, bottom-up.
pub open spec fn compact_forest(s: Seq<NodeView>) -> Seq<NodeView>
    decreases s,
{
    if s.len() == 0 {
        s
    } else {
        let last = s[s.len() - 1];
        compact_forest(s.subrange(0, s.len() - 1)).push(
            match last {
                NodeView::Dir { name, children } => merge_chain(name, compact_forest(children)),
                NodeView::Leaf { file } => NodeView::Leaf { file },
            },
        )
    }
}

/// The displayed tree of a list of files.
pub open spec fn tree_of(files: Seq<FileView>) -> Seq<NodeView> {
    compact_forest(sort_forest(raw_forest(files)))
}

pub open spec fn files_view(files: Seq<FileEntry>) -> Seq<FileView> {
    files.map_values(|f: FileEntry| f@)
}



} // verus!

verus! {

// ---------------------------------------------------------------------------
// Executable tree building

/// The `/`-separated segments of `path`, as `str::split('/')` yields them.
pub fn path_segments(path: &str) -> (r: Vec<String>)
    ensures
        strings_view(r@) == split_path(path@),
{
    split_text(path, '/')
}

fn is_dir_named(n: &TreeNode, d: &String) -> (r: bool)
    ensures
        r == (node_view(*n) is Dir && node_view(*n)->name == d@),
{
    match n {
        TreeNode::Directory { name, .. } => *name == *d,
        TreeNode::File(_) => false,
    }
}

proof fn lemma_dir_index(s: Seq<NodeView>, d: Seq<char>, i: int)
    requires
        0 <= i <= s.len(),
        forall|m: int| 0 <= m < i ==> !(s[m] is Dir && s[m]->name == d),
        i == s.len() || (s[i] is Dir && s[i]->name == d),
    ensures
        dir_index(s, d) == i,
    decreases i,
{
    if i > 0 {
        lemma_dir_index(s.drop_first(), d, i - 1);
    }
}

/// Places `file` under the directories named by `parts[k..len-1]`, creating
/// the ones that are missing.
fn insert_into_tree(nodes: &mut Vec<TreeNode>, parts: &Vec<String>, k: usize, file: FileEntry)
    requires
        k < parts.len(),
    ensures
        nodes_view(final(nodes)@) == insert_file(nodes_view(old(nodes)@), strings_view(parts@), k as int, file@),
    decreases parts.len() - k,
{
    let ghost sv = nodes_view(nodes@);
    let ghost pv = strings_view(parts@);
    proof { lemma_nodes_view(nodes@); }
    if k + 1 >= parts.len() {
        let ghost before = nodes@;
        nodes.push(TreeNode::File(file));
        proof {
            lemma_nodes_view(before);
            lemma_nodes_view_ext(nodes@, sv.push(NodeView::Leaf { file: file@ }));
        }
        return;
    }
    let dir_name = &parts[k];
    assert(dir_name@ == pv[k as int]);
    let mut i: usize = 0;
    while i < nodes.len()
        invariant
            i <= nodes.len(),
            sv == nodes_view(nodes@),
            sv.len() == nodes@.len(),
            forall|j: int| 0 <= j < nodes@.len() ==> #[trigger] sv[j] == node_view(nodes@[j]),
            forall|m: int| 0 <= m < i ==> !(sv[m] is Dir && sv[m]->name == dir_name@),
        ensures
            i <= nodes.len(),
            i == nodes.len() || (sv[i as int] is Dir && sv[i as int]->name == dir_name@),
        decreases nodes.len() - i,
    {
        if is_dir_named(&nodes[i], dir_name) {
            break;
        }
        i = i + 1;
    }
    proof { lemma_dir_index(sv, pv[k as int], i as int); }
    if i < nodes.len() {
        let ghost before = nodes@;
        let node = nodes.remove(i);
        match node {
            TreeNode::Directory { name, children } => {
                let mut children = children;
                insert_into_tree(&mut children, parts, k + 1, file);
                nodes.insert(i, TreeNode::Directory { name, children });
                proof {
                    let nv = NodeView::Dir {
                        name: pv[k as int],
                        children: insert_file(sv[i as int]->children, pv, k + 1, file@),
                    };
                    assert forall|j: int| 0 <= j < nodes@.len() implies node_view(#[trigger] nodes@[j])
                        == sv.update(i as int, nv)[j] by {
                        if j != i {
                            assert(nodes@[j] == before[j]);
                        }
                    }
                    lemma_nodes_view_ext(nodes@, sv.update(i as int, nv));
                }
            },
            TreeNode::File(_) => {
                proof { assert(false); }
            },
        }
    } else {
        let mut children: Vec<TreeNode> = Vec::new();
        proof { lemma_nodes_view(children@); assert(nodes_view(children@) =~= seq![]); }
        insert_into_tree(&mut children, parts, k + 1, file);
        let ghost before = nodes@;
        nodes.push(TreeNode::Directory { name: dir_name.clone(), children });
        proof {
            let nv = NodeView::Dir {
                name: pv[k as int],
                children: insert_file(seq![], pv, k + 1, file@),
            };
            assert forall|j: int| 0 <= j < nodes@.len() implies node_view(#[trigger] nodes@[j])
                == sv.push(nv)[j] by {
                if j < before.len() {
                    assert(nodes@[j] == before[j]);
                }
            }
            lemma_nodes_view_ext(nodes@, sv.push(nv));
        }
    }
}

} // verus!

verus! {

/// The last segment of `path`: what follows its last `/`.
fn last_segment_chars(path: &String) -> (r: Vec<char>)
    ensures
        r@ == last_segment(path@),
{
    let p = chars_of(path.as_str());
    proof { lemma_rfind_char_below_found(p@, '/', p@.len() as int); }
    match rfind_char(&p, '/') {
        Some(k) => {
            let s = string_of_range(&p, k + 1, p.len());
            chars_of(s.as_str())
        },
        None => p,
    }
}

/// The first segment of `name`: what precedes its first `/`.
fn head_segment_chars(name: &String) -> (r: Vec<char>)
    ensures
        r@ == head_segment(name@),
{
    let p = chars_of(name.as_str());
    proof { lemma_find_char_from_found(p@, '/', 0); }
    match find_char(&p, '/') {
        Some(k) => {
            let s = string_of_range(&p, 0, k);
            chars_of(s.as_str())
        },
        None => p,
    }
}

fn order_name_chars(n: &TreeNode) -> (r: Vec<char>)
    ensures
        r@ == order_name(node_view(*n)),
{
    match n {
        TreeNode::Directory { name, .. } => head_segment_chars(name),
        TreeNode::File(f) => last_segment_chars(&f.path),
    }
}

fn node_less(a: &TreeNode, b: &TreeNode) -> (r: bool)
    ensures
        r == node_lt(node_view(*a), node_view(*b)),
{
    let a_dir = match a {
        TreeNode::Directory { .. } => true,
        TreeNode::File(_) => false,
    };
    let b_dir = match b {
        TreeNode::Directory { .. } => true,
        TreeNode::File(_) => false,
    };
    if a_dir != b_dir {
        a_dir
    } else {
        let ka = order_name_chars(a);
        let kb = order_name_chars(b);
        lex_less(&ka, &kb)
    }
}

proof fn lemma_nodes_view_prefix(s: Seq<TreeNode>, k: int)
    requires
        0 <= k < s.len(),
    ensures
        nodes_view(s.subrange(0, k + 1)) == nodes_view(s.subrange(0, k)).push(node_view(s[k])),
{
    assert(s.subrange(0, k + 1).subrange(0, k) =~= s.subrange(0, k));
}

/// One level sorted by insertion: directories first, then by name; nodes
/// that tie keep their order.
fn sort_level_nodes(nodes: Vec<TreeNode>) -> (r: Vec<TreeNode>)
    ensures
        nodes_view(r@) == sort_level(nodes_view(nodes@)),
{
    let ghost orig = nodes@;
    let n = nodes.len();
    let mut src = nodes;
    let mut out: Vec<TreeNode> = Vec::new();
    let mut k: usize = 0;
    proof {
        assert(orig.subrange(0, 0) =~= Seq::<TreeNode>::empty());
        assert(src@ =~= orig.subrange(0, orig.len() as int));
        lemma_nodes_view(out@);
        assert(nodes_view(out@) =~= seq![]);
    }
    while src.len() > 0
        invariant
            k <= orig.len(),
            orig.len() == n,
            src@ == orig.subrange(k as int, orig.len() as int),
            nodes_view(out@) == sort_level(nodes_view(orig.subrange(0, k as int))),
        decreases src.len(),
    {
        let x = src.remove(0);
        assert(x == orig[k as int]);
        let ghost ov = nodes_view(out@);
        proof {
            lemma_nodes_view(out@);
            assert(ov.subrange(0, ov.len() as int) =~= ov);
        }
        let mut j: usize = 0;
        while j < out.len() && !node_less(&x, &out[j])
            invariant
                j <= out.len(),
                ov == nodes_view(out@),
                ov.len() == out@.len(),
                forall|m: int| 0 <= m < out@.len() ==> #[trigger] ov[m] == node_view(out@[m]),
                insert_pos(ov, node_view(x)) == j + insert_pos(ov.subrange(j as int, ov.len() as int), node_view(x)),
            decreases out.len() - j,
        {
            assert(ov.subrange(j as int, ov.len() as int).drop_first() =~= ov.subrange(j + 1, ov.len() as int));
            j = j + 1;
        }
        proof {
            if j < out.len() {
                assert(ov.subrange(j as int, ov.len() as int)[0] == ov[j as int]);
            }
        }
        let ghost before = out@;
        out.insert(j, x);
        proof {
            let xv = node_view(x);
            assert forall|m: int| 0 <= m < out@.len() implies node_view(#[trigger] out@[m]) == ov.insert(j as int, xv)[m] by {
                if m < j {
                    assert(out@[m] == before[m]);
                } else if m > j {
                    assert(out@[m] == before[m - 1]);
                }
            }
            lemma_nodes_view_ext(out@, ov.insert(j as int, xv));
            lemma_nodes_view_prefix(orig, k as int);
            let pre = nodes_view(orig.subrange(0, k + 1));
            assert(pre.drop_last() == nodes_view(orig.subrange(0, k as int)));
            assert(pre.last() == xv);
        }
        k = k + 1;
    }
    proof {
        assert(orig.subrange(0, orig.len() as int) =~= orig);
    }
    out
}

proof fn lemma_decreases_element(v: Vec<TreeNode>, k: int)
    requires
        0 <= k < v@.len(),
    ensures
        decreases_to!(v@ => v@[k]),
{
}

/// Sorts the children of every directory, at every depth; this level keeps
/// its order.
fn sort_below_nodes(nodes: Vec<TreeNode>) -> (r: Vec<TreeNode>)
    ensures
        nodes_view(r@) == sort_below(nodes_view(nodes@)),
    decreases nodes@,
{
    let ghost orig = nodes@;
    let ghost whole = nodes;
    let n = nodes.len();
    let mut src = nodes;
    let mut out: Vec<TreeNode> = Vec::new();
    let mut k: usize = 0;
    proof {
        assert(src@ =~= orig.subrange(0, orig.len() as int));
        lemma_nodes_view(out@);
        assert(nodes_view(out@) =~= seq![]);
        assert(orig.subrange(0, 0) =~= Seq::<TreeNode>::empty());
    }
    while src.len() > 0
        invariant
            k <= orig.len(),
            orig.len() == n,
            orig == whole@,
            whole == nodes,
            src@ == orig.subrange(k as int, orig.len() as int),
            nodes_view(out@) == sort_below(nodes_view(orig.subrange(0, k as int))),
        decreases src.len(),
    {
        let x = src.remove(0);
        assert(x == orig[k as int]);
        proof { lemma_decreases_element(whole, k as int); }
        let ghost xg = x;
        let y = match x {
            TreeNode::Directory { name, children } => {
                proof {
                    assert(decreases_to!(xg => children));
                    assert(decreases_to!(children => children@));
                    assert(decreases_to!(whole@ => children@));
                }
                let below = sort_below_nodes(children);
                TreeNode::Directory { name, children: sort_level_nodes(below) }
            },
            TreeNode::File(f) => TreeNode::File(f),
        };
        let ghost before = out@;
        out.push(y);
        proof {
            lemma_nodes_view_prefix(orig, k as int);
            let pre = nodes_view(orig.subrange(0, k + 1));
            assert(pre.subrange(0, pre.len() - 1) == nodes_view(orig.subrange(0, k as int)));
            assert(pre[pre.len() - 1] == node_view(xg));
            assert(out@.subrange(0, out@.len() - 1) =~= before);
            assert(nodes_view(out@) == nodes_view(before).push(node_view(y)));
            assert(sort_below(pre) == sort_below(nodes_view(orig.subrange(0, k as int))).push(
                match node_view(xg) {
                    NodeView::Dir { name, children } => NodeView::Dir {
                        name,
                        children: sort_level(sort_below(children)),
                    },
                    NodeView::Leaf { file } => NodeView::Leaf { file },
                }));
        }
        k = k + 1;
    }
    proof {
        assert(orig.subrange(0, orig.len() as int) =~= orig);
    }
    out
}

/// Sorts every level of the forest: directories before files, then by name.
fn sort_tree(nodes: &mut Vec<TreeNode>)
    ensures
        nodes_view(final(nodes)@) == sort_forest(nodes_view(old(nodes)@)),
{
    let mut taken: Vec<TreeNode> = Vec::new();
    std::mem::swap(nodes, &mut taken);
    let below = sort_below_nodes(taken);
    *nodes = sort_level_nodes(below);
}

} // verus!

verus! {

fn has_one_child_dir(n: &TreeNode) -> (r: bool)
    ensures
        r == (node_view(*n) is Dir && node_view(*n)->children.len() == 1),
{
    match n {
        TreeNode::Directory { children, .. } => {
            proof { lemma_nodes_view(children@); }
            children.len() == 1
        },
        TreeNode::File(_) => false,
    }
}

/// A directory named `name` over `children`, joined with its lone child
/// directory for as long as that child has exactly one child itself.
fn merge_chain_nodes(name: String, children: Vec<TreeNode>) -> (r: TreeNode)
    ensures
        node_view(r) == merge_chain(name@, nodes_view(children@)),
    decreases children@,
{
    proof { lemma_nodes_view(children@); }
    if children.len() == 1 && has_one_child_dir(&children[0]) {
        let ghost whole = children;
        let mut children = children;
        let child = children.pop().unwrap();
        let ghost cg = child;
        assert(cg == whole@[0]);
        match child {
            TreeNode::Directory { name: child_name, children: grandchildren } => {
                proof {
                    assert(decreases_to!(whole@ => whole@[0]));
                    assert(decreases_to!(cg => grandchildren));
                    assert(decreases_to!(grandchildren => grandchildren@));
                    assert(decreases_to!(whole@ => grandchildren@));
                    reveal_strlit("/");
                }
                let mut joined = name;
                joined.append("/");
                joined.append(child_name.as_str());
                let ghost cv = nodes_view(whole@);
                assert(cv[0] == node_view(cg));
                assert(joined@ == name@ + seq!['/'] + child_name@);
                merge_chain_nodes(joined, grandchildren)
            },
            TreeNode::File(f) => {
                proof { assert(false); }
                TreeNode::File(f)
            },
        }
    } else {
        TreeNode::Directory { name, children }
    }
}

/// Joins every single-child directory chain of the forest, bottom-up.
fn compact_nodes(nodes: Vec<TreeNode>) -> (r: Vec<TreeNode>)
    ensures
        nodes_view(r@) == compact_forest(nodes_view(nodes@)),
    decreases nodes@,
{
    let ghost orig = nodes@;
    let ghost whole = nodes;
    let n = nodes.len();
    let mut src = nodes;
    let mut out: Vec<TreeNode> = Vec::new();
    let mut k: usize = 0;
    proof {
        assert(src@ =~= orig.subrange(0, orig.len() as int));
        lemma_nodes_view(out@);
        assert(nodes_view(out@) =~= seq![]);
        assert(orig.subrange(0, 0) =~= Seq::<TreeNode>::empty());
    }
    while src.len() > 0
        invariant
            k <= orig.len(),
            orig.len() == n,
            orig == whole@,
            whole == nodes,
            src@ == orig.subrange(k as int, orig.len() as int),
            nodes_view(out@) == compact_forest(nodes_view(orig.subrange(0, k as int))),
        decreases src.len(),
    {
        let x = src.remove(0);
        assert(x == orig[k as int]);
        proof { lemma_decreases_element(whole, k as int); }
        let ghost xg = x;
        let y = match x {
            TreeNode::Directory { name, children } => {
                proof {
                    assert(decreases_to!(xg => children));
                    assert(decreases_to!(children => children@));
                    assert(decreases_to!(whole@ => children@));
                }
                let inner = compact_nodes(children);
                merge_chain_nodes(name, inner)
            },
            TreeNode::File(f) => TreeNode::File(f),
        };
        let ghost before = out@;
        out.push(y);
        proof {
            lemma_nodes_view_prefix(orig, k as int);
            let pre = nodes_view(orig.subrange(0, k + 1));
            assert(pre.subrange(0, pre.len() - 1) == nodes_view(orig.subrange(0, k as int)));
            assert(pre[pre.len() - 1] == node_view(xg));
            assert(out@.subrange(0, out@.len() - 1) =~= before);
            assert(nodes_view(out@) == nodes_view(before).push(node_view(y)));
        }
        k = k + 1;
    }
    proof {
        assert(orig.subrange(0, orig.len() as int) =~= orig);
    }
    out
}

/// Collapses chains of single-child directories into one node whose name
/// joins theirs with `/`. A directory is joined with its lone child only when
/// that child is a directory with exactly one child, so a directory with two
/// or more children is never joined.
pub fn compact_tree(nodes: &mut Vec<TreeNode>)
    ensures
        nodes_view(final(nodes)@) == compact_forest(nodes_view(old(nodes)@)),
{
    let mut taken: Vec<TreeNode> = Vec::new();
    std::mem::swap(nodes, &mut taken);
    *nodes = compact_nodes(taken);
}

/// Builds the displayed tree of a changed-file list: directories created on
/// demand from the `/`-separated paths, every level sorted (directories
/// first, then by name) and single-child chains joined.
pub fn build_tree(files: &[FileEntry]) -> (r: Vec<TreeNode>)
    ensures
        nodes_view(r@) == tree_of(files_view(files@)),
        forest_sorted(nodes_view(r@)),
        branches_unjoined(nodes_view(r@)),
{
    let mut root: Vec<TreeNode> = Vec::new();
    let mut i: usize = 0;
    proof {
        lemma_nodes_view(root@);
        assert(files_view(files@.subrange(0, 0)) =~= seq![]);
        assert(nodes_view(root@) =~= raw_forest(files_view(files@.subrange(0, 0))));
    }
    while i < files.len()
        invariant
            i <= files.len(),
            nodes_view(root@) == raw_forest(files_view(files@.subrange(0, i as int))),
        decreases files.len() - i,
    {
        let parts = path_segments(files[i].path.as_str());
        proof {
            lemma_split_path_nonempty(files@[i as int].path@);
            assert(strings_view(parts@).len() == parts@.len());
            let fv = files_view(files@.subrange(0, i + 1));
            assert(fv.drop_last() =~= files_view(files@.subrange(0, i as int)));
            assert(fv.last() == files@[i as int]@);
        }
        insert_into_tree(&mut root, &parts, 0, files[i].duplicate());
        i = i + 1;
    }
    proof {
        assert(files@.subrange(0, files@.len() as int) =~= files@);
    }
    sort_tree(&mut root);
    compact_tree(&mut root);
    proof {
        lemma_built_tree_sorted(files_view(files@));
        lemma_built_tree_branches_unjoined(files_view(files@));
    }
    root
}

} // verus!

verus! {

/// The key of a node under `prefix`: a directory's joined path, or a file's
/// own repository-relative path.
pub open spec fn node_path(prefix: Seq<char>, n: NodeView) -> Seq<char> {
    match n {
        NodeView::Dir { name, .. } => join_path(prefix, name),
        NodeView::Leaf { file } => file.path,
    }
}

/// The paths of every directory of the forest under `prefix`.
pub open spec fn dir_paths(s: Seq<NodeView>, prefix: Seq<char>) -> Set<Seq<char>>
    decreases s,
{
    if s.len() == 0 {
        Set::empty()
    } else {
        let last = s[s.len() - 1];
        dir_paths(s.subrange(0, s.len() - 1), prefix) + match last {
            NodeView::Dir { name, children } => set![join_path(prefix, name)] + dir_paths(
                children,
                join_path(prefix, name),
            ),
            NodeView::Leaf { .. } => Set::empty(),
        }
    }
}

/// One more level of depth, stopping at the largest value.
pub open spec fn deeper(d: usize) -> usize {
    if d < usize::MAX {
        (d + 1) as usize
    } else {
        d
    }
}

/// The rows of the forest in pre-order, with their depth and key; the
/// children of a directory are listed only when its path is expanded.
pub open spec fn visible_rows(
    s: Seq<NodeView>,
    prefix: Seq<char>,
    depth: usize,
    expanded: Set<Seq<char>>,
) -> Seq<(usize, Seq<char>, NodeView)>
    decreases s,
{
    if s.len() == 0 {
        seq![]
    } else {
        let last = s[s.len() - 1];
        let p = node_path(prefix, last);
        visible_rows(s.subrange(0, s.len() - 1), prefix, depth, expanded) + seq![(depth, p, last)]
            + match last {
            NodeView::Dir { children, .. } => if expanded.contains(p) {
                visible_rows(children, p, deeper(depth), expanded)
            } else {
                seq![]
            },
            NodeView::Leaf { .. } => seq![],
        }
    }
}

pub open spec fn rows_view<'a>(v: Seq<(usize, String, &'a TreeNode)>) -> Seq<(usize, Seq<char>, NodeView)> {
    v.map_values(|r: (usize, String, &'a TreeNode)| (r.0, r.1@, node_view(*r.2)))
}

impl TreeNode {
    /// The name shown for this node: a directory's name, or the last segment
    /// of a file's path.
    pub fn name(&self) -> (r: &str)
        ensures
            r@ == display_name(node_view(*self)),
    {
        match self {
            TreeNode::Directory { name, .. } => name.as_str(),
            TreeNode::File(f) => {
                let p = f.path.as_str();
                let n = p.unicode_len();
                let mut i: usize = n;
                while i > 0
                    invariant
                        i <= n,
                        n == p@.len(),
                        p@ == f.path@,
                        display_name(node_view(*self)) == last_segment(p@),
                        last_index_of(p@, '/') == crate::text::rfind_char_below(p@, '/', i as int),
                    decreases i,
                {
                    if p.get_char(i - 1) == '/' {
                        assert(crate::text::rfind_char_below(p@, '/', i as int) == Some((i - 1) as int));
                        return p.substring_char(i, n);
                    }
                    i = i - 1;
                }
                p
            },
        }
    }
}

fn join_prefix(prefix: &str, name: &str) -> (r: String)
    ensures
        r@ == join_path(prefix@, name@),
{
    if prefix.unicode_len() == 0 {
        name.to_owned()
    } else {
        let mut r = prefix.to_owned();
        proof { reveal_strlit("/"); }
        r.append("/");
        r.append(name);
        r
    }
}

/// Adds to `expanded` the path of every directory of the forest under
/// `prefix`.
pub fn expand_all_dirs(nodes: &[TreeNode], prefix: &str, expanded: &mut crate::model::PathSet)
    ensures
        final(expanded)@ == old(expanded)@ + dir_paths(nodes_view(nodes@), prefix@),
    decreases nodes@,
{
    let mut i: usize = 0;
    proof {
        assert(nodes@.subrange(0, 0) =~= Seq::<TreeNode>::empty());
        assert(old(expanded)@ + dir_paths(nodes_view(nodes@.subrange(0, 0)), prefix@) =~= old(expanded)@);
    }
    while i < nodes.len()
        invariant
            i <= nodes@.len(),
            expanded@ == old(expanded)@ + dir_paths(nodes_view(nodes@.subrange(0, i as int)), prefix@),
        decreases nodes.len() - i,
    {
        let ghost before = expanded@;
        proof { lemma_nodes_view_prefix(nodes@, i as int); }
        match &nodes[i] {
            TreeNode::Directory { name, children } => {
                let path = join_prefix(prefix, name.as_str());
                expanded.insert(path.as_str());
                proof {
                    assert(decreases_to!(nodes@ => nodes@[i as int]));
                    assert(decreases_to!(nodes@[i as int] => *children));
                    assert(decreases_to!(*children => children@));
                }
                expand_all_dirs(children.as_slice(), path.as_str(), expanded);
                proof {
                    let pre = nodes_view(nodes@.subrange(0, i + 1));
                    assert(pre.subrange(0, pre.len() - 1) == nodes_view(nodes@.subrange(0, i as int)));
                    assert(pre[pre.len() - 1] == node_view(nodes@[i as int]));
                    assert(expanded@ =~= old(expanded)@ + dir_paths(pre, prefix@));
                }
            },
            TreeNode::File(_) => {
                proof {
                    let pre = nodes_view(nodes@.subrange(0, i + 1));
                    assert(pre.subrange(0, pre.len() - 1) == nodes_view(nodes@.subrange(0, i as int)));
                    assert(pre[pre.len() - 1] == node_view(nodes@[i as int]));
                    assert(expanded@ =~= old(expanded)@ + dir_paths(pre, prefix@));
                }
            },
        }
        i = i + 1;
    }
    proof {
        assert(nodes@.subrange(0, nodes@.len() as int) =~= nodes@);
    }
}

/// Appends to `out` the rows of the forest in pre-order: each node with its
/// depth and its key (a directory's joined path, a file's own path), and the
/// children of a directory only where its path is in `expanded`.
pub fn collect_visible<'a>(
    nodes: &'a [TreeNode],
    prefix: &str,
    depth: usize,
    expanded: &crate::model::PathSet,
    out: &mut Vec<(usize, String, &'a TreeNode)>,
)
    ensures
        rows_view(final(out)@) == rows_view(old(out)@) + visible_rows(
            nodes_view(nodes@),
            prefix@,
            depth,
            expanded@,
        ),
    decreases nodes@,
{
    let mut i: usize = 0;
    proof {
        assert(nodes@.subrange(0, 0) =~= Seq::<TreeNode>::empty());
        assert(rows_view(old(out)@) + visible_rows(nodes_view(nodes@.subrange(0, 0)), prefix@, depth, expanded@)
            =~= rows_view(old(out)@));
    }
    while i < nodes.len()
        invariant
            i <= nodes@.len(),
            rows_view(out@) == rows_view(old(out)@) + visible_rows(
                nodes_view(nodes@.subrange(0, i as int)),
                prefix@,
                depth,
                expanded@,
            ),
        decreases nodes.len() - i,
    {
        let ghost before = rows_view(out@);
        proof { lemma_nodes_view_prefix(nodes@, i as int); }
        let node = &nodes[i];
        let path = match node {
            TreeNode::Directory { name, .. } => join_prefix(prefix, name.as_str()),
            TreeNode::File(f) => f.path.clone(),
        };
        let ghost pv = path@;
        out.push((depth, path, node));
        proof {
            assert(rows_view(out@) =~= before + seq![(depth, pv, node_view(*node))]);
        }
        let ghost mid = rows_view(out@);
        let path2 = match node {
            TreeNode::Directory { name, .. } => join_prefix(prefix, name.as_str()),
            TreeNode::File(f) => f.path.clone(),
        };
        match node {
            TreeNode::Directory { children, .. } => {
                if expanded.contains(path2.as_str()) {
                    let next = if depth < usize::MAX { depth + 1 } else { depth };
                    proof {
                        assert(decreases_to!(nodes@ => nodes@[i as int]));
                        assert(decreases_to!(nodes@[i as int] => *children));
                        assert(decreases_to!(*children => children@));
                    }
                    collect_visible(children.as_slice(), path2.as_str(), next, expanded, out);
                }
            },
            TreeNode::File(_) => {},
        }
        proof {
            let pre = nodes_view(nodes@.subrange(0, i + 1));
            assert(pre.subrange(0, pre.len() - 1) == nodes_view(nodes@.subrange(0, i as int)));
            assert(pre[pre.len() - 1] == node_view(nodes@[i as int]));
            assert(rows_view(out@) =~= rows_view(old(out)@) + visible_rows(pre, prefix@, depth, expanded@));
        }
        i = i + 1;
    }
    proof {
        assert(nodes@.subrange(0, nodes@.len() as int) =~= nodes@);
    }
}

} // verus!
