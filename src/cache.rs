//! The per-path cache of diffs, with where each came from.
use vstd::prelude::*;
use crate::model::{DiffSource, PathSet, same_text};
use crate::text::strings_view;

verus! {

/// A cached diff: its raw lines and where it came from.
pub struct CachedDiff {
    pub path: String,
    pub lines: Vec<String>,
    pub source: DiffSource,
}

/// Whether some entry of `e` is for `p`.
pub open spec fn caches(e: Seq<CachedDiff>, p: Seq<char>) -> bool {
    exists|i: int| 0 <= i < e.len() && #[trigger] e[i].path@ == p
}

/// Diffs keyed by path, at most one per path.
pub struct DiffCache {
    entries: Vec<CachedDiff>,
}

impl DiffCache {
    #[verifier::type_invariant]
    spec fn keys_unique(self) -> bool {
        unique_paths(self.entries@)
    }
}

impl View for DiffCache {
    type V = Map<Seq<char>, (Seq<Seq<char>>, DiffSource)>;

    closed spec fn view(&self) -> Map<Seq<char>, (Seq<Seq<char>>, DiffSource)> {
        Map::new(
            |p: Seq<char>| caches(self.entries@, p),
            |p: Seq<char>|
                {
                    let i = choose|i: int| 0 <= i < self.entries@.len() && #[trigger] self.entries@[i].path@ == p;
                    (strings_view(self.entries@[i].lines@), self.entries@[i].source)
                },
        )
    }
}

proof fn lemma_value_at(e: Seq<CachedDiff>, i: int)
    requires
        0 <= i < e.len(),
        unique_paths(e),
    ensures
        (choose|k: int| 0 <= k < e.len() && #[trigger] e[k].path@ == e[i].path@) == i,
{
    let k = choose|k: int| 0 <= k < e.len() && #[trigger] e[k].path@ == e[i].path@;
    if k < i {
        assert(e[k].path@ != e[i].path@);
    } else if k > i {
        assert(e[i].path@ != e[k].path@);
    }
}

/// The entries of `e` whose path `keep` accepts, in order.
pub open spec fn kept_where(e: Seq<CachedDiff>, keep: spec_fn(Seq<char>) -> bool) -> Seq<CachedDiff>
    decreases e.len(),
{
    if e.len() == 0 {
        e
    } else if keep(e.last().path@) {
        kept_where(e.drop_last(), keep).push(e.last())
    } else {
        kept_where(e.drop_last(), keep)
    }
}

pub open spec fn unique_paths(e: Seq<CachedDiff>) -> bool {
    forall|a: int, b: int| 0 <= a < b < e.len() ==> (#[trigger] e[a]).path@ != (#[trigger] e[b]).path@
}

proof fn lemma_kept_where(e: Seq<CachedDiff>, keep: spec_fn(Seq<char>) -> bool)
    requires
        unique_paths(e),
    ensures
        unique_paths(kept_where(e, keep)),
        forall|x: CachedDiff| #[trigger] kept_where(e, keep).contains(x) ==> e.contains(x) && keep(x.path@),
        forall|x: CachedDiff| #[trigger] e.contains(x) && keep(x.path@) ==> kept_where(e, keep).contains(x),
    decreases e.len(),
{
    if e.len() > 0 {
        let d = e.drop_last();
        assert(unique_paths(d)) by {
            assert forall|a: int, b: int| 0 <= a < b < d.len() implies (#[trigger] d[a]).path@ != (#[trigger] d[b]).path@ by {
                assert(d[a] == e[a] && d[b] == e[b]);
            }
        }
        lemma_kept_where(d, keep);
        let r = kept_where(e, keep);
        let t = kept_where(d, keep);
        assert forall|x: CachedDiff| r.contains(x) implies e.contains(x) && keep(x.path@) by {
            let i = choose|i: int| 0 <= i < r.len() && r[i] == x;
            if i < t.len() {
                assert(r[i] == t[i]);
                assert(t.contains(x));
                let j = choose|j: int| 0 <= j < d.len() && d[j] == x;
                assert(e[j] == d[j]);
            } else {
                assert(x == e.last());
                assert(e[e.len() - 1] == x);
            }
        }
        assert forall|x: CachedDiff| e.contains(x) && keep(x.path@) implies r.contains(x) by {
            let j = choose|j: int| 0 <= j < e.len() && e[j] == x;
            if j < e.len() - 1 {
                assert(d[j] == x);
                assert(d.contains(x));
                assert(t.contains(x));
                let i = choose|i: int| 0 <= i < t.len() && t[i] == x;
                assert(r[i] == t[i]);
            } else {
                assert(r[r.len() - 1] == x);
            }
        }
        if keep(e.last().path@) {
            assert forall|a: int, b: int| 0 <= a < b < r.len() implies (#[trigger] r[a]).path@ != (#[trigger] r[b]).path@ by {
                if b == r.len() - 1 {
                    assert(r[a] == t[a]);
                    assert(t.contains(t[a]));
                    assert(d.contains(t[a]));
                    let j = choose|j: int| 0 <= j < d.len() && d[j] == t[a];
                    assert(e[j] == d[j]);
                    assert(e[j].path@ != e[e.len() - 1].path@);
                } else {
                    assert(r[a] == t[a] && r[b] == t[b]);
                }
            }
        }
    }
}

proof fn lemma_update_unique(e: Seq<CachedDiff>, i: int, x: CachedDiff)
    requires
        unique_paths(e),
        0 <= i < e.len(),
        x.path@ == e[i].path@,
    ensures
        unique_paths(e.update(i, x)),
{
    let u = e.update(i, x);
    assert forall|a: int, b: int| 0 <= a < b < u.len() implies (#[trigger] u[a]).path@ != (#[trigger] u[b]).path@ by {
        assert(u[a].path@ == e[a].path@ && u[b].path@ == e[b].path@);
    }
}

proof fn lemma_push_unique(e: Seq<CachedDiff>, x: CachedDiff)
    requires
        unique_paths(e),
        !caches(e, x.path@),
    ensures
        unique_paths(e.push(x)),
{
    let u = e.push(x);
    assert forall|a: int, b: int| 0 <= a < b < u.len() implies (#[trigger] u[a]).path@ != (#[trigger] u[b]).path@ by {
        if b == e.len() {
            assert(u[a] == e[a]);
            if e[a].path@ == x.path@ {
                assert(caches(e, x.path@));
            }
        } else {
            assert(u[a] == e[a] && u[b] == e[b]);
        }
    }
}

impl DiffCache {
    /// An empty cache.
    pub fn new() -> (r: DiffCache)
        ensures
            r@ == Map::<Seq<char>, (Seq<Seq<char>>, DiffSource)>::empty(),
    {
        let r = DiffCache { entries: Vec::new() };
        assert(r@ =~= Map::<Seq<char>, (Seq<Seq<char>>, DiffSource)>::empty());
        r
    }

    fn index_of(&self, path: &str) -> (r: Option<usize>)
        ensures
            r matches Some(i) ==> i < self.entries@.len() && self.entries@[i as int].path@ == path@,
            r is None ==> !caches(self.entries@, path@),
    {
        let mut i: usize = 0;
        while i < self.entries.len()
            invariant
                i <= self.entries@.len(),
                forall|k: int| 0 <= k < i ==> self.entries@[k].path@ != path@,
            decreases self.entries.len() - i,
        {
            if same_text(self.entries[i].path.as_str(), path) {
                return Some(i);
            }
            i = i + 1;
        }
        None
    }

    /// Whether a diff for `path` is cached.
    pub fn contains(&self, path: &str) -> (r: bool)
        ensures
            r == self@.contains_key(path@),
    {
        self.index_of(path).is_some()
    }

    /// The cached lines of `path`.
    pub fn lines(&self, path: &str) -> (r: Option<&Vec<String>>)
        ensures
            r is Some <==> self@.contains_key(path@),
            r matches Some(v) ==> strings_view(v@) == self@[path@].0,
    {
        proof { use_type_invariant(self); }
        match self.index_of(path) {
            Some(i) => {
                proof { lemma_value_at(self.entries@, i as int); }
                Some(&self.entries[i].lines)
            },
            None => None,
        }
    }

    /// Where the cached diff of `path` came from.
    pub fn source(&self, path: &str) -> (r: Option<DiffSource>)
        ensures
            r is Some <==> self@.contains_key(path@),
            r matches Some(s) ==> s == self@[path@].1,
    {
        proof { use_type_invariant(self); }
        match self.index_of(path) {
            Some(i) => {
                proof { lemma_value_at(self.entries@, i as int); }
                Some(self.entries[i].source)
            },
            None => None,
        }
    }

    /// Caches the diff of `path`, replacing any earlier one.
    pub fn insert(&mut self, path: String, lines: Vec<String>, source: DiffSource)
        ensures
            final(self)@ == old(self)@.insert(path@, (strings_view(lines@), source)),
    {
        proof { use_type_invariant(&*self); }
        let ghost old_map = self@;
        let ghost old_e = self.entries@;
        let ghost pv = path@;
        let ghost value = (strings_view(lines@), source);
        let found = self.index_of(path.as_str());
        let mut entries: Vec<CachedDiff> = Vec::new();
        std::mem::swap(&mut self.entries, &mut entries);
        let entry = CachedDiff { path, lines, source };
        match found {
            Some(i) => {
                entries.remove(i);
                entries.insert(i, entry);
                proof {
                    assert(entries@ =~= old_e.update(i as int, entry));
                    lemma_update_unique(old_e, i as int, entry);
                }
            },
            None => {
                entries.push(entry);
                proof {
                    lemma_push_unique(old_e, entry);
                }
            },
        }
        self.entries = entries;
        proof {
            let e = self.entries@;
            assert forall|q: Seq<char>| #[trigger] self@.contains_key(q) == old_map.insert(pv, value).contains_key(q) by {
                if caches(e, q) && q != pv {
                    let a = choose|a: int| 0 <= a < e.len() && #[trigger] e[a].path@ == q;
                    assert(old_e[a] == e[a]);
                }
                if caches(old_e, q) && q != pv {
                    let b = choose|b: int| 0 <= b < old_e.len() && #[trigger] old_e[b].path@ == q;
                    assert(old_e[b] == e[b]);
                }
                if q == pv {
                    match found {
                        Some(i) => { assert(e[i as int].path@ == q); },
                        None => { assert(e[old_e.len() as int].path@ == q); },
                    }
                }
            }
            assert forall|q: Seq<char>| #[trigger] self@.contains_key(q) implies self@[q] == old_map.insert(pv, value)[q] by {
                let a = choose|a: int| 0 <= a < e.len() && #[trigger] e[a].path@ == q;
                lemma_value_at(e, a);
                if q != pv {
                    assert(a < old_e.len() && old_e[a] == e[a]);
                    lemma_value_at(old_e, a);
                }
            }
            assert(self@ =~= old_map.insert(pv, value));
        }
    }

    /// Keeps only the diffs that survive an update: none where every diff
    /// was invalidated, else those whose path was neither invalidated nor
    /// left the changed-file list.
    pub fn retain_valid(&mut self, invalidate_all: bool, invalidate_paths: &PathSet, current: &PathSet)
        ensures
            forall|q: Seq<char>| #[trigger] final(self)@.contains_key(q) == (old(self)@.contains_key(q)
                && !invalidate_all && !invalidate_paths@.contains(q) && current@.contains(q)),
            forall|q: Seq<char>| #[trigger] final(self)@.contains_key(q) ==> final(self)@[q] == old(self)@[q],
    {
        proof { use_type_invariant(&*self); }
        let ghost old_map = self@;
        let ghost old_e = self.entries@;
        let ghost keep = |q: Seq<char>| !invalidate_all && !invalidate_paths@.contains(q) && current@.contains(q);
        let mut rest: Vec<CachedDiff> = Vec::new();
        std::mem::swap(&mut self.entries, &mut rest);
        let n = rest.len();
        let mut kept: Vec<CachedDiff> = Vec::new();
        let mut k: usize = 0;
        assert(kept@ =~= kept_where(old_e.subrange(0, 0), keep));
        while rest.len() > 0
            invariant
                k <= n,
                n == old_e.len(),
                rest@ == old_e.subrange(k as int, n as int),
                kept@ == kept_where(old_e.subrange(0, k as int), keep),
                keep == (|q: Seq<char>| !invalidate_all && !invalidate_paths@.contains(q) && current@.contains(q)),
            decreases rest.len(),
        {
            let e = rest.remove(0);
            assert(e == old_e[k as int]);
            assert(old_e.subrange(0, k + 1).drop_last() =~= old_e.subrange(0, k as int));
            if crate::reconcile::keep_cached(e.path.as_str(), invalidate_all, invalidate_paths, current) {
                kept.push(e);
            }
            k = k + 1;
        }
        assert(old_e.subrange(0, n as int) =~= old_e);
        proof {
            lemma_kept_where(old_e, keep);
        }
        self.entries = kept;
        proof {
            let e = self.entries@;
            assert forall|q: Seq<char>| #[trigger] self@.contains_key(q) == (old_map.contains_key(q) && keep(q)) by {
                if caches(e, q) {
                    let a = choose|a: int| 0 <= a < e.len() && #[trigger] e[a].path@ == q;
                    assert(e.contains(e[a]));
                    assert(kept_where(old_e, keep).contains(e[a]));
                    assert(old_e.contains(e[a]));
                    let b = choose|b: int| 0 <= b < old_e.len() && old_e[b] == e[a];
                    assert(old_e[b].path@ == q);
                }
                if caches(old_e, q) && keep(q) {
                    let b = choose|b: int| 0 <= b < old_e.len() && #[trigger] old_e[b].path@ == q;
                    assert(old_e.contains(old_e[b]));
                    assert(e.contains(old_e[b]));
                    let a = choose|a: int| 0 <= a < e.len() && e[a] == old_e[b];
                    assert(e[a].path@ == q);
                }
            }
            assert forall|q: Seq<char>| #[trigger] self@.contains_key(q) implies self@[q] == old_map[q] by {
                let a = choose|a: int| 0 <= a < e.len() && #[trigger] e[a].path@ == q;
                lemma_value_at(e, a);
                assert(e.contains(e[a]));
                assert(kept_where(old_e, keep).contains(e[a]));
                assert(old_e.contains(e[a]));
                let b = choose|b: int| 0 <= b < old_e.len() && old_e[b] == e[a];
                lemma_value_at(old_e, b);
            }
        }
    }

    /// Drops every cached diff.
    pub fn clear(&mut self)
        ensures
            final(self)@ == Map::<Seq<char>, (Seq<Seq<char>>, DiffSource)>::empty(),
    {
        self.entries = Vec::new();
        assert(self@ =~= Map::<Seq<char>, (Seq<Seq<char>>, DiffSource)>::empty());
    }
}

} // verus!
