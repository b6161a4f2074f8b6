//! Choosing the base revision and reading the version-control tool's
//! line-oriented answers.
use vstd::prelude::*;
use crate::git::{is_space, trimmed_end, lemma_trimmed_end_le};
use crate::text::{chars_of, string_of_range, split_on, split_text, strings_view, contains_seq,
    find_seq, lex_lt, lex_less, find_char};

verus! {

// ---------------------------------------------------------------------------
// Trimming and lines

/// The index of the first non-whitespace character at or after `i`.
pub open spec fn trimmed_start(s: Seq<char>, i: int) -> int
    decreases s.len() - i,
{
    if 0 <= i < s.len() && is_space(s[i]) {
        trimmed_start(s, i + 1)
    } else {
        i
    }
}

/// `s` without leading and trailing whitespace, as `str::trim` gives it.
pub open spec fn trimmed(s: Seq<char>) -> Seq<char> {
    let a = trimmed_start(s, 0);
    let b = trimmed_end(s, s.len() as int);
    if b <= a {
        seq![]
    } else {
        s.subrange(a, b)
    }
}

proof fn lemma_trimmed_start_bounds(s: Seq<char>, i: int)
    requires
        0 <= i <= s.len(),
    ensures
        i <= trimmed_start(s, i) <= s.len(),
    decreases s.len() - i,
{
    if i < s.len() && is_space(s[i]) {
        lemma_trimmed_start_bounds(s, i + 1);
    }
}

/// `s` without leading and trailing whitespace.
pub fn trim_text(s: &str) -> (r: String)
    ensures
        r@ == trimmed(s@),
{
    let c = chars_of(s);
    let mut a: usize = 0;
    while a < c.len() && crate::git::is_space_exec(c[a])
        invariant
            a <= c@.len(),
            trimmed_start(c@, 0) == trimmed_start(c@, a as int),
        decreases c.len() - a,
    {
        a = a + 1;
    }
    let mut b: usize = c.len();
    while b > 0 && crate::git::is_space_exec(c[b - 1])
        invariant
            b <= c@.len(),
            trimmed_end(c@, c@.len() as int) == trimmed_end(c@, b as int),
        decreases b,
    {
        b = b - 1;
    }
    proof {
        lemma_trimmed_end_le(c@, c@.len() as int);
    }
    if b <= a {
        String::new()
    } else {
        string_of_range(&c, a, b)
    }
}

/// The trimmed, non-empty lines of `s`.
pub open spec fn nonblank_lines_upto(pieces: Seq<Seq<char>>, n: int) -> Seq<Seq<char>>
    decreases n,
{
    if n <= 0 || n > pieces.len() {
        seq![]
    } else {
        let prev = nonblank_lines_upto(pieces, n - 1);
        let t = trimmed(pieces[n - 1]);
        if t.len() > 0 {
            prev.push(t)
        } else {
            prev
        }
    }
}

pub open spec fn nonblank_lines(s: Seq<char>) -> Seq<Seq<char>> {
    nonblank_lines_upto(split_on(s, '\n'), split_on(s, '\n').len() as int)
}

/// The trimmed, non-empty lines of `s`.
pub fn nonblank_lines_of(s: &str) -> (r: Vec<String>)
    ensures
        strings_view(r@) == nonblank_lines(s@),
{
    let pieces = split_text(s, '\n');
    let ghost pv = strings_view(pieces@);
    let mut out: Vec<String> = Vec::new();
    let mut i: usize = 0;
    assert(strings_view(out@) =~= seq![]);
    while i < pieces.len()
        invariant
            i <= pieces@.len(),
            pv == strings_view(pieces@),
            pv == split_on(s@, '\n'),
            strings_view(out@) == nonblank_lines_upto(pv, i as int),
        decreases pieces.len() - i,
    {
        let t = trim_text(pieces[i].as_str());
        assert(pv[i as int] == pieces@[i as int]@);
        if t.as_str().unicode_len() > 0 {
            out.push(t);
            assert(strings_view(out@) =~= nonblank_lines_upto(pv, i + 1));
        }
        i = i + 1;
    }
    out
}

/// The command's answer where it succeeded: its output without surrounding
/// whitespace.
pub fn trimmed_output(success: bool, stdout: &str) -> (r: Option<String>)
    ensures
        success <==> r is Some,
        r matches Some(v) ==> v@ == trimmed(stdout@),
{
    if success {
        Some(trim_text(stdout))
    } else {
        None
    }
}

// ---------------------------------------------------------------------------
// Remotes and branches

/// The remote to compare against: `origin` where it is listed, else the one
/// remote where there is exactly one.
pub open spec fn default_remote(remotes: Seq<Seq<char>>) -> Option<Seq<char>> {
    if remotes.contains("origin"@) {
        Some("origin"@)
    } else if remotes.len() == 1 {
        Some(remotes[0])
    } else {
        None
    }
}

/// The default remote named by the output of the remote listing.
pub fn git_default_remote(output: &str) -> (r: Option<String>)
    ensures
        r matches Some(v) ==> default_remote(nonblank_lines(output@)) == Some(v@),
        r is None ==> default_remote(nonblank_lines(output@)) is None,
{
    let remotes = nonblank_lines_of(output);
    let ghost rv = strings_view(remotes@);
    let mut i: usize = 0;
    while i < remotes.len()
        invariant
            i <= remotes@.len(),
            rv == strings_view(remotes@),
            rv == nonblank_lines(output@),
            forall|k: int| 0 <= k < i ==> rv[k] != "origin"@,
        decreases remotes.len() - i,
    {
        if crate::model::same_text(remotes[i].as_str(), "origin") {
            assert(rv[i as int] == "origin"@);
            assert(rv.contains("origin"@));
            let o = String::from_str("origin");
            return Some(o);
        }
        i = i + 1;
    }
    if remotes.len() == 1 {
        assert(rv[0] == remotes@[0]@);
        Some(remotes[0].clone())
    } else {
        None
    }
}

/// Where `x` goes in the sorted `s`: after every name not greater.
pub open spec fn name_insert_pos(s: Seq<Seq<char>>, x: Seq<char>) -> int
    decreases s.len(),
{
    if s.len() == 0 {
        0
    } else if lex_lt(x, s[0]) {
        0
    } else {
        1 + name_insert_pos(s.drop_first(), x)
    }
}

/// Names sorted by insertion, in code point order.
pub open spec fn sorted_names(s: Seq<Seq<char>>) -> Seq<Seq<char>>
    decreases s.len(),
{
    if s.len() == 0 {
        s
    } else {
        let t = sorted_names(s.drop_last());
        t.insert(name_insert_pos(t, s.last()), s.last())
    }
}

/// The branch names listed once each, without the symbolic `HEAD` entries,
/// in order of first appearance.
pub open spec fn listed_branches(lines: Seq<Seq<char>>) -> Seq<Seq<char>>
    decreases lines.len(),
{
    if lines.len() == 0 {
        seq![]
    } else {
        let prev = listed_branches(lines.drop_last());
        let l = lines.last();
        if contains_seq(l, "HEAD"@) || prev.contains(l) {
            prev
        } else {
            prev.push(l)
        }
    }
}

/// The branch names of a branch listing: its trimmed non-empty lines except
/// those naming `HEAD`, each once, sorted.
pub fn list_branches(output: &str) -> (r: Vec<String>)
    ensures
        strings_view(r@) == sorted_names(listed_branches(nonblank_lines(output@))),
{
    let lines = nonblank_lines_of(output);
    let ghost lv = strings_view(lines@);
    let head = chars_of("HEAD");
    let mut names: Vec<String> = Vec::new();
    let mut i: usize = 0;
    assert(strings_view(names@) =~= listed_branches(lv.subrange(0, 0)));
    while i < lines.len()
        invariant
            i <= lines@.len(),
            lv == strings_view(lines@),
            head@ == "HEAD"@,
            strings_view(names@) == listed_branches(lv.subrange(0, i as int)),
        decreases lines.len() - i,
    {
        let ghost sub = lv.subrange(0, i + 1);
        assert(sub.drop_last() =~= lv.subrange(0, i as int));
        assert(sub.last() == lines@[i as int]@);
        let l = chars_of(lines[i].as_str());
        let has_head = find_seq(&l, &head).is_some();
        if !has_head && !contains_name(&names, &lines[i]) {
            names.push(lines[i].clone());
            assert(strings_view(names@) =~= listed_branches(sub));
        }
        i = i + 1;
    }
    assert(lv.subrange(0, lv.len() as int) =~= lv);
    sort_names(names)
}

fn contains_name(v: &Vec<String>, p: &String) -> (r: bool)
    ensures
        r == strings_view(v@).contains(p@),
{
    let mut i: usize = 0;
    while i < v.len()
        invariant
            i <= v@.len(),
            forall|k: int| 0 <= k < i ==> v@[k]@ != p@,
        decreases v.len() - i,
    {
        if v[i] == *p {
            assert(strings_view(v@)[i as int] == p@);
            return true;
        }
        i = i + 1;
    }
    assert forall|k: int| 0 <= k < strings_view(v@).len() implies strings_view(v@)[k] != p@ by {
        assert(strings_view(v@)[k] == v@[k]@);
    }
    false
}

fn name_less(x: &Vec<char>, b: &String) -> (r: bool)
    ensures
        r == lex_lt(x@, b@),
{
    let y = chars_of(b.as_str());
    lex_less(x, &y)
}

/// Names sorted in code point order by insertion.
fn sort_names(names: Vec<String>) -> (r: Vec<String>)
    ensures
        strings_view(r@) == sorted_names(strings_view(names@)),
{
    let ghost orig = strings_view(names@);
    let mut out: Vec<String> = Vec::new();
    let mut k: usize = 0;
    assert(strings_view(out@) =~= sorted_names(orig.subrange(0, 0)));
    while k < names.len()
        invariant
            k <= names@.len(),
            orig == strings_view(names@),
            strings_view(out@) == sorted_names(orig.subrange(0, k as int)),
        decreases names.len() - k,
    {
        let x = chars_of(names[k].as_str());
        let ghost ov = strings_view(out@);
        assert(ov.subrange(0, ov.len() as int) =~= ov);
        let mut j: usize = 0;
        while j < out.len() && !name_less(&x, &out[j])
            invariant
                j <= out@.len(),
                ov == strings_view(out@),
                name_insert_pos(ov, x@) == j + name_insert_pos(ov.subrange(j as int, ov.len() as int), x@),
            decreases out.len() - j,
        {
            assert(ov[j as int] == out@[j as int]@);
            assert(ov.subrange(j as int, ov.len() as int).drop_first() =~= ov.subrange(j + 1, ov.len() as int));
            j = j + 1;
        }
        proof {
            if j < out.len() {
                assert(ov[j as int] == out@[j as int]@);
                assert(ov.subrange(j as int, ov.len() as int)[0] == ov[j as int]);
            }
        }
        let ghost before = out@;
        out.insert(j, names[k].clone());
        proof {
            let sub = orig.subrange(0, k + 1);
            assert(sub.drop_last() =~= orig.subrange(0, k as int));
            assert(sub.last() == x@);
            assert(strings_view(out@) =~= ov.insert(j as int, x@));
        }
        k = k + 1;
    }
    assert(orig.subrange(0, orig.len() as int) =~= orig);
    out
}

// ---------------------------------------------------------------------------
// The base revision

/// Why no base revision could be chosen.
#[derive(Debug)]
pub enum ResolutionError {
    /// The named base resolves to nothing.
    Unresolvable(String),
    /// None of the conventional base names resolves.
    NoBaseFound,
    /// The base shares no history with HEAD.
    NoMergeBase(String),
}

/// The remote-tracking name to try before a plain branch name: only a name
/// without `/`, and only where a default remote is known.
pub fn remote_candidate(specified: &str, remote: Option<String>) -> (r: Option<String>)
    ensures
        r is Some <==> (!specified@.contains('/') && remote is Some),
        r matches Some(c) ==> c@ == remote->0@ + seq!['/'] + specified@,
{
    let s = chars_of(specified);
    match find_char(&s, '/') {
        Some(k) => {
            proof { crate::text::lemma_find_char_from_found(s@, '/', 0); }
            None
        },
        None => {
            proof {
                crate::tree_facts::lemma_find_char_from_before(s@, '/', 0);
            }
            match remote {
                Some(r) => {
                    let mut c = r;
                    proof { reveal_strlit("/"); }
                    c.append("/");
                    c.append(specified);
                    Some(c)
                },
                None => None,
            }
        },
    }
}

/// The base revision name to use: the remote-tracking candidate where it
/// verified, else the name as given where it verified.
pub fn resolve_base_ref(
    specified: &str,
    candidate: Option<String>,
    candidate_verified: bool,
    specified_verified: bool,
) -> (r: Result<String, ResolutionError>)
    ensures
        candidate is Some && candidate_verified ==> (r matches Ok(v) && v@ == candidate->0@),
        !(candidate is Some && candidate_verified) && specified_verified ==> (r matches Ok(v) && v@
            == specified@),
        !(candidate is Some && candidate_verified) && !specified_verified ==> (r matches Err(
            ResolutionError::Unresolvable(n),
        ) && n@ == specified@),
{
    if candidate_verified {
        if let Some(c) = candidate {
            return Ok(c);
        }
    }
    if specified_verified {
        Ok(specified.to_owned())
    } else {
        Err(ResolutionError::Unresolvable(specified.to_owned()))
    }
}

/// The names to try as base, in order: the one given, or else the
/// conventional ones.
pub fn base_candidates(specified: Option<String>) -> (r: Vec<String>)
    ensures
        specified matches Some(b) ==> strings_view(r@) == seq![b@],
        specified is None ==> strings_view(r@) == seq!["develop"@, "main"@, "master"@],
{
    match specified {
        Some(b) => {
            let r = vec![b];
            assert(strings_view(r@) =~= seq![r@[0]@]);
            r
        },
        None => {
            let r = vec![String::from_str("develop"), String::from_str("main"), String::from_str("master")];
            assert(strings_view(r@) =~= seq!["develop"@, "main"@, "master"@]);
            r
        },
    }
}

/// The first index with an answer.
pub open spec fn first_resolved(resolved: Seq<Option<String>>, i: int) -> Option<int>
    decreases resolved.len() - i,
{
    if i < 0 || i >= resolved.len() {
        None
    } else if resolved[i] is Some {
        Some(i)
    } else {
        first_resolved(resolved, i + 1)
    }
}

/// The base revision, given what each name of `base_candidates(specified)`
/// resolved to: the first that resolved; else the given name is
/// unresolvable, or no conventional name resolved.
pub fn detect_base_branch(specified: Option<String>, resolved: Vec<Option<String>>) -> (r: Result<String, ResolutionError>)
    ensures
        first_resolved(resolved@, 0) matches Some(k) ==> (r matches Ok(v) && v@ == resolved@[k]->0@),
        first_resolved(resolved@, 0) is None && specified is Some ==> (r matches Err(
            ResolutionError::Unresolvable(n),
        ) && n@ == specified->0@),
        first_resolved(resolved@, 0) is None && specified is None ==> r matches Err(
            ResolutionError::NoBaseFound,
        ),
{
    let mut i: usize = 0;
    while i < resolved.len()
        invariant
            i <= resolved@.len(),
            first_resolved(resolved@, 0) == first_resolved(resolved@, i as int),
        decreases resolved.len() - i,
    {
        if let Some(v) = &resolved[i] {
            return Ok(v.clone());
        }
        i = i + 1;
    }
    match specified {
        Some(b) => Err(ResolutionError::Unresolvable(b)),
        None => Err(ResolutionError::NoBaseFound),
    }
}

} // verus!
