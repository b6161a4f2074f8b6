use vstd::prelude::*;
use crate::model::{FileEntry, FileStatus, FileView};
use crate::text::{split_on, split_text, strings_view};
use crate::text::{chars_of, find_char, rfind_char, find_seq, string_of_range,
    first_index_of, last_index_of, first_occurrence, lemma_find_char_from_found,
    lemma_rfind_char_below_found, lemma_find_from_found};

verus! {

/// The separator between the old and the new name of a renamed path.
pub open spec fn arrow() -> Seq<char> {
    seq![' ', '=', '>', ' ']
}

/// The new path named by a statistics path field, which may encode a rename
/// as `prefix{old => new}suffix` or as `old => new`.
pub open spec fn normalized_path(f: Seq<char>) -> Seq<char> {
    let open = first_index_of(f, '{');
    let close = last_index_of(f, '}');
    if open is Some && close is Some && open->0 < close->0 && first_occurrence(
        f.subrange(open->0 + 1, close->0),
        arrow(),
    ) is Some {
        let o = open->0;
        let c = close->0;
        let k = first_occurrence(f.subrange(o + 1, c), arrow())->0;
        f.subrange(0, o) + f.subrange(o + 1 + k + 4, c) + f.subrange(c + 1, f.len() as int)
    } else if first_occurrence(f, arrow()) is Some {
        f.subrange(first_occurrence(f, arrow())->0 + 4, f.len() as int)
    } else {
        f
    }
}

fn arrow_chars() -> (r: Vec<char>)
    ensures
        r@ == arrow(),
{
    let r = vec![' ', '=', '>', ' '];
    assert(r@ =~= arrow());
    r
}

/// Resolves a path field of the line statistics to the new path when it
/// encodes a rename, and returns it unchanged otherwise.
pub fn normalize_numstat_path(field: &str) -> (r: String)
    ensures
        r@ == normalized_path(field@),
{
    let f = chars_of(field);
    let arrow = arrow_chars();
    proof {
        lemma_find_char_from_found(f@, '{', 0);
        lemma_rfind_char_below_found(f@, '}', f@.len() as int);
        lemma_find_from_found(f@, arrow@, 0);
    }
    if let (Some(open), Some(close)) = (find_char(&f, '{'), rfind_char(&f, '}')) {
        if open < close {
            let inner = string_of_range(&f, open + 1, close);
            let inner_chars = chars_of(inner.as_str());
            proof { lemma_find_from_found(inner_chars@, arrow@, 0); }
            if let Some(k) = find_seq(&inner_chars, &arrow) {
                let mut r = string_of_range(&f, 0, open);
                let mid = string_of_range(&f, open + 1 + k + 4, close);
                let suffix = string_of_range(&f, close + 1, f.len());
                r.append(mid.as_str());
                r.append(suffix.as_str());
                assert(inner_chars@ == f@.subrange(open + 1, close as int));
                return r;
            }
        }
    }
    if let Some(k) = find_seq(&f, &arrow) {
        assert(crate::text::occurs_at(f@, arrow@, k as int));
        let n = f.len();
        assert(k + 4 <= n);
        return string_of_range(&f, k + 4, n);
    }
    let r = string_of_range(&f, 0, f.len());
    assert(f@.subrange(0, f@.len() as int) =~= f@);
    r
}

} // verus!

verus! {

// ---------------------------------------------------------------------------
// Untracked files

/// How many leading bytes are inspected to tell a binary file.
pub const BINARY_PROBE_LEN: usize = 8192;

/// Whether the content has a NUL byte among its first 8 KiB.
pub open spec fn is_binary_content(b: Seq<u8>) -> bool {
    exists|i: int| 0 <= i < b.len() && i < BINARY_PROBE_LEN && b[i] == 0
}

/// The number of `\n` bytes in `b`.
pub open spec fn newline_count(b: Seq<u8>) -> nat
    decreases b.len(),
{
    if b.len() == 0 {
        0
    } else {
        newline_count(b.drop_last()) + if b.last() == 10u8 { 1nat } else { 0nat }
    }
}

/// The number of lines of a text file: its newlines, plus one for a last
/// line without one; no lines for an empty or binary file.
pub open spec fn line_count(b: Seq<u8>) -> int {
    if b.len() == 0 || is_binary_content(b) {
        0
    } else if b.last() == 10u8 {
        newline_count(b) as int
    } else {
        newline_count(b) as int + 1
    }
}

/// `n`, or the largest `i32` where `n` exceeds it.
pub open spec fn clamp_i32(n: int) -> i32 {
    if n > i32::MAX { i32::MAX } else { n as i32 }
}

/// Whether the content looks binary: a NUL byte among its first 8 KiB.
pub fn is_binary(bytes: &[u8]) -> (r: bool)
    ensures
        r == is_binary_content(bytes@),
{
    let n = if bytes.len() < BINARY_PROBE_LEN { bytes.len() } else { BINARY_PROBE_LEN };
    let mut i: usize = 0;
    while i < n
        invariant
            n <= bytes@.len(),
            n <= BINARY_PROBE_LEN,
            n == bytes@.len() || n == BINARY_PROBE_LEN,
            i <= n,
            forall|k: int| 0 <= k < i ==> bytes@[k] != 0,
        decreases n - i,
    {
        if bytes[i] == 0 {
            return true;
        }
        i = i + 1;
    }
    false
}

/// The number of lines of an untracked file, as added lines.
pub fn count_lines(bytes: &[u8]) -> (r: i32)
    ensures
        r == clamp_i32(line_count(bytes@)),
{
    if bytes.len() == 0 || is_binary(bytes) {
        return 0;
    }
    let mut newlines: usize = 0;
    let mut i: usize = 0;
    while i < bytes.len()
        invariant
            i <= bytes@.len(),
            newlines == newline_count(bytes@.subrange(0, i as int)),
            newlines <= i,
        decreases bytes.len() - i,
    {
        proof {
            assert(bytes@.subrange(0, i + 1).drop_last() =~= bytes@.subrange(0, i as int));
        }
        if bytes[i] == 10u8 {
            newlines = newlines + 1;
        }
        i = i + 1;
    }
    assert(bytes@.subrange(0, bytes@.len() as int) =~= bytes@);
    let lines: usize = if bytes[bytes.len() - 1] == 10u8 { newlines } else if newlines < usize::MAX { newlines + 1 } else { newlines };
    if lines > i32::MAX as usize {
        i32::MAX
    } else {
        lines as i32
    }
}

/// The entry for an untracked file: added, with its lines as additions (none
/// when it is binary or could not be read) and no deletions.
pub fn untracked_entry(path: String, content: Option<Vec<u8>>) -> (r: FileEntry)
    ensures
        r.path@ == path@,
        r.status == FileStatus::Added,
        r.deletions == 0,
        r.additions == match content {
            Some(b) => clamp_i32(line_count(b@)),
            None => 0,
        },
        content matches Some(b) && is_binary_content(b@) ==> r.additions == 0,
{
    let additions = match &content {
        Some(b) => count_lines(b.as_slice()),
        None => 0,
    };
    FileEntry { path, status: FileStatus::Added, additions, deletions: 0 }
}

// ---------------------------------------------------------------------------
// Merging the three sources

/// Whether some entry of `s` has the path `p`.
pub open spec fn has_path(s: Seq<FileView>, p: Seq<char>) -> bool {
    exists|i: int| 0 <= i < s.len() && (#[trigger] s[i]).path == p
}

/// The entries of `more`, in order, whose path is neither in `seen` nor in an
/// earlier entry kept.
pub open spec fn new_entries(seen: Seq<FileView>, more: Seq<FileView>) -> Seq<FileView>
    decreases more.len(),
{
    if more.len() == 0 {
        seq![]
    } else {
        let prev = new_entries(seen, more.drop_last());
        let e = more.last();
        if has_path(seen, e.path) || has_path(prev, e.path) {
            prev
        } else {
            prev.push(e)
        }
    }
}

/// The entries of `s` whose path is not empty.
pub open spec fn named_entries(s: Seq<FileView>) -> Seq<FileView>
    decreases s.len(),
{
    if s.len() == 0 {
        s
    } else if s.last().path.len() > 0 {
        named_entries(s.drop_last()).push(s.last())
    } else {
        named_entries(s.drop_last())
    }
}

/// The changed-file list from its three sources: every working-tree entry;
/// then each index entry whose path is not yet listed; then each untracked
/// file whose path is non-empty and not yet listed.
pub open spec fn merged_changes(work: Seq<FileView>, index: Seq<FileView>, untracked: Seq<FileView>) -> Seq<FileView> {
    let base = work + new_entries(work, index);
    base + new_entries(base, named_entries(untracked))
}

fn listed(s: &Vec<FileEntry>, p: &String) -> (r: bool)
    ensures
        r == has_path(crate::tree::files_view(s@), p@),
{
    let ghost v = crate::tree::files_view(s@);
    let mut i: usize = 0;
    while i < s.len()
        invariant
            i <= s@.len(),
            v == crate::tree::files_view(s@),
            forall|k: int| 0 <= k < i ==> s@[k].path@ != p@,
        decreases s.len() - i,
    {
        if crate::model::same_text(s[i].path.as_str(), p.as_str()) {
            assert(v[i as int].path == p@);
            return true;
        }
        i = i + 1;
    }
    assert forall|k: int| 0 <= k < v.len() implies (#[trigger] v[k]).path != p@ by {
        assert(v[k] == s@[k]@);
    }
    false
}

/// Appends to `out` each entry of `more` whose path `out` does not list yet.
fn append_new(out: &mut Vec<FileEntry>, more: Vec<FileEntry>, skip_empty: bool)
    ensures
        crate::tree::files_view(final(out)@) == crate::tree::files_view(old(out)@) + new_entries(
            crate::tree::files_view(old(out)@),
            if skip_empty {
                named_entries(crate::tree::files_view(more@))
            } else {
                crate::tree::files_view(more@)
            },
        ),
{
    let ghost start = crate::tree::files_view(out@);
    let ghost mv = crate::tree::files_view(more@);
    let ghost sel = if skip_empty { named_entries(mv) } else { mv };
    let mut i: usize = 0;
    let ghost mut taken: int = 0;
    assert(named_entries(mv.subrange(0, 0)) =~= seq![]);
    assert(crate::tree::files_view(out@) =~= start + new_entries(start, seq![]));
    while i < more.len()
        invariant
            i <= more@.len(),
            mv == crate::tree::files_view(more@),
            start.len() <= crate::tree::files_view(out@).len(),
            crate::tree::files_view(out@) == start + new_entries(
                start,
                if skip_empty { named_entries(mv.subrange(0, i as int)) } else { mv.subrange(0, i as int) },
            ),
        decreases more.len() - i,
    {
        let ghost pre_sel = if skip_empty { named_entries(mv.subrange(0, i as int)) } else { mv.subrange(0, i as int) };
        let ghost post_sel = if skip_empty { named_entries(mv.subrange(0, i + 1)) } else { mv.subrange(0, i + 1) };
        let ghost prev = new_entries(start, pre_sel);
        let ghost before = out@;
        let e = &more[i];
        proof {
            assert(mv.subrange(0, i + 1).drop_last() =~= mv.subrange(0, i as int));
            assert(mv[i as int] == e@);
        }
        let empty = e.path.as_str().unicode_len() == 0;
        if skip_empty && empty {
            proof {
                assert(post_sel == pre_sel);
            }
        } else {
            proof {
                if skip_empty {
                    assert(post_sel == pre_sel.push(e@));
                } else {
                    assert(post_sel =~= pre_sel.push(e@));
                }
                assert(post_sel.drop_last() == pre_sel);
                assert(post_sel.last() == e@);
            }
            let in_out = listed(out, &e.path);
            proof {
                let cur = crate::tree::files_view(out@);
                assert(cur == start + prev);
                if has_path(start, e@.path) || has_path(prev, e@.path) {
                    if has_path(start, e@.path) {
                        let k = choose|k: int| 0 <= k < start.len() && (#[trigger] start[k]).path == e@.path;
                        assert(cur[k] == start[k]);
                    } else {
                        let k = choose|k: int| 0 <= k < prev.len() && (#[trigger] prev[k]).path == e@.path;
                        assert(cur[start.len() + k] == prev[k]);
                    }
                }
                if has_path(cur, e@.path) {
                    let k = choose|k: int| 0 <= k < cur.len() && (#[trigger] cur[k]).path == e@.path;
                    if k < start.len() {
                        assert(start[k] == cur[k]);
                    } else {
                        assert(prev[k - start.len()] == cur[k]);
                    }
                }
            }
            if !in_out {
                out.push(e.duplicate());
                proof {
                    assert(crate::tree::files_view(out@) =~= crate::tree::files_view(before).push(e@));
                    assert(crate::tree::files_view(out@) =~= start + prev.push(e@));
                }
            }
        }
        i = i + 1;
    }
    assert(mv.subrange(0, mv.len() as int) =~= mv);
}

/// The changed-file list from its three sources, in priority order: the
/// working-tree entries; the index entries whose path the working tree does
/// not list; the untracked files whose path is non-empty and listed by
/// neither.
pub fn merge_changed_files(work: Vec<FileEntry>, index: Vec<FileEntry>, untracked: Vec<FileEntry>) -> (r: Vec<FileEntry>)
    ensures
        crate::tree::files_view(r@) == merged_changes(
            crate::tree::files_view(work@),
            crate::tree::files_view(index@),
            crate::tree::files_view(untracked@),
        ),
{
    let mut out = work;
    append_new(&mut out, index, false);
    append_new(&mut out, untracked, true);
    out
}

} // verus!

verus! {

// ---------------------------------------------------------------------------
// Numbers and whitespace

pub open spec fn is_digit(c: char) -> bool {
    '0' <= c && c <= '9'
}

pub open spec fn all_digits(b: Seq<char>) -> bool {
    forall|i: int| 0 <= i < b.len() ==> is_digit(#[trigger] b[i])
}

/// The value of a string of decimal digits.
pub open spec fn digits_value(s: Seq<char>) -> int
    decreases s.len(),
{
    if s.len() == 0 {
        0
    } else {
        digits_value(s.drop_last()) * 10 + (s.last() as int - '0' as int)
    }
}

/// The `i32` that `str::parse` reads from `s`: an optional sign and at least
/// one decimal digit, within range.
pub open spec fn parsed_i32(s: Seq<char>) -> Option<i32> {
    let neg = s.len() > 0 && s[0] == '-';
    let body = if s.len() > 0 && (s[0] == '-' || s[0] == '+') { s.drop_first() } else { s };
    if body.len() > 0 && all_digits(body) {
        let v = if neg { -digits_value(body) } else { digits_value(body) };
        if i32::MIN <= v <= i32::MAX {
            Some(v as i32)
        } else {
            None
        }
    } else {
        None
    }
}

proof fn lemma_digits_value_nonneg(s: Seq<char>)
    requires
        forall|i: int| 0 <= i < s.len() ==> is_digit(#[trigger] s[i]),
    ensures
        digits_value(s) >= 0,
    decreases s.len(),
{
    if s.len() > 0 {
        lemma_digits_value_nonneg(s.drop_last());
    }
}

/// Reads an `i32` written in decimal with an optional sign.
pub fn parse_i32(s: &str) -> (r: Option<i32>)
    ensures
        r == parsed_i32(s@),
{
    let c = chars_of(s);
    let neg = c.len() > 0 && c[0] == '-';
    let start: usize = if c.len() > 0 && (c[0] == '-' || c[0] == '+') { 1 } else { 0 };
    let ghost body = if c@.len() > 0 && (c@[0] == '-' || c@[0] == '+') { c@.drop_first() } else { c@ };
    assert(body =~= c@.subrange(start as int, c@.len() as int));
    if start >= c.len() {
        return None;
    }
    let limit: i64 = 2147483648;
    let mut v: i64 = 0;
    let mut big = false;
    let mut i: usize = start;
    while i < c.len()
        invariant
            start <= i <= c@.len(),
            c@ == s@,
            neg == (c@.len() > 0 && c@[0] == '-'),
            start == (if c@.len() > 0 && (c@[0] == '-' || c@[0] == '+') { 1int } else { 0int }),
            body == (if c@.len() > 0 && (c@[0] == '-' || c@[0] == '+') { c@.drop_first() } else { c@ }),
            body == c@.subrange(start as int, c@.len() as int),
            forall|k: int| start <= k < i ==> is_digit(#[trigger] c@[k]),
            !big ==> v == digits_value(c@.subrange(start as int, i as int)) && v <= limit,
            big ==> digits_value(c@.subrange(start as int, i as int)) > limit,
            0 <= v,
            limit == 2147483648,
        decreases c.len() - i,
    {
        let d = c[i];
        if !('0' <= d && d <= '9') {
            assert(!is_digit(body[i - start]));
            assert(!all_digits(body));
            assert(parsed_i32(s@) is None);
            return None;
        }
        let ghost pre = c@.subrange(start as int, i as int);
        let ghost post = c@.subrange(start as int, i + 1);
        assert(post.drop_last() =~= pre);
        assert(post.last() == d);
        proof {
            lemma_digits_value_nonneg(pre);
        }
        if !big {
            let nv = v * 10 + (d as i64 - '0' as i64);
            if nv > limit {
                big = true;
            } else {
                v = nv;
            }
        }
        i = i + 1;
    }
    assert(c@.subrange(start as int, c@.len() as int) == body);
    if big {
        return None;
    }
    if neg {
        Some((-v) as i32)
    } else if v <= 2147483647 {
        Some(v as i32)
    } else {
        None
    }
}

/// The characters that `char::is_whitespace` accepts (Unicode White_Space).
pub open spec fn is_space(c: char) -> bool {
    ('\t' <= c && c <= '\r') || c == ' ' || c == '\u{85}' || c == '\u{a0}' || c == '\u{1680}' || (
    '\u{2000}' <= c && c <= '\u{200a}') || c == '\u{2028}' || c == '\u{2029}' || c == '\u{202f}'
        || c == '\u{205f}' || c == '\u{3000}'
}

pub(crate) fn is_space_exec(c: char) -> (r: bool)
    ensures
        r == is_space(c),
{
    ('\t' <= c && c <= '\r') || c == ' ' || c == '\u{85}' || c == '\u{a0}' || c == '\u{1680}' || (
    '\u{2000}' <= c && c <= '\u{200a}') || c == '\u{2028}' || c == '\u{2029}' || c == '\u{202f}'
        || c == '\u{205f}' || c == '\u{3000}'
}

/// The length of `s[..n]` without its trailing whitespace.
pub open spec fn trimmed_end(s: Seq<char>, n: int) -> int
    decreases n,
{
    if n <= 0 || n > s.len() {
        0
    } else if is_space(s[n - 1]) {
        trimmed_end(s, n - 1)
    } else {
        n
    }
}

/// Where the word that ends at `n` starts.
pub open spec fn word_start(s: Seq<char>, n: int) -> int
    decreases n,
{
    if n <= 0 || n > s.len() {
        0
    } else if is_space(s[n - 1]) {
        n
    } else {
        word_start(s, n - 1)
    }
}

/// The first character of the last whitespace-separated word of `s`, or
/// `?` when it has none.
pub open spec fn status_letter(s: Seq<char>) -> char {
    let n = trimmed_end(s, s.len() as int);
    if n == 0 {
        '?'
    } else {
        s[word_start(s, n)]
    }
}

pub proof fn lemma_trimmed_end_le(s: Seq<char>, n: int)
    requires
        0 <= n <= s.len(),
    ensures
        0 <= trimmed_end(s, n) <= n,
    decreases n,
{
    if n > 0 && is_space(s[n - 1]) {
        lemma_trimmed_end_le(s, n - 1);
    }
}

proof fn lemma_trimmed_end_last(s: Seq<char>, n: int)
    requires
        0 <= n <= s.len(),
    ensures
        trimmed_end(s, n) > 0 ==> !is_space(s[trimmed_end(s, n) - 1]) && trimmed_end(s, n) <= n,
    decreases n,
{
    if n > 0 && is_space(s[n - 1]) {
        lemma_trimmed_end_last(s, n - 1);
    }
}

proof fn lemma_word_start_bounds(s: Seq<char>, n: int)
    requires
        0 < n <= s.len(),
    ensures
        0 <= word_start(s, n) <= n,
        !is_space(s[n - 1]) ==> word_start(s, n) < n,
    decreases n,
{
    if !is_space(s[n - 1]) {
        if n > 1 {
            lemma_word_start_bounds(s, n - 1);
        } else {
            assert(word_start(s, 0) == 0);
        }
    }
}

/// The status letter of a raw diff header.
fn status_letter_of(s: &Vec<char>) -> (r: char)
    ensures
        r == status_letter(s@),
{
    let mut n: usize = s.len();
    while n > 0 && is_space_exec(s[n - 1])
        invariant
            n <= s@.len(),
            trimmed_end(s@, s@.len() as int) == trimmed_end(s@, n as int),
        decreases n,
    {
        n = n - 1;
    }
    if n == 0 {
        return '?';
    }
    let end = n;
    proof {
        lemma_trimmed_end_last(s@, s@.len() as int);
        lemma_word_start_bounds(s@, end as int);
    }
    let mut m: usize = n;
    while m > 0 && !is_space_exec(s[m - 1])
        invariant
            m <= end,
            end <= s@.len(),
            0 < end,
            trimmed_end(s@, s@.len() as int) == end,
            !is_space(s@[end - 1]),
            word_start(s@, end as int) == word_start(s@, m as int),
        decreases m,
    {
        m = m - 1;
    }
    proof {
        if m == 0 {
            assert(word_start(s@, 0) == 0);
        }
    }
    assert(m < end);
    s[m]
}

} // verus!

verus! {

// ---------------------------------------------------------------------------
// Combined status and line statistics

/// One record of the combined status and statistics output.
#[derive(Debug)]
pub enum DiffRecord {
    /// A change type for a path.
    Status { path: String, status: FileStatus },
    /// Added and deleted line counts for a path.
    Stats { path: String, additions: i32, deletions: i32 },
}

/// What a `DiffRecord` holds, as plain values.
pub enum RecordView {
    Status { path: Seq<char>, status: FileStatus },
    Stats { path: Seq<char>, additions: i32, deletions: i32 },
}

pub open spec fn record_view(r: DiffRecord) -> RecordView {
    match r {
        DiffRecord::Status { path, status } => RecordView::Status { path: path@, status },
        DiffRecord::Stats { path, additions, deletions } => RecordView::Stats { path: path@, additions, deletions },
    }
}

pub open spec fn records_view(v: Seq<DiffRecord>) -> Seq<RecordView> {
    v.map_values(|r: DiffRecord| record_view(r))
}

/// The change type that a status letter stands for; a copy counts as added.
pub open spec fn status_of_letter(c: char) -> FileStatus {
    if c == 'A' || c == 'C' {
        FileStatus::Added
    } else if c == 'M' || c == 'T' {
        FileStatus::Modified
    } else if c == 'D' {
        FileStatus::Deleted
    } else if c == 'R' {
        FileStatus::Renamed
    } else {
        FileStatus::Unknown
    }
}

fn status_of_letter_exec(c: char) -> (r: FileStatus)
    ensures
        r == status_of_letter(c),
{
    if c == 'A' || c == 'C' {
        FileStatus::Added
    } else if c == 'M' || c == 'T' {
        FileStatus::Modified
    } else if c == 'D' {
        FileStatus::Deleted
    } else if c == 'R' {
        FileStatus::Renamed
    } else {
        FileStatus::Unknown
    }
}

/// The field at `i`, or an empty one past the end.
pub open spec fn field_at(parts: Seq<Seq<char>>, i: int) -> Seq<char> {
    if 0 <= i < parts.len() {
        parts[i]
    } else {
        seq![]
    }
}

/// A status record for `path`, when it is not empty.
pub open spec fn status_record(path: Seq<char>, status: FileStatus) -> Seq<RecordView> {
    if path.len() > 0 {
        seq![RecordView::Status { path, status }]
    } else {
        seq![]
    }
}

/// The statistics read from a field `add\tdel\tpath`: an unreadable count is
/// zero.
pub open spec fn count_or_zero(s: Seq<char>) -> i32 {
    match parsed_i32(s) {
        Some(v) => v,
        None => 0,
    }
}

/// Whether a field opens a statistics record: it starts with a digit or `-`.
pub open spec fn opens_stats(part: Seq<char>) -> bool {
    part.len() > 0 && (is_digit(part[0]) || part[0] == '-')
}

/// The records of the NUL-separated fields from `i` on.
///
/// A field starting with `:` is a raw status header; the path follows in the
/// next field, or, for a rename or copy, the old path and then the new one,
/// of which only the new counts. A field `add\tdel\tpath` carries line
/// counts; where its path is empty (a rename or copy), the old and new paths
/// follow in the next two fields. Any other field is skipped.
pub open spec fn diff_records(parts: Seq<Seq<char>>, i: int) -> Seq<RecordView>
    decreases parts.len() + 3 - i,
{
    if i < 0 || i >= parts.len() {
        seq![]
    } else {
        let part = parts[i];
        if part.len() > 0 && part[0] == ':' {
            let c = status_letter(part);
            if c == 'R' || c == 'C' {
                let j = if i + 1 < parts.len() { i + 2 } else { i + 1 };
                status_record(field_at(parts, j), status_of_letter(c)) + diff_records(parts, j + 1)
            } else {
                status_record(field_at(parts, i + 1), status_of_letter(c)) + diff_records(parts, i + 2)
            }
        } else if opens_stats(part) && split_on(part, '\t').len() >= 3 {
            let fields = split_on(part, '\t');
            let add = count_or_zero(fields[0]);
            let del = count_or_zero(fields[1]);
            if fields[2].len() == 0 {
                let path = field_at(parts, i + 2);
                (if path.len() > 0 {
                    seq![RecordView::Stats { path, additions: add, deletions: del }]
                } else {
                    seq![]
                }) + diff_records(parts, i + 3)
            } else {
                seq![RecordView::Stats { path: normalized_path(fields[2]), additions: add, deletions: del }]
                    + diff_records(parts, i + 1)
            }
        } else {
            diff_records(parts, i + 1)
        }
    }
}

/// The paths that have a status record, in order of first appearance.
pub open spec fn status_paths(recs: Seq<RecordView>) -> Seq<Seq<char>>
    decreases recs.len(),
{
    if recs.len() == 0 {
        seq![]
    } else {
        let prev = status_paths(recs.drop_last());
        match recs.last() {
            RecordView::Status { path, .. } => if prev.contains(path) {
                prev
            } else {
                prev.push(path)
            },
            RecordView::Stats { .. } => prev,
        }
    }
}

/// The last status recorded for `p`.
pub open spec fn last_status(recs: Seq<RecordView>, p: Seq<char>) -> Option<FileStatus>
    decreases recs.len(),
{
    if recs.len() == 0 {
        None
    } else {
        match recs.last() {
            RecordView::Status { path, status } if path == p => Some(status),
            _ => last_status(recs.drop_last(), p),
        }
    }
}

/// The last line counts recorded for `p`.
pub open spec fn last_stats(recs: Seq<RecordView>, p: Seq<char>) -> Option<(i32, i32)>
    decreases recs.len(),
{
    if recs.len() == 0 {
        None
    } else {
        match recs.last() {
            RecordView::Stats { path, additions, deletions } if path == p => Some((additions, deletions)),
            _ => last_stats(recs.drop_last(), p),
        }
    }
}

/// The entry of `p`: its last status and its last line counts (none if no
/// counts were given).
pub open spec fn entry_of(recs: Seq<RecordView>, p: Seq<char>) -> FileView {
    FileView {
        path: p,
        status: match last_status(recs, p) {
            Some(s) => s,
            None => FileStatus::Unknown,
        },
        additions: match last_stats(recs, p) {
            Some(c) => c.0,
            None => 0,
        },
        deletions: match last_stats(recs, p) {
            Some(c) => c.1,
            None => 0,
        },
    }
}

/// One entry per path with a status, in order of first appearance.
pub open spec fn entries_of(recs: Seq<RecordView>) -> Seq<FileView> {
    status_paths(recs).map_values(|p: Seq<char>| entry_of(recs, p))
}

/// The records of the NUL-separated output of a combined status and line
/// statistics query.
pub fn parse_diff_records(text: &str) -> (r: Vec<DiffRecord>)
    ensures
        records_view(r@) == diff_records(split_on(text@, '\0'), 0),
{
    let parts = split_text(text, '\0');
    let ghost pv = strings_view(parts@);
    assert(pv == split_on(text@, '\0'));
    let mut out: Vec<DiffRecord> = Vec::new();
    let mut i: usize = 0;
    let len = parts.len();
    assert(records_view(out@) + diff_records(pv, 0) =~= diff_records(pv, 0));
    while i < len
        invariant
            i <= len,
            len == parts@.len(),
            pv == strings_view(parts@),
            records_view(out@) + diff_records(pv, i as int) == diff_records(pv, 0),
        decreases len - i,
    {
        let ghost before = records_view(out@);
        let part = chars_of(parts[i].as_str());
        assert(part@ == pv[i as int]);
        if part.len() > 0 && part[0] == ':' {
            let c = status_letter_of(&part);
            let status = status_of_letter_exec(c);
            let j: usize = if c == 'R' || c == 'C' {
                if len - i > 1 { i + 2 } else { i + 1 }
            } else {
                i + 1
            };
            if j < parts.len() && parts[j].as_str().unicode_len() > 0 {
                out.push(DiffRecord::Status { path: parts[j].clone(), status });
                proof {
                    assert(records_view(out@) =~= before + status_record(pv[j as int], status));
                }
            } else {
                proof {
                    assert(status_record(field_at(pv, j as int), status) =~= seq![]);
                }
            }
            proof {
                if j >= len {
                    assert(diff_records(pv, j + 1) == Seq::<RecordView>::empty());
                }
            }
            i = if j < len { j + 1 } else { len };
        } else if part.len() > 0 && (('0' <= part[0] && part[0] <= '9') || part[0] == '-') {
            let fields = split_text(parts[i].as_str(), '\t');
            proof { assert(strings_view(fields@).len() == fields@.len()); }
            if fields.len() >= 3 {
                let add = match parse_i32(fields[0].as_str()) {
                    Some(v) => v,
                    None => 0,
                };
                let del = match parse_i32(fields[1].as_str()) {
                    Some(v) => v,
                    None => 0,
                };
                proof {
                    assert(strings_view(fields@)[0] == fields@[0]@);
                    assert(strings_view(fields@)[1] == fields@[1]@);
                    assert(strings_view(fields@)[2] == fields@[2]@);
                }
                if fields[2].as_str().unicode_len() == 0 {
                    if len - i > 2 && parts[i + 2].as_str().unicode_len() > 0 {
                        out.push(DiffRecord::Stats { path: parts[i + 2].clone(), additions: add, deletions: del });
                        proof {
                            assert(records_view(out@) =~= before + seq![
                                RecordView::Stats { path: pv[i + 2], additions: add, deletions: del },
                            ]);
                        }
                    }
                    proof {
                        if len - i <= 3 {
                            assert(diff_records(pv, i + 3) == Seq::<RecordView>::empty());
                            assert(diff_records(pv, len as int) == Seq::<RecordView>::empty());
                        }
                        if !(len - i > 2) {
                            assert(field_at(pv, i + 2) == Seq::<char>::empty());
                        }
                    }
                    i = if len - i > 3 { i + 3 } else { len };
                } else {
                    let path = normalize_numstat_path(fields[2].as_str());
                    out.push(DiffRecord::Stats { path, additions: add, deletions: del });
                    proof {
                        assert(records_view(out@) =~= before + seq![
                            RecordView::Stats { path: path@, additions: add, deletions: del },
                        ]);
                    }
                    i = i + 1;
                }
            } else {
                i = i + 1;
            }
        } else {
            i = i + 1;
        }
    }
    assert(diff_records(pv, i as int) == Seq::<RecordView>::empty());
    assert(records_view(out@) =~= diff_records(pv, 0));
    out
}

fn record_path(r: &DiffRecord) -> (p: &String)
    ensures
        p@ == match record_view(*r) {
            RecordView::Status { path, .. } => path,
            RecordView::Stats { path, .. } => path,
        },
{
    match r {
        DiffRecord::Status { path, .. } => path,
        DiffRecord::Stats { path, .. } => path,
    }
}

fn find_last_status(recs: &Vec<DiffRecord>, p: &String) -> (r: Option<FileStatus>)
    ensures
        r == last_status(records_view(recs@), p@),
{
    let ghost rv = records_view(recs@);
    let mut n: usize = recs.len();
    assert(rv.subrange(0, n as int) =~= rv);
    while n > 0
        invariant
            n <= recs@.len(),
            rv == records_view(recs@),
            last_status(rv, p@) == last_status(rv.subrange(0, n as int), p@),
        decreases n,
    {
        let ghost sub = rv.subrange(0, n as int);
        assert(sub.drop_last() =~= rv.subrange(0, n - 1));
        assert(sub.last() == record_view(recs@[n - 1]));
        match &recs[n - 1] {
            DiffRecord::Status { path, status } => {
                if *path == *p {
                    return Some(*status);
                }
            },
            DiffRecord::Stats { .. } => {},
        }
        n = n - 1;
    }
    None
}

fn find_last_stats(recs: &Vec<DiffRecord>, p: &String) -> (r: Option<(i32, i32)>)
    ensures
        r == last_stats(records_view(recs@), p@),
{
    let ghost rv = records_view(recs@);
    let mut n: usize = recs.len();
    assert(rv.subrange(0, n as int) =~= rv);
    while n > 0
        invariant
            n <= recs@.len(),
            rv == records_view(recs@),
            last_stats(rv, p@) == last_stats(rv.subrange(0, n as int), p@),
        decreases n,
    {
        let ghost sub = rv.subrange(0, n as int);
        assert(sub.drop_last() =~= rv.subrange(0, n - 1));
        assert(sub.last() == record_view(recs@[n - 1]));
        match &recs[n - 1] {
            DiffRecord::Stats { path, additions, deletions } => {
                if *path == *p {
                    return Some((*additions, *deletions));
                }
            },
            DiffRecord::Status { .. } => {},
        }
        n = n - 1;
    }
    None
}

fn contains_string(v: &Vec<String>, p: &String) -> (r: bool)
    ensures
        r == strings_view(v@).contains(p@),
{
    let mut i: usize = 0;
    while i < v.len()
        invariant
            i <= v@.len(),
            forall|k: int| 0 <= k < i ==> v@[k]@ != p@,
        decreases v.len() - i,
    {
        if v[i] == *p {
            assert(strings_view(v@)[i as int] == p@);
            return true;
        }
        i = i + 1;
    }
    assert forall|k: int| 0 <= k < strings_view(v@).len() implies strings_view(v@)[k] != p@ by {
        assert(strings_view(v@)[k] == v@[k]@);
    }
    false
}

/// The changed-file entries of a list of records: one per path that has a
/// status, in order of first appearance, with the path's last status and
/// last line counts (zero where none was given).
pub fn entries_from_records(recs: &Vec<DiffRecord>) -> (r: Vec<FileEntry>)
    ensures
        crate::tree::files_view(r@) == entries_of(records_view(recs@)),
{
    let ghost rv = records_view(recs@);
    let mut paths: Vec<String> = Vec::new();
    let mut k: usize = 0;
    assert(strings_view(paths@) =~= status_paths(rv.subrange(0, 0)));
    while k < recs.len()
        invariant
            k <= recs@.len(),
            rv == records_view(recs@),
            strings_view(paths@) == status_paths(rv.subrange(0, k as int)),
        decreases recs.len() - k,
    {
        let ghost sub = rv.subrange(0, k + 1);
        assert(sub.drop_last() =~= rv.subrange(0, k as int));
        assert(sub.last() == record_view(recs@[k as int]));
        match &recs[k] {
            DiffRecord::Status { path, .. } => {
                if !contains_string(&paths, path) {
                    paths.push(path.clone());
                    assert(strings_view(paths@) =~= status_paths(sub));
                }
            },
            DiffRecord::Stats { .. } => {},
        }
        k = k + 1;
    }
    assert(rv.subrange(0, rv.len() as int) =~= rv);
    let mut out: Vec<FileEntry> = Vec::new();
    let mut i: usize = 0;
    while i < paths.len()
        invariant
            i <= paths@.len(),
            rv == records_view(recs@),
            strings_view(paths@) == status_paths(rv),
            crate::tree::files_view(out@) == entries_of(rv).subrange(0, i as int),
        decreases paths.len() - i,
    {
        let p = &paths[i];
        let status = match find_last_status(recs, p) {
            Some(s) => s,
            None => FileStatus::Unknown,
        };
        let (additions, deletions) = match find_last_stats(recs, p) {
            Some(c) => c,
            None => (0, 0),
        };
        let ghost before = out@;
        let e = FileEntry { path: p.clone(), status, additions, deletions };
        proof {
            assert(strings_view(paths@)[i as int] == p@);
            assert(entries_of(rv)[i as int] == entry_of(rv, p@));
            assert(e@ == entry_of(rv, p@));
        }
        out.push(e);
        proof {
            assert(crate::tree::files_view(out@) =~= crate::tree::files_view(before).push(e@));
            assert(crate::tree::files_view(out@) =~= entries_of(rv).subrange(0, i + 1));
        }
        i = i + 1;
    }
    assert(entries_of(rv).subrange(0, i as int) =~= entries_of(rv));
    out
}

/// The changed-file entries of the NUL-separated output of a combined
/// status and line statistics query: renames and copies are attributed to
/// the new path, binary files count no lines.
pub fn parse_diff_status_and_stats(text: &str) -> (r: Vec<FileEntry>)
    ensures
        crate::tree::files_view(r@) == entries_of(diff_records(split_on(text@, '\0'), 0)),
{
    let recs = parse_diff_records(text);
    entries_from_records(&recs)
}

} // verus!

verus! {

// ---------------------------------------------------------------------------
// The patch shown for a file that only exists on disk

/// The decimal digits of `n`.
pub open spec fn decimal(n: nat) -> Seq<char>
    decreases n,
{
    if n < 10 {
        seq![digit_char(n)]
    } else {
        decimal(n / 10).push(digit_char(n % 10))
    }
}

pub open spec fn digit_char(d: nat) -> char {
    if d == 0 { '0' } else if d == 1 { '1' } else if d == 2 { '2' } else if d == 3 { '3' } else if d == 4 {
        '4'
    } else if d == 5 { '5' } else if d == 6 { '6' } else if d == 7 { '7' } else if d == 8 { '8' } else { '9' }
}

fn digit_exec(d: usize) -> (r: char)
    requires
        d < 10,
    ensures
        r == digit_char(d as nat),
{
    if d == 0 { '0' } else if d == 1 { '1' } else if d == 2 { '2' } else if d == 3 { '3' } else if d == 4 {
        '4'
    } else if d == 5 { '5' } else if d == 6 { '6' } else if d == 7 { '7' } else if d == 8 { '8' } else { '9' }
}

/// `n` written in decimal.
pub fn decimal_string(n: usize) -> (r: String)
    ensures
        r@ == decimal(n as nat),
    decreases n,
{
    if n < 10 {
        let mut r = String::new();
        crate::text::push_char(&mut r, digit_exec(n));
        assert(r@ =~= seq![digit_char(n as nat)]);
        r
    } else {
        let mut r = decimal_string(n / 10);
        crate::text::push_char(&mut r, digit_exec(n % 10));
        r
    }
}

/// The header lines of the patch of a new file at `p`.
pub open spec fn new_file_header(p: Seq<char>) -> Seq<Seq<char>> {
    seq![
        "diff --git a/"@ + p + " b/"@ + p,
        "new file mode 100644"@,
        "--- /dev/null"@,
        "+++ b/"@ + p,
    ]
}

/// Each line with a leading `+`.
pub open spec fn added_lines(lines: Seq<Seq<char>>) -> Seq<Seq<char>> {
    lines.map_values(|l: Seq<char>| seq!['+'] + l)
}

/// The patch shown for a file that only exists on disk: a new-file header,
/// then an empty hunk for an empty file, a one-line note with its size for a
/// binary one, or one hunk adding every line.
pub open spec fn new_file_patch(p: Seq<char>, content: Seq<u8>, lines: Seq<Seq<char>>, size_label: Seq<char>) -> Seq<
    Seq<char>,
> {
    if content.len() == 0 {
        new_file_header(p).push("@@ -0,0 +0,0 @@"@)
    } else if is_binary_content(content) {
        new_file_header(p).push("Binary file "@ + p + " ("@ + size_label + ")"@)
    } else {
        new_file_header(p).push("@@ -0,0 +1,"@ + decimal(lines.len()) + " @@"@) + added_lines(lines)
    }
}

fn joined(parts: &[&str]) -> (r: String)
    ensures
        r@ == parts@.fold_left(Seq::<char>::empty(), |acc: Seq<char>, s: &str| acc + s@),
{
    let mut r = String::new();
    let mut i: usize = 0;
    assert(parts@.subrange(0, 0).fold_left(Seq::<char>::empty(), |acc: Seq<char>, s: &str| acc + s@) =~= Seq::<char>::empty());
    while i < parts.len()
        invariant
            i <= parts@.len(),
            r@ == parts@.subrange(0, i as int).fold_left(Seq::<char>::empty(), |acc: Seq<char>, s: &str| acc + s@),
        decreases parts.len() - i,
    {
        r.append(parts[i]);
        proof {
            let sub = parts@.subrange(0, i + 1);
            assert(sub.drop_last() =~= parts@.subrange(0, i as int));
        }
        i = i + 1;
    }
    assert(parts@.subrange(0, parts@.len() as int) =~= parts@);
    r
}

/// The patch shown for a file at `path` that only exists on disk, from its
/// content, its text split into lines, and a label for its size.
pub fn new_file_diff(path: &str, content: &[u8], lines: &Vec<String>, size_label: &str) -> (r: Vec<String>)
    ensures
        strings_view(r@) == new_file_patch(path@, content@, strings_view(lines@), size_label@),
{
    let mut out: Vec<String> = Vec::new();
    out.push(joined(&["diff --git a/", path, " b/", path]));
    out.push(String::from_str("new file mode 100644"));
    out.push(String::from_str("--- /dev/null"));
    out.push(joined(&["+++ b/", path]));
    proof {
        reveal_with_fuel(Seq::fold_left, 5);
        assert(strings_view(out@) =~= new_file_header(path@));
    }
    if content.len() == 0 {
        out.push(String::from_str("@@ -0,0 +0,0 @@"));
        assert(strings_view(out@) =~= new_file_patch(path@, content@, strings_view(lines@), size_label@));
        return out;
    }
    if is_binary(content) {
        out.push(joined(&["Binary file ", path, " (", size_label, ")"]));
        proof {
            reveal_with_fuel(Seq::fold_left, 6);
        }
        assert(strings_view(out@) =~= new_file_patch(path@, content@, strings_view(lines@), size_label@));
        return out;
    }
    let count = decimal_string(lines.len());
    out.push(joined(&["@@ -0,0 +1,", count.as_str(), " @@"]));
    proof {
        reveal_with_fuel(Seq::fold_left, 4);
    }
    let ghost head = strings_view(out@);
    let mut i: usize = 0;
    while i < lines.len()
        invariant
            i <= lines@.len(),
            strings_view(out@) == head + added_lines(strings_view(lines@)).subrange(0, i as int),
        decreases lines.len() - i,
    {
        let l = joined(&["+", lines[i].as_str()]);
        proof {
            reveal_with_fuel(Seq::fold_left, 3);
            reveal_strlit("+");
            assert("+"@ =~= seq!['+']);
            assert(l@ =~= seq!['+'] + lines@[i as int]@);
            assert(added_lines(strings_view(lines@))[i as int] == seq!['+'] + strings_view(lines@)[i as int]);
        }
        let ghost before = out@;
        out.push(l);
        proof {
            assert(strings_view(lines@)[i as int] == lines@[i as int]@);
            assert(strings_view(out@) =~= strings_view(before).push(l@));
            assert(strings_view(out@) =~= head + added_lines(strings_view(lines@)).subrange(0, i + 1));
        }
        i = i + 1;
    }
    assert(added_lines(strings_view(lines@)).subrange(0, i as int) =~= added_lines(strings_view(lines@)));
    out
}

} // verus!
