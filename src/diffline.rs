//! The kinds of lines of a patch, and terminal escape sequences removed from
//! them.
use vstd::prelude::*;
use crate::text::{chars_of, starts_with, push_char};

verus! {

/// What a line of a patch is.
#[derive(Clone, Copy, Debug, PartialEq, Eq, Structural)]
pub enum DiffLineType {
    Header,
    Hunk,
    Added,
    Removed,
    Context,
}

/// Whether a line opens with one of the header prefixes of a patch.
pub open spec fn is_header_line(l: Seq<char>) -> bool {
    starts_with(l, "diff "@) || starts_with(l, "index "@) || starts_with(l, "+++"@) || starts_with(
        l,
        "---"@,
    ) || starts_with(l, "new file mode"@) || starts_with(l, "deleted file mode"@) || starts_with(
        l,
        "old mode"@,
    ) || starts_with(l, "new mode"@) || starts_with(l, "similarity index"@) || starts_with(
        l,
        "dissimilarity index"@,
    ) || starts_with(l, "rename from"@) || starts_with(l, "rename to"@) || starts_with(
        l,
        "copy from"@,
    ) || starts_with(l, "copy to"@) || starts_with(l, "Binary files "@) || starts_with(
        l,
        "\\ No newline at end of file"@,
    )
}

/// The kind of a patch line: a hunk header, an added or removed line (but
/// not the file header lines `+++` and `---`), another header, or context.
pub open spec fn line_type(l: Seq<char>) -> DiffLineType {
    if starts_with(l, "@@"@) {
        DiffLineType::Hunk
    } else if starts_with(l, "+"@) && !starts_with(l, "+++"@) {
        DiffLineType::Added
    } else if starts_with(l, "-"@) && !starts_with(l, "---"@) {
        DiffLineType::Removed
    } else if is_header_line(l) {
        DiffLineType::Header
    } else {
        DiffLineType::Context
    }
}

fn has_prefix(l: &Vec<char>, p: &str) -> (r: bool)
    ensures
        r == starts_with(l@, p@),
{
    let q = chars_of(p);
    if q.len() > l.len() {
        return false;
    }
    let mut i: usize = 0;
    while i < q.len()
        invariant
            q@ == p@,
            q.len() <= l.len(),
            i <= q.len(),
            forall|k: int| 0 <= k < i ==> l@[k] == q@[k],
        decreases q.len() - i,
    {
        if l[i] != q[i] {
            assert(l@.subrange(0, q@.len() as int)[i as int] != q@[i as int]);
            return false;
        }
        i = i + 1;
    }
    assert(l@.subrange(0, q@.len() as int) =~= q@);
    true
}

/// Classifies one line of a patch.
pub fn classify_diff_line(line: &str) -> (r: DiffLineType)
    ensures
        r == line_type(line@),
{
    let l = chars_of(line);
    if has_prefix(&l, "@@") {
        DiffLineType::Hunk
    } else if has_prefix(&l, "+") && !has_prefix(&l, "+++") {
        DiffLineType::Added
    } else if has_prefix(&l, "-") && !has_prefix(&l, "---") {
        DiffLineType::Removed
    } else if has_prefix(&l, "diff ") || has_prefix(&l, "index ") || has_prefix(&l, "+++")
        || has_prefix(&l, "---") || has_prefix(&l, "new file mode") || has_prefix(&l, "deleted file mode")
        || has_prefix(&l, "old mode") || has_prefix(&l, "new mode") || has_prefix(&l, "similarity index")
        || has_prefix(&l, "dissimilarity index") || has_prefix(&l, "rename from") || has_prefix(
        &l,
        "rename to",
    ) || has_prefix(&l, "copy from") || has_prefix(&l, "copy to") || has_prefix(&l, "Binary files ")
        || has_prefix(&l, "\\ No newline at end of file") {
        DiffLineType::Header
    } else {
        DiffLineType::Context
    }
}

pub open spec fn is_ascii_letter(c: char) -> bool {
    ('a' <= c && c <= 'z') || ('A' <= c && c <= 'Z')
}

/// The text of `s` with its escape sequences removed, and whether `s` ends
/// inside one. A sequence starts at ESC and ends with the next ASCII letter.
pub open spec fn ansi_scan(s: Seq<char>) -> (Seq<char>, bool)
    decreases s.len(),
{
    if s.len() == 0 {
        (seq![], false)
    } else {
        let prev = ansi_scan(s.drop_last());
        let c = s.last();
        if c == '\u{1b}' {
            (prev.0, true)
        } else if prev.1 {
            (prev.0, !is_ascii_letter(c))
        } else {
            (prev.0.push(c), false)
        }
    }
}

/// `s` without terminal escape sequences.
pub fn strip_ansi(s: &str) -> (r: String)
    ensures
        r@ == ansi_scan(s@).0,
{
    let c = chars_of(s);
    let mut result = String::new();
    let mut in_escape = false;
    let mut i: usize = 0;
    assert(c@.subrange(0, 0) =~= Seq::<char>::empty());
    while i < c.len()
        invariant
            i <= c@.len(),
            c@ == s@,
            (result@, in_escape) == ansi_scan(c@.subrange(0, i as int)),
        decreases c.len() - i,
    {
        let ch = c[i];
        assert(c@.subrange(0, i + 1).drop_last() =~= c@.subrange(0, i as int));
        assert(c@.subrange(0, i + 1).last() == ch);
        if ch == '\u{1b}' {
            in_escape = true;
        } else if in_escape {
            if ('a' <= ch && ch <= 'z') || ('A' <= ch && ch <= 'Z') {
                in_escape = false;
            }
        } else {
            push_char(&mut result, ch);
        }
        i = i + 1;
    }
    assert(c@.subrange(0, c@.len() as int) =~= c@);
    result
}

} // verus!
