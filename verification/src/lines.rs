//! Text as lines, and the search for a word in a line.
//!
//! A line ends at a line feed, or at the end of the text where no line feed
//! closes the last line. A carriage return directly in front of the line feed
//! belongs to the line ending; the line ending is no part of the line.

use vstd::prelude::*;

verus! {

/// Whether `needle` occurs in `line` as a run of neighbouring characters.
pub open spec fn occurs_in(needle: Seq<char>, line: Seq<char>) -> bool {
    exists|i: int|
        0 <= i && i + needle.len() <= line.len() && #[trigger] line.subrange(i, i + needle.len())
            =~= needle
}

/// Where the first line of `text` ends: the position of its first line
/// feed, or the length of the text when it holds none.
pub open spec fn line_end(text: Seq<char>) -> int
    decreases text.len(),
{
    if text.len() == 0 {
        0
    } else if text[0] == '\n' {
        0
    } else {
        1 + line_end(text.drop_first())
    }
}

/// The first line of `text`, without its line ending.
pub open spec fn first_line(text: Seq<char>) -> Seq<char> {
    let end = line_end(text);
    let raw = text.subrange(0, end);
    if end < text.len() && raw.len() > 0 && raw.last() == '\r' {
        raw.drop_last()
    } else {
        raw
    }
}

/// What follows the first line of `text` and its line ending.
pub open spec fn after_first_line(text: Seq<char>) -> Seq<char> {
    let end = line_end(text);
    if 0 <= end < text.len() {
        text.subrange(end + 1, text.len() as int)
    } else {
        Seq::empty()
    }
}

/// The first line ends where the first line feed stands.
pub proof fn lemma_line_end(text: Seq<char>, k: int)
    requires
        0 <= k <= text.len(),
        forall|i: int| 0 <= i < k ==> text[i] != '\n',
        k < text.len() ==> text[k] == '\n',
    ensures
        line_end(text) == k,
    decreases k,
{
    if k > 0 {
        let rest = text.drop_first();
        assert forall|i: int| 0 <= i < k - 1 implies rest[i] != '\n' by {
            assert(rest[i] == text[i + 1]);
        }
        lemma_line_end(rest, k - 1);
    }
}

/// Tells whether `needle` occurs in `line`.
pub fn contains_chars(line: &Vec<char>, needle: &Vec<char>) -> (r: bool)
    ensures
        r == occurs_in(needle@, line@),
{
    let m = needle.len();
    if m > line.len() {
        return false;
    }
    let last = line.len() - m;
    let mut i: usize = 0;
    while i <= last
        invariant
            m == needle.len(),
            m <= line.len(),
            last == line.len() - m,
            i <= last + 1,
            forall|j: int| 0 <= j < i ==> !(#[trigger] line@.subrange(j, j + m) =~= needle@),
        decreases last + 1 - i,
    {
        let mut k: usize = 0;
        while k < m && line[i + k] == needle[k]
            invariant
                m == needle.len(),
                i + m <= line.len(),
                k <= m,
                forall|t: int| 0 <= t < k ==> line@[i + t] == needle@[t],
            decreases m - k,
        {
            k += 1;
        }
        if k == m {
            assert(line@.subrange(i as int, i + m) =~= needle@);
            return true;
        }
        assert(line@.subrange(i as int, i + m)[k as int] != needle@[k as int]);
        i += 1;
    }
    false
}

} // verus!
