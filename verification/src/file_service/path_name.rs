//! The final component of a `/`-separated path.
//!
//! A path is cut into pieces at every `/`. Empty pieces and pieces that are a
//! single `.` name nothing; the final component is the last piece left, unless
//! that piece is `..`, which names the parent and not an entry.

use vstd::prelude::*;
use crate::error::FileServiceError;
use crate::text::{chars_of, string_of};

verus! {

/// Where the last piece of `path` begins: just behind its last `/`, or at 0
/// when it holds none.
pub open spec fn last_piece_start(path: Seq<char>) -> int
    decreases path.len(),
{
    if path.len() == 0 {
        0
    } else if path.last() == '/' {
        path.len() as int
    } else {
        last_piece_start(path.drop_last())
    }
}

/// The piece of `path` behind its last `/`.
pub open spec fn last_piece(path: Seq<char>) -> Seq<char> {
    path.subrange(last_piece_start(path), path.len() as int)
}

/// Whether a piece names nothing: it is empty or a single `.`.
pub open spec fn is_skipped_piece(piece: Seq<char>) -> bool {
    piece.len() == 0 || piece =~= seq!['.']
}

/// The final component of `path`, if it has one.
pub open spec fn final_component(path: Seq<char>) -> Option<Seq<char>>
    decreases path.len(),
{
    let start = last_piece_start(path);
    let piece = last_piece(path);
    if is_skipped_piece(piece) {
        if 0 < start <= path.len() {
            // drop the piece and the `/` in front of it
            final_component(path.subrange(0, start - 1))
        } else {
            None
        }
    } else if piece =~= seq!['.', '.'] {
        None
    } else {
        Some(piece)
    }
}

/// The last piece starts inside the path, behind a `/` or at the very
/// beginning, and holds no `/`.
pub proof fn lemma_last_piece_start(path: Seq<char>)
    ensures
        0 <= last_piece_start(path) <= path.len(),
        last_piece_start(path) > 0 ==> path[last_piece_start(path) - 1] == '/',
        forall|i: int| last_piece_start(path) <= i < path.len() ==> path[i] != '/',
    decreases path.len(),
{
    if path.len() > 0 && path.last() != '/' {
        let shorter = path.drop_last();
        lemma_last_piece_start(shorter);
        assert forall|i: int| last_piece_start(path) <= i < path.len() implies path[i] != '/' by {
            if i < shorter.len() {
                assert(shorter[i] == path[i]);
            }
        }
    }
}

/// A path that is extended by characters other than `/` keeps the start of
/// its last piece.
pub proof fn lemma_last_piece_start_extended(path: Seq<char>, tail: Seq<char>)
    requires
        forall|i: int| 0 <= i < tail.len() ==> tail[i] != '/',
    ensures
        last_piece_start(path + tail) == last_piece_start(path),
    decreases tail.len(),
{
    if tail.len() == 0 {
        assert(path + tail =~= path);
    } else {
        let whole = path + tail;
        assert(whole.last() == tail.last());
        assert(whole.drop_last() =~= path + tail.drop_last());
        lemma_last_piece_start_extended(path, tail.drop_last());
    }
}

/// Finds the final component of `path`: the bounds `(start, end)` of the
/// piece in `path`.
pub fn final_component_bounds(path: &Vec<char>) -> (r: Option<(usize, usize)>)
    ensures
        r is Some <==> final_component(path@) is Some,
        r matches Some((start, end)) ==> start < end <= path.len() && final_component(path@)
            == Some(path@.subrange(start as int, end as int)),
{
    let mut end: usize = path.len();
    assert(path@.subrange(0, end as int) =~= path@);
    loop
        invariant
            end <= path.len(),
            final_component(path@) == final_component(path@.subrange(0, end as int)),
        decreases end,
    {
        let ghost rest = path@.subrange(0, end as int);
        let mut start: usize = end;
        assert(rest.subrange(0, start as int) =~= rest);
        while start > 0 && path[start - 1] != '/'
            invariant
                start <= end <= path.len(),
                rest == path@.subrange(0, end as int),
                last_piece_start(rest) == last_piece_start(rest.subrange(0, start as int)),
            decreases start,
        {
            proof {
                let shorter = rest.subrange(0, start as int);
                assert(shorter.last() == path@[start - 1]);
                assert(shorter.drop_last() =~= rest.subrange(0, start - 1));
            }
            start -= 1;
        }
        proof {
            let shorter = rest.subrange(0, start as int);
            if start > 0 {
                assert(shorter.last() == path@[start - 1]);
            }
            assert(last_piece_start(rest) == start);
            assert(last_piece(rest) =~= path@.subrange(start as int, end as int));
        }
        let len = end - start;
        if len == 0 || (len == 1 && path[start] == '.') {
            proof {
                let piece = path@.subrange(start as int, end as int);
                if len == 1 {
                    assert(piece =~= seq!['.']);
                }
                assert(is_skipped_piece(last_piece(rest)));
            }
            if start == 0 {
                return None;
            }
            assert(rest.subrange(0, start - 1) =~= path@.subrange(0, start - 1));
            end = start - 1;
        } else {
            proof {
                let piece = path@.subrange(start as int, end as int);
                if len == 1 {
                    assert(piece[0] != '.');
                    assert(seq!['.'][0] == '.');
                }
                assert(!is_skipped_piece(last_piece(rest)));
            }
            if len == 2 && path[start] == '.' && path[start + 1] == '.' {
                assert(path@.subrange(start as int, end as int) =~= seq!['.', '.']);
                return None;
            }
            proof {
                let piece = path@.subrange(start as int, end as int);
                if len == 2 {
                    assert(piece[0] != '.' || piece[1] != '.');
                    assert(seq!['.', '.'][0] == '.' && seq!['.', '.'][1] == '.');
                } else {
                    assert(seq!['.', '.'].len() == 2);
                }
            }
            return Some((start, end));
        }
    }
}

/// The final component of `path` as a string.
///
/// Fails with `InvalidFormat` when the path has no final component: when it
/// is empty, made of `/` and `.` pieces only, or ends in `..`.
pub fn get_file_name_by_path(path: &str) -> (r: Result<String, FileServiceError>)
    ensures
        match r {
            Ok(name) => final_component(path@) == Some(name@),
            Err(e) => e == FileServiceError::InvalidFormat && final_component(path@) is None,
        },
{
    let chars = chars_of(path);
    match final_component_bounds(&chars) {
        Some((start, end)) => Ok(string_of(&chars, start, end)),
        None => Err(FileServiceError::InvalidFormat),
    }
}

} // verus!
