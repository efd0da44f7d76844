//! The naming convention of part files: `<original-name>_part<index>`.
//!
//! A name carries an index when it ends in the mark `_part` and one or more
//! decimal digits; what stands before the mark is the original name. A name
//! is taken for a part file when, besides, its original name is not empty.

use vstd::prelude::*;
use crate::decimal::{
    all_digits, decimal_digits, decimal_value, is_digit, is_digit_char,
    lemma_decimal_digits_read_back, parse_u16, push_decimal,
};
use crate::error::FileServiceError;
use crate::file_service::path_name::{
    final_component, final_component_bounds, is_skipped_piece, last_piece, lemma_last_piece_start,
    lemma_last_piece_start_extended,
};
use crate::text::{chars_between, chars_of, string_of};

verus! {

/// The mark that stands between the original name and the index.
pub open spec fn part_mark() -> Seq<char> {
    seq!['_', 'p', 'a', 'r', 't']
}

/// Whether `name` is `k` characters of an original name, the mark, and one
/// or more digits up to its end.
pub open spec fn splits_at(name: Seq<char>, k: int) -> bool {
    &&& 0 <= k
    &&& k + 5 < name.len()
    &&& name.subrange(k, k + 5) =~= part_mark()
    &&& all_digits(name.subrange(k + 5, name.len() as int))
}

/// Whether `name` ends in the mark and digits, whatever stands before them.
pub open spec fn has_part_suffix(name: Seq<char>) -> bool {
    exists|k: int| splits_at(name, k)
}

/// Whether `name` follows the part-naming convention: one or more
/// characters, the mark, and digits.
pub open spec fn is_part_name(name: Seq<char>) -> bool {
    exists|k: int| 0 < k && #[trigger] splits_at(name, k)
}

/// The length of the original name in a name that ends in mark and digits.
pub open spec fn prefix_len(name: Seq<char>) -> int {
    choose|k: int| splits_at(name, k)
}

/// The original name in a name that ends in mark and digits: everything
/// before the mark.
pub open spec fn part_prefix(name: Seq<char>) -> Seq<char> {
    name.subrange(0, prefix_len(name))
}

/// The digits at the end of a name that ends in mark and digits.
pub open spec fn part_digits(name: Seq<char>) -> Seq<char> {
    name.subrange(prefix_len(name) + 5, name.len() as int)
}

/// The index that `name` carries: the number that its digits denote, where
/// the name ends in mark and digits and the number fits the index type.
pub open spec fn part_index(name: Seq<char>) -> Option<u16> {
    if has_part_suffix(name) && decimal_value(part_digits(name)) <= u16::MAX {
        Some(decimal_value(part_digits(name)) as u16)
    } else {
        None
    }
}

/// The final component of `path`, if it ends in mark and digits.
pub open spec fn suffixed_name_of_path(path: Seq<char>) -> Option<Seq<char>> {
    match final_component(path) {
        Some(name) => if has_part_suffix(name) {
            Some(name)
        } else {
            None
        },
        None => None,
    }
}

/// The final component of `path`, if it follows the part-naming convention.
pub open spec fn part_name_of_path(path: Seq<char>) -> Option<Seq<char>> {
    match final_component(path) {
        Some(name) => if is_part_name(name) {
            Some(name)
        } else {
            None
        },
        None => None,
    }
}

/// The name of part `index` of the file at `path`.
pub open spec fn part_file_name(path: Seq<char>, index: nat) -> Seq<char> {
    path + part_mark() + decimal_digits(index)
}

/// A name splits into original name, mark and digits in one way at most.
pub proof fn lemma_split_unique(name: Seq<char>, k1: int, k2: int)
    requires
        splits_at(name, k1),
        splits_at(name, k2),
    ensures
        k1 == k2,
{
    // The `t` of one mark cannot lie among the digits of the other split.
    assert(part_mark()[4] == 't');
    if k1 < k2 {
        let digits = name.subrange(k1 + 5, name.len() as int);
        assert(name.subrange(k2, k2 + 5)[4] == name[k2 + 4]);
        assert(digits[k2 + 4 - (k1 + 5)] == name[k2 + 4]);
        assert(is_digit(digits[k2 + 4 - (k1 + 5)]));
    } else if k2 < k1 {
        let digits = name.subrange(k2 + 5, name.len() as int);
        assert(name.subrange(k1, k1 + 5)[4] == name[k1 + 4]);
        assert(digits[k1 + 4 - (k2 + 5)] == name[k1 + 4]);
        assert(is_digit(digits[k1 + 4 - (k2 + 5)]));
    }
}

/// A split that was found is the split of the name, and the name follows
/// the convention exactly when the split leaves an original name.
pub proof fn lemma_split_found(name: Seq<char>, k: int)
    requires
        splits_at(name, k),
    ensures
        has_part_suffix(name),
        is_part_name(name) <==> k > 0,
        prefix_len(name) == k,
        part_prefix(name) == name.subrange(0, k),
        part_digits(name) == name.subrange(k + 5, name.len() as int),
{
    lemma_split_unique(name, k, prefix_len(name));
    if is_part_name(name) {
        let j = choose|j: int| 0 < j && #[trigger] splits_at(name, j);
        lemma_split_unique(name, k, j);
    }
}

/// A name that follows the convention ends in mark and digits.
pub proof fn lemma_part_name_has_suffix(name: Seq<char>)
    requires
        is_part_name(name),
    ensures
        has_part_suffix(name),
        prefix_len(name) > 0,
{
    let j = choose|j: int| 0 < j && #[trigger] splits_at(name, j);
    lemma_split_found(name, j);
}

/// An original name with the mark and the digits of a number behind it
/// gives back the original name and the number, and it follows the
/// convention where the original name is not empty.
pub proof fn lemma_part_name_built(original: Seq<char>, index: nat)
    ensures
        has_part_suffix(original + part_mark() + decimal_digits(index)),
        original.len() > 0 <==> is_part_name(original + part_mark() + decimal_digits(index)),
        part_prefix(original + part_mark() + decimal_digits(index)) == original,
        part_digits(original + part_mark() + decimal_digits(index)) == decimal_digits(index),
        decimal_value(part_digits(original + part_mark() + decimal_digits(index))) == index,
{
    let name = original + part_mark() + decimal_digits(index);
    let k = original.len() as int;
    lemma_decimal_digits_read_back(index);
    assert(name.subrange(k, k + 5) =~= part_mark());
    assert(name.subrange(k + 5, name.len() as int) =~= decimal_digits(index));
    assert(name.subrange(0, k) =~= original);
    lemma_split_found(name, k);
}

/// The name of a part of a file lies beside the file: its final component
/// is the last piece of the file's path with the mark and the index behind it.
pub proof fn lemma_part_file_name_component(path: Seq<char>, index: nat)
    ensures
        final_component(part_file_name(path, index)) == Some(
            last_piece(path) + part_mark() + decimal_digits(index),
        ),
{
    let tail = part_mark() + decimal_digits(index);
    let whole = part_file_name(path, index);
    lemma_decimal_digits_read_back(index);
    assert(whole =~= path + tail);
    assert forall|i: int| 0 <= i < tail.len() implies tail[i] != '/' by {
        if i >= 5 {
            assert(is_digit(decimal_digits(index)[i - 5]));
        }
    }
    lemma_last_piece_start_extended(path, tail);
    lemma_last_piece_start(path);
    let piece = last_piece(whole);
    assert(piece =~= last_piece(path) + part_mark() + decimal_digits(index));
    assert(piece[last_piece(path).len() as int] == '_');
    assert(piece.len() >= 6);
    assert(seq!['.'].len() == 1);
    assert(seq!['.', '.'].len() == 2);
    assert(!is_skipped_piece(piece));
}

/// Finds how a name splits: the length of what stands before the mark.
pub fn find_split(name: &Vec<char>) -> (r: Option<usize>)
    ensures
        r is Some <==> has_part_suffix(name@),
        r matches Some(k) ==> splits_at(name@, k as int),
{
    let len = name.len();
    // `d` moves to the start of the run of digits that ends the name
    let mut d: usize = len;
    while d > 0 && is_digit_char(name[d - 1])
        invariant
            d <= len == name.len(),
            forall|i: int| d <= i < len ==> is_digit(#[trigger] name@[i]),
        decreases d,
    {
        d -= 1;
    }
    proof {
        // every split has its digits start at `d`
        assert forall|k: int| splits_at(name@, k) implies k + 5 == d by {
            let digits = name@.subrange(k + 5, len as int);
            assert(part_mark()[4] == 't');
            assert(name@.subrange(k, k + 5)[4] == name@[k + 4]);
            if d > k + 5 {
                assert(digits[d - 1 - (k + 5)] == name@[d - 1]);
                assert(is_digit(digits[d - 1 - (k + 5)]));
            }
            if d < k + 5 {
                assert(is_digit(name@[k + 4]));
            }
        }
    }
    if d == len || d < 5 {
        return None;
    }
    let k = d - 5;
    if name[k] == '_' && name[k + 1] == 'p' && name[k + 2] == 'a' && name[k + 3] == 'r' && name[k
        + 4] == 't' {
        proof {
            assert(name@.subrange(k as int, k + 5) =~= part_mark());
            let digits = name@.subrange(k + 5, len as int);
            assert forall|i: int| 0 <= i < digits.len() implies is_digit(#[trigger] digits[i]) by {
                assert(digits[i] == name@[i + d]);
            }
            assert(splits_at(name@, k as int));
        }
        Some(k)
    } else {
        proof {
            assert forall|j: int| splits_at(name@, j) implies false by {
                let mark = name@.subrange(j, j + 5);
                assert(mark[0] == name@[j] && mark[1] == name@[j + 1] && mark[2] == name@[j + 2]
                    && mark[3] == name@[j + 3] && mark[4] == name@[j + 4]);
                assert(part_mark()[0] == '_' && part_mark()[1] == 'p' && part_mark()[2] == 'a'
                    && part_mark()[3] == 'r' && part_mark()[4] == 't');
            }
        }
        None
    }
}

/// Takes the final component of `path` and finds how it splits: the
/// component, and the length of what stands in it before the mark.
pub fn split_of_path(path: &str) -> (r: Option<(Vec<char>, usize)>)
    ensures
        match r {
            Some((name, k)) => suffixed_name_of_path(path@) == Some(name@) && splits_at(
                name@,
                k as int,
            ),
            None => suffixed_name_of_path(path@) is None,
        },
{
    let chars = chars_of(path);
    match final_component_bounds(&chars) {
        Some((start, end)) => {
            let name = chars_between(&chars, start, end);
            match find_split(&name) {
                Some(k) => Some((name, k)),
                None => None,
            }
        },
        None => None,
    }
}

/// Tells whether the final component of `path` follows the part-naming
/// convention: one or more characters, `_part`, and one or more digits. A
/// path without a final component does not.
pub fn file_is_merge(path: &str) -> (r: bool)
    ensures
        r == part_name_of_path(path@) is Some,
{
    match split_of_path(path) {
        Some((name, k)) => {
            proof {
                lemma_split_found(name@, k as int);
            }
            k > 0
        },
        None => {
            proof {
                if part_name_of_path(path@) is Some {
                    lemma_part_name_has_suffix(part_name_of_path(path@)->0);
                }
            }
            false
        },
    }
}

/// The original name that the part file at `path` belongs to: its final
/// component without the mark and the index. It is empty where the final
/// component begins with the mark.
///
/// Fails with `InvalidFormat` exactly when the final component is missing or
/// does not end in `_part` and one or more digits.
pub fn get_file_original_name(path: &str) -> (r: Result<String, FileServiceError>)
    ensures
        match r {
            Ok(original) => suffixed_name_of_path(path@) matches Some(name) && original@
                == part_prefix(name),
            Err(e) => e == FileServiceError::InvalidFormat && suffixed_name_of_path(path@)
                is None,
        },
{
    match split_of_path(path) {
        Some((name, k)) => {
            proof {
                lemma_split_found(name@, k as int);
            }
            Ok(string_of(&name, 0, k))
        },
        None => Err(FileServiceError::InvalidFormat),
    }
}

/// The index that the part file at `path` carries. Leading zeros are read.
///
/// Fails with `InvalidFormat` exactly when the final component is missing,
/// does not end in `_part` and one or more digits, or carries a number above
/// `u16::MAX`.
pub fn get_file_original_index(path: &str) -> (r: Result<u16, FileServiceError>)
    ensures
        match r {
            Ok(index) => suffixed_name_of_path(path@) matches Some(name) && part_index(name)
                == Some(index),
            Err(e) => e == FileServiceError::InvalidFormat && !(suffixed_name_of_path(path@)
                matches Some(name) && part_index(name) is Some),
        },
{
    match split_of_path(path) {
        Some((name, k)) => {
            proof {
                lemma_split_found(name@, k as int);
            }
            let digits = chars_between(&name, k + 5, name.len());
            match parse_u16(&digits) {
                Some(index) => Ok(index),
                None => Err(FileServiceError::InvalidFormat),
            }
        },
        None => Err(FileServiceError::InvalidFormat),
    }
}

/// Writes the name of part `index` of the file at `path`.
pub fn make_part_file_name(path: &str, index: u64) -> (name: String)
    ensures
        name@ == part_file_name(path@, index as nat),
{
    let mut name = path.to_owned();
    name.push('_');
    name.push('p');
    name.push('a');
    name.push('r');
    name.push('t');
    assert(name@ =~= path@ + part_mark());
    push_decimal(&mut name, index);
    name
}

} // verus!
