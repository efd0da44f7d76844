//! Merging part files: which entries of a directory are parts, in what order
//! they are taken, and the bytes that come out.
//!
//! The entries are keyed by the index in their name alone. Of several
//! entries with one index the first in the order of the scan is taken and the
//! others are dropped; the entries taken are put together by ascending index.

use std::collections::BTreeMap;
use vstd::prelude::*;
use crate::error::FileServiceError;
use crate::file_service::model::{DirEntry, DirEntryView, PathTarget, ScanEntry, entries_view};
use crate::file_service::ordered::in_key_order;
use crate::file_service::part_name::{
    file_is_merge, get_file_original_index, lemma_part_name_has_suffix, part_index,
    part_name_of_path,
};

verus! {

/// The number of values of the index type.
pub const INDEX_LIMIT: usize = 65536;

/// Whether an entry is taken for a part: it is no directory and its final
/// component follows the part-naming convention.
pub open spec fn is_candidate(path: Seq<char>, is_dir: bool) -> bool {
    !is_dir && part_name_of_path(path) is Some
}

/// The index under which an entry is merged, if it is a part.
pub open spec fn entry_key(path: Seq<char>, is_dir: bool) -> Option<u16> {
    if is_candidate(path, is_dir) {
        part_index(part_name_of_path(path)->0)
    } else {
        None
    }
}

/// Whether an entry is named as a part but carries a number too large for
/// the index type.
pub open spec fn has_unreadable_index(path: Seq<char>, is_dir: bool) -> bool {
    is_candidate(path, is_dir) && part_index(part_name_of_path(path)->0) is None
}

/// The keys of the entries of a directory, in the order of the scan.
pub open spec fn entry_keys(entries: Seq<DirEntryView>) -> Seq<Option<u16>> {
    Seq::new(entries.len(), |i: int| entry_key(entries[i].path, entries[i].is_dir))
}

/// Whether some entry is named as a part with a number that does not fit.
pub open spec fn some_unreadable_index(entries: Seq<DirEntryView>) -> bool {
    exists|i: int|
        0 <= i < entries.len() && has_unreadable_index(
            (#[trigger] entries[i]).path,
            entries[i].is_dir,
        )
}

/// Whether a key is the index `idx`.
pub open spec fn holds_index(key: Option<u16>, idx: int) -> bool {
    key matches Some(k) && k == idx
}

/// The first position in `keys` that holds the index `idx`.
pub open spec fn first_position(keys: Seq<Option<u16>>, idx: int) -> Option<int>
    decreases keys.len(),
{
    if keys.len() == 0 {
        None
    } else {
        match first_position(keys.drop_last(), idx) {
            Some(p) => Some(p),
            None => if holds_index(keys.last(), idx) {
                Some(keys.len() - 1)
            } else {
                None
            },
        }
    }
}

/// The positions taken for the indices below `n`, by ascending index.
pub open spec fn order_below(keys: Seq<Option<u16>>, n: nat) -> Seq<int>
    decreases n,
{
    if n == 0 {
        Seq::empty()
    } else {
        let before = order_below(keys, (n - 1) as nat);
        match first_position(keys, n - 1) {
            Some(p) => before.push(p),
            None => before,
        }
    }
}

/// The positions of the entries that are merged, in the order of merging.
pub open spec fn merge_order(keys: Seq<Option<u16>>) -> Seq<int> {
    order_below(keys, INDEX_LIMIT as nat)
}

/// The bytes of the entry that is taken for the index `idx`, if there is one.
pub open spec fn content_at(entries: Seq<DirEntryView>, idx: int) -> Option<Seq<u8>> {
    match first_position(entry_keys(entries), idx) {
        Some(p) => Some(entries[p].content),
        None => None,
    }
}

/// The bytes of the entries taken for the indices below `n`, one after
/// another by ascending index.
pub open spec fn merged_below(entries: Seq<DirEntryView>, n: nat) -> Seq<u8>
    decreases n,
{
    if n == 0 {
        Seq::empty()
    } else {
        let before = merged_below(entries, (n - 1) as nat);
        match content_at(entries, n - 1) {
            Some(bytes) => before + bytes,
            None => before,
        }
    }
}

/// The bytes that merging the entries of a directory gives.
pub open spec fn merged_bytes(entries: Seq<DirEntryView>) -> Seq<u8> {
    merged_below(entries, INDEX_LIMIT as nat)
}

/// The positions held in a vector, as mathematical integers.
pub open spec fn as_positions(order: Seq<usize>) -> Seq<int> {
    Seq::new(order.len(), |i: int| order[i] as int)
}

/// The first position of an index is a position that holds it, and no
/// position before it does; there is none exactly when no position holds it.
pub proof fn lemma_first_position(keys: Seq<Option<u16>>, idx: int)
    ensures
        match first_position(keys, idx) {
            Some(p) => 0 <= p < keys.len() && holds_index(keys[p], idx) && forall|q: int|
                0 <= q < p ==> !holds_index(#[trigger] keys[q], idx),
            None => forall|q: int| 0 <= q < keys.len() ==> !holds_index(#[trigger] keys[q], idx),
        },
    decreases keys.len(),
{
    if keys.len() > 0 {
        let shorter = keys.drop_last();
        lemma_first_position(shorter, idx);
        assert forall|q: int| 0 <= q < shorter.len() implies shorter[q] == keys[q] by {}
    }
}

/// Every position in the order of merging is a position of `keys`.
pub proof fn lemma_order_in_bounds(keys: Seq<Option<u16>>, n: nat)
    ensures
        forall|i: int|
            0 <= i < order_below(keys, n).len() ==> 0 <= #[trigger] order_below(keys, n)[i]
                < keys.len(),
    decreases n,
{
    if n > 0 {
        let before = order_below(keys, (n - 1) as nat);
        let order = order_below(keys, n);
        lemma_order_in_bounds(keys, (n - 1) as nat);
        lemma_first_position(keys, n - 1);
        assert forall|i: int| 0 <= i < order.len() implies 0 <= #[trigger] order[i] < keys.len() by {
            if i < before.len() {
                assert(order[i] == before[i]);
            }
        }
    }
}

/// The key of one scanned entry.
///
/// Fails with `InvalidFormat` exactly when the entry is named as a part but
/// its number does not fit the index type.
pub fn scan_key(path: &str, is_dir: bool) -> (r: Result<Option<u16>, FileServiceError>)
    ensures
        match r {
            Ok(key) => !has_unreadable_index(path@, is_dir) && key == entry_key(path@, is_dir),
            Err(e) => e == FileServiceError::InvalidFormat && has_unreadable_index(path@, is_dir),
        },
{
    if is_dir || !file_is_merge(path) {
        return Ok(None);
    }
    proof {
        lemma_part_name_has_suffix(part_name_of_path(path@)->0);
    }
    match get_file_original_index(path) {
        Ok(index) => Ok(Some(index)),
        Err(e) => Err(e),
    }
}

/// Whether `map` holds, for each index that occurs in `keys`, the first
/// position that holds it, and nothing else.
pub open spec fn holds_first_positions(map: Map<u16, usize>, keys: Seq<Option<u16>>) -> bool {
    forall|j: int|
        0 <= j < INDEX_LIMIT ==> match #[trigger] first_position(keys, j) {
            Some(q) => map.contains_key(j as u16) && map[j as u16] == q,
            None => !map.contains_key(j as u16),
        }
}

/// Where no index from `from` up to `to` occurs, nothing is taken for them.
pub proof fn lemma_order_skips_gap(keys: Seq<Option<u16>>, from: nat, to: nat)
    requires
        from <= to,
        forall|idx: int| from <= idx < to ==> first_position(keys, idx) is None,
    ensures
        order_below(keys, to) == order_below(keys, from),
    decreases to,
{
    if from < to {
        lemma_order_skips_gap(keys, from, (to - 1) as nat);
    }
}

/// Groups the positions of `keys` by the index that they hold: of the
/// positions with one index the first is kept.
pub fn first_positions(keys: &Vec<Option<u16>>) -> (taken: BTreeMap<u16, usize>)
    ensures
        holds_first_positions(taken@, keys@),
{
    let mut taken: BTreeMap<u16, usize> = BTreeMap::new();
    let mut p: usize = 0;
    assert(keys@.take(0).len() == 0);
    while p < keys.len()
        invariant
            p <= keys.len(),
            holds_first_positions(taken@, keys@.take(p as int)),
        decreases keys.len() - p,
    {
        let ghost seen = keys@.take(p as int);
        let ghost next = keys@.take(p + 1);
        let ghost before = taken@;
        proof {
            assert(next.drop_last() =~= seen);
            assert(next.last() == keys@[p as int]);
        }
        match keys[p] {
            Some(idx) => {
                if !taken.contains_key(&idx) {
                    taken.insert(idx, p);
                }
            },
            None => {},
        }
        proof {
            assert forall|j: int| 0 <= j < INDEX_LIMIT implies match #[trigger] first_position(
                next,
                j,
            ) {
                Some(q) => taken@.contains_key(j as u16) && taken@[j as u16] == q,
                None => !taken@.contains_key(j as u16),
            } by {
                let earlier = first_position(seen, j);
                assert(earlier is Some <==> before.contains_key(j as u16));
            }
        }
        p += 1;
    }
    assert(keys@.take(p as int) =~= keys@);
    taken
}

/// Puts the positions of `keys` in the order of merging: for each index
/// that occurs, its first position, by ascending index.
pub fn first_seen_order(keys: &Vec<Option<u16>>) -> (order: Vec<usize>)
    ensures
        as_positions(order@) == merge_order(keys@),
{
    let taken = first_positions(keys);
    let pairs = in_key_order(&taken);
    let mut order: Vec<usize> = Vec::new();
    let mut i: usize = 0;
    // every index below `bound` has been dealt with
    let ghost mut bound: int = 0;
    while i < pairs.len()
        invariant
            i <= pairs.len(),
            holds_first_positions(taken@, keys@),
            forall|n: int|
                0 <= n < pairs@.len() ==> taken@.contains_key((#[trigger] pairs@[n]).0)
                    && taken@[pairs@[n].0] == pairs@[n].1,
            forall|key: u16| #[trigger]
                taken@.contains_key(key) ==> exists|n: int|
                    0 <= n < pairs@.len() && (#[trigger] pairs@[n]).0 == key,
            forall|m: int, n: int|
                0 <= m < n < pairs@.len() ==> (#[trigger] pairs@[m]).0 < (#[trigger] pairs@[n]).0,
            bound == if i == 0 {
                0
            } else {
                pairs@[i - 1].0 + 1
            },
            as_positions(order@) =~= order_below(keys@, bound as nat),
        decreases pairs.len() - i,
    {
        let index = pairs[i].0;
        let position = pairs[i].1;
        proof {
            assert forall|idx: int| bound <= idx < index implies first_position(keys@, idx)
                is None by {
                if first_position(keys@, idx) is Some {
                    let key = idx as u16;
                    assert(taken@.contains_key(key));
                    let n = choose|n: int| 0 <= n < pairs@.len() && (#[trigger] pairs@[n]).0 == key;
                    if n < i {
                        assert(pairs@[n].0 <= pairs@[i - 1].0);
                    } else if n > i {
                        assert(pairs@[i as int].0 < pairs@[n].0);
                    }
                }
            }
            lemma_order_skips_gap(keys@, bound as nat, index as nat);
            let first = first_position(keys@, index as int);
            assert(first == Some(position as int));
        }
        order.push(position);
        proof {
            bound = index + 1;
        }
        i += 1;
    }
    proof {
        assert forall|idx: int| bound <= idx < INDEX_LIMIT implies first_position(keys@, idx)
            is None by {
            if first_position(keys@, idx) is Some {
                let key = idx as u16;
                assert(taken@.contains_key(key));
                let n = choose|n: int| 0 <= n < pairs@.len() && (#[trigger] pairs@[n]).0 == key;
                assert(pairs@[n].0 <= pairs@[i - 1].0);
            }
        }
        lemma_order_skips_gap(keys@, bound as nat, INDEX_LIMIT as nat);
    }
    order
}

/// The keys of what a scan reports, in the order of the scan.
pub open spec fn scan_keys(scan: Seq<ScanEntry>) -> Seq<Option<u16>> {
    Seq::new(scan.len(), |i: int| entry_key(scan[i].path@, scan[i].is_dir))
}

/// Whether some scanned entry is named as a part with a number that does
/// not fit.
pub open spec fn scan_has_unreadable_index(scan: Seq<ScanEntry>) -> bool {
    exists|i: int|
        0 <= i < scan.len() && has_unreadable_index((#[trigger] scan[i]).path@, scan[i].is_dir)
}

/// The bytes of the entries at the positions `order`, one after another.
pub open spec fn joined(entries: Seq<DirEntryView>, order: Seq<int>) -> Seq<u8>
    decreases order.len(),
{
    if order.len() == 0 {
        Seq::empty()
    } else {
        joined(entries, order.drop_last()) + entries[order.last()].content
    }
}

/// Joining the entries in the order of merging gives the merged bytes.
pub proof fn lemma_joined_in_order(entries: Seq<DirEntryView>, n: nat)
    ensures
        joined(entries, order_below(entry_keys(entries), n)) == merged_below(entries, n),
    decreases n,
{
    if n > 0 {
        let keys = entry_keys(entries);
        let before = order_below(keys, (n - 1) as nat);
        lemma_joined_in_order(entries, (n - 1) as nat);
        match first_position(keys, n - 1) {
            Some(p) => {
                assert(before.push(p).drop_last() =~= before);
            },
            None => {},
        }
    }
}

/// Plans a merge from what a scan of the directory reports: the positions
/// of the entries to read, in the order in which their bytes are appended.
///
/// Directories and entries whose names do not follow the convention are
/// passed over. Fails with `InvalidFormat` exactly when an entry is named as
/// a part with a number that does not fit the index type.
pub fn merge_plan(scan: &Vec<ScanEntry>) -> (r: Result<Vec<usize>, FileServiceError>)
    ensures
        match r {
            Ok(order) => {
                &&& !scan_has_unreadable_index(scan@)
                &&& as_positions(order@) == merge_order(scan_keys(scan@))
                &&& forall|i: int| 0 <= i < order@.len() ==> #[trigger] order@[i] < scan@.len()
            },
            Err(e) => e == FileServiceError::InvalidFormat && scan_has_unreadable_index(scan@),
        },
{
    let mut keys: Vec<Option<u16>> = Vec::new();
    let mut i: usize = 0;
    while i < scan.len()
        invariant
            i <= scan.len(),
            keys@ =~= scan_keys(scan@).take(i as int),
            forall|j: int|
                0 <= j < i ==> !has_unreadable_index((#[trigger] scan@[j]).path@, scan@[j].is_dir),
        decreases scan.len() - i,
    {
        match scan_key(scan[i].path.as_str(), scan[i].is_dir) {
            Ok(key) => {
                keys.push(key);
            },
            Err(e) => {
                return Err(e);
            },
        }
        i += 1;
    }
    assert(keys@ =~= scan_keys(scan@));
    let order = first_seen_order(&keys);
    proof {
        lemma_order_in_bounds(keys@, INDEX_LIMIT as nat);
        assert forall|i: int| 0 <= i < order@.len() implies #[trigger] order@[i] < scan@.len() by {
            assert(as_positions(order@)[i] == order@[i]);
        }
    }
    Ok(order)
}

/// What a scan reports of the entries of a directory: their paths and
/// whether they are directories, without their bytes.
pub fn scan_of(entries: &Vec<DirEntry>) -> (scan: Vec<ScanEntry>)
    ensures
        scan@.len() == entries@.len(),
        forall|i: int|
            0 <= i < scan@.len() ==> (#[trigger] scan@[i]).path@ == entries@[i].path@
                && scan@[i].is_dir == entries@[i].is_dir,
{
    let mut scan: Vec<ScanEntry> = Vec::new();
    let mut i: usize = 0;
    while i < entries.len()
        invariant
            i <= entries.len(),
            scan@.len() == i,
            forall|j: int|
                0 <= j < i ==> (#[trigger] scan@[j]).path@ == entries@[j].path@ && scan@[j].is_dir
                    == entries@[j].is_dir,
        decreases entries.len() - i,
    {
        scan.push(ScanEntry { path: entries[i].path.clone(), is_dir: entries[i].is_dir });
        i += 1;
    }
    scan
}

/// Merges the part files of a directory into `output`: appends to it the
/// bytes of the entries that are parts, by ascending index, and leaves what
/// `output` held before in front of them.
///
/// Subdirectories and entries whose names do not follow the convention are
/// passed over. Fails with `NotADirectory` exactly when the path does not
/// name a directory, and otherwise with `InvalidFormat` exactly when an
/// entry is named as a part with a number that does not fit the index type;
/// a failed merge leaves `output` as it was.
pub fn file_merge(target: &PathTarget, output: &mut Vec<u8>) -> (r: Result<(), FileServiceError>)
    ensures
        match r {
            Ok(_) => {
                &&& target matches PathTarget::Directory(entries)
                &&& !some_unreadable_index(entries_view(entries@))
                &&& final(output)@ == old(output)@ + merged_bytes(entries_view(entries@))
            },
            Err(e) => {
                &&& final(output)@ == old(output)@
                &&& match e {
                    FileServiceError::NotADirectory => !(target is Directory),
                    FileServiceError::InvalidFormat => target matches PathTarget::Directory(entries)
                        && some_unreadable_index(entries_view(entries@)),
                    FileServiceError::NotAFile => false,
                }
            },
        },
{
    match target {
        PathTarget::Directory(entries) => {
            let ghost views = entries_view(entries@);
            let scan = scan_of(entries);
            assert(scan_keys(scan@) =~= entry_keys(views));
            let order = match merge_plan(&scan) {
                Ok(order) => order,
                Err(e) => {
                    proof {
                        let i = choose|i: int|
                            0 <= i < scan@.len() && has_unreadable_index(
                                (#[trigger] scan@[i]).path@,
                                scan@[i].is_dir,
                            );
                        assert(has_unreadable_index(views[i].path, views[i].is_dir));
                    }
                    return Err(e);
                },
            };
            proof {
                assert forall|i: int| 0 <= i < views.len() implies !has_unreadable_index(
                    (#[trigger] views[i]).path,
                    views[i].is_dir,
                ) by {
                    assert(scan@[i].path@ == views[i].path);
                }
                lemma_joined_in_order(views, INDEX_LIMIT as nat);
            }
            let ghost positions = as_positions(order@);
            let mut j: usize = 0;
            assert(positions.take(0) =~= Seq::<int>::empty());
            while j < order.len()
                invariant
                    j <= order.len(),
                    views == entries_view(entries@),
                    positions == as_positions(order@),
                    forall|k: int| 0 <= k < order@.len() ==> #[trigger] order@[k] < entries@.len(),
                    output@ == old(output)@ + joined(views, positions.take(j as int)),
                decreases order.len() - j,
            {
                let at = order[j];
                assert(positions[j as int] == at);
                let ghost before = output@;
                output.extend_from_slice(entries[at].content.as_slice());
                proof {
                    let taken = positions.take(j + 1);
                    assert(taken.drop_last() =~= positions.take(j as int));
                    assert(taken.last() == at);
                    assert(output@ =~= before + views[at as int].content);
                    assert(output@ =~= old(output)@ + joined(views, taken));
                }
                j += 1;
            }
            assert(positions.take(j as int) =~= positions);
            Ok(())
        },
        _ => Err(FileServiceError::NotADirectory),
    }
}

} // verus!
