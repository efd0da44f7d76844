//! What holds of splitting and merging together.

use vstd::prelude::*;
use crate::decimal::decimal_digits;
use crate::file_service::merge::{
    INDEX_LIMIT, content_at, entry_key, entry_keys, first_position, has_unreadable_index,
    holds_index, is_candidate, lemma_first_position, merged_below, merged_bytes,
    some_unreadable_index,
};
use crate::file_service::model::{DirEntryView, PartFileView};
use crate::file_service::part_name::{
    lemma_part_file_name_component, lemma_part_name_built, part_file_name, part_index, part_mark,
    part_name_of_path,
};
use crate::file_service::path_name::{final_component, last_piece};
use crate::file_service::split::{block_of, part_count, split_parts};

verus! {

/// Whether the directory holds, under the index `idx`, a part with the
/// bytes `bytes`.
pub open spec fn holds_part(entries: Seq<DirEntryView>, idx: int, bytes: Seq<u8>) -> bool {
    exists|k: int|
        0 <= k < entries.len() && holds_index(#[trigger] entry_keys(entries)[k], idx)
            && entries[k].content == bytes
}

/// Whether no index stands in the directory for two different contents.
pub open spec fn indices_unambiguous(entries: Seq<DirEntryView>) -> bool {
    forall|idx: int, x: Seq<u8>, y: Seq<u8>|
        #![trigger holds_part(entries, idx, x), holds_part(entries, idx, y)]
        holds_part(entries, idx, x) && holds_part(entries, idx, y) ==> x == y
}

/// Whether two directories hold the same parts.
pub open spec fn same_parts(a: Seq<DirEntryView>, b: Seq<DirEntryView>) -> bool {
    forall|idx: int, x: Seq<u8>|
        #![trigger holds_part(a, idx, x)]
        #![trigger holds_part(b, idx, x)]
        holds_part(a, idx, x) <==> holds_part(b, idx, x)
}

/// A part file as a scan of its directory reports it.
pub open spec fn part_entry(part: PartFileView) -> DirEntryView {
    DirEntryView { path: part.name, is_dir: false, content: part.content }
}

/// The part files of a split as the entries of a directory, in the order of
/// the blocks.
pub open spec fn part_entries(parts: Seq<PartFileView>) -> Seq<DirEntryView> {
    Seq::new(parts.len(), |i: int| part_entry(parts[i]))
}

/// Whether a directory entry is the given part file: a file with the same
/// final component in its path, whatever directory the path goes through, and
/// with the same bytes.
pub open spec fn is_part_file(entry: DirEntryView, part: PartFileView) -> bool {
    &&& !entry.is_dir
    &&& final_component(entry.path) == final_component(part.name)
    &&& entry.content == part.content
}

/// Whether the directory holds the given part file.
pub open spec fn has_file_of(entries: Seq<DirEntryView>, part: PartFileView) -> bool {
    exists|k: int| 0 <= k < entries.len() && is_part_file(#[trigger] entries[k], part)
}

/// Whether the entry is one of the given part files.
pub open spec fn is_one_of(entry: DirEntryView, parts: Seq<PartFileView>) -> bool {
    exists|i: int| 0 <= i < parts.len() && is_part_file(entry, #[trigger] parts[i])
}

/// Whether a directory holds every one of the given part files, and no
/// other file that is named as a part. It may hold them in any order, and
/// subdirectories and files with other names beside them.
pub open spec fn holds_exactly_the_parts(
    entries: Seq<DirEntryView>,
    parts: Seq<PartFileView>,
) -> bool {
    &&& forall|i: int| 0 <= i < parts.len() ==> has_file_of(entries, #[trigger] parts[i])
    &&& forall|k: int|
        0 <= k < entries.len() && is_candidate((#[trigger] entries[k]).path, entries[k].is_dir)
            ==> is_one_of(entries[k], parts)
}

/// The number of parts is the size divided by the block size, rounded up:
/// the parts cover the content, one part fewer would not, and there is no
/// part exactly when there is no content.
pub proof fn lemma_part_count_rounds_up(len: nat, block: nat)
    requires
        block > 0,
    ensures
        part_count(len, block) * block >= len,
        len > 0 ==> (part_count(len, block) - 1) * block < len,
        part_count(len, block) == 0 <==> len == 0,
{
    let t = (len + block - 1) as int;
    let b = block as int;
    let q = t / b;
    assert(q * b <= t && t < q * b + b) by (nonlinear_arith)
        requires
            q == t / b,
            b > 0,
            t >= 0,
    ;
    assert((q - 1) * b == q * b - b) by (nonlinear_arith);
    assert(q >= 0) by (nonlinear_arith)
        requires
            t < q * b + b,
            t >= 0,
            b > 0,
    ;
    if q == 0 {
        assert(q * b == 0);
    }
    if len == 0 {
        assert(q == 0) by (nonlinear_arith)
            requires
                q * b <= t,
                t < b,
                q >= 0,
                b > 0,
        ;
    }
}

/// A split gives as many parts as the size divided by the block size,
/// rounded up.
pub proof fn lemma_split_gives_rounded_up_count(path: Seq<char>, content: Seq<u8>, block: nat)
    requires
        block > 0,
    ensures
        split_parts(path, content, block).len() == part_count(content.len(), block),
        split_parts(path, content, block).len() * block >= content.len(),
        content.len() > 0 ==> (split_parts(path, content, block).len() - 1) * block
            < content.len(),
        split_parts(path, content, block).len() == 0 <==> content.len() == 0,
{
    lemma_part_count_rounds_up(content.len(), block);
}

/// Directories that give the same bytes for every index merge to the same
/// bytes.
proof fn lemma_merged_below_same(a: Seq<DirEntryView>, b: Seq<DirEntryView>, n: nat)
    requires
        forall|idx: int| content_at(a, idx) == content_at(b, idx),
    ensures
        merged_below(a, n) == merged_below(b, n),
    decreases n,
{
    if n > 0 {
        lemma_merged_below_same(a, b, (n - 1) as nat);
    }
}

/// Directories with the same parts give the same bytes for an index.
proof fn lemma_content_at_same(a: Seq<DirEntryView>, b: Seq<DirEntryView>, idx: int)
    requires
        indices_unambiguous(a),
        same_parts(a, b),
    ensures
        content_at(a, idx) == content_at(b, idx),
{
    let keys_a = entry_keys(a);
    let keys_b = entry_keys(b);
    lemma_first_position(keys_a, idx);
    lemma_first_position(keys_b, idx);
    match first_position(keys_a, idx) {
        Some(p) => {
            assert(holds_index(keys_a[p], idx));
            assert(holds_part(a, idx, a[p].content));
            assert(holds_part(b, idx, a[p].content));
            match first_position(keys_b, idx) {
                Some(q) => {
                    assert(holds_index(keys_b[q], idx));
                    assert(holds_part(b, idx, b[q].content));
                    assert(holds_part(a, idx, b[q].content));
                },
                None => {
                    let k = choose|k: int|
                        0 <= k < b.len() && holds_index(#[trigger] entry_keys(b)[k], idx)
                            && b[k].content == a[p].content;
                    assert(!holds_index(keys_b[k], idx));
                },
            }
        },
        None => {
            match first_position(keys_b, idx) {
                Some(q) => {
                    assert(holds_index(keys_b[q], idx));
                    assert(holds_part(b, idx, b[q].content));
                    assert(holds_part(a, idx, b[q].content));
                    let k = choose|k: int|
                        0 <= k < a.len() && holds_index(#[trigger] entry_keys(a)[k], idx)
                            && a[k].content == b[q].content;
                    assert(!holds_index(keys_a[k], idx));
                },
                None => {},
            }
        },
    }
}

/// A merge goes by the indices and not by the order of the scan, and it
/// passes over what is no part: two directories that hold the same parts,
/// none of them under an index that stands for two contents, merge to the
/// same bytes, in whatever order a scan reports their entries and whatever
/// subdirectories and other files lie beside the parts.
pub proof fn lemma_merge_depends_on_parts_only(a: Seq<DirEntryView>, b: Seq<DirEntryView>)
    requires
        indices_unambiguous(a),
        same_parts(a, b),
    ensures
        merged_bytes(a) == merged_bytes(b),
{
    assert forall|idx: int| content_at(a, idx) == content_at(b, idx) by {
        lemma_content_at_same(a, b, idx);
    }
    lemma_merged_below_same(a, b, INDEX_LIMIT as nat);
}

/// A merge passes over what is no part, and without a failure: an entry
/// that is a directory, or whose name does not follow the convention, may
/// stand anywhere in the scan of a directory, and the merge gives what it
/// gives without that entry.
pub proof fn lemma_merge_passes_over_what_is_no_part(
    before: Seq<DirEntryView>,
    extra: DirEntryView,
    after: Seq<DirEntryView>,
)
    requires
        !is_candidate(extra.path, extra.is_dir),
    ensures
        !has_unreadable_index(extra.path, extra.is_dir),
        some_unreadable_index(before + seq![extra] + after) == some_unreadable_index(
            before + after,
        ),
        merged_bytes(before + seq![extra] + after) == merged_bytes(before + after),
{
    let a = before + after;
    let b = before + seq![extra] + after;
    let n = before.len() as int;
    let keys_a = entry_keys(a);
    let keys_b = entry_keys(b);
    assert(b[n] == extra);
    assert(keys_b[n] is None);
    assert forall|i: int| 0 <= i < a.len() implies a[i] == b[if i < n {
        i
    } else {
        i + 1
    }] by {}
    assert forall|i: int| 0 <= i < a.len() implies #[trigger] keys_a[i] == keys_b[if i < n {
        i
    } else {
        i + 1
    }] by {}
    if some_unreadable_index(a) {
        let i = choose|i: int|
            0 <= i < a.len() && has_unreadable_index((#[trigger] a[i]).path, a[i].is_dir);
        let j = if i < n {
            i
        } else {
            i + 1
        };
        assert(has_unreadable_index(b[j].path, b[j].is_dir));
    }
    if some_unreadable_index(b) {
        let j = choose|j: int|
            0 <= j < b.len() && has_unreadable_index((#[trigger] b[j]).path, b[j].is_dir);
        let i = if j < n {
            j
        } else {
            j - 1
        };
        assert(a[i] == b[j]);
        assert(has_unreadable_index(a[i].path, a[i].is_dir));
    }
    assert forall|idx: int| content_at(a, idx) == content_at(b, idx) by {
        lemma_first_position(keys_a, idx);
        lemma_first_position(keys_b, idx);
        match first_position(keys_b, idx) {
            Some(q) => {
                let q0 = if q < n {
                    q
                } else {
                    q - 1
                };
                assert(holds_index(keys_a[q0], idx));
                match first_position(keys_a, idx) {
                    Some(p) => {
                        let p1 = if p < n {
                            p
                        } else {
                            p + 1
                        };
                        assert(holds_index(keys_b[p1], idx));
                        assert(p == q0);
                    },
                    None => {},
                }
            },
            None => {
                match first_position(keys_a, idx) {
                    Some(p) => {
                        let p1 = if p < n {
                            p
                        } else {
                            p + 1
                        };
                        assert(holds_index(keys_b[p1], idx));
                    },
                    None => {},
                }
            },
        }
    }
    lemma_merged_below_same(a, b, INDEX_LIMIT as nat);
}

/// Merging twice into one output appends the merged bytes twice: the second
/// merge leaves what the first one wrote in place.
pub proof fn lemma_merge_twice_appends_twice(before: Seq<u8>, entries: Seq<DirEntryView>)
    ensures
        (before + merged_bytes(entries)) + merged_bytes(entries) == before + (merged_bytes(entries)
            + merged_bytes(entries)),
        (before + merged_bytes(entries)).subrange(0, before.len() as int) == before,
{
    let m = merged_bytes(entries);
    assert((before + m) + m =~= before + (m + m));
    assert((before + m).subrange(0, before.len() as int) =~= before);
}

/// The key of a part file of a split is its index: one more than the number
/// of its block.
proof fn lemma_key_of_part(path: Seq<char>, content: Seq<u8>, block: nat, i: int)
    requires
        last_piece(path).len() > 0,
        0 <= i < part_count(content.len(), block),
        part_count(content.len(), block) < INDEX_LIMIT,
    ensures
        holds_index(
            entry_key(part_entry(split_parts(path, content, block)[i]).path, false),
            i + 1,
        ),
        !has_unreadable_index(part_entry(split_parts(path, content, block)[i]).path, false),
        is_candidate(part_entry(split_parts(path, content, block)[i]).path, false),
{
    let index = (i + 1) as nat;
    let name = part_file_name(path, index);
    assert(split_parts(path, content, block)[i].name == name);
    lemma_part_file_name_component(path, index);
    lemma_part_name_built(last_piece(path), index);
    let component = last_piece(path) + part_mark() + decimal_digits(index);
    assert(part_name_of_path(name) == Some(component));
    assert(part_index(component) == Some(index as u16));
}

/// The parts of a split, merged in the order of the blocks up to block `c`,
/// give the content up to the end of that block.
proof fn lemma_parts_merge_to_prefix(path: Seq<char>, content: Seq<u8>, block: nat, c: int)
    requires
        block > 0,
        last_piece(path).len() > 0,
        part_count(content.len(), block) < INDEX_LIMIT,
        0 <= c <= part_count(content.len(), block),
    ensures
        merged_below(part_entries(split_parts(path, content, block)), (c + 1) as nat)
            == content.subrange(
            0,
            if c * block <= content.len() {
                c * block
            } else {
                content.len() as int
            },
        ),
    decreases c,
{
    let parts = split_parts(path, content, block);
    let entries = part_entries(parts);
    let keys = entry_keys(entries);
    let n = part_count(content.len(), block) as int;
    lemma_first_position(keys, c);
    assert forall|k: int| 0 <= k < n implies holds_index(#[trigger] keys[k], k + 1) by {
        lemma_key_of_part(path, content, block, k);
    }
    if c == 0 {
        assert(content_at(entries, 0) is None);
        assert(merged_below(entries, 0) =~= Seq::<u8>::empty());
        assert(merged_below(entries, 1) =~= content.subrange(0, 0));
    } else {
        lemma_parts_merge_to_prefix(path, content, block, c - 1);
        lemma_part_count_rounds_up(content.len(), block);
        let b = block as int;
        assert((c - 1) * b < content.len() && (c - 1) * b >= 0 && c * b == (c - 1) * b + b)
            by (nonlinear_arith)
            requires
                1 <= c <= n,
                (n - 1) * b < content.len(),
                b > 0,
        ;
        assert(holds_index(keys[c - 1], c));
        assert(first_position(keys, c) == Some(c - 1));
        assert(content_at(entries, c) == Some(block_of(content, block, c - 1)));
        let end = if c * b <= content.len() {
            c * b
        } else {
            content.len() as int
        };
        assert(content.subrange(0, (c - 1) * b) + block_of(content, block, c - 1)
            =~= content.subrange(0, end));
    }
}

/// Past the last part nothing more is merged.
proof fn lemma_parts_merge_to_content(path: Seq<char>, content: Seq<u8>, block: nat, m: nat)
    requires
        block > 0,
        last_piece(path).len() > 0,
        part_count(content.len(), block) < INDEX_LIMIT,
        part_count(content.len(), block) < m,
    ensures
        merged_below(part_entries(split_parts(path, content, block)), m) == content,
    decreases m,
{
    let parts = split_parts(path, content, block);
    let entries = part_entries(parts);
    let keys = entry_keys(entries);
    let n = part_count(content.len(), block);
    if m == n + 1 {
        lemma_parts_merge_to_prefix(path, content, block, n as int);
        lemma_part_count_rounds_up(content.len(), block);
        assert(content.subrange(0, content.len() as int) =~= content);
    } else {
        lemma_parts_merge_to_content(path, content, block, (m - 1) as nat);
        lemma_first_position(keys, m - 1);
        assert forall|k: int| 0 <= k < n implies holds_index(#[trigger] keys[k], k + 1) by {
            lemma_key_of_part(path, content, block, k);
        }
        assert(content_at(entries, m - 1) is None);
    }
}

/// Splitting and then merging gives the content back.
///
/// Take a file whose path does not end in `/`, cut it into blocks of any
/// size above zero, and let a directory hold exactly the parts that the split
/// gives, in any order, under whatever spelling of the directory a scan
/// reports them, with any subdirectories and files of other names beside
/// them. Then every index in the directory can be read, and a merge of the
/// directory gives the bytes of the file. This holds of every size:
/// of no content, of less than a block, of whole blocks and of blocks with a
/// remainder. It asks that the split gives fewer parts than the index type
/// has values.
pub proof fn lemma_split_then_merge(
    path: Seq<char>,
    content: Seq<u8>,
    block: nat,
    entries: Seq<DirEntryView>,
)
    requires
        block > 0,
        last_piece(path).len() > 0,
        part_count(content.len(), block) < INDEX_LIMIT,
        holds_exactly_the_parts(entries, split_parts(path, content, block)),
    ensures
        !some_unreadable_index(entries),
        merged_bytes(entries) == content,
{
    let parts = split_parts(path, content, block);
    let natural = part_entries(parts);
    let n = parts.len() as int;
    let keys_n = entry_keys(natural);
    let keys_e = entry_keys(entries);
    assert forall|i: int| 0 <= i < n implies holds_index(#[trigger] keys_n[i], i + 1)
        && !has_unreadable_index(natural[i].path, natural[i].is_dir) by {
        lemma_key_of_part(path, content, block, i);
    }
    // an entry that is a part file has the key of that part file
    assert forall|k: int, i: int|
        0 <= k < entries.len() && 0 <= i < n && is_part_file(
            #[trigger] entries[k],
            #[trigger] parts[i],
        ) implies keys_e[k] == keys_n[i] && !has_unreadable_index(
        entries[k].path,
        entries[k].is_dir,
    ) by {
        assert(natural[i].path == parts[i].name);
        assert(holds_index(keys_n[i], i + 1));
    }
    assert forall|k: int| 0 <= k < entries.len() implies !has_unreadable_index(
        (#[trigger] entries[k]).path,
        entries[k].is_dir,
    ) by {
        if is_candidate(entries[k].path, entries[k].is_dir) {
            assert(is_one_of(entries[k], parts));
            let i = choose|i: int| 0 <= i < parts.len() && is_part_file(entries[k], #[trigger] parts[i]);
            assert(is_part_file(entries[k], parts[i]));
        }
    }
    assert forall|idx: int, x: Seq<u8>, y: Seq<u8>|
        holds_part(natural, idx, x) && holds_part(natural, idx, y) implies x == y by {
        let i = choose|k: int|
            0 <= k < natural.len() && holds_index(#[trigger] entry_keys(natural)[k], idx)
                && natural[k].content == x;
        let j = choose|k: int|
            0 <= k < natural.len() && holds_index(#[trigger] entry_keys(natural)[k], idx)
                && natural[k].content == y;
        assert(holds_index(keys_n[i], i + 1));
        assert(holds_index(keys_n[j], j + 1));
    }
    assert forall|idx: int, x: Seq<u8>| holds_part(natural, idx, x) <==> holds_part(
        entries,
        idx,
        x,
    ) by {
        if holds_part(natural, idx, x) {
            let i = choose|k: int|
                0 <= k < natural.len() && holds_index(#[trigger] entry_keys(natural)[k], idx)
                    && natural[k].content == x;
            assert(has_file_of(entries, parts[i]));
            let k = choose|k: int|
                0 <= k < entries.len() && is_part_file(#[trigger] entries[k], parts[i]);
            assert(is_part_file(entries[k], parts[i]));
            assert(holds_index(entry_keys(entries)[k], idx));
        }
        if holds_part(entries, idx, x) {
            let k = choose|k: int|
                0 <= k < entries.len() && holds_index(#[trigger] entry_keys(entries)[k], idx)
                    && entries[k].content == x;
            assert(is_candidate(entries[k].path, entries[k].is_dir));
            assert(is_one_of(entries[k], parts));
            let i = choose|i: int|
                0 <= i < parts.len() && is_part_file(entries[k], #[trigger] parts[i]);
            assert(is_part_file(entries[k], parts[i]));
            assert(holds_index(entry_keys(natural)[i], idx));
        }
    }
    lemma_merge_depends_on_parts_only(natural, entries);
    lemma_parts_merge_to_content(path, content, block, INDEX_LIMIT as nat);
}

} // verus!
