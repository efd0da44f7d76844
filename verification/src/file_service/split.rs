//! Splitting the bytes of a file into blocks of a fixed size, and naming the
//! part file that each block goes to.

use vstd::prelude::*;
use vstd::slice::{slice_subrange, slice_to_vec};
use crate::error::FileServiceError;
use crate::file_service::model::{PartFile, PartFileView, PathTarget};
use crate::file_service::part_name::{make_part_file_name, part_file_name};

verus! {

/// The size of a block: ten mebibytes. Every part but the last holds exactly
/// this many bytes.
pub const BLOCK_SIZE: usize = 10485760;

/// The number of parts that `len` bytes make in blocks of `block` bytes:
/// `len / block`, rounded up. Nothing is cut with an empty block.
pub open spec fn part_count(len: nat, block: nat) -> nat {
    if block == 0 {
        0
    } else {
        ((len + block - 1) / (block as int)) as nat
    }
}

/// The bytes of block `i`, counted from 0.
pub open spec fn block_of(content: Seq<u8>, block: nat, i: int) -> Seq<u8> {
    let start = i * block;
    let end = if start + block <= content.len() {
        start + block
    } else {
        content.len() as int
    };
    content.subrange(start, end)
}

/// The part files that splitting `content`, found at `path`, gives: block
/// `i` goes to the part with index `i + 1`.
pub open spec fn split_parts(path: Seq<char>, content: Seq<u8>, block: nat) -> Seq<PartFileView> {
    Seq::new(
        part_count(content.len(), block),
        |i: int|
            PartFileView {
                name: part_file_name(path, (i + 1) as nat),
                content: block_of(content, block, i),
            },
    )
}

/// The views of a sequence of part files.
pub open spec fn parts_view(parts: Seq<PartFile>) -> Seq<PartFileView> {
    Seq::new(parts.len(), |i: int| parts[i]@)
}

/// Where the blocks lie: `count` is the number of parts exactly when the
/// blocks before it do not cover the content and `count` blocks do.
pub proof fn lemma_part_count(len: nat, block: nat, count: nat)
    requires
        block > 0,
        count * block >= len,
        count > 0 ==> (count - 1) * block < len,
    ensures
        part_count(len, block) == count,
{
    let total = (len + block - 1) as int;
    let b = block as int;
    let c = count as int;
    assert((c + 1) * b == c * b + b) by (nonlinear_arith);
    assert((c - 1) * b == c * b - b) by (nonlinear_arith);
    assert(total / b == c) by (nonlinear_arith)
        requires
            b > 0,
            c >= 0,
            c * b <= total,
            total < (c + 1) * b,
    ;
}

/// Cuts `content` into blocks of `block_size` bytes and names a part file
/// for each: part `i + 1` holds block `i`. The last part holds what is left
/// and may be shorter; empty content gives no part, and so does an empty
/// block.
pub fn split_blocks(path: &str, content: &[u8], block_size: usize) -> (parts: Vec<PartFile>)
    ensures
        parts_view(parts@) == split_parts(path@, content@, block_size as nat),
{
    let mut parts: Vec<PartFile> = Vec::new();
    if block_size == 0 {
        assert(parts_view(parts@) =~= split_parts(path@, content@, block_size as nat));
        return parts;
    }
    let len = content.len();
    let mut start: usize = 0;
    let mut index: u64 = 0;
    while start < len
        invariant
            block_size > 0,
            len == content@.len(),
            start <= len,
            start < len ==> start == index * block_size,
            start == len ==> index * block_size >= len,
            index > 0 ==> (index - 1) * block_size < len,
            parts@.len() == index,
            forall|j: int|
                0 <= j < index ==> (#[trigger] parts@[j])@ == (PartFileView {
                    name: part_file_name(path@, (j + 1) as nat),
                    content: block_of(content@, block_size as nat, j),
                }),
        decreases len - start,
    {
        let end: usize = if len - start > block_size {
            start + block_size
        } else {
            len
        };
        proof {
            let i = index as int;
            let b = block_size as int;
            assert((i + 1) * b == i * b + b) by (nonlinear_arith);
            assert(i <= i * b) by (nonlinear_arith)
                requires
                    b >= 1,
                    i >= 0,
            ;
        }
        let name = make_part_file_name(path, index + 1);
        let bytes = slice_to_vec(slice_subrange(content, start, end));
        assert(bytes@ == block_of(content@, block_size as nat, index as int));
        parts.push(PartFile { name, content: bytes });
        index += 1;
        start = end;
    }
    proof {
        lemma_part_count(len as nat, block_size as nat, index as nat);
        assert(parts_view(parts@) =~= split_parts(path@, content@, block_size as nat));
    }
    parts
}

/// Splits the file at `path` into part files of `BLOCK_SIZE` bytes, named
/// `<path>_part1`, `<path>_part2` and so on in the order of the blocks.
///
/// Fails with `NotAFile`, and cuts nothing, exactly when the path does not
/// name a regular file.
pub fn file_split(path: &str, target: &PathTarget) -> (r: Result<Vec<PartFile>, FileServiceError>)
    ensures
        match r {
            Ok(parts) => target matches PathTarget::File(content) && parts_view(parts@)
                == split_parts(path@, content@, BLOCK_SIZE as nat),
            Err(e) => e == FileServiceError::NotAFile && !(target is File),
        },
{
    match target {
        PathTarget::File(content) => Ok(split_blocks(path, content.as_slice(), BLOCK_SIZE)),
        _ => Err(FileServiceError::NotAFile),
    }
}

/// A split that is fed one block at a time: the path of the file and the
/// number of parts written so far.
pub struct Splitter {
    pub path: String,
    pub parts_written: u64,
}

/// What is to be done after a read.
pub enum SplitStep {
    /// Write the block that was read to a new file of this name.
    WritePart(String),
    /// The file has been read to its end: stop.
    Finish,
}

impl Splitter {
    /// A split of the file at `path` of which nothing has been written yet.
    pub fn new(path: &str) -> (splitter: Splitter)
        ensures
            splitter.path@ == path@,
            splitter.parts_written == 0,
    {
        Splitter { path: path.to_owned(), parts_written: 0 }
    }

    /// Takes note of a read of `bytes_read` bytes and says what follows
    /// from it. A read of no bytes is the end of the file. Any other read is
    /// a block, and it goes to the part with the next index, the first to
    /// part 1.
    pub fn block_read(&mut self, bytes_read: usize) -> (step: SplitStep)
        requires
            old(self).parts_written < u64::MAX,
        ensures
            final(self).path == old(self).path,
            bytes_read == 0 ==> step is Finish && final(self).parts_written == old(
                self,
            ).parts_written,
            bytes_read > 0 ==> final(self).parts_written == old(self).parts_written + 1 && (
            step matches SplitStep::WritePart(name) && name@ == part_file_name(
                old(self).path@,
                (old(self).parts_written + 1) as nat,
            )),
    {
        if bytes_read == 0 {
            SplitStep::Finish
        } else {
            self.parts_written = self.parts_written + 1;
            SplitStep::WritePart(make_part_file_name(self.path.as_str(), self.parts_written))
        }
    }
}

} // verus!
