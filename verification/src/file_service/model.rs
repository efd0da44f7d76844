//! The plain values that the file service works on: part files, and what a
//! path names.

use vstd::prelude::*;

verus! {

/// One part file: its path and the bytes in it.
pub struct PartFile {
    pub name: String,
    pub content: Vec<u8>,
}

/// A part file as a mathematical value.
pub struct PartFileView {
    pub name: Seq<char>,
    pub content: Seq<u8>,
}

impl View for PartFile {
    type V = PartFileView;

    open spec fn view(&self) -> PartFileView {
        PartFileView { name: self.name@, content: self.content@ }
    }
}

/// What a path names at the time of a call: nothing, a regular file with its
/// bytes, or a directory with what a scan of it reports.
pub enum PathTarget {
    Missing,
    File(Vec<u8>),
    Directory(Vec<DirEntry>),
}

/// One entry that a scan of a directory reports: its path, whether it is
/// itself a directory, and the bytes in it (none for a directory).
pub struct DirEntry {
    pub path: String,
    pub is_dir: bool,
    pub content: Vec<u8>,
}

/// A directory entry as a mathematical value.
pub struct DirEntryView {
    pub path: Seq<char>,
    pub is_dir: bool,
    pub content: Seq<u8>,
}

impl View for DirEntry {
    type V = DirEntryView;

    open spec fn view(&self) -> DirEntryView {
        DirEntryView { path: self.path@, is_dir: self.is_dir, content: self.content@ }
    }
}

/// The views of the entries of a directory, in the order of the scan.
pub open spec fn entries_view(entries: Seq<DirEntry>) -> Seq<DirEntryView> {
    Seq::new(entries.len(), |i: int| entries[i]@)
}

/// What a scan reports of an entry before anything is read from it: its
/// path and whether it is a directory.
pub struct ScanEntry {
    pub path: String,
    pub is_dir: bool,
}

} // verus!
