//! The failures that the file service reports.

use vstd::prelude::*;

verus! {

/// Why an operation of the file service did not go through.
#[derive(Clone, Copy, Debug, PartialEq, Eq, Structural)]
pub enum FileServiceError {
    /// The path to split is absent or does not name a regular file.
    NotAFile,
    /// The path to merge from is absent or does not name a directory.
    NotADirectory,
    /// A file name does not follow the part-naming convention, or its index
    /// does not fit the index type.
    InvalidFormat,
}

/// Why an export could not be given fresh identifiers.
#[derive(Clone, Copy, Debug, PartialEq, Eq, Structural)]
pub enum ScriptError {
    /// The text is not a JSON list of objects.
    NotRecords,
}

} // verus!
