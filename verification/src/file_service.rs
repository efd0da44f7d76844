//! The file service: splitting a file into part files and merging part files
//! back into one, on plain values that stand for what lies on disk.

pub mod laws;
pub mod merge;
pub mod model;
pub mod ordered;
pub mod part_name;
pub mod path_name;
pub mod split;

pub use self::merge::{file_merge, merge_plan};
pub use self::model::{DirEntry, PartFile, PathTarget, ScanEntry};
pub use self::part_name::{
    file_is_merge, get_file_original_index, get_file_original_name, make_part_file_name,
};
pub use self::path_name::get_file_name_by_path;
pub use self::split::{file_split, split_blocks, SplitStep, Splitter, BLOCK_SIZE};
