//! Splitting a file into numbered part files and merging them back, and
//! cleaning an exported list of JSON records, on plain in-memory values.

pub mod decimal;
pub mod error;
pub mod file_service;
pub mod json_generate_script;
pub mod lines;
pub mod text;
