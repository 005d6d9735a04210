//! The cache file: its records, its string table and file table, and the writer
//! that assembles them.

pub mod raw;
pub mod strings;
pub mod files;
pub mod tables;
pub mod writer;
