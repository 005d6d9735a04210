//! Builds a compact lookup cache that maps positions in a minified JavaScript
//! file back to the original file, line and enclosing function name.
//!
//! The cache is assembled by [`smcache::writer::SmCacheWriter`] from the
//! minified text, its source map and the function scopes found in the text:
//!
//! - [`scopes`] names each scope from the syntax around it ([`ast`],
//!   [`scope_name`]);
//! - [`name_resolver`] turns the minified identifiers of a name into their
//!   original names with the help of the source map ([`source_map`]);
//! - [`scope_index`] says for every byte offset which scope it lies in, and
//!   [`source`] turns byte offsets into the lines and UTF-16 columns that
//!   source maps count in;
//! - [`smcache`] holds the tables of the cache and lays them out as bytes.

pub mod lines;
pub mod source;
pub mod ast;
pub mod scope_name;
pub mod scopes;
pub mod scope_index;
pub mod source_map;
pub mod name_resolver;
pub mod smcache;
