//! The fixed-size records of the cache file and the values reserved in them.

use vstd::prelude::*;

verus! {

/// The first four bytes of a cache file, `SMCA`, read as a little-endian number.
pub const SMCACHE_MAGIC: u32 = 0x41434D53;

/// The version of the file layout.
pub const SMCACHE_VERSION: u32 = 2;

/// Stands in `file_idx` when the original file is unknown.
pub const NO_FILE_SENTINEL: u32 = 0xFFFF_FFFF;

/// Stands in `scope_idx` for the global scope and for an unknown scope.
pub const GLOBAL_SCOPE_SENTINEL: u32 = 0xFFFF_FFFE;

/// Stands in `scope_idx` for a scope without a name.
pub const ANONYMOUS_SCOPE_SENTINEL: u32 = 0xFFFF_FFFF;

/// The header of a cache file, which says how long each table is.
#[derive(Clone, Copy, Debug, PartialEq, Eq, Structural)]
pub struct Header {
    pub magic: u32,
    pub version: u32,
    pub num_mappings: u32,
    pub num_files: u32,
    pub num_line_offsets: u32,
    pub string_bytes: u32,
}

/// A position in the minified file: a line and a column in UTF-16 code units.
#[derive(Clone, Copy, Debug, PartialEq, Eq, Structural)]
pub struct MinifiedSourcePosition {
    pub line: u32,
    pub column: u32,
}

/// Where a minified position comes from: a file, a line in it and a scope name.
#[derive(Clone, Copy, Debug, PartialEq, Eq, Structural)]
pub struct OriginalSourceLocation {
    pub file_idx: u32,
    pub line: u32,
    pub scope_idx: u32,
}

/// An original source file: where its name and text stand in the string table
/// and which slice of the line offset table is its own.
#[derive(Clone, Copy, Debug, PartialEq, Eq, Structural)]
pub struct File {
    pub name_offset: u32,
    pub source_offset: u32,
    pub line_offsets_start: u32,
    pub line_offsets_end: u32,
}

/// The byte offset at which a line of an original source starts.
#[derive(Clone, Copy, Debug, PartialEq, Eq, Structural)]
pub struct LineOffset(pub u32);

/// The number of zero bytes that bring a length of `n` up to a multiple of 8.
pub open spec fn padding_to_eight(n: int) -> int {
    if n % 8 == 0 {
        0
    } else {
        8 - n % 8
    }
}

/// The number of padding bytes that a section of `to_align` bytes needs.
pub fn align_to_eight(to_align: usize) -> (pad: usize)
    ensures
        pad == padding_to_eight(to_align as int),
        pad < 8,
        (to_align + pad) % 8 == 0,
{
    let remainder = to_align % 8;
    if remainder == 0 {
        remainder
    } else {
        8 - remainder
    }
}

/// The four bytes of `x`, least significant first.
pub open spec fn le_bytes(x: u32) -> Seq<u8> {
    seq![
        (x % 256) as u8,
        (x / 256 % 256) as u8,
        (x / 65536 % 256) as u8,
        (x / 16777216) as u8,
    ]
}

/// Appends the little-endian bytes of `x` to `out`.
pub fn push_le_bytes(out: &mut Vec<u8>, x: u32)
    ensures
        final(out)@ == old(out)@ + le_bytes(x),
{
    out.push((x % 256) as u8);
    out.push((x / 256 % 256) as u8);
    out.push((x / 65536 % 256) as u8);
    out.push((x / 16777216) as u8);
    assert(out@ =~= old(out)@ + le_bytes(x));
}

} // verus!
