//! The string table of the cache: every distinct string once, each behind its
//! length.

use vstd::prelude::*;
use vstd::string::*;
use vstd::hash_map::StringHashMap;
use vstd::utf8::encode_utf8;

verus! {

/// The unsigned LEB128 encoding of `value`: seven bits to a byte, the lowest
/// first, with the high bit set in every byte but the last.
pub open spec fn leb128_unsigned(value: u64) -> Seq<u8>
    decreases value,
{
    if value < 128 {
        seq![value as u8]
    } else {
        seq![(value % 128 + 128) as u8] + leb128_unsigned(value / 128)
    }
}

/// Calls `leb128::write::unsigned`, which appends the unsigned LEB128 encoding
/// of `value` to `out` and returns the number of bytes written. The crate
/// writes to any `std::io::Write`; writing to a `Vec` does not fail.
#[verifier::external_body]
fn write_leb128(out: &mut Vec<u8>, value: u64) -> (written: usize)
    ensures
        final(out)@ == old(out)@ + leb128_unsigned(value),
        written == leb128_unsigned(value).len(),
{
    leb128::write::unsigned(out, value).unwrap_or_default()
}

/// The record of `s` in a string table: its length in bytes as LEB128, and its
/// UTF-8 bytes behind it.
pub open spec fn record(s: Seq<char>) -> Seq<u8> {
    leb128_unsigned(encode_utf8(s).len() as u64) + encode_utf8(s)
}

/// The record of `s` stands in `bytes` at `offset`.
pub open spec fn record_at(bytes: Seq<u8>, offset: u32, s: Seq<char>) -> bool {
    &&& offset + record(s).len() <= bytes.len()
    &&& bytes.subrange(offset as int, offset + record(s).len()) == record(s)
}

/// The mathematical value of a string table.
pub struct StringTable {
    /// The records: each string as UTF-8 behind its length in LEB128.
    pub bytes: Seq<u8>,
    /// The offset of the record of each string in the table.
    pub offsets: Map<Seq<char>, u32>,
}

impl StringTable {
    /// The table without strings.
    pub open spec fn empty() -> StringTable {
        StringTable { bytes: Seq::empty(), offsets: Map::empty() }
    }

    /// The offset that interning `s` gives: `u32::MAX` for the empty string,
    /// the offset of its record where it has one, else the end of the table,
    /// where its record will stand. An offset that does not fit in 32 bits is
    /// cut down to its lower 32 bits.
    pub open spec fn offset_of(self, s: Seq<char>) -> u32 {
        if s.len() == 0 {
            u32::MAX
        } else if self.offsets.contains_key(s) {
            self.offsets[s]
        } else {
            self.bytes.len() as u32
        }
    }

    /// The table gives `offset` for the string `s`.
    pub open spec fn holds_at(self, s: Seq<char>, offset: u32) -> bool {
        self.offsets.contains_key(s) && self.offsets[s] == offset
    }

    /// `offset` is the offset that the table gives for one of its strings.
    pub open spec fn is_record_start(self, offset: u32) -> bool {
        exists|s: Seq<char>| #[trigger] self.holds_at(s, offset)
    }

    /// Every string of the table is not empty and has its record at its offset.
    pub open spec fn wf(self) -> bool {
        forall|s: Seq<char>| #[trigger]
            self.offsets.contains_key(s) ==> s.len() > 0 && record_at(
                self.bytes,
                self.offsets[s],
                s,
            )
    }

    /// The table after interning `s`: unchanged for the empty string and for
    /// one that is in it, else with the record of `s` at its end.
    pub open spec fn insert(self, s: Seq<char>) -> StringTable {
        if s.len() == 0 || self.offsets.contains_key(s) {
            self
        } else {
            StringTable {
                bytes: self.bytes + leb128_unsigned(encode_utf8(s).len() as u64) + encode_utf8(s),
                offsets: self.offsets.insert(s, self.bytes.len() as u32),
            }
        }
    }
}

/// Interning a string a second time gives the same offset and writes nothing,
/// whatever was interned in between. Interning the empty string gives
/// `u32::MAX` and writes nothing.
pub proof fn lemma_intern_again(table: StringTable, s: Seq<char>, between: Seq<Seq<char>>)
    ensures
        s.len() == 0 ==> table.offset_of(s) == u32::MAX && table.insert(s) == table,
        s.len() > 0 ==> interned_all(table.insert(s), between).offset_of(s) == table.offset_of(s),
        s.len() > 0 ==> interned_all(table.insert(s), between).insert(s) == interned_all(
            table.insert(s),
            between,
        ),
    decreases between.len(),
{
    if s.len() > 0 && between.len() > 0 {
        lemma_intern_again(table, s, between.drop_last());
    }
}

/// Interning keeps what is in the table and gives the new string the offset
/// that it returns. As long as the table stays within `u32::MAX` bytes, every
/// string has its record at its offset.
pub proof fn lemma_insert(table: StringTable, s: Seq<char>)
    ensures
        table.bytes.len() <= table.insert(s).bytes.len(),
        forall|key: Seq<char>, offset: u32| #[trigger]
            table.holds_at(key, offset) ==> table.insert(s).holds_at(key, offset),
        s.len() > 0 ==> table.insert(s).holds_at(s, table.offset_of(s)),
        table.wf() && table.insert(s).bytes.len() <= u32::MAX ==> table.insert(s).wf(),
{
    let after = table.insert(s);
    if s.len() > 0 && !table.offsets.contains_key(s) && table.wf() && after.bytes.len()
        <= u32::MAX {
        assert(after.bytes =~= table.bytes + record(s));
        assert forall|key: Seq<char>| #[trigger] after.offsets.contains_key(key) implies key.len()
            > 0 && record_at(after.bytes, after.offsets[key], key) by {
            if key == s {
                assert(after.bytes.subrange(
                    table.bytes.len() as int,
                    (table.bytes.len() + record(s).len()) as int,
                ) =~= record(s));
            } else {
                assert(table.offsets.contains_key(key));
                assert(after.bytes.subrange(
                    table.offsets[key] as int,
                    table.offsets[key] + record(key).len(),
                ) =~= table.bytes.subrange(
                    table.offsets[key] as int,
                    table.offsets[key] + record(key).len(),
                ));
            }
        }
    }
}

/// The table after interning each of `strings` in turn.
pub open spec fn interned_all(table: StringTable, strings: Seq<Seq<char>>) -> StringTable
    decreases strings.len(),
{
    if strings.len() == 0 {
        table
    } else {
        interned_all(table, strings.drop_last()).insert(strings.last())
    }
}

/// Insert a string into the table.
///
/// If the string was already present, it is not added again. A newly added
/// string is prefixed by its length in LEB128 encoding. The returned `u32` is
/// the offset into `string_bytes` where the string is saved.
pub fn insert_string(string_bytes: &mut Vec<u8>, strings: &mut StringHashMap<u32>, s: &str) -> (offset:
    u32)
    ensures
        offset == (StringTable { bytes: old(string_bytes)@, offsets: old(strings)@ }).offset_of(s@),
        (StringTable { bytes: final(string_bytes)@, offsets: final(strings)@ }) == (StringTable {
            bytes: old(string_bytes)@,
            offsets: old(strings)@,
        }).insert(s@),
{
    if s.is_empty() {
        return u32::MAX;
    }
    if let Some(offset) = strings.get(s) {
        return *offset;
    }
    let string_offset = #[verifier::truncate] (string_bytes.len() as u32);
    let bytes = s.as_bytes();
    let string_len = bytes.len() as u64;
    let ghost before = string_bytes@;
    write_leb128(string_bytes, string_len);
    string_bytes.extend_from_slice(bytes);
    assert(string_bytes@ =~= before + leb128_unsigned(encode_utf8(s@).len() as u64) + encode_utf8(
        s@,
    ));
    strings.insert(s.to_owned(), string_offset);
    string_offset
}

} // verus!
