//! Positions in the minified text: from a byte offset to a line and a column
//! counted in UTF-16 code units, as source maps count them.

use vstd::prelude::*;
use vstd::string::*;
use crate::lines::is_break_end;

verus! {

/// A place in a text: a line, counted from 0, and a column in UTF-16 code units.
#[derive(Clone, Copy, Debug, PartialEq, Eq, Structural)]
pub struct SourcePosition {
    pub line: u32,
    pub column: u32,
}

impl SourcePosition {
    pub fn new(line: u32, column: u32) -> (p: Self)
        ensures
            p == (SourcePosition { line, column }),
    {
        SourcePosition { line, column }
    }

    /// `self` stands before `other`: on an earlier line, or earlier on the same line.
    pub open spec fn precedes(self, other: SourcePosition) -> bool {
        self.line < other.line || (self.line == other.line && self.column < other.column)
    }

    /// `self` stands before `other` or at the same place.
    pub open spec fn not_after(self, other: SourcePosition) -> bool {
        self.line < other.line || (self.line == other.line && self.column <= other.column)
    }

    /// Tells whether `self` stands before `other`.
    pub fn is_before(&self, other: &SourcePosition) -> (b: bool)
        ensures
            b == self.precedes(*other),
    {
        self.line < other.line || (self.line == other.line && self.column < other.column)
    }
}

/// The text cannot be indexed: it is longer than 32-bit offsets reach.
#[derive(Clone, Copy, Debug, PartialEq, Eq, Structural)]
pub struct SourceContextError;

/// The number of UTF-16 code units that the character starting with byte `b`
/// takes: none for a continuation byte, two for the first byte of a four-byte
/// sequence (a character outside the basic plane), one for any other.
pub open spec fn utf16_units(b: u8) -> int {
    if 0x80 <= b <= 0xBF {
        0
    } else if b >= 0xF0 {
        2
    } else {
        1
    }
}

/// The number of the line that byte offset `off` lies on: the number of line
/// terminators that end at or before `off`.
pub open spec fn line_of(text: Seq<u8>, off: int) -> int
    decreases off,
{
    if off <= 0 {
        0
    } else if is_break_end(text, off) {
        line_of(text, off - 1) + 1
    } else {
        line_of(text, off - 1)
    }
}

/// The column of byte offset `off`: the UTF-16 length of what stands between the
/// start of its line and `off`.
pub open spec fn column_of(text: Seq<u8>, off: int) -> int
    decreases off,
{
    if off <= 0 {
        0
    } else if is_break_end(text, off) {
        0
    } else {
        column_of(text, off - 1) + utf16_units(text[off - 1])
    }
}

/// `off` is the end of `text` or the first byte of a character in it.
pub open spec fn is_boundary(text: Seq<u8>, off: int) -> bool {
    off == text.len() || (0 <= off < text.len() && !(0x80 <= text[off] <= 0xBF))
}

/// Lines and columns of every offset of `text` fit in 32 bits.
pub open spec fn indexable(text: Seq<u8>) -> bool {
    &&& text.len() <= u32::MAX
    &&& forall|off: int| 0 <= off <= text.len() ==> #[trigger] column_of(text, off) <= u32::MAX
}

/// The position of byte offset `off` in `text`, if `off` lies in the text and on
/// a character boundary.
pub open spec fn position_of(text: Seq<u8>, off: int) -> Option<SourcePosition> {
    if is_boundary(text, off) {
        Some(SourcePosition { line: line_of(text, off) as u32, column: column_of(text, off) as u32 })
    } else {
        None
    }
}

/// No more lines end before an offset than bytes stand before it.
pub proof fn lemma_line_of_bound(text: Seq<u8>, off: int)
    ensures
        0 <= line_of(text, off) <= if off < 0 { 0 } else { off },
        0 <= column_of(text, off),
    decreases off,
{
    if off > 0 {
        lemma_line_of_bound(text, off - 1);
    }
}

/// From `a` to a later offset `b` the line does not decrease, and where it
/// stays the same the column grows by at least the width of the byte at `a`.
pub proof fn lemma_advance(text: Seq<u8>, a: int, b: int)
    requires
        0 <= a < b <= text.len(),
    ensures
        line_of(text, a) <= line_of(text, b),
        line_of(text, a) == line_of(text, b) ==> column_of(text, b) >= column_of(text, a)
            + utf16_units(text[a]),
    decreases b - a,
{
    if b > a + 1 {
        lemma_advance(text, a, b - 1);
    }
}

/// The position of a character boundary stands before that of every later
/// offset: byte order and position order agree.
pub proof fn lemma_positions_increase(text: Seq<u8>, a: int, b: int)
    requires
        indexable(text),
        0 <= a < b <= text.len(),
        is_boundary(text, a),
        is_boundary(text, b),
    ensures
        position_of(text, a).unwrap().precedes(position_of(text, b).unwrap()),
{
    lemma_advance(text, a, b);
    lemma_line_of_bound(text, a);
    lemma_line_of_bound(text, b);
    assert(column_of(text, a) <= u32::MAX);
    assert(column_of(text, b) <= u32::MAX);
}

/// In valid UTF-8 a byte from `0xF0` on starts a sequence of four bytes, so a
/// continuation byte follows it.
pub proof fn lemma_astral_continues(text: Seq<u8>, i: int)
    requires
        vstd::utf8::valid_utf8(text),
        0 <= i < text.len(),
        text[i] >= 0xF0,
    ensures
        i + 1 < text.len(),
        0x80 <= text[i + 1] <= 0xBF,
    decreases text.len(),
{
    let first = vstd::utf8::length_of_first_scalar(text);
    assert(vstd::utf8::valid_first_scalar(text));
    if i >= first {
        let rest = vstd::utf8::pop_first_scalar(text);
        assert(rest[i - first] == text[i]);
        lemma_astral_continues(rest, i - first);
        assert(rest[i - first + 1] == text[i + 1]);
    }
}

/// In valid UTF-8 the column of an offset is no larger than the offset, but
/// for the offset right behind the first byte of a four-byte sequence, where it
/// may be larger by one.
pub proof fn lemma_column_bound(text: Seq<u8>, off: int)
    requires
        vstd::utf8::valid_utf8(text),
        0 <= off <= text.len(),
    ensures
        0 <= column_of(text, off) <= off + 1,
        off == 0 || text[off - 1] < 0xF0 ==> column_of(text, off) <= off,
    decreases off,
{
    if off > 0 {
        lemma_column_bound(text, off - 1);
        if off > 1 && text[off - 2] >= 0xF0 {
            lemma_astral_continues(text, off - 2);
        }
    }
}

/// A valid UTF-8 text of no more than `u32::MAX` bytes can be indexed.
pub proof fn lemma_text_indexable(text: Seq<u8>)
    requires
        vstd::utf8::valid_utf8(text),
        text.len() <= u32::MAX,
    ensures
        indexable(text),
{
    assert forall|off: int| 0 <= off <= text.len() implies #[trigger] column_of(text, off)
        <= u32::MAX by {
        lemma_column_bound(text, off);
        if off == text.len() && off > 0 && text[off - 1] >= 0xF0 {
            lemma_astral_continues(text, off - 1);
        }
    }
}

/// In valid UTF-8 the offsets that have a position are the character
/// boundaries, as `str::is_char_boundary` tells them.
pub proof fn lemma_boundary_is_char_boundary(text: Seq<u8>, off: int)
    requires
        vstd::utf8::valid_utf8(text),
    ensures
        is_boundary(text, off) == vstd::utf8::is_char_boundary(text, off),
{
    vstd::utf8::is_char_boundary_start_end_of_seq(text);
    if 0 <= off < text.len() {
        vstd::utf8::is_char_boundary_iff_not_is_continuation_byte(text, off);
    } else if off != text.len() {
        if off != 0 {
            assert(!vstd::utf8::is_char_boundary(text, off));
        }
    }
}

/// A text with an index of positions, for converting byte offsets in it.
pub struct SourceContext<'a> {
    text: &'a str,
    /// The position of every offset that is a multiple of 128. A conversion
    /// starts at the nearest of them and reads no more than 127 bytes.
    checkpoints: Vec<SourcePosition>,
}

impl<'a> SourceContext<'a> {
    #[verifier::type_invariant]
    spec fn inv(self) -> bool {
        let text = self.text.spec_bytes();
        &&& indexable(text)
        &&& self.checkpoints@.len() == text.len() / 128 + 1
        &&& forall|k: int|
            0 <= k < self.checkpoints@.len() ==> (#[trigger] self.checkpoints@[k]).line == line_of(
                text,
                k * 128,
            ) && self.checkpoints@[k].column == column_of(text, k * 128)
    }

    /// The bytes of the text.
    pub closed spec fn text(&self) -> Seq<u8> {
        self.text.spec_bytes()
    }

    /// Indexes `text`. Fails if and only if the text is longer than `u32::MAX`
    /// bytes, which is when it is not `indexable`.
    pub fn new(text: &'a str) -> (r: Result<SourceContext<'a>, SourceContextError>)
        ensures
            r is Err <==> text.spec_bytes().len() > u32::MAX,
            match r {
                Ok(ctx) => ctx.text() == text.spec_bytes() && indexable(text.spec_bytes()),
                Err(_) => !indexable(text.spec_bytes()),
            },
    {
        let bytes = text.as_bytes();
        let len = bytes.len();
        if len > 0xFFFF_FFFF {
            return Err(SourceContextError);
        }
        proof {
            vstd::utf8::encode_utf8_valid_utf8(text@);
            lemma_text_indexable(bytes@);
        }
        let mut checkpoints: Vec<SourcePosition> = Vec::new();
        let mut line: u32 = 0;
        let mut column: u32 = 0;
        let mut next: u64 = 0;
        let mut i: usize = 0;
        loop
            invariant_except_break
                next - 128 < i <= next,
            invariant
                bytes@ == text.spec_bytes(),
                len == bytes@.len(),
                len <= 0xFFFF_FFFF,
                0 <= i <= len,
                indexable(bytes@),
                line == line_of(bytes@, i as int),
                line <= i,
                column == column_of(bytes@, i as int),
                next == checkpoints@.len() * 128,
                forall|k: int|
                    0 <= k < checkpoints@.len() ==> (#[trigger] checkpoints@[k]).line == line_of(
                        bytes@,
                        k * 128,
                    ) && checkpoints@[k].column == column_of(bytes@, k * 128),
            ensures
                i == len,
                next - 128 <= i < next,
            decreases len - i,
        {
            if i as u64 == next {
                checkpoints.push(SourcePosition { line, column });
                next = next + 128;
            }
            if i == len {
                break ;
            }
            let b = bytes[i];
            assert(column_of(bytes@, i + 1) <= u32::MAX);
            if b == 0x0A || (b == 0x0D && (i + 1 == len || bytes[i + 1] != 0x0A)) {
                line = line + 1;
                column = 0;
            } else if 0x80 <= b && b <= 0xBF {
            } else if b >= 0xF0 {
                column = column + 2;
            } else {
                column = column + 1;
            }
            i = i + 1;
        }
        Ok(SourceContext { text, checkpoints })
    }

    /// The position of byte offset `offset`, or `None` where the offset lies
    /// behind the end of the text or inside a character.
    pub fn offset_to_position(&self, offset: u32) -> (r: Option<SourcePosition>)
        ensures
            r == position_of(self.text(), offset as int),
    {
        proof {
            use_type_invariant(self);
        }
        let bytes = self.text.as_bytes();
        let len = bytes.len();
        let off = offset as usize;
        if off > len {
            return None;
        }
        if off < len && 0x80 <= bytes[off] && bytes[off] <= 0xBF {
            return None;
        }
        let k = off / 128;
        let start = self.checkpoints[k];
        let mut line: u32 = start.line;
        let mut column: u32 = start.column;
        let mut i: usize = k * 128;
        proof {
            lemma_line_of_bound(bytes@, i as int);
        }
        while i < off
            invariant
                len == bytes@.len(),
                indexable(bytes@),
                0 <= i <= off <= len,
                line == line_of(bytes@, i as int),
                line <= i,
                column == column_of(bytes@, i as int),
            decreases off - i,
        {
            let b = bytes[i];
            assert(column_of(bytes@, i + 1) <= u32::MAX);
            if b == 0x0A || (b == 0x0D && (i + 1 == len || bytes[i + 1] != 0x0A)) {
                line = line + 1;
                column = 0;
            } else if 0x80 <= b && b <= 0xBF {
            } else if b >= 0xF0 {
                column = column + 2;
            } else {
                column = column + 1;
            }
            i = i + 1;
        }
        Some(SourcePosition { line, column })
    }
}

} // verus!
