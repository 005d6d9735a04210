//! Where the lines of a text start.
//!
//! A line ends at a line feed, at a carriage return that a line feed follows
//! (the two together end the line), or at a carriage return alone.

use vstd::prelude::*;
use crate::smcache::raw::LineOffset;

verus! {

/// A line terminator ends right before position `q` of `text`.
pub open spec fn is_break_end(text: Seq<u8>, q: int) -> bool {
    &&& 0 < q <= text.len()
    &&& (text[q - 1] == 0x0Au8 || (text[q - 1] == 0x0Du8 && (q == text.len() || text[q]
        != 0x0Au8)))
}

/// The positions in `(0, n]` right behind a line terminator, in ascending order.
pub open spec fn break_ends(text: Seq<u8>, n: int) -> Seq<LineOffset>
    decreases n,
{
    if n <= 0 {
        Seq::empty()
    } else if is_break_end(text, n) {
        break_ends(text, n - 1).push(LineOffset(n as u32))
    } else {
        break_ends(text, n - 1)
    }
}

/// `break_ends` holds the positions in `(0, n]` right behind a line terminator
/// and no others, each below the ones behind it.
pub proof fn lemma_break_ends(text: Seq<u8>, n: int)
    requires
        n <= u32::MAX,
    ensures
        forall|i: int|
            0 <= i < break_ends(text, n).len() ==> 0 < (#[trigger] break_ends(text, n)[i]).0 <= n
                && is_break_end(text, break_ends(text, n)[i].0 as int),
        forall|i: int, j: int|
            0 <= i < j < break_ends(text, n).len() ==> (#[trigger] break_ends(text, n)[i]).0 < (
            #[trigger] break_ends(text, n)[j]).0,
        forall|q: int|
            0 < q <= n && #[trigger] is_break_end(text, q) ==> break_ends(text, n).contains(
                LineOffset(q as u32),
            ),
    decreases n,
{
    if n > 0 {
        lemma_break_ends(text, n - 1);
        let before = break_ends(text, n - 1);
        let all = break_ends(text, n);
        assert forall|q: int| 0 < q <= n && #[trigger] is_break_end(text, q) implies all.contains(
            LineOffset(q as u32),
        ) by {
            if q < n {
                let i = choose|i: int| 0 <= i < before.len() && before[i] == LineOffset(q as u32);
                assert(all[i] == LineOffset(q as u32));
            } else {
                assert(all[all.len() - 1] == LineOffset(q as u32));
            }
        }
    }
}

/// The number of lines that splitting `text` at its line terminators gives. A
/// terminator at the very end opens no further line, and an empty text has none.
pub open spec fn count_lines(text: Seq<u8>) -> nat {
    if text.len() == 0 {
        0
    } else {
        1 + break_ends(text, text.len() - 1).len()
    }
}

/// The text ends with a line feed.
pub open spec fn ends_with_newline(text: Seq<u8>) -> bool {
    text.len() > 0 && text.last() == 0x0Au8
}

/// The line offset table of one source: the start of each of its lines, one more
/// entry for the empty last line where the text ends with a line feed, and the
/// length of the text as the closing entry. The empty text has one line at 0.
pub open spec fn line_offsets_of(text: Seq<u8>) -> Seq<LineOffset> {
    let end = LineOffset(text.len() as u32);
    if text.len() == 0 {
        seq![LineOffset(0), end]
    } else if ends_with_newline(text) {
        seq![LineOffset(0)] + break_ends(text, text.len() - 1) + seq![end, end]
    } else {
        seq![LineOffset(0)] + break_ends(text, text.len() - 1) + seq![end]
    }
}

/// The line offset table ends with the length of the text. It has one entry
/// for each line, one more where the text ends with a line feed, and the
/// closing one; for the empty text it has two entries.
pub proof fn lemma_line_offsets(text: Seq<u8>)
    ensures
        line_offsets_of(text).last() == LineOffset(text.len() as u32),
        line_offsets_of(text).len() == if text.len() == 0 {
            2
        } else if ends_with_newline(text) {
            count_lines(text) + 2
        } else {
            count_lines(text) + 1
        },
{
}

/// Appends the line offset table of `source` to `out`. An offset that does not
/// fit in 32 bits is cut down to its lower 32 bits.
pub fn append_line_offsets(source: &[u8], out: &mut Vec<LineOffset>)
    ensures
        final(out)@ == old(out)@ + line_offsets_of(source@),
{
    let len = source.len();
    let ghost before = out@;
    let end = LineOffset(#[verifier::truncate] (len as u32));
    out.push(LineOffset(0));
    if len == 0 {
        out.push(end);
        assert(out@ =~= before + line_offsets_of(source@));
        return ;
    }
    let mut i: usize = 1;
    while i < len
        invariant
            1 <= i <= len,
            len == source@.len(),
            out@ == before + seq![LineOffset(0)] + break_ends(source@, i - 1),
        decreases len - i,
    {
        let prev = source[i - 1];
        if prev == 0x0A || (prev == 0x0D && source[i] != 0x0A) {
            out.push(LineOffset(#[verifier::truncate] (i as u32)));
        }
        i += 1;
    }
    if source[len - 1] == 0x0A {
        out.push(end);
    }
    out.push(end);
    assert(out@ =~= before + line_offsets_of(source@));
}

} // verus!
