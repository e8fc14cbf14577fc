//! Conversion between UTF-16 caret positions and byte offsets.

use crate::text::{
    chars_in_utf16_of, chars_in_utf8_of, from_chars, to_chars, utf16_len_range, utf8_len_range,
};
use vstd::prelude::*;

verus! {

use crate::text::{
    chars_in_utf16, chars_in_utf8, is_utf16_boundary, is_utf8_boundary, lemma_chars_in_utf16,
    lemma_chars_in_utf8, lemma_offset_of_char, lemma_utf16_concat, min_of, utf16_len, utf8_len,
};

/// The part of `s` that takes the first `pos` UTF-16 code units. A character that
/// `pos` cuts in two is left out.
pub open spec fn head_at_utf16(s: Seq<char>, pos: int) -> Seq<char> {
    s.take(chars_in_utf16(s, pos) as int)
}

/// What `head_at_utf16` leaves of `s`.
pub open spec fn tail_at_utf16(s: Seq<char>, pos: int) -> Seq<char> {
    s.skip(chars_in_utf16(s, pos) as int)
}

/// The byte offset of UTF-16 position `pos_utf16`. A position inside a surrogate
/// pair gives the start of the pair, one behind the end gives the end.
pub fn utf16_to_byte_idx(s: &str, pos_utf16: u32) -> (r: usize)
    ensures
        r == utf8_len(head_at_utf16(s@, pos_utf16 as int)),
        r <= utf8_len(s@),
{
    let chars = to_chars(s);
    let k: usize = chars_in_utf16_of(chars.as_slice(), pos_utf16);
    let r: usize = utf8_len_range(chars.as_slice(), 0, k);
    assert(s@.subrange(0, k as int) =~= s@.take(k as int));
    r
}

/// The UTF-16 position of a byte offset, which must lie between two characters.
/// An offset behind the end counts as the end.
pub fn byte_idx_to_utf16(s: &str, byte_idx: usize) -> (r: u32)
    requires
        utf16_len(s@) <= u32::MAX,
        is_utf8_boundary(s@, min_of(byte_idx as int, utf8_len(s@) as int)),
    ensures
        r == utf16_len(s@.take(chars_in_utf8(s@, byte_idx as int) as int)),
        r <= utf16_len(s@),
{
    let chars = to_chars(s);
    let k: usize = chars_in_utf8_of(chars.as_slice(), byte_idx);
    let r: u32 = utf16_len_range(chars.as_slice(), 0, k);
    assert(s@.subrange(0, k as int) =~= s@.take(k as int));
    r
}

/// The text before and the text from UTF-16 position `pos_utf16`.
pub fn split_at_utf16(s: &str, pos_utf16: u32) -> (r: (String, String))
    ensures
        r.0@ == head_at_utf16(s@, pos_utf16 as int),
        r.1@ == tail_at_utf16(s@, pos_utf16 as int),
{
    let chars = to_chars(s);
    let k: usize = chars_in_utf16_of(chars.as_slice(), pos_utf16);
    let left = from_chars(chars.as_slice(), 0, k);
    let right = from_chars(chars.as_slice(), k, chars.len());
    assert(s@.subrange(0, k as int) =~= s@.take(k as int));
    assert(s@.subrange(k as int, s@.len() as int) =~= s@.skip(k as int));
    (left, right)
}

/// Splitting a text loses nothing: the two halves make up the text, and the first
/// takes no more than the position asked for. It takes exactly that much unless the
/// position lies behind the end or inside a surrogate pair.
pub proof fn law_split_keeps_text(s: Seq<char>, pos: int)
    requires
        0 <= pos,
    ensures
        head_at_utf16(s, pos) + tail_at_utf16(s, pos) == s,
        utf16_len(head_at_utf16(s, pos)) <= pos,
        utf16_len(head_at_utf16(s, pos)) == pos <==> is_utf16_boundary(s, pos),
        utf16_len(head_at_utf16(s, pos)) + utf16_len(tail_at_utf16(s, pos)) == utf16_len(s),
{
    lemma_chars_in_utf16(s, pos);
    assert(head_at_utf16(s, pos) + tail_at_utf16(s, pos) =~= s);
    lemma_utf16_concat(head_at_utf16(s, pos), tail_at_utf16(s, pos));
}

/// Going from a UTF-16 position to a byte offset and back gives the position, for
/// every position between two characters of the text.
pub proof fn law_utf16_byte_round_trip(s: Seq<char>, pos: int)
    requires
        0 <= pos,
        is_utf16_boundary(s, pos),
    ensures
        ({
            let b = utf8_len(head_at_utf16(s, pos)) as int;
            &&& is_utf8_boundary(s, b)
            &&& utf16_len(s.take(chars_in_utf8(s, b) as int)) == pos
        }),
{
    lemma_chars_in_utf16(s, pos);
    lemma_offset_of_char(s, chars_in_utf16(s, pos) as int);
}

/// Going from a byte offset to a UTF-16 position and back gives the offset, for
/// every offset between two characters of the text.
pub proof fn law_byte_utf16_round_trip(s: Seq<char>, b: int)
    requires
        0 <= b,
        is_utf8_boundary(s, b),
    ensures
        ({
            let pos = utf16_len(s.take(chars_in_utf8(s, b) as int)) as int;
            &&& is_utf16_boundary(s, pos)
            &&& utf8_len(head_at_utf16(s, pos)) == b
        }),
{
    lemma_chars_in_utf8(s, b);
    lemma_offset_of_char(s, chars_in_utf8(s, b) as int);
}

} // verus!
