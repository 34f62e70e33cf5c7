//! UTF-8 around ASCII bytes: a text may be cut before and after an ASCII
//! byte, and stays valid when an ASCII byte is taken out.
//!
//! Every delimiter of the format is an ASCII byte, so every payload that the
//! parser cuts from a text is itself a text.

use vstd::prelude::*;
use vstd::utf8::{
    is_char_boundary,
    is_char_boundary_iff_not_is_continuation_byte,
    is_char_boundary_start_end_of_seq,
    length_of_first_scalar,
    pop_first_scalar,
    valid_utf8,
    valid_utf8_concat,
    valid_utf8_split,
};

verus! {

/// A byte that encodes a character by itself.
pub open spec fn is_ascii_byte(b: u8) -> bool {
    b <= 0x7F
}

/// A text may be cut before an ASCII byte.
pub proof fn lemma_boundary_at_ascii(bytes: Seq<u8>, i: int)
    requires
        valid_utf8(bytes),
        0 <= i < bytes.len(),
        is_ascii_byte(bytes[i]),
    ensures
        is_char_boundary(bytes, i),
{
    is_char_boundary_iff_not_is_continuation_byte(bytes, i);
}

/// A text may be cut after an ASCII byte.
pub proof fn lemma_boundary_after_ascii(bytes: Seq<u8>, i: int)
    requires
        valid_utf8(bytes),
        0 <= i < bytes.len(),
        is_ascii_byte(bytes[i]),
    ensures
        is_char_boundary(bytes, i + 1),
    decreases bytes.len(),
{
    reveal_with_fuel(is_char_boundary, 2);
    if i >= length_of_first_scalar(bytes) {
        lemma_boundary_after_ascii(pop_first_scalar(bytes), i - length_of_first_scalar(bytes));
    }
}

/// The part of a text between two places where it may be cut is a text.
pub proof fn lemma_text_between(bytes: Seq<u8>, start: int, end: int)
    requires
        valid_utf8(bytes),
        0 <= start <= end <= bytes.len(),
        is_char_boundary(bytes, start),
        is_char_boundary(bytes, end),
    ensures
        valid_utf8(bytes.subrange(start, end)),
        is_char_boundary(bytes.subrange(0, end), start),
{
    valid_utf8_split(bytes, end);
    let head = bytes.subrange(0, end);
    lemma_boundary_in_head(bytes, start, end);
    valid_utf8_split(head, start);
    assert(head.subrange(start, end) =~= bytes.subrange(start, end));
}

/// A place where a text may be cut is one where its head up to a later such
/// place may be cut.
proof fn lemma_boundary_in_head(bytes: Seq<u8>, start: int, end: int)
    requires
        valid_utf8(bytes),
        0 <= start <= end <= bytes.len(),
        is_char_boundary(bytes, start),
        is_char_boundary(bytes, end),
    ensures
        is_char_boundary(bytes.subrange(0, end), start),
{
    valid_utf8_split(bytes, end);
    let head = bytes.subrange(0, end);
    if start == end {
        is_char_boundary_start_end_of_seq(head);
    } else {
        is_char_boundary_iff_not_is_continuation_byte(bytes, start);
        is_char_boundary_iff_not_is_continuation_byte(head, start);
    }
}

/// A text with one of its ASCII bytes taken out is a text.
pub proof fn lemma_without_ascii(bytes: Seq<u8>, i: int)
    requires
        valid_utf8(bytes),
        0 <= i < bytes.len(),
        is_ascii_byte(bytes[i]),
    ensures
        valid_utf8(bytes.subrange(0, i) + bytes.subrange(i + 1, bytes.len() as int)),
{
    lemma_boundary_at_ascii(bytes, i);
    lemma_boundary_after_ascii(bytes, i);
    valid_utf8_split(bytes, i);
    valid_utf8_split(bytes, i + 1);
    valid_utf8_concat(bytes.subrange(0, i), bytes.subrange(i + 1, bytes.len() as int));
}

} // verus!
