//! The bytes that the format gives a meaning to.

use vstd::prelude::*;

verus! {

pub const QUOTE: u8 = 0x22;

pub const BACKSLASH: u8 = 0x5C;

pub const COMMA: u8 = 0x2C;

pub const COLON: u8 = 0x3A;

pub const DOT: u8 = 0x2E;

pub const OPEN_BRACE: u8 = 0x7B;

pub const CLOSE_BRACE: u8 = 0x7D;

pub const OPEN_BRACKET: u8 = 0x5B;

pub const CLOSE_BRACKET: u8 = 0x5D;

/// Space, tab, line feed or carriage return.
pub open spec fn is_whitespace(b: u8) -> bool {
    b == 0x20 || b == 0x09 || b == 0x0A || b == 0x0D
}

/// The tag letter of a raw string (`S`), a date (`D`) or a time (`T`).
pub open spec fn is_raw_tag(b: u8) -> bool {
    b == 0x53 || b == 0x44 || b == 0x54
}

/// Whether `b` is whitespace.
pub fn whitespace(b: u8) -> (r: bool)
    ensures
        r == is_whitespace(b),
{
    b == 0x20 || b == 0x09 || b == 0x0A || b == 0x0D
}

/// Whether `b` is the tag of a raw string, a date or a time.
pub fn raw_tag(b: u8) -> (r: bool)
    ensures
        r == is_raw_tag(b),
{
    b == 0x53 || b == 0x44 || b == 0x54
}

} // verus!
