//! Number literals: a literal with a `.` is a float, any other an integer.
//!
//! An integer is an optional sign and one or more decimal digits, and must fit
//! a signed 64-bit integer. A float is an optional sign, digits, `.`, digits,
//! with at least one digit before or after the `.`, and an optional exponent
//! `e` or `E` with an optional sign and one or more digits. A float keeps its
//! text: the library holds the literal, and its caller turns it into a binary
//! float.

use vstd::prelude::*;
use vstd::string::StringSliceAdditionalSpecFns;
use crate::bytes::DOT;
use crate::error::FdonErrorKind;
use crate::scan::{find, first_of};

verus! {

/// A decimal digit.
pub open spec fn is_digit(b: u8) -> bool {
    0x30 <= b <= 0x39
}

/// `+` or `-`.
pub open spec fn is_sign(b: u8) -> bool {
    b == 0x2B || b == 0x2D
}

/// The index at which the run of digits that starts at `from` ends.
pub open spec fn digits_end(s: Seq<u8>, from: int) -> int
    decreases s.len() - from,
{
    if 0 <= from < s.len() && is_digit(s[from]) {
        digits_end(s, from + 1)
    } else {
        from
    }
}

/// Where the digits start: after a sign, if there is one.
pub open spec fn digits_start(s: Seq<u8>) -> int {
    if s.len() > 0 && is_sign(s[0]) {
        1
    } else {
        0
    }
}

/// The number that a sequence of decimal digits denotes.
pub open spec fn digits_value(s: Seq<u8>) -> int
    decreases s.len(),
{
    if s.len() == 0 {
        0
    } else {
        10 * digits_value(s.drop_last()) + (s.last() - 0x30)
    }
}

/// An optional sign, then one or more digits up to the end.
pub open spec fn is_integer_literal(s: Seq<u8>) -> bool {
    digits_start(s) < s.len() && digits_end(s, digits_start(s)) == s.len()
}

/// The value of an integer literal.
pub open spec fn integer_value(s: Seq<u8>) -> int {
    let magnitude = digits_value(s.subrange(digits_start(s), s.len() as int));
    if s.len() > 0 && s[0] == 0x2D {
        -magnitude
    } else {
        magnitude
    }
}

/// `e` or `E` at `at`, an optional sign, then one or more digits up to the
/// end.
pub open spec fn is_exponent(s: Seq<u8>, at: int) -> bool {
    let digits = if at + 1 < s.len() && is_sign(s[at + 1]) {
        at + 2
    } else {
        at + 1
    };
    (s[at] == 0x65 || s[at] == 0x45) && digits < s.len() && digits_end(s, digits) == s.len()
}

/// An optional sign, digits, `.`, digits, an optional exponent; at least one
/// digit stands beside the `.`.
pub open spec fn is_float_literal(s: Seq<u8>) -> bool {
    let start = digits_start(s);
    let dot = digits_end(s, start);
    let fraction_end = digits_end(s, dot + 1);
    &&& dot < s.len()
    &&& s[dot] == DOT
    &&& (dot - start) + (fraction_end - (dot + 1)) >= 1
    &&& (fraction_end == s.len() || is_exponent(s, fraction_end))
}

/// The model of a number.
pub enum Num {
    Integer(int),
    /// The text of a float literal.
    Float(Seq<u8>),
}

/// A number: an integer, or a float as its text.
#[derive(Debug, PartialEq)]
pub enum FdonNumber<'a> {
    Integer(i64),
    /// The text of a float literal, borrowed from the minified text.
    Float(&'a str),
}

impl<'a> View for FdonNumber<'a> {
    type V = Num;

    open spec fn view(&self) -> Num {
        match self {
            FdonNumber::Integer(v) => Num::Integer(*v as int),
            FdonNumber::Float(text) => Num::Float(text.spec_bytes()),
        }
    }
}

/// What the number decoder makes of the bytes of a literal.
pub open spec fn number_of(text: Seq<u8>) -> Result<Num, FdonErrorKind> {
    if text.len() == 0 {
        Err(FdonErrorKind::EmptyNumber)
    } else if first_of(text, 0, DOT) < text.len() {
        if is_float_literal(text) {
            Ok(Num::Float(text))
        } else {
            Err(FdonErrorKind::InvalidFloat)
        }
    } else if is_integer_literal(text) && i64::MIN <= integer_value(text) <= i64::MAX {
        Ok(Num::Integer(integer_value(text)))
    } else {
        Err(FdonErrorKind::InvalidInteger)
    }
}

/// `atoi::atoi` at `i64`, on an integer literal: the literal's value, or
/// `None` where the value does not fit a signed 64-bit integer.
#[verifier::external_body]
fn decimal_i64(text: &[u8]) -> (r: Option<i64>)
    requires
        is_integer_literal(text@),
    ensures
        r == (if i64::MIN <= integer_value(text@) <= i64::MAX {
            Some(integer_value(text@) as i64)
        } else {
            None
        }),
{
    atoi::atoi::<i64>(text)
}

/// Whether `b` is a sign.
fn sign(b: u8) -> (r: bool)
    ensures
        r == is_sign(b),
{
    b == 0x2B || b == 0x2D
}

/// The end of the run of digits that starts at `from`.
fn skip_digits(text: &[u8], from: usize) -> (end: usize)
    requires
        from <= text@.len(),
    ensures
        end == digits_end(text@, from as int),
        from <= end <= text@.len(),
{
    let mut i: usize = from;
    while i < text.len() && 0x30 <= text[i] && text[i] <= 0x39
        invariant
            from <= i <= text@.len(),
            digits_end(text@, from as int) == digits_end(text@, i as int),
        decreases text@.len() - i,
    {
        i += 1;
    }
    i
}

/// Whether `text` is an integer literal.
pub fn integer_literal(text: &[u8]) -> (r: bool)
    ensures
        r == is_integer_literal(text@),
{
    let start: usize = if text.len() > 0 && sign(text[0]) {
        1
    } else {
        0
    };
    start < text.len() && skip_digits(text, start) == text.len()
}

/// Whether `text` is a float literal.
pub fn float_literal(text: &[u8]) -> (r: bool)
    ensures
        r == is_float_literal(text@),
{
    let start: usize = if text.len() > 0 && sign(text[0]) {
        1
    } else {
        0
    };
    let dot = skip_digits(text, start);
    if dot >= text.len() || text[dot] != DOT {
        return false;
    }
    let fraction_end = skip_digits(text, dot + 1);
    if (dot - start) + (fraction_end - (dot + 1)) < 1 {
        return false;
    }
    if fraction_end == text.len() {
        return true;
    }
    if text[fraction_end] != 0x65 && text[fraction_end] != 0x45 {
        return false;
    }
    let digits: usize = if fraction_end + 1 < text.len() && sign(text[fraction_end + 1]) {
        fraction_end + 2
    } else {
        fraction_end + 1
    };
    digits < text.len() && skip_digits(text, digits) == text.len()
}

/// Decodes a number literal.
pub fn decode_number<'a>(text: &'a str) -> (r: Result<FdonNumber<'a>, FdonErrorKind>)
    ensures
        match number_of(text.spec_bytes()) {
            Ok(n) => r is Ok && r->Ok_0@ == n,
            Err(kind) => r == Err::<FdonNumber<'a>, FdonErrorKind>(kind),
        },
{
    let bytes = text.as_bytes();
    if bytes.len() == 0 {
        return Err(FdonErrorKind::EmptyNumber);
    }
    if find(bytes, 0, DOT).is_some() {
        if float_literal(bytes) {
            Ok(FdonNumber::Float(text))
        } else {
            Err(FdonErrorKind::InvalidFloat)
        }
    } else if integer_literal(bytes) {
        match decimal_i64(bytes) {
            Some(v) => Ok(FdonNumber::Integer(v)),
            None => Err(FdonErrorKind::InvalidInteger),
        }
    } else {
        Err(FdonErrorKind::InvalidInteger)
    }
}

} // verus!
