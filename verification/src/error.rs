//! What a parse can fail with. Every failure is final and carries the offset
//! into the minified buffer at which it was found.

use vstd::prelude::*;

verus! {

/// The kinds of failure.
#[derive(Clone, Copy, Debug, PartialEq, Eq)]
pub enum FdonErrorKind {
    /// The input ends where a value's tag byte is due.
    UnexpectedEof,
    /// A byte other than `expected` stands where `expected` is due; `found`
    /// is `None` at the end of the input.
    Expected { expected: u8, found: Option<u8> },
    /// The byte at a value's start is no tag.
    UnknownTag { tag: u8 },
    /// `B` is followed by neither `true` nor `false`.
    InvalidBoolean,
    /// A number has no bytes.
    EmptyNumber,
    /// A number without `.` is no decimal integer, or is out of the range of
    /// a signed 64-bit integer.
    InvalidInteger,
    /// A number with `.` is no decimal float.
    InvalidFloat,
    /// The input ends before the `:` that closes a key.
    UnterminatedKey,
    /// The input ends before the `"` that closes a raw string.
    UnterminatedString,
    /// The input ends before the `"` that closes an escaped string.
    UnterminatedEscapedString,
    /// The input ends right after a backslash in an escaped string.
    EofAfterEscape,
    /// A `,` in an object is followed by `}`.
    TrailingCommaInObject,
    /// A `,` in an array is followed by `]`.
    TrailingCommaInArray,
    /// An entry of an object is followed by neither `,` nor `}`.
    MissingCommaInObject,
    /// An element of an array is followed by neither `,` nor `]`.
    MissingCommaInArray,
    /// Bytes follow the top-level value.
    ExtraData,
}

/// A failure of a parse.
#[derive(Clone, Copy, Debug, PartialEq, Eq)]
pub struct FdonParseError {
    pub kind: FdonErrorKind,
    /// The offset into the minified buffer at which the fault was found.
    pub offset: usize,
}

/// A failure in a contract: the kind and the offset.
pub type Fault = (FdonErrorKind, int);

/// The words for a kind of failure. The bytes that `Expected` and
/// `UnknownTag` carry are not part of them.
pub open spec fn message_of(kind: FdonErrorKind) -> Seq<char> {
    match kind {
        FdonErrorKind::UnexpectedEof => "Unexpected EOF"@,
        FdonErrorKind::Expected { .. } => "Unexpected byte"@,
        FdonErrorKind::UnknownTag { .. } => "Unknown data type specifier"@,
        FdonErrorKind::InvalidBoolean => "Invalid boolean value"@,
        FdonErrorKind::EmptyNumber => "Empty number value"@,
        FdonErrorKind::InvalidInteger => "Invalid integer format or out of range"@,
        FdonErrorKind::InvalidFloat => "Invalid float format"@,
        FdonErrorKind::UnterminatedKey => "EOF while reading key (':' not found)"@,
        FdonErrorKind::UnterminatedString => "EOF while reading string ('\"' not found)"@,
        FdonErrorKind::UnterminatedEscapedString => "EOF while reading escaped string ('\"' not found)"@,
        FdonErrorKind::EofAfterEscape => "EOF after escape character '\\'"@,
        FdonErrorKind::TrailingCommaInObject => "Trailing comma detected in object"@,
        FdonErrorKind::TrailingCommaInArray => "Trailing comma detected in array"@,
        FdonErrorKind::MissingCommaInObject => "Missing comma or '}' in object"@,
        FdonErrorKind::MissingCommaInArray => "Missing comma or ']' in array"@,
        FdonErrorKind::ExtraData => "Extra data detected at end of file"@,
    }
}

impl FdonErrorKind {
    /// The words for this kind of failure.
    pub fn message(&self) -> (text: &'static str)
        ensures
            text@ == message_of(*self),
    {
        match self {
            FdonErrorKind::UnexpectedEof => "Unexpected EOF",
            FdonErrorKind::Expected { .. } => "Unexpected byte",
            FdonErrorKind::UnknownTag { .. } => "Unknown data type specifier",
            FdonErrorKind::InvalidBoolean => "Invalid boolean value",
            FdonErrorKind::EmptyNumber => "Empty number value",
            FdonErrorKind::InvalidInteger => "Invalid integer format or out of range",
            FdonErrorKind::InvalidFloat => "Invalid float format",
            FdonErrorKind::UnterminatedKey => "EOF while reading key (':' not found)",
            FdonErrorKind::UnterminatedString => "EOF while reading string ('\"' not found)",
            FdonErrorKind::UnterminatedEscapedString => "EOF while reading escaped string ('\"' not found)",
            FdonErrorKind::EofAfterEscape => "EOF after escape character '\\'",
            FdonErrorKind::TrailingCommaInObject => "Trailing comma detected in object",
            FdonErrorKind::TrailingCommaInArray => "Trailing comma detected in array",
            FdonErrorKind::MissingCommaInObject => "Missing comma or '}' in object",
            FdonErrorKind::MissingCommaInArray => "Missing comma or ']' in array",
            FdonErrorKind::ExtraData => "Extra data detected at end of file",
        }
    }
}

/// The longest text that a diagnostic shows whole, and the width of the
/// window that it cuts from a longer one.
pub const WINDOW: usize = 100;

/// The part of a buffer that a diagnostic shows: the bytes from `start` to
/// `end`, and the column of the caret under them.
#[derive(Clone, Copy, Debug, PartialEq, Eq)]
pub struct Excerpt {
    pub start: usize,
    pub end: usize,
    pub caret: usize,
    /// Whether the bytes shown are only a part of the buffer.
    pub cut: bool,
}

/// The excerpt for a fault at `offset` in a buffer of `len` bytes: the whole
/// buffer where it has at most `WINDOW` bytes, else up to `WINDOW` bytes that
/// start half a window before the offset.
pub open spec fn excerpt_of(len: int, offset: int) -> Excerpt {
    if len <= WINDOW {
        Excerpt { start: 0, end: len as usize, caret: offset as usize, cut: false }
    } else {
        let start = if offset > WINDOW / 2 {
            offset - WINDOW / 2
        } else {
            0
        };
        let end = if start + WINDOW < len {
            start + WINDOW
        } else {
            len
        };
        Excerpt {
            start: start as usize,
            end: end as usize,
            caret: (offset - start) as usize,
            cut: true,
        }
    }
}

/// The window of a buffer around the offset of a fault, with the caret's
/// column.
pub fn excerpt(len: usize, offset: usize) -> (r: Excerpt)
    requires
        offset <= len,
    ensures
        r == excerpt_of(len as int, offset as int),
        r.start <= r.end <= len,
        r.start <= offset,
        r.caret == offset - r.start,
        r.end - r.start <= WINDOW,
{
    if len <= WINDOW {
        Excerpt { start: 0, end: len, caret: offset, cut: false }
    } else {
        let start: usize = if offset > WINDOW / 2 {
            offset - WINDOW / 2
        } else {
            0
        };
        let end: usize = if len - start > WINDOW {
            start + WINDOW
        } else {
            len
        };
        Excerpt { start, end, caret: offset - start, cut: true }
    }
}

} // verus!
