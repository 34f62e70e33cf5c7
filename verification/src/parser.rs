//! The parser: one pass over a minified text, by recursive descent.
//!
//! Every method reads what the grammar says stands at the cursor, and leaves
//! the cursor after it. A fault ends the parse: nothing is recovered and no
//! part of a tree is returned.

use vstd::prelude::*;
use vstd::string::StringSliceAdditionalSpecFns;
use vstd::utf8::{
    encode_utf8_valid_utf8,
    is_char_boundary,
    is_char_boundary_start_end_of_seq,
    valid_utf8,
};
use crate::bytes::{
    BACKSLASH,
    CLOSE_BRACE,
    CLOSE_BRACKET,
    COLON,
    COMMA,
    OPEN_BRACE,
    OPEN_BRACKET,
    QUOTE,
};
use crate::error::{Fault, FdonErrorKind, FdonParseError};
use crate::facts::{borrows_from, lemma_value_borrows};
use crate::grammar::{
    array_at,
    array_items,
    boolean_at,
    document,
    document_from,
    escaped_run,
    escaped_string_at,
    expect_fault,
    has_byte,
    key_at,
    lemma_fault_within,
    lemma_value_extent,
    number_at,
    object_at,
    object_items,
    raw_string_at,
    unescaped,
    value_at,
    Parsed,
};
use crate::number::{decode_number, FdonNumber};
use crate::scan::{find, find_any2, find_any3, lemma_first_of3};
use crate::utf8::{
    is_ascii_byte,
    lemma_boundary_after_ascii,
    lemma_boundary_at_ascii,
    lemma_text_between,
};
use crate::value::{
    list_nodes,
    map_nodes,
    new_hasher,
    string_bytes,
    text_new,
    text_push,
    text_push_str,
    FdonValue,
    Node,
    ValueList,
    ValueMap,
};

verus! {

/// The byte that a backslash and `b` stand for: a line feed for `n`, a tab
/// for `t`, a carriage return for `r`, and `b` itself for any other byte.
pub fn unescape(b: u8) -> (r: u8)
    ensures
        r == unescaped(b),
{
    if b == 0x6E {
        0x0A
    } else if b == 0x74 {
        0x09
    } else if b == 0x72 {
        0x0D
    } else {
        b
    }
}

/// The part of `text` from `start` to `end`, two places where it may be cut.
fn slice_text<'a>(text: &'a str, start: usize, end: usize) -> (part: &'a str)
    requires
        start <= end <= text.spec_bytes().len(),
        is_char_boundary(text.spec_bytes(), start as int),
        is_char_boundary(text.spec_bytes(), end as int),
    ensures
        part.spec_bytes() == text.spec_bytes().subrange(start as int, end as int),
{
    proof {
        encode_utf8_valid_utf8(text@);
        lemma_text_between(text.spec_bytes(), start as int, end as int);
    }
    let (head, _) = text.split_at(end);
    let (_, part) = head.split_at(start);
    assert(part.spec_bytes() =~= text.spec_bytes().subrange(start as int, end as int));
    part
}

/// A cursor over a minified text, with the arena that the tree is built in.
/// The cursor never stands inside the encoding of a character.
pub struct FdonParser<'a, 'bump> {
    text: &'a str,
    data: &'a [u8],
    index: usize,
    arena: &'bump bumpalo::Bump,
}

/// `r` is what `expected` says, and the cursor is left at `position` as
/// `expected` says: the thing read, whose model under `model` is the expected
/// one, with the cursor after it, or the fault, with the cursor where the
/// fault leaves it.
pub open spec fn yields<T, M>(
    r: Result<T, FdonParseError>,
    position: int,
    expected: Parsed<M>,
    model: spec_fn(T) -> M,
) -> bool {
    match expected {
        Ok((m, end)) => r is Ok && model(r->Ok_0) == m && position == end,
        Err((kind, at, stop)) => r is Err && r->Err_0.kind == kind && r->Err_0.offset == at
            && position == stop,
    }
}

/// `r` is the tree or the fault that `expected` says.
pub open spec fn delivers<'a, 'bump>(
    r: Result<FdonValue<'a, 'bump>, FdonParseError>,
    expected: Result<Node, Fault>,
) -> bool {
    match expected {
        Ok(node) => r is Ok && r->Ok_0@ == node,
        Err((kind, at)) => r is Err && r->Err_0.kind == kind && r->Err_0.offset == at,
    }
}

impl<'a, 'bump> FdonParser<'a, 'bump> {
    #[verifier::type_invariant]
    spec fn within(self) -> bool {
        &&& self.data@ == self.text.spec_bytes()
        &&& self.index <= self.data@.len()
        &&& is_char_boundary(self.data@, self.index as int)
    }

    /// The bytes of the text that the parser reads.
    pub closed spec fn input(&self) -> Seq<u8> {
        self.data@
    }

    /// The cursor: the offset of the next byte to read.
    pub closed spec fn position(&self) -> int {
        self.index as int
    }

    /// A parser at the start of `input`, which builds its tree in `arena`.
    pub fn new(input: &'a str, arena: &'bump bumpalo::Bump) -> (parser: Self)
        ensures
            parser.input() == input.spec_bytes(),
            parser.position() == 0,
    {
        proof {
            encode_utf8_valid_utf8(input@);
            is_char_boundary_start_end_of_seq(input.spec_bytes());
        }
        FdonParser { text: input, data: input.as_bytes(), index: 0, arena }
    }

    /// The byte at the cursor, or `None` at the end of the input.
    pub fn peek(&self) -> (r: Option<u8>)
        ensures
            self.position() <= self.input().len(),
            r == (if self.position() < self.input().len() {
                Some(self.input()[self.position()])
            } else {
                None
            }),
    {
        proof {
            use_type_invariant(self);
        }
        if self.index < self.data.len() {
            Some(self.data[self.index])
        } else {
            None
        }
    }

    /// Moves the cursor over one byte. The byte is an ASCII byte: every tag
    /// and delimiter of the format is, and after any other byte the cursor
    /// would stand inside a character.
    fn advance(&mut self)
        requires
            old(self).position() < old(self).input().len(),
            is_ascii_byte(old(self).input()[old(self).position()]),
        ensures
            final(self).input() == old(self).input(),
            final(self).position() == old(self).position() + 1,
    {
        proof {
            use_type_invariant(&*self);
            encode_utf8_valid_utf8(self.text@);
            lemma_boundary_after_ascii(self.data@, self.index as int);
        }
        assert(self.index < self.data.len());
        self.index += 1;
    }

    /// Whether the byte at the cursor is `b`.
    fn at(&self, b: u8) -> (r: bool)
        ensures
            r == has_byte(self.input(), self.position(), b),
            self.position() <= self.input().len(),
    {
        proof {
            use_type_invariant(self);
        }
        self.index < self.data.len() && self.data[self.index] == b
    }

    /// Reads `expected`, or fails where another byte or the end stands, and
    /// then leaves the cursor where it is. `expected` is an ASCII byte, as
    /// every delimiter of the format is: the cursor moves over no other byte.
    fn consume(&mut self, expected: u8) -> (r: Result<(), FdonParseError>)
        requires
            is_ascii_byte(expected),
        ensures
            final(self).input() == old(self).input(),
            r is Ok <==> has_byte(old(self).input(), old(self).position(), expected),
            r is Ok ==> final(self).position() == old(self).position() + 1,
            r matches Err(fault) ==> fault.kind == expect_fault(
                old(self).input(),
                old(self).position(),
                expected,
            ).0 && fault.offset == old(self).position() && final(self).position() == old(self).position(),
    {
        let found = self.peek();
        if self.at(expected) {
            self.advance();
            Ok(())
        } else {
            Err(
                FdonParseError {
                    kind: FdonErrorKind::Expected { expected, found },
                    offset: self.index,
                },
            )
        }
    }

    /// Reads one document: a value, and nothing after it. The cursor is left
    /// at the end of the input, or where the fault leaves it.
    pub fn parse(&mut self) -> (r: Result<FdonValue<'a, 'bump>, FdonParseError>)
        ensures
            final(self).input() == old(self).input(),
            yields(
                r,
                final(self).position(),
                document_from(old(self).input(), old(self).position()),
                |v: FdonValue<'a, 'bump>| v@,
            ),
            r matches Ok(value) ==> borrows_from(value@, old(self).input()),
            r matches Err(fault) ==> fault.offset <= old(self).input().len(),
    {
        proof {
            use_type_invariant(&*self);
            lemma_value_borrows(self.input(), self.position());
            lemma_fault_within(self.input(), self.position());
            lemma_value_extent(self.input(), self.position());
        }
        let value = match self.parse_value() {
            Ok(value) => value,
            Err(fault) => {
                return Err(fault);
            },
        };
        proof {
            use_type_invariant(&*self);
        }
        if self.index != self.data.len() {
            Err(FdonParseError { kind: FdonErrorKind::ExtraData, offset: self.index })
        } else {
            Ok(value)
        }
    }

    /// Reads the value whose tag byte stands at the cursor.
    pub fn parse_value(&mut self) -> (r: Result<FdonValue<'a, 'bump>, FdonParseError>)
        ensures
            final(self).input() == old(self).input(),
            yields(
                r,
                final(self).position(),
                value_at(old(self).input(), old(self).position()),
                |v: FdonValue<'a, 'bump>| v@,
            ),
        decreases old(self).input().len() - old(self).position(), 0int,
    {
        let tag = match self.peek() {
            Some(tag) => tag,
            None => {
                return Err(
                    FdonParseError { kind: FdonErrorKind::UnexpectedEof, offset: self.index },
                );
            },
        };
        if tag == 0x4F {
            self.advance();
            self.parse_object()
        } else if tag == 0x41 {
            self.advance();
            self.parse_array()
        } else if tag == 0x53 {
            self.advance();
            if self.at(0x45) {
                self.advance();
                self.parse_escaped_string()
            } else {
                match self.parse_raw_string() {
                    Ok(text) => Ok(FdonValue::RawString(text)),
                    Err(fault) => Err(fault),
                }
            }
        } else if tag == 0x44 {
            self.advance();
            match self.parse_raw_string() {
                Ok(text) => Ok(FdonValue::Date(text)),
                Err(fault) => Err(fault),
            }
        } else if tag == 0x54 {
            self.advance();
            if self.at(QUOTE) {
                match self.parse_raw_string() {
                    Ok(text) => Ok(FdonValue::Time(text)),
                    Err(fault) => Err(fault),
                }
            } else {
                match self.parse_number_internal() {
                    Ok(n) => Ok(FdonValue::Timestamp(n)),
                    Err(fault) => Err(fault),
                }
            }
        } else if tag == 0x4E {
            self.advance();
            match self.parse_number_internal() {
                Ok(n) => Ok(FdonValue::Number(n)),
                Err(fault) => Err(fault),
            }
        } else if tag == 0x42 {
            self.advance();
            self.parse_boolean()
        } else if tag == 0x55 {
            self.advance();
            Ok(FdonValue::Null)
        } else {
            Err(FdonParseError { kind: FdonErrorKind::UnknownTag { tag }, offset: self.index })
        }
    }

    /// Reads an object from its `{` on.
    pub fn parse_object(&mut self) -> (r: Result<FdonValue<'a, 'bump>, FdonParseError>)
        ensures
            final(self).input() == old(self).input(),
            yields(
                r,
                final(self).position(),
                object_at(old(self).input(), old(self).position()),
                |v: FdonValue<'a, 'bump>| v@,
            ),
        decreases old(self).input().len() - old(self).position(), 2int,
    {
        let hasher = new_hasher();
        let mut entries = ValueMap::with_hasher_in(hasher, self.arena);
        match self.consume(OPEN_BRACE) {
            Ok(()) => {},
            Err(fault) => {
                return Err(fault);
            },
        }
        if self.at(CLOSE_BRACE) {
            self.advance();
            return Ok(FdonValue::Object(entries));
        }
        loop
            invariant
                self.input() == old(self).input(),
                old(self).position() < self.position() <= self.input().len(),
                object_items(self.input(), self.position(), map_nodes(&entries)) == object_at(
                    old(self).input(),
                    old(self).position(),
                ),
            decreases self.input().len() - self.position(),
        {
            proof {
                lemma_first_of3(self.input(), self.position(), COLON, COLON, COLON);
            }
            let key = match self.parse_key() {
                Ok(key) => key,
                Err(fault) => {
                    return Err(fault);
                },
            };
            match self.consume(COLON) {
                Ok(()) => {},
                Err(fault) => {
                    return Err(fault);
                },
            }
            proof {
                lemma_value_extent(self.input(), self.position());
            }
            let value = match self.parse_value() {
                Ok(value) => value,
                Err(fault) => {
                    return Err(fault);
                },
            };
            entries.insert(key, value);
            if self.at(COMMA) {
                self.advance();
                if self.at(CLOSE_BRACE) {
                    return Err(
                        FdonParseError {
                            kind: FdonErrorKind::TrailingCommaInObject,
                            offset: self.index,
                        },
                    );
                }
            } else if self.at(CLOSE_BRACE) {
                self.advance();
                return Ok(FdonValue::Object(entries));
            } else {
                return Err(
                    FdonParseError { kind: FdonErrorKind::MissingCommaInObject, offset: self.index },
                );
            }
        }
    }

    /// Reads a key: the text up to the next `:`, which is left unread.
    pub fn parse_key(&mut self) -> (r: Result<&'a str, FdonParseError>)
        ensures
            final(self).input() == old(self).input(),
            yields(
                r,
                final(self).position(),
                key_at(old(self).input(), old(self).position()),
                |t: &'a str| t.spec_bytes(),
            ),
    {
        proof {
            use_type_invariant(&*self);
            encode_utf8_valid_utf8(self.text@);
        }
        let text: &'a str = self.text;
        let start = self.index;
        match find(self.data, start, COLON) {
            Some(end) => {
                proof {
                    lemma_boundary_at_ascii(self.data@, end as int);
                }
                self.index = end;
                Ok(slice_text(text, start, end))
            },
            None => Err(FdonParseError { kind: FdonErrorKind::UnterminatedKey, offset: start }),
        }
    }

    /// Reads an array from its `[` on.
    pub fn parse_array(&mut self) -> (r: Result<FdonValue<'a, 'bump>, FdonParseError>)
        ensures
            final(self).input() == old(self).input(),
            yields(
                r,
                final(self).position(),
                array_at(old(self).input(), old(self).position()),
                |v: FdonValue<'a, 'bump>| v@,
            ),
        decreases old(self).input().len() - old(self).position(), 2int,
    {
        let mut items = ValueList::new_in(self.arena);
        match self.consume(OPEN_BRACKET) {
            Ok(()) => {},
            Err(fault) => {
                return Err(fault);
            },
        }
        if self.at(CLOSE_BRACKET) {
            self.advance();
            return Ok(FdonValue::Array(items));
        }
        loop
            invariant
                self.input() == old(self).input(),
                old(self).position() < self.position() <= self.input().len(),
                array_items(self.input(), self.position(), list_nodes(&items)) == array_at(
                    old(self).input(),
                    old(self).position(),
                ),
            decreases self.input().len() - self.position(),
        {
            proof {
                lemma_value_extent(self.input(), self.position());
            }
            let value = match self.parse_value() {
                Ok(value) => value,
                Err(fault) => {
                    return Err(fault);
                },
            };
            items.push(value);
            if self.at(COMMA) {
                self.advance();
                if self.at(CLOSE_BRACKET) {
                    return Err(
                        FdonParseError {
                            kind: FdonErrorKind::TrailingCommaInArray,
                            offset: self.index,
                        },
                    );
                }
            } else if self.at(CLOSE_BRACKET) {
                self.advance();
                return Ok(FdonValue::Array(items));
            } else {
                return Err(
                    FdonParseError { kind: FdonErrorKind::MissingCommaInArray, offset: self.index },
                );
            }
        }
    }

    /// Reads a raw string: `"`, then the text up to the next `"`, borrowed
    /// from the input as it is.
    pub fn parse_raw_string(&mut self) -> (r: Result<&'a str, FdonParseError>)
        ensures
            final(self).input() == old(self).input(),
            yields(
                r,
                final(self).position(),
                raw_string_at(old(self).input(), old(self).position()),
                |t: &'a str| t.spec_bytes(),
            ),
    {
        match self.consume(QUOTE) {
            Ok(()) => {},
            Err(fault) => {
                return Err(fault);
            },
        }
        proof {
            use_type_invariant(&*self);
            encode_utf8_valid_utf8(self.text@);
        }
        let text: &'a str = self.text;
        let start = self.index;
        match find(self.data, start, QUOTE) {
            Some(end) => {
                proof {
                    lemma_boundary_at_ascii(self.data@, end as int);
                    lemma_boundary_after_ascii(self.data@, end as int);
                }
                assert(end < self.data.len());
                self.index = end + 1;
                Ok(slice_text(text, start, end))
            },
            None => Err(FdonParseError { kind: FdonErrorKind::UnterminatedString, offset: start }),
        }
    }

    /// Reads an escaped string: `"`, then its contents, decoded into a string
    /// of the arena run by run. A byte after a backslash that is no ASCII
    /// byte stands for itself, so it is left to open the next run. The cursor
    /// moves on only when the closing `"` is read.
    pub fn parse_escaped_string(&mut self) -> (r: Result<FdonValue<'a, 'bump>, FdonParseError>)
        ensures
            final(self).input() == old(self).input(),
            yields(
                r,
                final(self).position(),
                wrap_escaped(escaped_string_at(old(self).input(), old(self).position())),
                |v: FdonValue<'a, 'bump>| v@,
            ),
    {
        match self.consume(QUOTE) {
            Ok(()) => {},
            Err(fault) => {
                return Err(fault);
            },
        }
        proof {
            use_type_invariant(&*self);
            encode_utf8_valid_utf8(self.text@);
        }
        let mut buffer = text_new(self.arena);
        let text: &'a str = self.text;
        let data: &'a [u8] = self.data;
        let ghost opened = self.position();
        // The run that is copied next starts at `run`; the search for its end
        // starts at `from`, one byte later where a byte that stands for itself
        // opens the run.
        let mut run: usize = self.index;
        let mut from: usize = self.index;
        loop
            invariant
                data@ == self.input(),
                data@ == text.spec_bytes(),
                self.input() == self.text.spec_bytes(),
                valid_utf8(data@),
                self.input() == old(self).input(),
                run <= from <= data@.len(),
                from <= run + 1,
                is_char_boundary(data@, run as int),
                run < from ==> data@[run as int] != BACKSLASH && data@[run as int] != QUOTE,
                has_byte(old(self).input(), old(self).position(), QUOTE),
                opened == old(self).position() + 1,
                self.position() == opened,
                escaped_run(
                    data@,
                    from as int,
                    string_bytes(&buffer) + data@.subrange(run as int, from as int),
                ) == escaped_run(data@, opened, Seq::empty()),
            decreases data@.len() - from,
        {
            let hit = match find_any2(data, from, BACKSLASH, QUOTE) {
                Some(hit) => hit,
                None => {
                    return Err(
                        FdonParseError {
                            kind: FdonErrorKind::UnterminatedEscapedString,
                            offset: from,
                        },
                    );
                },
            };
            proof {
                lemma_boundary_at_ascii(data@, hit as int);
                lemma_boundary_after_ascii(data@, hit as int);
            }
            let ghost written = string_bytes(&buffer);
            if run < hit {
                text_push_str(&mut buffer, slice_text(text, run, hit));
            }
            assert(string_bytes(&buffer) =~= written + data@.subrange(run as int, from as int)
                + data@.subrange(from as int, hit as int));
            assert(hit < data.len());
            if data[hit] == QUOTE {
                self.index = hit + 1;
                return Ok(FdonValue::EscapedString(buffer));
            }
            if hit + 1 >= data.len() {
                return Err(
                    FdonParseError { kind: FdonErrorKind::EofAfterEscape, offset: hit + 1 },
                );
            }
            let escaped = data[hit + 1];
            if escaped <= 0x7F {
                proof {
                    lemma_boundary_after_ascii(data@, hit + 1);
                }
                text_push(&mut buffer, unescape(escaped));
                run = hit + 2;
                assert(string_bytes(&buffer) + data@.subrange(run as int, run as int)
                    =~= string_bytes(&buffer));
            } else {
                run = hit + 1;
                assert(string_bytes(&buffer) + data@.subrange(run as int, run + 1)
                    =~= string_bytes(&buffer).push(unescaped(escaped)));
            }
            from = hit + 2;
        }
    }

    /// Reads a number: the text up to the next `,`, `}` or `]`, or to the
    /// end.
    pub fn parse_number_internal(&mut self) -> (r: Result<FdonNumber<'a>, FdonParseError>)
        ensures
            final(self).input() == old(self).input(),
            yields(
                r,
                final(self).position(),
                number_at(old(self).input(), old(self).position()),
                |n: FdonNumber<'a>| n@,
            ),
    {
        proof {
            use_type_invariant(&*self);
            encode_utf8_valid_utf8(self.text@);
        }
        let text: &'a str = self.text;
        let start = self.index;
        let end = match find_any3(self.data, start, COMMA, CLOSE_BRACE, CLOSE_BRACKET) {
            Some(end) => {
                proof {
                    lemma_boundary_at_ascii(self.data@, end as int);
                }
                end
            },
            None => {
                proof {
                    is_char_boundary_start_end_of_seq(self.data@);
                }
                self.data.len()
            },
        };
        self.index = end;
        match decode_number(slice_text(text, start, end)) {
            Ok(n) => Ok(n),
            Err(kind) => Err(FdonParseError { kind, offset: start }),
        }
    }

    /// Reads `true` or `false`.
    pub fn parse_boolean(&mut self) -> (r: Result<FdonValue<'a, 'bump>, FdonParseError>)
        ensures
            final(self).input() == old(self).input(),
            yields(
                r,
                final(self).position(),
                wrap_bool(boolean_at(old(self).input(), old(self).position())),
                |v: FdonValue<'a, 'bump>| v@,
            ),
    {
        proof {
            use_type_invariant(&*self);
            encode_utf8_valid_utf8(self.text@);
        }
        let data: &'a [u8] = self.data;
        let i = self.index;
        let left = data.len() - i;
        if left >= 4 && data[i] == 0x74 && data[i + 1] == 0x72 && data[i + 2] == 0x75 && data[i + 3]
            == 0x65 {
            proof {
                lemma_boundary_after_ascii(data@, i + 3);
            }
            self.index = i + 4;
            Ok(FdonValue::Bool(true))
        } else if left >= 5 && data[i] == 0x66 && data[i + 1] == 0x61 && data[i + 2] == 0x6C
            && data[i + 3] == 0x73 && data[i + 4] == 0x65 {
            proof {
                lemma_boundary_after_ascii(data@, i + 4);
            }
            self.index = i + 5;
            Ok(FdonValue::Bool(false))
        } else {
            Err(FdonParseError { kind: FdonErrorKind::InvalidBoolean, offset: i })
        }
    }
}

/// The bytes of an escaped string as a value.
pub open spec fn wrap_escaped(parsed: Parsed<Seq<u8>>) -> Parsed<Node> {
    crate::grammar::wrap(parsed, |t: Seq<u8>| Node::EscapedString(t))
}

/// A boolean as a value.
pub open spec fn wrap_bool(parsed: Parsed<bool>) -> Parsed<Node> {
    crate::grammar::wrap(parsed, |b: bool| Node::Bool(b))
}

/// Parses a minified document into a tree that borrows from `minified_data`
/// and is stored in `arena`.
pub fn parse_fdon_zero_copy_arena<'a, 'bump>(
    minified_data: &'a str,
    arena: &'bump bumpalo::Bump,
) -> (r: Result<FdonValue<'a, 'bump>, FdonParseError>)
    ensures
        delivers(r, document(minified_data.spec_bytes())),
        r matches Ok(value) ==> borrows_from(value@, minified_data.spec_bytes()),
        r matches Err(fault) ==> fault.offset <= minified_data.spec_bytes().len(),
{
    let mut parser = FdonParser::new(minified_data, arena);
    parser.parse()
}

} // verus!
