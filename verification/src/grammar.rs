//! The grammar of a minified document, as functions from the bytes and a
//! position to what stands there: a value and the position after it, or the
//! fault that a parse stops with.
//!
//! ```text
//! value := 'U' | 'B' ('true' | 'false') | 'N' number
//!        | 'T' ( '"' raw '"' | number )
//!        | 'S' ( 'E' '"' escaped '"' | '"' raw '"' ) | 'D' '"' raw '"'
//!        | 'A' '[' (value (',' value)*)? ']'
//!        | 'O' '{' (key ':' value (',' key ':' value)*)? '}'
//! ```
//!
//! A number runs up to the next `,`, `}` or `]`, or to the end. A raw string
//! runs up to the next `"`, a key up to the next `:`; a key may hold any other
//! byte. An object keeps the last value of a key that occurs twice.

use vstd::prelude::*;
use crate::bytes::{
    BACKSLASH,
    CLOSE_BRACE,
    CLOSE_BRACKET,
    COLON,
    COMMA,
    OPEN_BRACE,
    OPEN_BRACKET,
    QUOTE,
};
use crate::error::{Fault, FdonErrorKind};
use crate::number::{number_of, Num};
use crate::scan::{first_of, first_of2, first_of3, lemma_first_of3};
use crate::value::Node;

verus! {

/// Where a reader stops on a fault: the kind, the offset of the fault, and
/// the position at which the cursor is left.
pub type Halt = (FdonErrorKind, int, int);

/// What stands at a position: the thing read and the position after it, or
/// the fault with the position at which the cursor is left.
pub type Parsed<T> = Result<(T, int), Halt>;

/// The byte `b` stands at `p`.
pub open spec fn has_byte(s: Seq<u8>, p: int, b: u8) -> bool {
    0 <= p < s.len() && s[p] == b
}

/// The fault of finding something else than `expected` at `p`: the cursor
/// stays at `p`.
pub open spec fn expect_fault(s: Seq<u8>, p: int, expected: u8) -> Halt {
    (
        FdonErrorKind::Expected {
            expected,
            found: if 0 <= p < s.len() {
                Some(s[p])
            } else {
                None
            },
        },
        p,
        p,
    )
}

/// A raw string: `"`, then the bytes up to the next `"`. Where none follows,
/// the cursor is left after the opening `"`.
pub open spec fn raw_string_at(s: Seq<u8>, p: int) -> Parsed<Seq<u8>> {
    if !has_byte(s, p, QUOTE) {
        Err(expect_fault(s, p, QUOTE))
    } else {
        let end = first_of(s, p + 1, QUOTE);
        if end >= s.len() {
            Err((FdonErrorKind::UnterminatedString, p + 1, p + 1))
        } else {
            Ok((s.subrange(p + 1, end), end + 1))
        }
    }
}

/// The byte that a backslash and `b` stand for.
pub open spec fn unescaped(b: u8) -> u8 {
    if b == 0x6E {
        0x0A
    } else if b == 0x74 {
        0x09
    } else if b == 0x72 {
        0x0D
    } else {
        b
    }
}

/// The rest of an escaped string from `from` on, with `written` decoded so
/// far: runs of plain bytes are copied, a backslash and the byte after it
/// give one byte, and the first `"` that no backslash precedes ends it.
pub open spec fn escaped_run(s: Seq<u8>, from: int, written: Seq<u8>) -> Result<
    (Seq<u8>, int),
    Fault,
>
    decreases s.len() - from,
    when 0 <= from <= s.len()
{
    let hit = first_of2(s, from, BACKSLASH, QUOTE);
    if hit >= s.len() {
        Err((FdonErrorKind::UnterminatedEscapedString, from))
    } else if s[hit] == QUOTE {
        Ok((written + s.subrange(from, hit), hit + 1))
    } else if hit + 1 >= s.len() {
        Err((FdonErrorKind::EofAfterEscape, hit + 1))
    } else {
        proof {
            lemma_first_of3(s, from, BACKSLASH, QUOTE, QUOTE);
        }
        escaped_run(s, hit + 2, (written + s.subrange(from, hit)).push(unescaped(s[hit + 1])))
    }
}

/// An escaped string: `"`, then its contents up to the closing `"`. On a
/// fault within the contents the cursor is left after the opening `"`.
pub open spec fn escaped_string_at(s: Seq<u8>, p: int) -> Parsed<Seq<u8>> {
    if !has_byte(s, p, QUOTE) {
        Err(expect_fault(s, p, QUOTE))
    } else {
        match escaped_run(s, p + 1, Seq::empty()) {
            Ok(read) => Ok(read),
            Err((kind, at)) => Err((kind, at, p + 1)),
        }
    }
}

/// A number: the bytes up to the next `,`, `}` or `]`, or to the end. The
/// cursor is left at that end, whether or not the bytes are a number; the
/// fault lies at their start.
pub open spec fn number_at(s: Seq<u8>, p: int) -> Parsed<Num> {
    let end = first_of3(s, p, COMMA, CLOSE_BRACE, CLOSE_BRACKET);
    match number_of(s.subrange(p, end)) {
        Ok(n) => Ok((n, end)),
        Err(kind) => Err((kind, p, end)),
    }
}

/// The bytes `true` stand at `p`.
pub open spec fn has_true(s: Seq<u8>, p: int) -> bool {
    0 <= p && p + 4 <= s.len() && s[p] == 0x74 && s[p + 1] == 0x72 && s[p + 2] == 0x75 && s[p + 3]
        == 0x65
}

/// The bytes `false` stand at `p`.
pub open spec fn has_false(s: Seq<u8>, p: int) -> bool {
    0 <= p && p + 5 <= s.len() && s[p] == 0x66 && s[p + 1] == 0x61 && s[p + 2] == 0x6C && s[p + 3]
        == 0x73 && s[p + 4] == 0x65
}

/// `true` or `false`. On a fault the cursor stays.
pub open spec fn boolean_at(s: Seq<u8>, p: int) -> Parsed<bool> {
    if has_true(s, p) {
        Ok((true, p + 4))
    } else if has_false(s, p) {
        Ok((false, p + 5))
    } else {
        Err((FdonErrorKind::InvalidBoolean, p, p))
    }
}

/// A key: the bytes up to the next `:`, which is left unread. Where none
/// follows, the cursor stays.
pub open spec fn key_at(s: Seq<u8>, p: int) -> Parsed<Seq<u8>> {
    let end = first_of(s, p, COLON);
    if end >= s.len() {
        Err((FdonErrorKind::UnterminatedKey, p, p))
    } else {
        Ok((s.subrange(p, end), end))
    }
}

/// `parsed` with `node` applied to the thing read.
pub open spec fn wrap<T>(parsed: Parsed<T>, node: spec_fn(T) -> Node) -> Parsed<Node> {
    match parsed {
        Ok((t, end)) => Ok((node(t), end)),
        Err(fault) => Err(fault),
    }
}

/// The value whose tag byte stands at `p`. Where the input ends at `p` or the
/// byte there is no tag, the cursor stays.
pub open spec fn value_at(s: Seq<u8>, p: int) -> Parsed<Node>
    decreases s.len() - p, 0int,
{
    if !(0 <= p < s.len()) {
        Err((FdonErrorKind::UnexpectedEof, p, p))
    } else if s[p] == 0x4F {
        object_at(s, p + 1)
    } else if s[p] == 0x41 {
        array_at(s, p + 1)
    } else if s[p] == 0x53 {
        if has_byte(s, p + 1, 0x45) {
            wrap(escaped_string_at(s, p + 2), |t: Seq<u8>| Node::EscapedString(t))
        } else {
            wrap(raw_string_at(s, p + 1), |t: Seq<u8>| Node::RawString(t))
        }
    } else if s[p] == 0x44 {
        wrap(raw_string_at(s, p + 1), |t: Seq<u8>| Node::Date(t))
    } else if s[p] == 0x54 {
        if has_byte(s, p + 1, QUOTE) {
            wrap(raw_string_at(s, p + 1), |t: Seq<u8>| Node::Time(t))
        } else {
            wrap(number_at(s, p + 1), |n: Num| Node::Timestamp(n))
        }
    } else if s[p] == 0x4E {
        wrap(number_at(s, p + 1), |n: Num| Node::Number(n))
    } else if s[p] == 0x42 {
        wrap(boolean_at(s, p + 1), |b: bool| Node::Bool(b))
    } else if s[p] == 0x55 {
        Ok((Node::Null, p + 1))
    } else {
        Err((FdonErrorKind::UnknownTag { tag: s[p] }, p, p))
    }
}

/// An array from its `[` on.
pub open spec fn array_at(s: Seq<u8>, p: int) -> Parsed<Node>
    decreases s.len() - p, 2int,
{
    if !has_byte(s, p, OPEN_BRACKET) {
        Err(expect_fault(s, p, OPEN_BRACKET))
    } else if has_byte(s, p + 1, CLOSE_BRACKET) {
        Ok((Node::Array(Seq::empty()), p + 2))
    } else {
        array_items(s, p + 1, Seq::empty())
    }
}

/// The items of an array from the item at `p` on, after `items`.
///
/// The test `p < q` is there for the recursion alone: a value takes at least
/// its tag byte (`lemma_value_extent`).
pub open spec fn array_items(s: Seq<u8>, p: int, items: Seq<Node>) -> Parsed<Node>
    decreases s.len() - p, 1int,
{
    match value_at(s, p) {
        Err(fault) => Err(fault),
        Ok((item, q)) => {
            if has_byte(s, q, COMMA) && p < q {
                if has_byte(s, q + 1, CLOSE_BRACKET) {
                    Err((FdonErrorKind::TrailingCommaInArray, q + 1, q + 1))
                } else {
                    array_items(s, q + 1, items.push(item))
                }
            } else if has_byte(s, q, CLOSE_BRACKET) {
                Ok((Node::Array(items.push(item)), q + 1))
            } else {
                Err((FdonErrorKind::MissingCommaInArray, q, q))
            }
        },
    }
}

/// An object from its `{` on.
pub open spec fn object_at(s: Seq<u8>, p: int) -> Parsed<Node>
    decreases s.len() - p, 2int,
{
    if !has_byte(s, p, OPEN_BRACE) {
        Err(expect_fault(s, p, OPEN_BRACE))
    } else if has_byte(s, p + 1, CLOSE_BRACE) {
        Ok((Node::Object(Map::empty()), p + 2))
    } else {
        object_items(s, p + 1, Map::empty())
    }
}

/// The entries of an object from the key at `p` on, after `entries`.
///
/// The test `p < q` is there for the recursion alone, as in `array_items`.
pub open spec fn object_items(s: Seq<u8>, p: int, entries: Map<Seq<u8>, Node>) -> Parsed<Node>
    decreases s.len() - p, 1int,
    when 0 <= p <= s.len()
{
    match key_at(s, p) {
        Err(fault) => Err(fault),
        Ok((key, colon)) => {
            proof {
                lemma_first_of3(s, p, COLON, COLON, COLON);
            }
            match value_at(s, colon + 1) {
                Err(fault) => Err(fault),
                Ok((item, q)) => {
                    if has_byte(s, q, COMMA) && p < q {
                        if has_byte(s, q + 1, CLOSE_BRACE) {
                            Err((FdonErrorKind::TrailingCommaInObject, q + 1, q + 1))
                        } else {
                            object_items(s, q + 1, entries.insert(key, item))
                        }
                    } else if has_byte(s, q, CLOSE_BRACE) {
                        Ok((Node::Object(entries.insert(key, item)), q + 1))
                    } else {
                        Err((FdonErrorKind::MissingCommaInObject, q, q))
                    }
                },
            }
        },
    }
}

/// A document that starts at `p`: one value, which ends where the input
/// ends. Where bytes follow the value, the cursor is left at the first of
/// them.
pub open spec fn document_from(s: Seq<u8>, p: int) -> Parsed<Node> {
    match value_at(s, p) {
        Err(halt) => Err(halt),
        Ok((node, end)) => if end == s.len() {
            Ok((node, end))
        } else {
            Err((FdonErrorKind::ExtraData, end, end))
        },
    }
}

/// What parsing the minified document `s` gives: the tree, or the fault with
/// its offset.
pub open spec fn document(s: Seq<u8>) -> Result<Node, Fault> {
    match document_from(s, 0) {
        Ok((node, _)) => Ok(node),
        Err((kind, at, _)) => Err((kind, at)),
    }
}

/// A value takes at least its tag byte and ends within the buffer.
pub proof fn lemma_value_extent(s: Seq<u8>, p: int)
    ensures
        value_at(s, p) matches Ok((_, q)) ==> 0 <= p < q <= s.len(),
    decreases s.len() - p, 0int,
{
    if 0 <= p < s.len() {
        if s[p] == 0x4F {
            if has_byte(s, p + 1, OPEN_BRACE) && !has_byte(s, p + 2, CLOSE_BRACE) {
                lemma_object_items_extent(s, p + 2, Map::empty());
            }
        } else if s[p] == 0x41 {
            if has_byte(s, p + 1, OPEN_BRACKET) && !has_byte(s, p + 2, CLOSE_BRACKET) {
                lemma_array_items_extent(s, p + 2, Seq::empty());
            }
        } else if s[p] == 0x53 && has_byte(s, p + 1, 0x45) {
            if has_byte(s, p + 2, QUOTE) {
                lemma_escaped_run_extent(s, p + 3, Seq::empty());
            }
        } else if s[p] == 0x53 || s[p] == 0x44 || (s[p] == 0x54 && has_byte(s, p + 1, QUOTE)) {
            if has_byte(s, p + 1, QUOTE) {
                lemma_first_of3(s, p + 2, QUOTE, QUOTE, QUOTE);
            }
        } else if s[p] == 0x54 || s[p] == 0x4E {
            lemma_first_of3(s, p + 1, COMMA, CLOSE_BRACE, CLOSE_BRACKET);
        }
    }
}

/// An escaped string ends after where it was taken up, within the buffer.
proof fn lemma_escaped_run_extent(s: Seq<u8>, from: int, written: Seq<u8>)
    requires
        0 <= from <= s.len(),
    ensures
        escaped_run(s, from, written) matches Ok((_, q)) ==> from < q <= s.len(),
    decreases s.len() - from,
{
    lemma_first_of3(s, from, BACKSLASH, QUOTE, QUOTE);
    let hit = first_of2(s, from, BACKSLASH, QUOTE);
    if hit < s.len() && s[hit] != QUOTE && hit + 1 < s.len() {
        lemma_escaped_run_extent(
            s,
            hit + 2,
            (written + s.subrange(from, hit)).push(unescaped(s[hit + 1])),
        );
    }
}

/// An array ends after the item at which it was taken up, within the buffer.
proof fn lemma_array_items_extent(s: Seq<u8>, p: int, items: Seq<Node>)
    ensures
        array_items(s, p, items) matches Ok((_, q)) ==> 0 <= p < q <= s.len(),
    decreases s.len() - p, 1int,
{
    lemma_value_extent(s, p);
    if let Ok((item, q)) = value_at(s, p) {
        if has_byte(s, q, COMMA) && !has_byte(s, q + 1, CLOSE_BRACKET) {
            lemma_array_items_extent(s, q + 1, items.push(item));
        }
    }
}

/// An object ends after the key at which it was taken up, within the buffer.
proof fn lemma_object_items_extent(s: Seq<u8>, p: int, entries: Map<Seq<u8>, Node>)
    requires
        0 <= p <= s.len(),
    ensures
        object_items(s, p, entries) matches Ok((_, q)) ==> p < q <= s.len(),
    decreases s.len() - p, 1int,
{
    lemma_first_of3(s, p, COLON, COLON, COLON);
    if let Ok((key, colon)) = key_at(s, p) {
        lemma_value_extent(s, colon + 1);
        if let Ok((item, q)) = value_at(s, colon + 1) {
            if has_byte(s, q, COMMA) && !has_byte(s, q + 1, CLOSE_BRACE) {
                lemma_object_items_extent(s, q + 1, entries.insert(key, item));
            }
        }
    }
}

/// A fault of a value lies at or after the value's start and within the
/// buffer, its end included, and so does the place where the cursor is left.
pub proof fn lemma_fault_within(s: Seq<u8>, p: int)
    requires
        0 <= p <= s.len(),
    ensures
        value_at(s, p) matches Err((_, at, stop)) ==> p <= at <= s.len() && p <= stop
            <= s.len(),
    decreases s.len() - p, 0int,
{
    if p < s.len() {
        if s[p] == 0x4F {
            if has_byte(s, p + 1, OPEN_BRACE) && !has_byte(s, p + 2, CLOSE_BRACE) {
                lemma_object_items_fault_within(s, p + 2, Map::empty());
            }
        } else if s[p] == 0x41 {
            if has_byte(s, p + 1, OPEN_BRACKET) && !has_byte(s, p + 2, CLOSE_BRACKET) {
                lemma_array_items_fault_within(s, p + 2, Seq::empty());
            }
        } else if s[p] == 0x53 && has_byte(s, p + 1, 0x45) {
            if has_byte(s, p + 2, QUOTE) {
                lemma_escaped_run_fault_within(s, p + 3, Seq::empty());
            }
        } else if s[p] == 0x54 || s[p] == 0x4E {
            lemma_first_of3(s, p + 1, COMMA, CLOSE_BRACE, CLOSE_BRACKET);
        }
    }
}

proof fn lemma_escaped_run_fault_within(s: Seq<u8>, from: int, written: Seq<u8>)
    requires
        0 <= from <= s.len(),
    ensures
        escaped_run(s, from, written) matches Err((_, at)) ==> from <= at <= s.len(),
    decreases s.len() - from,
{
    lemma_first_of3(s, from, BACKSLASH, QUOTE, QUOTE);
    let hit = first_of2(s, from, BACKSLASH, QUOTE);
    if hit < s.len() && s[hit] != QUOTE && hit + 1 < s.len() {
        lemma_escaped_run_fault_within(
            s,
            hit + 2,
            (written + s.subrange(from, hit)).push(unescaped(s[hit + 1])),
        );
    }
}

proof fn lemma_array_items_fault_within(s: Seq<u8>, p: int, items: Seq<Node>)
    requires
        0 <= p <= s.len(),
    ensures
        array_items(s, p, items) matches Err((_, at, stop)) ==> p <= at <= s.len() && p <= stop
            <= s.len(),
    decreases s.len() - p, 1int,
{
    lemma_fault_within(s, p);
    lemma_value_extent(s, p);
    if let Ok((item, q)) = value_at(s, p) {
        if has_byte(s, q, COMMA) && !has_byte(s, q + 1, CLOSE_BRACKET) {
            lemma_array_items_fault_within(s, q + 1, items.push(item));
        }
    }
}

proof fn lemma_object_items_fault_within(s: Seq<u8>, p: int, entries: Map<Seq<u8>, Node>)
    requires
        0 <= p <= s.len(),
    ensures
        object_items(s, p, entries) matches Err((_, at, stop)) ==> p <= at <= s.len() && p
            <= stop <= s.len(),
    decreases s.len() - p, 1int,
{
    lemma_first_of3(s, p, COLON, COLON, COLON);
    if let Ok((key, colon)) = key_at(s, p) {
        lemma_fault_within(s, colon + 1);
        lemma_value_extent(s, colon + 1);
        if let Ok((item, q)) = value_at(s, colon + 1) {
            if has_byte(s, q, COMMA) && !has_byte(s, q + 1, CLOSE_BRACE) {
                lemma_object_items_fault_within(s, q + 1, entries.insert(key, item));
            }
        }
    }
}

/// The fault of a document lies within the document, its end included.
pub proof fn lemma_document_fault_within(s: Seq<u8>)
    ensures
        document(s) matches Err((_, at)) ==> 0 <= at <= s.len(),
{
    lemma_fault_within(s, 0);
    lemma_value_extent(s, 0);
}

} // verus!
