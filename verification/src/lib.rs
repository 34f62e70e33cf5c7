//! FDON: a type-tagged, whitespace-tolerant textual data format.
//!
//! A document is first reduced by [`minify_fdon`], which drops the whitespace
//! that stands outside string literals, and then read by
//! [`parse_fdon_zero_copy_arena`], which builds a tree of [`FdonValue`]s whose
//! string payloads borrow from the minified text and whose containers live
//! in a bump arena.
//!
//! Every contract is stated over the bytes of the UTF-8 encoding of a text:
//! `minify::minified` says what the minifier returns, `grammar::document`
//! says what the parser returns, fault and offset included. Every delimiter
//! of the format is an ASCII byte, so what the minifier returns and what the
//! parser cuts from its input are texts again (`utf8`).
//!
//! A float is held as the text of its literal, which the library has checked;
//! the binary float is for the caller to compute.

pub mod bytes;
pub mod error;
pub mod facts;
pub mod grammar;
pub mod minify;
pub mod number;
pub mod parser;
pub mod scan;
pub mod utf8;
pub mod value;

pub use crate::error::{excerpt, Excerpt, FdonErrorKind, FdonParseError};
pub use crate::minify::{minify_bytes, minify_fdon};
pub use crate::number::FdonNumber;
pub use crate::parser::{parse_fdon_zero_copy_arena, FdonParser};
pub use crate::value::{FdonValue, ValueList, ValueMap};
