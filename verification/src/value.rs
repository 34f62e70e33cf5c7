//! The value tree and its model.
//!
//! A tree of [`FdonValue`]s is what a parse returns. Its leaves borrow from
//! the minified text; the contents of an escaped string, the items of an array
//! and the entries of an object are stored in the arena. The model of a value
//! is a [`Node`]: the same tree over sequences and maps, with every string as
//! the bytes of its UTF-8 encoding.

use vstd::prelude::*;
use vstd::string::StringSliceAdditionalSpecFns;
use crate::number::{FdonNumber, Num};
use crate::utf8::is_ascii_byte;

verus! {

/// The model of a value.
pub enum Node {
    Null,
    Bool(bool),
    Number(Num),
    Timestamp(Num),
    RawString(Seq<u8>),
    EscapedString(Seq<u8>),
    Date(Seq<u8>),
    Time(Seq<u8>),
    Array(Seq<Node>),
    Object(Map<Seq<u8>, Node>),
}

/// `bumpalo::Bump`, the arena.
#[verifier::external_type_specification]
#[verifier::external_body]
pub struct ExBump<const MIN_ALIGN: usize>(bumpalo::Bump<MIN_ALIGN>);

/// `bumpalo::collections::String`, a string stored in the arena.
#[verifier::external_type_specification]
#[verifier::external_body]
pub struct ExBumpString<'bump>(bumpalo::collections::String<'bump>);

/// `ahash::RandomState`, the hasher of an object's map.
#[verifier::external_type_specification]
#[verifier::external_body]
pub struct ExRandomState(ahash::RandomState);

/// The items of an array: a `bumpalo::collections::Vec` of values.
#[verifier::external_body]
#[derive(Debug, PartialEq)]
pub struct ValueList<'a, 'bump> {
    items: bumpalo::collections::Vec<'bump, FdonValue<'a, 'bump>>,
}

/// The entries of an object: a `hashbrown::HashMap` from keys to values,
/// which keeps one entry for each key.
#[verifier::external_body]
#[derive(Debug, PartialEq)]
pub struct ValueMap<'a, 'bump> {
    entries: hashbrown::HashMap<
        &'a str,
        FdonValue<'a, 'bump>,
        ahash::RandomState,
        &'bump bumpalo::Bump,
    >,
}

/// The bytes of the UTF-8 encoding of a string of the arena.
pub uninterp spec fn string_bytes(text: &bumpalo::collections::String) -> Seq<u8>;

/// The models of the items that a list holds, in order.
pub uninterp spec fn list_nodes(list: &ValueList) -> Seq<Node>;

/// The models of the entries that a map holds, by the bytes of their keys.
pub uninterp spec fn map_nodes(entries: &ValueMap) -> Map<Seq<u8>, Node>;

/// A value of a document.
#[derive(Debug, PartialEq)]
pub enum FdonValue<'a, 'bump> {
    Null,
    Bool(bool),
    Number(FdonNumber<'a>),
    Timestamp(FdonNumber<'a>),
    RawString(&'a str),
    EscapedString(bumpalo::collections::String<'bump>),
    Date(&'a str),
    Time(&'a str),
    Array(ValueList<'a, 'bump>),
    Object(ValueMap<'a, 'bump>),
}

impl<'a, 'bump> View for FdonValue<'a, 'bump> {
    type V = Node;

    open spec fn view(&self) -> Node {
        match self {
            FdonValue::Null => Node::Null,
            FdonValue::Bool(b) => Node::Bool(*b),
            FdonValue::Number(n) => Node::Number(n@),
            FdonValue::Timestamp(n) => Node::Timestamp(n@),
            FdonValue::RawString(s) => Node::RawString(s.spec_bytes()),
            FdonValue::EscapedString(text) => Node::EscapedString(string_bytes(text)),
            FdonValue::Date(s) => Node::Date(s.spec_bytes()),
            FdonValue::Time(s) => Node::Time(s.spec_bytes()),
            FdonValue::Array(list) => Node::Array(list_nodes(list)),
            FdonValue::Object(entries) => Node::Object(map_nodes(entries)),
        }
    }
}

/// `bumpalo::collections::String::new_in`: an empty string in `arena`.
#[verifier::external_body]
pub(crate) fn text_new<'bump>(arena: &'bump bumpalo::Bump) -> (text:
    bumpalo::collections::String<'bump>)
    ensures
        string_bytes(&text) == Seq::<u8>::empty(),
{
    bumpalo::collections::String::new_in(arena)
}

/// `bumpalo::collections::String::push_str`: appends `chunk`.
#[verifier::external_body]
pub(crate) fn text_push_str(text: &mut bumpalo::collections::String, chunk: &str)
    ensures
        string_bytes(final(text)) == string_bytes(old(text)) + chunk.spec_bytes(),
{
    text.push_str(chunk)
}

/// `bumpalo::collections::String::push`, with the character of an ASCII
/// byte: appends that byte.
#[verifier::external_body]
pub(crate) fn text_push(text: &mut bumpalo::collections::String, byte: u8)
    requires
        is_ascii_byte(byte),
    ensures
        string_bytes(final(text)) == string_bytes(old(text)).push(byte),
{
    text.push(byte as char)
}

/// `ahash::RandomState::new`: a hasher with keys of its own. Nothing is
/// claimed of it: what a map holds does not depend on its hasher.
#[verifier::external_body]
pub(crate) fn new_hasher() -> ahash::RandomState {
    ahash::RandomState::new()
}

impl<'a, 'bump> ValueList<'a, 'bump> {
    /// `bumpalo::collections::Vec::new_in`: an empty list in `arena`.
    #[verifier::external_body]
    pub(crate) fn new_in(arena: &'bump bumpalo::Bump) -> (list: Self)
        ensures
            list_nodes(&list) == Seq::<Node>::empty(),
    {
        ValueList { items: bumpalo::collections::Vec::new_in(arena) }
    }

    /// `bumpalo::collections::Vec::push`: appends `value` as the last item.
    #[verifier::external_body]
    pub(crate) fn push(&mut self, value: FdonValue<'a, 'bump>)
        ensures
            list_nodes(final(self)) == list_nodes(old(self)).push(value@),
    {
        self.items.push(value)
    }

    /// `bumpalo::collections::Vec::len`: the number of items.
    #[verifier::external_body]
    fn count(&self) -> (n: usize)
        ensures
            n == list_nodes(self).len(),
    {
        self.items.len()
    }

    /// Indexing a `bumpalo::collections::Vec` below its length: the item at
    /// `index`.
    #[verifier::external_body]
    fn item(&self, index: usize) -> (value: &FdonValue<'a, 'bump>)
        requires
            index < list_nodes(self).len(),
        ensures
            value@ == list_nodes(self)[index as int],
    {
        &self.items[index]
    }

    /// The number of items.
    pub fn len(&self) -> (n: usize)
        ensures
            n == list_nodes(self).len(),
    {
        self.count()
    }

    /// The item at `index`, or `None` where the list is shorter.
    pub fn get(&self, index: usize) -> (r: Option<&FdonValue<'a, 'bump>>)
        ensures
            match r {
                Some(value) => index < list_nodes(self).len() && value@ == list_nodes(
                    self,
                )[index as int],
                None => index >= list_nodes(self).len(),
            },
    {
        if index < self.count() {
            Some(self.item(index))
        } else {
            None
        }
    }
}

impl<'a, 'bump> ValueMap<'a, 'bump> {
    /// `hashbrown::HashMap::with_hasher_in`: an empty map in `arena`.
    #[verifier::external_body]
    pub(crate) fn with_hasher_in(hasher: ahash::RandomState, arena: &'bump bumpalo::Bump) -> (made:
        Self)
        ensures
            map_nodes(&made) == (Map::<Seq<u8>, Node>::empty()),
    {
        ValueMap { entries: hashbrown::HashMap::with_hasher_in(hasher, arena) }
    }

    /// `hashbrown::HashMap::insert`: sets the entry of `key` to `value`,
    /// whether or not the key had an entry, and leaves the others as they
    /// are.
    #[verifier::external_body]
    pub(crate) fn insert(&mut self, key: &'a str, value: FdonValue<'a, 'bump>)
        ensures
            map_nodes(final(self)) == map_nodes(old(self)).insert(key.spec_bytes(), value@),
    {
        self.entries.insert(key, value);
    }

    /// `hashbrown::HashMap::len`: the number of entries.
    #[verifier::external_body]
    fn count(&self) -> (n: usize)
        ensures
            n == map_nodes(self).dom().len(),
    {
        self.entries.len()
    }

    /// `hashbrown::HashMap::get`: the value of the entry whose key is `key`,
    /// or `None` where there is no such entry.
    #[verifier::external_body]
    fn lookup(&self, key: &str) -> (r: Option<&FdonValue<'a, 'bump>>)
        ensures
            match r {
                Some(value) => map_nodes(self).dom().contains(key.spec_bytes()) && value@
                    == map_nodes(self)[key.spec_bytes()],
                None => !map_nodes(self).dom().contains(key.spec_bytes()),
            },
    {
        self.entries.get(key)
    }

    /// `hashbrown::HashMap::keys`: every key once, in an order that is not
    /// fixed.
    #[verifier::external_body]
    fn all_keys(&self) -> (keys: Vec<&'a str>)
        ensures
            keys@.len() == map_nodes(self).dom().len(),
            forall|i: int|
                0 <= i < keys@.len() ==> map_nodes(self).dom().contains(
                    (#[trigger] keys@[i]).spec_bytes(),
                ),
            forall|k: Seq<u8>|
                map_nodes(self).dom().contains(k) ==> exists|i: int|
                    0 <= i < keys@.len() && (#[trigger] keys@[i]).spec_bytes() == k,
    {
        self.entries.keys().map(|k| *k).collect()
    }

    /// The number of entries.
    pub fn len(&self) -> (n: usize)
        ensures
            n == map_nodes(self).dom().len(),
    {
        self.count()
    }

    /// The value under `key`, or `None` where the object has no such key.
    pub fn get(&self, key: &str) -> (r: Option<&FdonValue<'a, 'bump>>)
        ensures
            match r {
                Some(value) => map_nodes(self).dom().contains(key.spec_bytes()) && value@
                    == map_nodes(self)[key.spec_bytes()],
                None => !map_nodes(self).dom().contains(key.spec_bytes()),
            },
    {
        self.lookup(key)
    }

    /// The keys of the object, each once, in no fixed order.
    pub fn keys(&self) -> (keys: Vec<&'a str>)
        ensures
            keys@.len() == map_nodes(self).dom().len(),
            forall|i: int|
                0 <= i < keys@.len() ==> map_nodes(self).dom().contains(
                    (#[trigger] keys@[i]).spec_bytes(),
                ),
            forall|k: Seq<u8>|
                map_nodes(self).dom().contains(k) ==> exists|i: int|
                    0 <= i < keys@.len() && (#[trigger] keys@[i]).spec_bytes() == k,
    {
        self.all_keys()
    }
}

} // verus!
