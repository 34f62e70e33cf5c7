//! What holds of every document: where the payloads of a tree come from, how
//! many entries a container holds, and which texts are faults.

use vstd::prelude::*;
use vstd::seq_lib::seq_to_set_is_finite;
use crate::bytes::{CLOSE_BRACE, CLOSE_BRACKET, COLON, COMMA, OPEN_BRACE, OPEN_BRACKET};
use crate::error::{Fault, FdonErrorKind};
use crate::grammar::{
    array_items,
    document,
    has_byte,
    key_at,
    Halt,
    lemma_value_extent,
    object_items,
    value_at,
    Parsed,
};
use crate::minify::{gaps_fit, lemma_spacing_is_removed, minified, spaced_out};
use crate::number::Num;
use crate::scan::lemma_first_of3;
use crate::value::Node;

verus! {

/// `part` is a contiguous region of `s`.
pub open spec fn is_slice_of(part: Seq<u8>, s: Seq<u8>) -> bool {
    exists|a: int, b: int| 0 <= a <= b <= s.len() && part == #[trigger] s.subrange(a, b)
}

/// Every payload that a tree borrows is a region of `s`: raw strings, dates,
/// times, the texts of floats, and the keys of objects.
pub open spec fn borrows_from(node: Node, s: Seq<u8>) -> bool
    decreases node,
{
    match node {
        Node::RawString(t) | Node::Date(t) | Node::Time(t) => is_slice_of(t, s),
        Node::Number(Num::Float(t)) | Node::Timestamp(Num::Float(t)) => is_slice_of(t, s),
        Node::Array(items) => forall|i: int|
            0 <= i < items.len() ==> borrows_from(#[trigger] items[i], s),
        Node::Object(entries) => forall|k: Seq<u8>| #[trigger]
            entries.dom().contains(k) ==> is_slice_of(k, s) && borrows_from(entries[k], s),
        _ => true,
    }
}

/// Every payload that a parsed value borrows lies within the bounds of the
/// buffer.
pub proof fn lemma_value_borrows(s: Seq<u8>, p: int)
    ensures
        value_at(s, p) matches Ok((node, _)) ==> borrows_from(node, s),
    decreases s.len() - p, 0int,
{
    if 0 <= p < s.len() {
        if s[p] == 0x4F {
            if has_byte(s, p + 1, OPEN_BRACE) && !has_byte(s, p + 2, CLOSE_BRACE) {
                lemma_object_items_borrow(s, p + 2, Map::empty());
            }
        } else if s[p] == 0x41 {
            if has_byte(s, p + 1, OPEN_BRACKET) && !has_byte(s, p + 2, CLOSE_BRACKET) {
                lemma_array_items_borrow(s, p + 2, Seq::empty());
            }
        } else if s[p] == 0x53 || s[p] == 0x44 || (s[p] == 0x54 && has_byte(s, p + 1, 0x22)) {
            if has_byte(s, p + 1, 0x22) {
                lemma_first_of3(s, p + 2, 0x22, 0x22, 0x22);
            }
        } else if s[p] == 0x54 || s[p] == 0x4E {
            lemma_first_of3(s, p + 1, COMMA, CLOSE_BRACE, CLOSE_BRACKET);
        }
    }
}

proof fn lemma_array_items_borrow(s: Seq<u8>, p: int, items: Seq<Node>)
    requires
        forall|i: int| 0 <= i < items.len() ==> borrows_from(#[trigger] items[i], s),
    ensures
        array_items(s, p, items) matches Ok((node, _)) ==> borrows_from(node, s),
    decreases s.len() - p, 1int,
{
    lemma_value_borrows(s, p);
    lemma_value_extent(s, p);
    if let Ok((item, q)) = value_at(s, p) {
        let more = items.push(item);
        assert forall|i: int| 0 <= i < more.len() implies borrows_from(#[trigger] more[i], s) by {
            if i < items.len() {
                assert(more[i] == items[i]);
            }
        }
        if has_byte(s, q, COMMA) && !has_byte(s, q + 1, CLOSE_BRACKET) {
            lemma_array_items_borrow(s, q + 1, more);
        }
    }
}

proof fn lemma_object_items_borrow(s: Seq<u8>, p: int, entries: Map<Seq<u8>, Node>)
    requires
        0 <= p <= s.len(),
        forall|k: Seq<u8>| #[trigger]
            entries.dom().contains(k) ==> is_slice_of(k, s) && borrows_from(entries[k], s),
    ensures
        object_items(s, p, entries) matches Ok((node, _)) ==> borrows_from(node, s),
    decreases s.len() - p, 1int,
{
    lemma_first_of3(s, p, COLON, COLON, COLON);
    if let Ok((key, colon)) = key_at(s, p) {
        lemma_value_borrows(s, colon + 1);
        lemma_value_extent(s, colon + 1);
        if let Ok((item, q)) = value_at(s, colon + 1) {
            let more = entries.insert(key, item);
            assert(key == s.subrange(p, colon));
            assert forall|k: Seq<u8>| #[trigger] more.dom().contains(k) implies is_slice_of(k, s)
                && borrows_from(more[k], s) by {
                if k != key {
                    assert(entries.dom().contains(k));
                }
            }
            if has_byte(s, q, COMMA) && !has_byte(s, q + 1, CLOSE_BRACE) {
                lemma_object_items_borrow(s, q + 1, more);
            }
        }
    }
}

/// Every payload that the tree of a document borrows lies within the bounds
/// of the document.
pub proof fn lemma_document_borrows(s: Seq<u8>)
    ensures
        document(s) matches Ok(node) ==> borrows_from(node, s),
{
    lemma_value_borrows(s, 0);
}

/// Bytes after the top-level value are a fault, at the first of them.
pub proof fn lemma_extra_data(s: Seq<u8>)
    ensures
        value_at(s, 0) matches Ok((_, end)) ==> (end < s.len() ==> document(s) == Err::<
            Node,
            Fault,
        >((FdonErrorKind::ExtraData, end))),
{
    lemma_value_extent(s, 0);
}

/// Where item `i` starts, for items that end at `ends` and start at `first`.
pub open spec fn item_start(first: int, ends: Seq<int>, i: int) -> int {
    if i == 0 {
        first
    } else {
        ends[i - 1] + 1
    }
}

/// From `first` on the values `items` stand one after another, with a comma
/// after each but the last; item `i` ends at `ends[i]`.
pub open spec fn items_stand(s: Seq<u8>, first: int, items: Seq<Node>, ends: Seq<int>) -> bool {
    &&& items.len() == ends.len()
    &&& items.len() > 0
    &&& forall|i: int|
        0 <= i < items.len() ==> value_at(s, #[trigger] item_start(first, ends, i)) == Ok::<(Node, int), Halt>((items[i], ends[i]))
    &&& forall|i: int| 0 <= i < items.len() - 1 ==> has_byte(s, #[trigger] ends[i], COMMA)
}

/// What an array comes to at `q`, where its last item has ended.
pub open spec fn array_close(s: Seq<u8>, q: int, items: Seq<Node>) -> Parsed<Node> {
    if has_byte(s, q, COMMA) {
        if has_byte(s, q + 1, CLOSE_BRACKET) {
            Err((FdonErrorKind::TrailingCommaInArray, q + 1, q + 1))
        } else {
            array_items(s, q + 1, items)
        }
    } else if has_byte(s, q, CLOSE_BRACKET) {
        Ok((Node::Array(items), q + 1))
    } else {
        Err((FdonErrorKind::MissingCommaInArray, q, q))
    }
}

proof fn lemma_array_items_from(
    s: Seq<u8>,
    first: int,
    items: Seq<Node>,
    ends: Seq<int>,
    k: int,
)
    requires
        items_stand(s, first, items, ends),
        0 <= k < items.len(),
    ensures
        array_items(s, item_start(first, ends, k), items.take(k)) == array_close(
            s,
            ends.last(),
            items,
        ),
    decreases items.len() - k,
{
    let p = item_start(first, ends, k);
    lemma_value_extent(s, p);
    assert(items.take(k).push(items[k]) =~= items.take(k + 1));
    if k < items.len() - 1 {
        assert(has_byte(s, ends[k], COMMA));
        assert(item_start(first, ends, k + 1) == ends[k] + 1);
        lemma_value_extent(s, ends[k] + 1);
        lemma_array_items_from(s, first, items, ends, k + 1);
    } else {
        assert(items.take(k + 1) =~= items);
    }
}

/// An array in whose text `n` items stand holds exactly those `n` items, in
/// their order.
pub proof fn lemma_array_holds_its_items(s: Seq<u8>, p: int, items: Seq<Node>, ends: Seq<int>)
    requires
        has_byte(s, p, 0x41),
        has_byte(s, p + 1, OPEN_BRACKET),
        items_stand(s, p + 2, items, ends),
        has_byte(s, ends.last(), CLOSE_BRACKET),
    ensures
        value_at(s, p) == Ok::<(Node, int), Halt>((Node::Array(items), ends.last() + 1)),
{
    assert(item_start(p + 2, ends, 0) == p + 2);
    lemma_value_extent(s, p + 2);
    lemma_array_items_from(s, p + 2, items, ends, 0);
    assert(items.take(0) =~= Seq::<Node>::empty());
}

/// An array with nothing between its brackets holds no item.
pub proof fn lemma_empty_array(s: Seq<u8>, p: int)
    requires
        has_byte(s, p, 0x41),
        has_byte(s, p + 1, OPEN_BRACKET),
        has_byte(s, p + 2, CLOSE_BRACKET),
    ensures
        value_at(s, p) == Ok::<(Node, int), Halt>((Node::Array(Seq::empty()), p + 3)),
{
}

/// A comma between the last item of an array and its `]` is a fault, at the
/// `]`.
pub proof fn lemma_array_trailing_comma(s: Seq<u8>, p: int, items: Seq<Node>, ends: Seq<int>)
    requires
        has_byte(s, p, 0x41),
        has_byte(s, p + 1, OPEN_BRACKET),
        items_stand(s, p + 2, items, ends),
        has_byte(s, ends.last(), COMMA),
        has_byte(s, ends.last() + 1, CLOSE_BRACKET),
    ensures
        value_at(s, p) == Err::<(Node, int), Halt>(
            (FdonErrorKind::TrailingCommaInArray, ends.last() + 1, ends.last() + 1),
        ),
{
    assert(item_start(p + 2, ends, 0) == p + 2);
    lemma_value_extent(s, p + 2);
    lemma_array_items_from(s, p + 2, items, ends, 0);
    assert(items.take(0) =~= Seq::<Node>::empty());
}

/// The entries that keys and values read in order come to: a later value
/// takes the place of an earlier one under the same key.
pub open spec fn entries_of(keys: Seq<Seq<u8>>, items: Seq<Node>) -> Map<Seq<u8>, Node>
    decreases keys.len(),
{
    if keys.len() == 0 {
        Map::empty()
    } else {
        entries_of(keys.drop_last(), items.drop_last()).insert(keys.last(), items.last())
    }
}

/// From `first` on the entries stand one after another, each a key, `:` and
/// a value, with a comma after each but the last; entry `i` ends at `ends[i]`.
/// No key starts with `}`, which after `{` or `,` closes the object or is a
/// fault.
pub open spec fn entries_stand(
    s: Seq<u8>,
    first: int,
    keys: Seq<Seq<u8>>,
    items: Seq<Node>,
    ends: Seq<int>,
) -> bool {
    &&& keys.len() == items.len() == ends.len()
    &&& items.len() > 0
    &&& forall|i: int|
        0 <= i < items.len() ==> {
            let start = #[trigger] item_start(first, ends, i);
            &&& 0 <= start <= s.len()
            &&& !has_byte(s, start, CLOSE_BRACE)
            &&& key_at(s, start) == Ok::<(Seq<u8>, int), Halt>((keys[i], start + keys[i].len()))
            &&& value_at(s, start + keys[i].len() + 1) == Ok::<(Node, int), Halt>(
                (items[i], ends[i]),
            )
        }
    &&& forall|i: int| 0 <= i < items.len() - 1 ==> has_byte(s, #[trigger] ends[i], COMMA)
}

/// What an object comes to at `q`, where its last entry has ended.
pub open spec fn object_close(s: Seq<u8>, q: int, entries: Map<Seq<u8>, Node>) -> Parsed<Node> {
    if has_byte(s, q, COMMA) {
        if has_byte(s, q + 1, CLOSE_BRACE) {
            Err((FdonErrorKind::TrailingCommaInObject, q + 1, q + 1))
        } else {
            object_items(s, q + 1, entries)
        }
    } else if has_byte(s, q, CLOSE_BRACE) {
        Ok((Node::Object(entries), q + 1))
    } else {
        Err((FdonErrorKind::MissingCommaInObject, q, q))
    }
}

proof fn lemma_object_items_from(
    s: Seq<u8>,
    first: int,
    keys: Seq<Seq<u8>>,
    items: Seq<Node>,
    ends: Seq<int>,
    k: int,
)
    requires
        entries_stand(s, first, keys, items, ends),
        0 <= k < items.len(),
    ensures
        object_items(s, item_start(first, ends, k), entries_of(keys.take(k), items.take(k)))
            == object_close(s, ends.last(), entries_of(keys, items)),
    decreases items.len() - k,
{
    let p = item_start(first, ends, k);
    let colon = p + keys[k].len();
    lemma_value_extent(s, colon + 1);
    assert(keys.take(k + 1).drop_last() =~= keys.take(k));
    assert(items.take(k + 1).drop_last() =~= items.take(k));
    assert(entries_of(keys.take(k + 1), items.take(k + 1)) == entries_of(
        keys.take(k),
        items.take(k),
    ).insert(keys[k], items[k]));
    if k < items.len() - 1 {
        assert(has_byte(s, ends[k], COMMA));
        let next = item_start(first, ends, k + 1);
        assert(next == ends[k] + 1);
        lemma_first_of3(s, next, COLON, COLON, COLON);
        lemma_object_items_from(s, first, keys, items, ends, k + 1);
    } else {
        assert(keys.take(k + 1) =~= keys);
        assert(items.take(k + 1) =~= items);
    }
}

/// An object in whose text `n` entries stand holds the entries that their
/// keys and values come to, one for each key.
pub proof fn lemma_object_holds_its_entries(
    s: Seq<u8>,
    p: int,
    keys: Seq<Seq<u8>>,
    items: Seq<Node>,
    ends: Seq<int>,
)
    requires
        has_byte(s, p, 0x4F),
        has_byte(s, p + 1, OPEN_BRACE),
        entries_stand(s, p + 2, keys, items, ends),
        has_byte(s, ends.last(), CLOSE_BRACE),
    ensures
        value_at(s, p) == Ok::<(Node, int), Halt>(
            (Node::Object(entries_of(keys, items)), ends.last() + 1),
        ),
{
    assert(item_start(p + 2, ends, 0) == p + 2);
    lemma_object_items_from(s, p + 2, keys, items, ends, 0);
    assert(keys.take(0) =~= Seq::<Seq<u8>>::empty());
}

/// An object with nothing between its braces holds no entry.
pub proof fn lemma_empty_object(s: Seq<u8>, p: int)
    requires
        has_byte(s, p, 0x4F),
        has_byte(s, p + 1, OPEN_BRACE),
        has_byte(s, p + 2, CLOSE_BRACE),
    ensures
        value_at(s, p) == Ok::<(Node, int), Halt>((Node::Object(Map::empty()), p + 3)),
{
}

/// A comma between the last entry of an object and its `}` is a fault, at
/// the `}`.
pub proof fn lemma_object_trailing_comma(
    s: Seq<u8>,
    p: int,
    keys: Seq<Seq<u8>>,
    items: Seq<Node>,
    ends: Seq<int>,
)
    requires
        has_byte(s, p, 0x4F),
        has_byte(s, p + 1, OPEN_BRACE),
        entries_stand(s, p + 2, keys, items, ends),
        has_byte(s, ends.last(), COMMA),
        has_byte(s, ends.last() + 1, CLOSE_BRACE),
    ensures
        value_at(s, p) == Err::<(Node, int), Halt>(
            (FdonErrorKind::TrailingCommaInObject, ends.last() + 1, ends.last() + 1),
        ),
{
    assert(item_start(p + 2, ends, 0) == p + 2);
    lemma_object_items_from(s, p + 2, keys, items, ends, 0);
    assert(keys.take(0) =~= Seq::<Seq<u8>>::empty());
}

proof fn lemma_to_set_drop_last(keys: Seq<Seq<u8>>)
    requires
        keys.len() > 0,
    ensures
        keys.to_set() == keys.drop_last().to_set().insert(keys.last()),
{
    let k0 = keys.drop_last();
    assert forall|k: Seq<u8>| keys.to_set().contains(k) implies k0.to_set().insert(
        keys.last(),
    ).contains(k) by {
        let i = choose|i: int| 0 <= i < keys.len() && keys[i] == k;
        if i < keys.len() - 1 {
            assert(k0[i] == k);
        }
    }
    assert forall|k: Seq<u8>| k0.to_set().insert(keys.last()).contains(k) implies keys.to_set().contains(
        k,
    ) by {
        if k == keys.last() {
            assert(keys[keys.len() - 1] == k);
        } else {
            let i = choose|i: int| 0 <= i < k0.len() && k0[i] == k;
            assert(keys[i] == k);
        }
    }
    assert(keys.to_set() =~= k0.to_set().insert(keys.last()));
}

/// The keys of the entries that keys and values come to are the keys that
/// occur.
pub proof fn lemma_entries_domain(keys: Seq<Seq<u8>>, items: Seq<Node>)
    requires
        keys.len() == items.len(),
    ensures
        entries_of(keys, items).dom() == keys.to_set(),
    decreases keys.len(),
{
    if keys.len() == 0 {
        assert(entries_of(keys, items).dom() =~= keys.to_set());
    } else {
        lemma_entries_domain(keys.drop_last(), items.drop_last());
        lemma_to_set_drop_last(keys);
        assert(entries_of(keys, items).dom() =~= keys.to_set());
    }
}

/// `n` keys and values come to one entry for each key that occurs: `n`
/// entries where no key occurs twice, and fewer where one does.
pub proof fn lemma_entries_count(keys: Seq<Seq<u8>>, items: Seq<Node>)
    requires
        keys.len() == items.len(),
    ensures
        entries_of(keys, items).dom().finite(),
        entries_of(keys, items).dom().len() <= keys.len(),
        keys.no_duplicates() ==> entries_of(keys, items).dom().len() == keys.len(),
{
    lemma_entries_domain(keys, items);
    seq_to_set_is_finite(keys);
    keys.lemma_cardinality_of_set();
    if keys.no_duplicates() {
        keys.unique_seq_to_set();
    }
}

/// Under a key stands the value that was read last for it.
pub proof fn lemma_entries_last_wins(keys: Seq<Seq<u8>>, items: Seq<Node>, i: int)
    requires
        keys.len() == items.len(),
        0 <= i < keys.len(),
        forall|j: int| i < j < keys.len() ==> keys[j] != keys[i],
    ensures
        entries_of(keys, items).dom().contains(keys[i]),
        entries_of(keys, items)[keys[i]] == items[i],
    decreases keys.len(),
{
    if i < keys.len() - 1 {
        let k0 = keys.drop_last();
        assert(keys[keys.len() - 1] != keys[i]);
        assert(k0[i] == keys[i]);
        assert forall|j: int| i < j < k0.len() implies k0[j] != k0[i] by {
            assert(k0[j] == keys[j]);
        }
        lemma_entries_last_wins(k0, items.drop_last(), i);
    }
}

/// Whitespace put in outside the literals of a text does not change what the
/// text parses to after it is minified: the same tree, or the same fault at
/// the same offset. So a document that parses once minified still does with
/// such whitespace put in, whatever else it holds.
pub proof fn lemma_spaced_document_parses(text: Seq<u8>, gaps: Seq<Seq<u8>>)
    requires
        gaps_fit(text, gaps),
    ensures
        document(minified(spaced_out(text, gaps))) == document(minified(text)),
{
    lemma_spacing_is_removed(text, gaps);
}

} // verus!
