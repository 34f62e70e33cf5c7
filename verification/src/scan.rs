//! Delimiter search: the position of the first of up to three bytes in the
//! tail of a buffer.

use vstd::prelude::*;
use vstd::slice::slice_subrange;

verus! {

/// The index of the first byte at or after `from` that is `a`, `b` or `c`,
/// or the length of `s` where there is none.
pub open spec fn first_of3(s: Seq<u8>, from: int, a: u8, b: u8, c: u8) -> int
    decreases s.len() - from,
{
    if from >= s.len() {
        s.len() as int
    } else if s[from] == a || s[from] == b || s[from] == c {
        from
    } else {
        first_of3(s, from + 1, a, b, c)
    }
}

/// The index of the first `a` or `b` at or after `from`, or the length.
pub open spec fn first_of2(s: Seq<u8>, from: int, a: u8, b: u8) -> int {
    first_of3(s, from, a, b, b)
}

/// The index of the first `a` at or after `from`, or the length.
pub open spec fn first_of(s: Seq<u8>, from: int, a: u8) -> int {
    first_of3(s, from, a, a, a)
}

/// `first_of3` lies between `from` and the length, no byte before it is one
/// of the three, and the byte at it is, where it is below the length.
pub proof fn lemma_first_of3(s: Seq<u8>, from: int, a: u8, b: u8, c: u8)
    requires
        0 <= from <= s.len(),
    ensures
        from <= first_of3(s, from, a, b, c) <= s.len(),
        forall|j: int|
            from <= j < first_of3(s, from, a, b, c) ==> s[j] != a && s[j] != b && s[j] != c,
        first_of3(s, from, a, b, c) < s.len() ==> {
            let x = s[first_of3(s, from, a, b, c)];
            x == a || x == b || x == c
        },
    decreases s.len() - from,
{
    if from < s.len() && !(s[from] == a || s[from] == b || s[from] == c) {
        lemma_first_of3(s, from + 1, a, b, c);
    }
}

/// Any index with the three properties of `lemma_first_of3` is `first_of3`.
pub proof fn lemma_first_of3_unique(s: Seq<u8>, from: int, a: u8, b: u8, c: u8, i: int)
    requires
        0 <= from <= i <= s.len(),
        forall|j: int| from <= j < i ==> s[j] != a && s[j] != b && s[j] != c,
        i < s.len() ==> s[i] == a || s[i] == b || s[i] == c,
    ensures
        first_of3(s, from, a, b, c) == i,
    decreases i - from,
{
    if from < i {
        lemma_first_of3_unique(s, from + 1, a, b, c, i);
    }
}

/// The first hit in the tail that starts at `from`, moved back into `s`.
proof fn lemma_first_in_tail(s: Seq<u8>, from: int, a: u8, b: u8, c: u8, hit: int)
    requires
        0 <= from <= s.len(),
        0 <= hit <= s.len() - from,
        forall|j: int|
            0 <= j < hit ==> {
                let x = #[trigger] s.subrange(from, s.len() as int)[j];
                x != a && x != b && x != c
            },
        hit < s.len() - from ==> {
            let x = s.subrange(from, s.len() as int)[hit];
            x == a || x == b || x == c
        },
    ensures
        first_of3(s, from, a, b, c) == from + hit,
{
    let tail = s.subrange(from, s.len() as int);
    assert forall|j: int| from <= j < from + hit implies s[j] != a && s[j] != b && s[j] != c by {
        assert(tail[j - from] == s[j]);
    }
    lemma_first_of3_unique(s, from, a, b, c, from + hit);
}

/// `memchr::memchr`: the index of the first byte of `haystack` equal to
/// `needle`, or `None` where no byte is.
pub assume_specification[ memchr::memchr ](needle: u8, haystack: &[u8]) -> (r: Option<usize>)
    ensures
        match r {
            Some(i) => i < haystack@.len() && haystack@[i as int] == needle && forall|j: int|
                0 <= j < i ==> haystack@[j] != needle,
            None => forall|j: int| 0 <= j < haystack@.len() ==> haystack@[j] != needle,
        },
;

/// `memchr::memchr2`: the index of the first byte of `haystack` equal to one
/// of the two needles, or `None` where no byte is.
pub assume_specification[ memchr::memchr2 ](needle1: u8, needle2: u8, haystack: &[u8]) -> (r:
    Option<usize>)
    ensures
        match r {
            Some(i) => i < haystack@.len() && (haystack@[i as int] == needle1 || haystack@[i as int]
                == needle2) && forall|j: int|
                0 <= j < i ==> haystack@[j] != needle1 && haystack@[j] != needle2,
            None => forall|j: int|
                0 <= j < haystack@.len() ==> haystack@[j] != needle1 && haystack@[j] != needle2,
        },
;

/// `memchr::memchr3`: the index of the first byte of `haystack` equal to one
/// of the three needles, or `None` where no byte is.
pub assume_specification[ memchr::memchr3 ](
    needle1: u8,
    needle2: u8,
    needle3: u8,
    haystack: &[u8],
) -> (r: Option<usize>)
    ensures
        match r {
            Some(i) => i < haystack@.len() && (haystack@[i as int] == needle1 || haystack@[i as int]
                == needle2 || haystack@[i as int] == needle3) && forall|j: int|
                0 <= j < i ==> haystack@[j] != needle1 && haystack@[j] != needle2 && haystack@[j]
                    != needle3,
            None => forall|j: int|
                0 <= j < haystack@.len() ==> haystack@[j] != needle1 && haystack@[j] != needle2
                    && haystack@[j] != needle3,
        },
;

/// The position of the first `a` at or after `from`.
pub fn find(data: &[u8], from: usize, a: u8) -> (r: Option<usize>)
    requires
        from <= data@.len(),
    ensures
        match r {
            Some(i) => i == first_of(data@, from as int, a) && from <= i < data@.len()
                && data@[i as int] == a,
            None => first_of(data@, from as int, a) == data@.len(),
        },
{
    let tail = slice_subrange(data, from, data.len());
    match memchr::memchr(a, tail) {
        Some(pos) => {
            proof {
                assert(tail@[pos as int] == data@[from + pos]);
                lemma_first_in_tail(data@, from as int, a, a, a, pos as int);
            }
            Some(from + pos)
        },
        None => {
            proof {
                lemma_first_in_tail(data@, from as int, a, a, a, data@.len() - from);
            }
            None
        },
    }
}

/// The position of the first `a` or `b` at or after `from`.
pub fn find_any2(data: &[u8], from: usize, a: u8, b: u8) -> (r: Option<usize>)
    requires
        from <= data@.len(),
    ensures
        match r {
            Some(i) => i == first_of2(data@, from as int, a, b) && from <= i < data@.len() && (
            data@[i as int] == a || data@[i as int] == b),
            None => first_of2(data@, from as int, a, b) == data@.len(),
        },
{
    let tail = slice_subrange(data, from, data.len());
    match memchr::memchr2(a, b, tail) {
        Some(pos) => {
            proof {
                assert(tail@[pos as int] == data@[from + pos]);
                lemma_first_in_tail(data@, from as int, a, b, b, pos as int);
            }
            Some(from + pos)
        },
        None => {
            proof {
                lemma_first_in_tail(data@, from as int, a, b, b, data@.len() - from);
            }
            None
        },
    }
}

/// The position of the first `a`, `b` or `c` at or after `from`.
pub fn find_any3(data: &[u8], from: usize, a: u8, b: u8, c: u8) -> (r: Option<usize>)
    requires
        from <= data@.len(),
    ensures
        match r {
            Some(i) => i == first_of3(data@, from as int, a, b, c) && from <= i < data@.len() && (
            data@[i as int] == a || data@[i as int] == b || data@[i as int] == c),
            None => first_of3(data@, from as int, a, b, c) == data@.len(),
        },
{
    let tail = slice_subrange(data, from, data.len());
    match memchr::memchr3(a, b, c, tail) {
        Some(pos) => {
            proof {
                assert(tail@[pos as int] == data@[from + pos]);
                lemma_first_in_tail(data@, from as int, a, b, c, pos as int);
            }
            Some(from + pos)
        },
        None => {
            proof {
                lemma_first_in_tail(data@, from as int, a, b, c, data@.len() - from);
            }
            None
        },
    }
}

} // verus!
