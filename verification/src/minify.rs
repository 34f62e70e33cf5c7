//! The minifier: a single pass that removes the whitespace outside string
//! literals and copies everything else byte for byte.
//!
//! Literal regions are recognised on the bytes already written: a `"` opens a
//! raw literal when the last byte written is one of the tags `S`, `D`, `T`, so
//! that `S  "a b"` keeps its payload exactly as `S"a b"` does. An escaped
//! literal opens at `SE"`, where `S` and `E` are adjacent in the input and any
//! whitespace between `E` and `"` is dropped.

use vstd::pervasive::unreached;
use vstd::prelude::*;
use vstd::string::StringSliceAdditionalSpecFns;
use vstd::utf8::{encode_utf8, encode_utf8_valid_utf8, valid_utf8};
use crate::utf8::lemma_without_ascii;
use crate::bytes::{is_raw_tag, is_whitespace, raw_tag, whitespace, BACKSLASH, QUOTE};

verus! {

/// Where the minifier stands between two input bytes.
#[derive(Clone, Copy, PartialEq, Eq, Structural)]
pub enum Region {
    /// Outside any literal.
    Outside,
    /// Outside any literal, right after an adjacent `SE` and the whitespace
    /// that followed it: a `"` here opens an escaped literal.
    Marker,
    /// Inside a raw literal, up to the next `"`.
    Raw,
    /// Inside an escaped literal.
    Escaped,
    /// Inside an escaped literal, right after a backslash.
    EscapedSkip,
}

/// The minifier's state after a prefix of the input: the region it is in and
/// the bytes written so far.
pub struct Scan {
    pub region: Region,
    pub out: Seq<u8>,
}

/// The last byte written is the tag of a raw string, a date or a time.
pub open spec fn ends_with_raw_tag(out: Seq<u8>) -> bool {
    out.len() > 0 && is_raw_tag(out.last())
}

/// The region entered by reading `input[i]` in region `region` with `out`
/// already written.
pub open spec fn next_region(region: Region, out: Seq<u8>, input: Seq<u8>, i: int) -> Region {
    let b = input[i];
    match region {
        Region::Outside | Region::Marker => {
            if b == QUOTE {
                if region == Region::Marker {
                    Region::Escaped
                } else if ends_with_raw_tag(out) {
                    Region::Raw
                } else {
                    Region::Outside
                }
            } else if is_whitespace(b) {
                region
            } else if b == 0x45 && i > 0 && input[i - 1] == 0x53 {
                Region::Marker
            } else {
                Region::Outside
            }
        },
        Region::Raw => if b == QUOTE {
            Region::Outside
        } else {
            Region::Raw
        },
        Region::Escaped => if b == BACKSLASH {
            Region::EscapedSkip
        } else if b == QUOTE {
            Region::Outside
        } else {
            Region::Escaped
        },
        Region::EscapedSkip => Region::Escaped,
    }
}

/// Whether a byte read in `region` is written: everything but whitespace
/// outside literals.
pub open spec fn keeps(region: Region, b: u8) -> bool {
    match region {
        Region::Outside | Region::Marker => !is_whitespace(b),
        _ => true,
    }
}

/// The state after reading `input[i]` in state `s`.
pub open spec fn step(s: Scan, input: Seq<u8>, i: int) -> Scan {
    Scan {
        region: next_region(s.region, s.out, input, i),
        out: if keeps(s.region, input[i]) {
            s.out.push(input[i])
        } else {
            s.out
        },
    }
}

/// The state after the first `n` bytes of `input`.
pub open spec fn scan(input: Seq<u8>, n: int) -> Scan
    decreases n,
{
    if n <= 0 {
        Scan { region: Region::Outside, out: Seq::empty() }
    } else {
        step(scan(input, n - 1), input, n - 1)
    }
}

/// What the minifier returns for `input`.
pub open spec fn minified(input: Seq<u8>) -> Seq<u8> {
    scan(input, input.len() as int).out
}

/// The last two bytes written are `S` and `E`.
pub open spec fn ends_with_marker(out: Seq<u8>) -> bool {
    out.len() >= 2 && out[out.len() - 2] == 0x53 && out[out.len() - 1] == 0x45
}

/// No `"` is read outside a literal right after an `S` and an `E` that only
/// whitespace holds apart in the input. On such a `"` a first pass stays
/// outside, while a second pass, which finds `SE"` adjacent, opens an escaped
/// literal.
pub open spec fn marker_intact(input: Seq<u8>) -> bool {
    forall|n: int|
        0 <= n < input.len() && input[n] == QUOTE && (#[trigger] scan(input, n)).region
            == Region::Outside ==> !ends_with_marker(scan(input, n).out)
}

/// The region in which a second pass stands where the first pass stood in
/// `s`: the same one, but for an `SE` that the first pass wrote from bytes
/// held apart.
pub open spec fn settled(s: Scan) -> Region {
    if s.region == Region::Outside && ends_with_marker(s.out) {
        Region::Marker
    } else {
        s.region
    }
}

/// What was written after `n` bytes stays a prefix of what is written later.
pub proof fn lemma_scan_extends(input: Seq<u8>, n: int, m: int)
    requires
        0 <= n <= m,
    ensures
        scan(input, n).out.len() <= scan(input, m).out.len(),
        scan(input, n).out == scan(input, m).out.subrange(0, scan(input, n).out.len() as int),
    decreases m - n,
{
    if n < m {
        lemma_scan_extends(input, n, m - 1);
        let a = scan(input, n).out;
        let b = scan(input, m - 1).out;
        let c = scan(input, m).out;
        assert(c == b || c == b.push(input[m - 1]));
        assert(a == c.subrange(0, a.len() as int));
    } else {
        assert(scan(input, n).out == scan(input, m).out.subrange(
            0,
            scan(input, n).out.len() as int,
        ));
    }
}

/// A byte that is no whitespace is always written, and the marker region is
/// entered only with `SE` just written.
pub proof fn lemma_scan_last(input: Seq<u8>, n: int)
    requires
        0 <= n <= input.len(),
    ensures
        n > 0 && !is_whitespace(input[n - 1]) ==> scan(input, n).out.len() > 0 && scan(
            input,
            n,
        ).out.last() == input[n - 1],
        scan(input, n).region == Region::Marker ==> ends_with_marker(scan(input, n).out) && n > 0
            && input[n - 1] != 0x53,
    decreases n,
{
    if n > 0 {
        lemma_scan_last(input, n - 1);
    }
}

/// A second pass over the minified bytes follows the first pass: where the
/// first pass had written `out`, the second has written the same bytes.
proof fn lemma_rescan(input: Seq<u8>, n: int)
    requires
        marker_intact(input),
        0 <= n <= input.len(),
    ensures
        scan(minified(input), scan(input, n).out.len() as int) == (Scan {
            region: settled(scan(input, n)),
            out: scan(input, n).out,
        }),
    decreases n,
{
    let y = minified(input);
    let s = scan(input, n);
    if n == 0 {
        assert(s.out.len() == 0);
    } else {
        let s0 = scan(input, n - 1);
        let b = input[n - 1];
        lemma_rescan(input, n - 1);
        lemma_scan_last(input, n - 1);
        lemma_scan_last(input, n);
        if keeps(s0.region, b) {
            let m = s0.out.len() as int;
            lemma_scan_extends(input, n, input.len() as int);
            lemma_scan_extends(input, n - 1, input.len() as int);
            assert(s.out == s0.out.push(b));
            assert(y[m] == s.out[m]);
            assert(y[m] == b);
            if m > 0 {
                assert(y[m - 1] == s0.out[m - 1]);
            }
            let t0 = scan(y, m);
            assert(scan(y, m + 1) == step(t0, y, m));
            assert(keeps(t0.region, b));
            assert(scan(y, m + 1).out == s.out);
            assert(scan(y, m + 1).region == settled(s));
        } else {
            assert(s == s0);
        }
    }
}

/// The minifier drops no byte of `text`: it meets no whitespace outside a
/// literal.
pub open spec fn keeps_all(text: Seq<u8>) -> bool {
    forall|n: int| 0 <= n < text.len() ==> keeps((#[trigger] scan(text, n)).region, text[n])
}

/// After `n` bytes at most `n` bytes are written: all of them where every
/// byte was kept, and fewer where one was dropped.
proof fn lemma_scan_kept(text: Seq<u8>, n: int)
    requires
        0 <= n <= text.len(),
    ensures
        scan(text, n).out.len() <= n,
        (forall|k: int| 0 <= k < n ==> keeps((#[trigger] scan(text, k)).region, text[k]))
            ==> scan(text, n).out == text.subrange(0, n),
        scan(text, n).out.len() == n ==> forall|k: int|
            0 <= k < n ==> keeps((#[trigger] scan(text, k)).region, text[k]),
    decreases n,
{
    if n > 0 {
        lemma_scan_kept(text, n - 1);
        if forall|k: int| 0 <= k < n ==> keeps((#[trigger] scan(text, k)).region, text[k]) {
            assert(keeps(scan(text, n - 1).region, text[n - 1]));
            assert(text.subrange(0, n - 1).push(text[n - 1]) =~= text.subrange(0, n));
        }
    } else {
        assert(scan(text, 0).out =~= text.subrange(0, 0));
    }
}

/// The minifier leaves a text as it is exactly where it drops no byte of it.
pub proof fn lemma_unchanged_iff_keeps_all(text: Seq<u8>)
    ensures
        minified(text) == text <==> keeps_all(text),
{
    lemma_scan_kept(text, text.len() as int);
    assert(text.subrange(0, text.len() as int) =~= text);
}

/// Minifying twice gives what minifying once gives exactly where the second
/// pass drops no byte. It does drop one on `S E"x\" S"a b"`: the first pass
/// writes `SE"x\"S"a b"` and keeps the blank in a raw literal, the second
/// reads an escaped literal up to the third `"` and meets the blank outside.
pub proof fn lemma_minify_twice(input: Seq<u8>)
    ensures
        minified(minified(input)) == minified(input) <==> keeps_all(minified(input)),
{
    lemma_unchanged_iff_keeps_all(minified(input));
}

/// Minifying twice gives what minifying once gives, for every input that
/// keeps its `SE` markers intact. The condition is sufficient, and more than
/// is needed: `S E"abc"` does not meet it, and a second pass changes nothing.
pub proof fn lemma_minify_idempotent(input: Seq<u8>)
    requires
        marker_intact(input),
    ensures
        minified(minified(input)) == minified(input),
{
    lemma_rescan(input, input.len() as int);
}

/// Every byte of `gap` is whitespace.
pub open spec fn all_whitespace(gap: Seq<u8>) -> bool {
    forall|j: int| 0 <= j < gap.len() ==> is_whitespace(#[trigger] gap[j])
}

/// Whitespace may stand before byte `i` of `compact`, or after its last byte
/// where `i` is its length: the minifier is outside any literal there, and
/// the place is not between the `S` and the `E` of a marker.
pub open spec fn gap_allowed(compact: Seq<u8>, i: int) -> bool {
    let region = scan(compact, i).region;
    (region == Region::Outside || region == Region::Marker) && !(0 < i < compact.len()
        && compact[i - 1] == 0x53 && compact[i] == 0x45)
}

/// `gaps` are runs of whitespace, one for each place before, between and
/// after the bytes of `compact`, empty wherever no whitespace may stand.
pub open spec fn gaps_fit(compact: Seq<u8>, gaps: Seq<Seq<u8>>) -> bool {
    &&& gaps.len() == compact.len() + 1
    &&& forall|i: int|
        0 <= i <= compact.len() ==> all_whitespace(#[trigger] gaps[i]) && (gaps[i].len() > 0
            ==> gap_allowed(compact, i))
}

/// The first `n` bytes of `compact`, each with its gap before it, and the gap
/// that follows them.
pub open spec fn spaced(compact: Seq<u8>, gaps: Seq<Seq<u8>>, n: int) -> Seq<u8>
    decreases n,
{
    if n <= 0 {
        gaps[0]
    } else {
        spaced(compact, gaps, n - 1).push(compact[n - 1]) + gaps[n]
    }
}

/// `compact` with the whitespace of `gaps` put in.
pub open spec fn spaced_out(compact: Seq<u8>, gaps: Seq<Seq<u8>>) -> Seq<u8> {
    spaced(compact, gaps, compact.len() as int)
}

/// The spaced text of the first `n` bytes is a prefix of that of the first
/// `k`.
proof fn lemma_spaced_prefix(compact: Seq<u8>, gaps: Seq<Seq<u8>>, n: int, k: int)
    requires
        0 <= n <= k,
    ensures
        spaced(compact, gaps, n).len() <= spaced(compact, gaps, k).len(),
        spaced(compact, gaps, k).subrange(0, spaced(compact, gaps, n).len() as int) == spaced(
            compact,
            gaps,
            n,
        ),
    decreases k - n,
{
    let a = spaced(compact, gaps, n);
    if n < k {
        lemma_spaced_prefix(compact, gaps, n, k - 1);
        let b = spaced(compact, gaps, k - 1);
        let c = spaced(compact, gaps, k);
        assert(c == b.push(compact[k - 1]) + gaps[k]);
        assert(c.subrange(0, a.len() as int) =~= b.subrange(0, a.len() as int));
    } else {
        assert(a.subrange(0, a.len() as int) =~= a);
    }
}

/// Whitespace read outside a literal leaves the state as it is.
proof fn lemma_scan_gap(input: Seq<u8>, from: int, len: int)
    requires
        0 <= from,
        0 <= len,
        from + len <= input.len(),
        forall|j: int| from <= j < from + len ==> is_whitespace(#[trigger] input[j]),
        len > 0 ==> scan(input, from).region == Region::Outside || scan(input, from).region
            == Region::Marker,
    ensures
        scan(input, from + len) == scan(input, from),
    decreases len,
{
    if len > 0 {
        lemma_scan_gap(input, from, len - 1);
        assert(is_whitespace(input[from + len - 1]));
    }
}

/// After the spaced text of the first `n` bytes the minifier is in the
/// state in which it is after the `n` bytes themselves.
proof fn lemma_spaced_scan(compact: Seq<u8>, gaps: Seq<Seq<u8>>, n: int)
    requires
        gaps_fit(compact, gaps),
        0 <= n <= compact.len(),
    ensures
        scan(spaced_out(compact, gaps), spaced(compact, gaps, n).len() as int) == scan(compact, n),
    decreases n,
{
    let x = spaced_out(compact, gaps);
    let here = spaced(compact, gaps, n);
    lemma_spaced_prefix(compact, gaps, n, compact.len() as int);
    assert(all_whitespace(gaps[n]));
    if n == 0 {
        assert forall|j: int| 0 <= j < here.len() implies is_whitespace(#[trigger] x[j]) by {
            assert(x[j] == x.subrange(0, here.len() as int)[j]);
            assert(is_whitespace(gaps[0][j]));
        }
        lemma_scan_gap(x, 0, here.len() as int);
    } else {
        let before = spaced(compact, gaps, n - 1);
        let a = before.len() as int;
        let b = compact[n - 1];
        lemma_spaced_scan(compact, gaps, n - 1);
        lemma_spaced_prefix(compact, gaps, n - 1, compact.len() as int);
        lemma_scan_last(compact, n - 1);
        assert(here == before.push(b) + gaps[n]);
        assert forall|j: int| 0 <= j < here.len() implies x[j] == here[j] by {
            assert(x[j] == x.subrange(0, here.len() as int)[j]);
        }
        assert(x[a] == b);
        assert(all_whitespace(gaps[n - 1]));
        if a > 0 {
            if gaps[n - 1].len() > 0 {
                assert(before[a - 1] == gaps[n - 1][gaps[n - 1].len() - 1]) by {
                    if n - 1 > 0 {
                        assert(before == spaced(compact, gaps, n - 2).push(compact[n - 2])
                            + gaps[n - 1]);
                    }
                }
                assert(x[a - 1] == before[a - 1]);
                assert(is_whitespace(x[a - 1]));
                assert(gap_allowed(compact, n - 1));
            } else {
                assert(n - 1 > 0);
                assert(before == spaced(compact, gaps, n - 2).push(compact[n - 2]) + gaps[n - 1]);
                assert(before[a - 1] == compact[n - 2]);
                assert(x[a - 1] == before[a - 1]);
            }
        } else {
            assert(gaps[n - 1].len() == 0);
            assert(n - 1 == 0) by {
                if n - 1 > 0 {
                    assert(before == spaced(compact, gaps, n - 2).push(compact[n - 2])
                        + gaps[n - 1]);
                }
            }
        }
        assert(scan(x, a + 1) == step(scan(compact, n - 1), x, a));
        assert(scan(x, a + 1) == scan(compact, n));
        assert forall|j: int| a + 1 <= j < a + 1 + gaps[n].len() implies is_whitespace(
            #[trigger] x[j],
        ) by {
            assert(x[j] == here[j]);
            assert(here[j] == gaps[n][j - a - 1]);
        }
        lemma_scan_gap(x, a + 1, gaps[n].len() as int);
    }
}

/// Whitespace put in outside the literals of a text is removed again: the
/// spaced text minifies to what the text itself minifies to.
pub proof fn lemma_spacing_is_removed(compact: Seq<u8>, gaps: Seq<Seq<u8>>)
    requires
        gaps_fit(compact, gaps),
    ensures
        minified(spaced_out(compact, gaps)) == minified(compact),
{
    lemma_spaced_scan(compact, gaps, compact.len() as int);
}

/// What is written after `n` bytes, followed by the bytes not yet read, is a
/// text where the input is one.
proof fn lemma_scan_keeps_text(input: Seq<u8>, n: int)
    requires
        valid_utf8(input),
        0 <= n <= input.len(),
    ensures
        valid_utf8(scan(input, n).out + input.subrange(n, input.len() as int)),
    decreases n,
{
    let len = input.len() as int;
    if n == 0 {
        assert(scan(input, 0).out + input.subrange(0, len) =~= input);
    } else {
        lemma_scan_keeps_text(input, n - 1);
        let s0 = scan(input, n - 1);
        let before = s0.out + input.subrange(n - 1, len);
        let after = scan(input, n).out + input.subrange(n, len);
        let m = s0.out.len() as int;
        assert(before[m] == input[n - 1]);
        if keeps(s0.region, input[n - 1]) {
            assert(after =~= before);
        } else {
            lemma_without_ascii(before, m);
            assert(after =~= before.subrange(0, m) + before.subrange(m + 1, before.len() as int));
        }
    }
}

/// The minifier makes a text of a text: it takes out ASCII bytes only.
pub proof fn lemma_minified_is_text(input: Seq<u8>)
    requires
        valid_utf8(input),
    ensures
        valid_utf8(minified(input)),
{
    lemma_scan_keeps_text(input, input.len() as int);
    assert(minified(input) + input.subrange(input.len() as int, input.len() as int) =~= minified(
        input,
    ));
}

/// Removes the whitespace that stands outside literal regions, byte by byte.
pub fn minify_bytes(input: &[u8]) -> (output: Vec<u8>)
    ensures
        output@ == minified(input@),
{
    let mut out: Vec<u8> = Vec::with_capacity(input.len());
    let mut region = Region::Outside;
    let mut i: usize = 0;
    while i < input.len()
        invariant
            i <= input.len(),
            scan(input@, i as int) == (Scan { region, out: out@ }),
        decreases input.len() - i,
    {
        let b = input[i];
        let keep = match region {
            Region::Outside | Region::Marker => !whitespace(b),
            _ => true,
        };
        let next = match region {
            Region::Outside | Region::Marker => {
                if b == QUOTE {
                    if region == Region::Marker {
                        Region::Escaped
                    } else if out.len() > 0 && raw_tag(out[out.len() - 1]) {
                        Region::Raw
                    } else {
                        Region::Outside
                    }
                } else if whitespace(b) {
                    region
                } else if b == 0x45 && i > 0 && input[i - 1] == 0x53 {
                    Region::Marker
                } else {
                    Region::Outside
                }
            },
            Region::Raw => if b == QUOTE {
                Region::Outside
            } else {
                Region::Raw
            },
            Region::Escaped => if b == BACKSLASH {
                Region::EscapedSkip
            } else if b == QUOTE {
                Region::Outside
            } else {
                Region::Escaped
            },
            Region::EscapedSkip => Region::Escaped,
        };
        if keep {
            out.push(b);
        }
        region = next;
        i += 1;
    }
    out
}

/// `String::from_utf8`: the string whose UTF-8 encoding is `bytes`, or `None`
/// where `bytes` are no valid UTF-8.
#[verifier::external_body]
fn string_from_utf8(bytes: Vec<u8>) -> (r: Option<String>)
    ensures
        valid_utf8(bytes@) ==> r is Some,
        r matches Some(text) ==> encode_utf8(text@) == bytes@,
{
    match String::from_utf8(bytes) {
        Ok(text) => Some(text),
        Err(_) => None,
    }
}

/// Removes the whitespace that stands outside literal regions. Never fails:
/// malformed input is copied as far as the rules above apply.
pub fn minify_fdon(input: &str) -> (output: String)
    ensures
        encode_utf8(output@) == minified(input.spec_bytes()),
{
    let bytes = minify_bytes(input.as_bytes());
    proof {
        encode_utf8_valid_utf8(input@);
        lemma_minified_is_text(input.spec_bytes());
    }
    match string_from_utf8(bytes) {
        Some(text) => text,
        None => unreached(),
    }
}

} // verus!
