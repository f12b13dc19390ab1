//! Literal occurrences of one sequence inside another.

use crate::encoding::{lemma_encode_concat, lemma_encode_empty, lemma_split_encoded};
use vstd::prelude::*;
use vstd::utf8::*;

verus! {

/// `needle` stands in `haystack` at index `at`.
pub open spec fn occurs_at<T>(needle: Seq<T>, haystack: Seq<T>, at: int) -> bool {
    &&& 0 <= at
    &&& at + needle.len() <= haystack.len()
    &&& haystack.subrange(at, at + needle.len()) == needle
}

/// `needle` stands somewhere in `haystack`. The empty sequence stands in every
/// sequence.
pub open spec fn occurs_in<T>(needle: Seq<T>, haystack: Seq<T>) -> bool {
    exists|at: int| #[trigger] occurs_at(needle, haystack, at)
}

/// The empty sequence stands in every sequence.
pub proof fn lemma_occurs_everywhere_if_empty<T>(needle: Seq<T>, haystack: Seq<T>)
    requires
        needle.len() == 0,
    ensures
        occurs_in(needle, haystack),
{
    assert(haystack.subrange(0, 0) =~= needle);
    assert(occurs_at(needle, haystack, 0));
}

/// Compares `needle` with the bytes of `haystack` that start at `at`.
fn matches_at(haystack: &[u8], needle: &[u8], at: usize) -> (matched: bool)
    requires
        at + needle@.len() <= haystack@.len(),
    ensures
        matched == occurs_at(needle@, haystack@, at as int),
{
    let ghost window = haystack@.subrange(at as int, at + needle@.len());
    let width: usize = needle.len();
    let limit: usize = haystack.len();
    let mut i: usize = 0;
    while i < width
        invariant
            i <= width == needle@.len(),
            at + width <= limit == haystack@.len(),
            window == haystack@.subrange(at as int, at + width),
            forall|j: int| 0 <= j < i ==> window[j] == needle@[j],
        decreases width - i,
    {
        if haystack[at + i] != needle[i] {
            assert(window[i as int] != needle@[i as int]);
            return false;
        }
        i += 1;
    }
    assert(window =~= needle@);
    true
}

/// Tells whether `needle` stands somewhere in `haystack`, trying each start in
/// turn.
fn contains_bytes(haystack: &[u8], needle: &[u8]) -> (found: bool)
    ensures
        found == occurs_in(needle@, haystack@),
{
    if needle.len() > haystack.len() {
        return false;
    }
    let last: usize = haystack.len() - needle.len();
    let mut at: usize = 0;
    while at < last
        invariant
            at <= last,
            last + needle@.len() == haystack@.len(),
            forall|k: int| 0 <= k < at ==> !occurs_at(needle@, haystack@, k),
        decreases last - at,
    {
        if matches_at(haystack, needle, at) {
            return true;
        }
        at += 1;
    }
    matches_at(haystack, needle, last)
}

/// An occurrence among the characters is an occurrence among the bytes.
proof fn lemma_occurrence_encoded(needle: Seq<char>, haystack: Seq<char>, at: int)
    requires
        occurs_at(needle, haystack, at),
    ensures
        occurs_in(encode_utf8(needle), encode_utf8(haystack)),
{
    let bytes = encode_utf8(haystack);
    let offset = encode_utf8(haystack.take(at)).len() as int;
    let after = haystack.skip(at + needle.len());
    lemma_split_encoded(haystack, at);
    assert(haystack.skip(at) =~= needle + after);
    lemma_encode_concat(needle, after);
    let tail = bytes.subrange(offset, bytes.len() as int);
    assert(tail == encode_utf8(needle) + encode_utf8(after));
    assert(tail.len() == encode_utf8(needle).len() + encode_utf8(after).len());
    assert(bytes.subrange(offset, offset + encode_utf8(needle).len()) =~= encode_utf8(needle));
    assert(occurs_at(encode_utf8(needle), bytes, offset));
}

/// An occurrence among the bytes is an occurrence among the characters: the
/// encoding of a text cannot begin or end inside the encoding of a character.
proof fn lemma_occurrence_decoded(needle: Seq<char>, haystack: Seq<char>, at: int)
    requires
        occurs_at(encode_utf8(needle), encode_utf8(haystack), at),
    ensures
        occurs_in(needle, haystack),
{
    let wanted = encode_utf8(needle);
    let bytes = encode_utf8(haystack);
    if needle.len() == 0 {
        lemma_occurs_everywhere_if_empty(needle, haystack);
    } else {
        encode_utf8_valid_utf8(needle);
        encode_utf8_valid_utf8(haystack);
        lemma_encode_empty(needle);
        encode_utf8_first_scalar(needle);
        assert(bytes[at] == bytes.subrange(at, at + wanted.len())[0]);
        is_char_boundary_iff_not_is_continuation_byte(bytes, at);
        valid_utf8_split(bytes, at);
        decode_utf8_split(bytes, at);
        let front = bytes.subrange(0, at);
        let back = bytes.subrange(at, bytes.len() as int);
        let rest = back.subrange(wanted.len() as int, back.len() as int);
        assert(back.subrange(0, wanted.len() as int) =~= wanted);
        if !valid_utf8(rest) {
            partial_valid_partial_invalid_utf8(back, wanted.len() as int);
        }
        decode_utf8_encode_utf8(rest);
        lemma_encode_concat(needle, decode_utf8(rest));
        assert(back =~= wanted + rest);
        encode_utf8_decode_utf8(needle + decode_utf8(rest));
        encode_utf8_decode_utf8(haystack);
        let start = decode_utf8(front).len() as int;
        assert(haystack.subrange(start, start + needle.len()) =~= needle);
        assert(occurs_at(needle, haystack, start));
    }
}

/// A text occurs in another exactly when its bytes occur in the other's bytes.
pub proof fn lemma_occurs_in_encoded(needle: Seq<char>, haystack: Seq<char>)
    ensures
        occurs_in(needle, haystack) <==> occurs_in(encode_utf8(needle), encode_utf8(haystack)),
{
    if occurs_in(needle, haystack) {
        let at = choose|at: int| occurs_at(needle, haystack, at);
        lemma_occurrence_encoded(needle, haystack, at);
    }
    if occurs_in(encode_utf8(needle), encode_utf8(haystack)) {
        let at = choose|at: int| occurs_at(encode_utf8(needle), encode_utf8(haystack), at);
        lemma_occurrence_decoded(needle, haystack, at);
    }
}

/// Tells whether `needle` occurs in `haystack` as a literal run of characters.
pub fn contains(haystack: &str, needle: &str) -> (found: bool)
    ensures
        found == occurs_in(needle@, haystack@),
{
    proof {
        lemma_occurs_in_encoded(needle@, haystack@);
    }
    contains_bytes(haystack.as_bytes(), needle.as_bytes())
}

} // verus!
