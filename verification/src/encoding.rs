//! How the characters of a text correspond to its UTF-8 bytes.
//!
//! A `str` is a run of UTF-8 bytes, and the executable code of this crate walks
//! those bytes. Its contracts speak of characters. The lemmas here carry facts
//! from one side to the other.

use vstd::prelude::*;
use vstd::utf8::*;

verus! {

/// A text of one character is encoded by the bytes of that character.
pub proof fn lemma_encode_single(c: char)
    ensures
        encode_utf8(seq![c]) == encode_scalar(c as u32),
{
    assert(seq![c].drop_first() =~= Seq::<char>::empty());
    reveal_with_fuel(encode_utf8, 2);
    assert(encode_utf8(seq![c]) =~= encode_scalar(c as u32));
}

/// The bytes that encode one character. An ASCII character is encoded by the
/// single byte of its own value; every byte that encodes another character is
/// `0x80` or more.
pub proof fn lemma_scalar_bytes(c: char)
    ensures
        1 <= encode_scalar(c as u32).len() <= 4,
        c as u32 <= 0x7f ==> encode_scalar(c as u32) == seq![c as u8],
        c as u32 > 0x7f ==> forall|i: int|
            0 <= i < encode_scalar(c as u32).len() ==> #[trigger] encode_scalar(c as u32)[i]
                >= 0x80,
{
    let scalar = c as u32;
    lemma_encode_single(c);
    encode_utf8_first_scalar(seq![c]);
    if scalar <= 0x7f {
        assert((scalar & 0x7F) as u8 == scalar as u8) by (bit_vector)
            requires
                scalar <= 0x7f,
        ;
        assert(encode_scalar(scalar) =~= seq![c as u8]);
    }
}

/// Two ASCII characters with the same byte are the same character.
pub proof fn lemma_ascii_byte_injective(a: char, b: char)
    requires
        a as u32 <= 0x7f,
        b as u32 <= 0x7f,
        a as u8 == b as u8,
    ensures
        a == b,
{
    char_u32_cast(a, a as u32);
    char_u32_cast(b, b as u32);
}

/// Encoding distributes over concatenation.
pub proof fn lemma_encode_concat(a: Seq<char>, b: Seq<char>)
    ensures
        encode_utf8(a + b) == encode_utf8(a) + encode_utf8(b),
    decreases a.len(),
{
    if a.len() == 0 {
        assert(a + b =~= b);
        assert(encode_utf8(a) + encode_utf8(b) =~= encode_utf8(b));
    } else {
        lemma_encode_concat(a.drop_first(), b);
        assert((a + b).drop_first() =~= a.drop_first() + b);
        assert(encode_utf8(a + b) =~= encode_utf8(a) + encode_utf8(b));
    }
}

/// Two texts with the same bytes are the same text.
pub proof fn lemma_encode_injective(a: Seq<char>, b: Seq<char>)
    requires
        encode_utf8(a) == encode_utf8(b),
    ensures
        a == b,
{
    encode_utf8_decode_utf8(a);
    encode_utf8_decode_utf8(b);
}

/// Only the empty text has no bytes.
pub proof fn lemma_encode_empty(a: Seq<char>)
    ensures
        encode_utf8(a).len() == 0 <==> a.len() == 0,
{
    if a.len() > 0 {
        lemma_scalar_bytes(a[0]);
    }
}

/// Cutting a text after its first `chars` characters cuts its bytes after the
/// encoding of those characters, and that offset is a character boundary.
pub proof fn lemma_split_encoded(text: Seq<char>, chars: int)
    requires
        0 <= chars <= text.len(),
    ensures
        ({
            let bytes = encode_utf8(text);
            let at = encode_utf8(text.take(chars)).len() as int;
            &&& at <= bytes.len()
            &&& is_char_boundary(bytes, at)
            &&& bytes.subrange(0, at) == encode_utf8(text.take(chars))
            &&& bytes.subrange(at, bytes.len() as int) == encode_utf8(text.skip(chars))
        }),
{
    let bytes = encode_utf8(text);
    let head = encode_utf8(text.take(chars));
    let tail = encode_utf8(text.skip(chars));
    let at = head.len() as int;
    assert(text =~= text.take(chars) + text.skip(chars));
    lemma_encode_concat(text.take(chars), text.skip(chars));
    assert(bytes.subrange(0, at) =~= head);
    assert(bytes.subrange(at, bytes.len() as int) =~= tail);
    encode_utf8_valid_utf8(text);
    if tail.len() == 0 {
        is_char_boundary_start_end_of_seq(bytes);
    } else {
        lemma_encode_empty(text.skip(chars));
        encode_utf8_first_scalar(text.skip(chars));
        assert(bytes[at] == tail[0]);
        is_char_boundary_iff_not_is_continuation_byte(bytes, at);
    }
}

} // verus!
