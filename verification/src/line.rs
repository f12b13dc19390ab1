//! Splitting a text into its lines.

use crate::encoding::{
    lemma_ascii_byte_injective, lemma_encode_concat, lemma_encode_empty, lemma_encode_injective,
    lemma_encode_single, lemma_scalar_bytes, lemma_split_encoded,
};
use vstd::prelude::*;
use vstd::utf8::*;

verus! {

/// The byte that encodes a line feed.
const LINE_FEED: u8 = 0x0a;

/// The byte that encodes a carriage return.
const CARRIAGE_RETURN: u8 = 0x0d;

/// The index of the first `wanted` in `items`, or the length of `items` where
/// there is none.
pub open spec fn first_index_of<T>(items: Seq<T>, wanted: T) -> int
    decreases items.len(),
{
    if items.len() == 0 || items[0] == wanted {
        0
    } else {
        1 + first_index_of(items.drop_first(), wanted)
    }
}

/// `line` without the carriage return at its end, if it has one there.
pub open spec fn without_trailing_cr(line: Seq<char>) -> Seq<char> {
    if line.len() > 0 && line.last() == '\r' {
        line.drop_last()
    } else {
        line
    }
}

/// The lines of `text`, in order.
///
/// A line ends at a line feed, or at a carriage return directly followed by a
/// line feed; neither belongs to the line. What follows the last line feed is
/// a line too unless it is empty, and it keeps a carriage return at its end.
/// The empty text has no lines.
pub open spec fn split_lines(text: Seq<char>) -> Seq<Seq<char>>
    decreases text.len(),
    via split_lines_decreases
{
    let end = first_index_of(text, '\n');
    if text.len() == 0 {
        Seq::empty()
    } else if end == text.len() {
        seq![text]
    } else {
        seq![without_trailing_cr(text.take(end))] + split_lines(text.skip(end + 1))
    }
}

#[via_fn]
proof fn split_lines_decreases(text: Seq<char>) {
    lemma_first_index_of(text, '\n');
}

/// The texts of a sequence of string slices.
pub open spec fn texts_of(lines: Seq<&str>) -> Seq<Seq<char>> {
    lines.map_values(|line: &str| line@)
}

/// `first_index_of` stays within the sequence, points at a `wanted` unless it
/// is the length, and passes over none.
pub proof fn lemma_first_index_of<T>(items: Seq<T>, wanted: T)
    ensures
        0 <= first_index_of(items, wanted) <= items.len(),
        first_index_of(items, wanted) < items.len() ==> items[first_index_of(items, wanted)]
            == wanted,
        forall|i: int| 0 <= i < first_index_of(items, wanted) ==> items[i] != wanted,
    decreases items.len(),
{
    if items.len() == 0 || items[0] == wanted {
    } else {
        let rest = items.drop_first();
        lemma_first_index_of(rest, wanted);
        assert forall|i: int| 0 <= i < first_index_of(items, wanted) implies items[i]
            != wanted by {
            if i > 0 {
                assert(items[i] == rest[i - 1]);
            }
        }
    }
}

/// An index that points at a `wanted`, or is the length, and that no `wanted`
/// precedes, is the first index of `wanted`.
proof fn lemma_first_index_is<T>(items: Seq<T>, wanted: T, at: int)
    requires
        0 <= at <= items.len(),
        at < items.len() ==> items[at] == wanted,
        forall|i: int| 0 <= i < at ==> items[i] != wanted,
    ensures
        first_index_of(items, wanted) == at,
    decreases at,
{
    if at > 0 {
        let rest = items.drop_first();
        assert(items[0] != wanted);
        assert forall|i: int| 0 <= i < at - 1 implies rest[i] != wanted by {
            assert(rest[i] == items[i + 1]);
        }
        lemma_first_index_is(rest, wanted, at - 1);
    }
}

/// The first line feed among the bytes of a text stands where the encoding of
/// the characters before the first line feed ends. The same holds of every
/// ASCII character.
proof fn lemma_first_index_encoded(text: Seq<char>, wanted: char)
    requires
        wanted as u32 <= 0x7f,
    ensures
        first_index_of(encode_utf8(text), wanted as u8) == encode_utf8(
            text.take(first_index_of(text, wanted)),
        ).len(),
    decreases text.len(),
{
    let bytes = encode_utf8(text);
    if text.len() == 0 {
        assert(text.take(0) =~= text);
    } else {
        let first = text[0];
        let rest = text.drop_first();
        let head = encode_scalar(first as u32);
        lemma_scalar_bytes(first);
        assert(bytes == head + encode_utf8(rest));
        if first == wanted {
            assert(bytes[0] == head[0]);
            assert(text.take(0) =~= Seq::<char>::empty());
        } else {
            let chars = first_index_of(rest, wanted);
            lemma_first_index_of(rest, wanted);
            lemma_first_index_encoded(rest, wanted);
            assert forall|i: int| 0 <= i < head.len() implies head[i] != wanted as u8 by {
                if first as u32 <= 0x7f && head[i] == wanted as u8 {
                    lemma_ascii_byte_injective(first, wanted);
                }
            }
            assert(bytes[0] == head[0]);
            let at = head.len() + first_index_of(encode_utf8(rest), wanted as u8);
            lemma_first_index_of(encode_utf8(rest), wanted as u8);
            assert forall|i: int| 0 <= i < at implies bytes[i] != wanted as u8 by {
                if i >= head.len() {
                    assert(bytes[i] == encode_utf8(rest)[i - head.len()]);
                }
            }
            assert(at < bytes.len() ==> bytes[at] == encode_utf8(rest)[at - head.len()]);
            lemma_first_index_is(bytes, wanted as u8, at);
            assert(text.take(chars + 1) =~= seq![first] + rest.take(chars));
            lemma_encode_concat(seq![first], rest.take(chars));
            lemma_encode_single(first);
        }
    }
}

/// A text ends in a carriage return exactly when its bytes end in the byte of
/// a carriage return, and dropping the one drops the other. The same holds of
/// every ASCII character.
proof fn lemma_last_encoded(text: Seq<char>, wanted: char)
    requires
        wanted as u32 <= 0x7f,
    ensures
        (text.len() > 0 && text.last() == wanted) <==> (encode_utf8(text).len() > 0
            && encode_utf8(text).last() == wanted as u8),
        text.len() > 0 && text.last() == wanted ==> encode_utf8(text.drop_last()).len() + 1
            == encode_utf8(text).len(),
{
    lemma_encode_empty(text);
    if text.len() > 0 {
        let last = text.last();
        let tail = encode_scalar(last as u32);
        assert(text =~= text.drop_last() + seq![last]);
        lemma_encode_concat(text.drop_last(), seq![last]);
        lemma_encode_single(last);
        lemma_scalar_bytes(last);
        assert(encode_utf8(text).last() == tail.last());
        if last as u32 <= 0x7f && tail.last() == wanted as u8 {
            lemma_ascii_byte_injective(last, wanted);
        }
    }
}

/// Finds the first `wanted` among `bytes`.
fn find_byte(bytes: &[u8], wanted: u8) -> (at: usize)
    ensures
        at == first_index_of(bytes@, wanted),
{
    let mut at: usize = 0;
    while at < bytes.len() && bytes[at] != wanted
        invariant
            at <= bytes@.len(),
            forall|i: int| 0 <= i < at ==> bytes@[i] != wanted,
        decreases bytes@.len() - at,
    {
        at += 1;
    }
    proof {
        lemma_first_index_is(bytes@, wanted, at as int);
    }
    at
}

/// Cuts `text` at the byte offset `at`, where the encoding of its first
/// `chars` characters ends.
fn split_after<'a>(text: &'a str, at: usize, Ghost(chars): Ghost<int>) -> (parts: (
    &'a str,
    &'a str,
))
    requires
        0 <= chars <= text@.len(),
        at == encode_utf8(text@.take(chars)).len(),
    ensures
        parts.0@ == text@.take(chars),
        parts.1@ == text@.skip(chars),
{
    proof {
        lemma_split_encoded(text@, chars);
    }
    let parts = text.split_at(at);
    proof {
        lemma_encode_injective(parts.0@, text@.take(chars));
        lemma_encode_injective(parts.1@, text@.skip(chars));
    }
    parts
}

/// Drops the carriage return at the end of `line`, if it has one there.
fn strip_cr<'a>(line: &'a str) -> (stripped: &'a str)
    ensures
        stripped@ == without_trailing_cr(line@),
{
    let bytes = line.as_bytes();
    let width: usize = bytes.len();
    proof {
        lemma_last_encoded(line@, '\r');
    }
    if width > 0 && bytes[width - 1] == CARRIAGE_RETURN {
        let parts = split_after(line, width - 1, Ghost(line@.len() - 1));
        parts.0
    } else {
        line
    }
}

/// Cuts the first line off a text that is not empty, and returns it with what
/// follows its line ending.
fn split_first_line<'a>(text: &'a str) -> (parts: (&'a str, &'a str))
    requires
        text@.len() > 0,
    ensures
        split_lines(text@) == seq![parts.0@] + split_lines(parts.1@),
        parts.1@.len() < text@.len(),
{
    let bytes = text.as_bytes();
    let end: usize = find_byte(bytes, LINE_FEED);
    let ghost chars = first_index_of(text@, '\n');
    proof {
        lemma_first_index_of(text@, '\n');
        lemma_first_index_encoded(text@, '\n');
        lemma_split_encoded(text@, chars);
        lemma_encode_empty(text@.skip(chars));
    }
    if end == bytes.len() {
        proof {
            reveal_strlit("");
        }
        (text, "")
    } else {
        let (head, tail) = split_after(text, end, Ghost(chars));
        proof {
            assert(tail@.take(1) =~= seq!['\n']);
            lemma_encode_single('\n');
            lemma_scalar_bytes('\n');
        }
        let (_, rest) = split_after(tail, 1, Ghost(1));
        assert(rest@ =~= text@.skip(chars + 1));
        (strip_cr(head), rest)
    }
}

/// Splits `text` into its lines.
pub fn lines<'a>(text: &'a str) -> (lines: Vec<&'a str>)
    ensures
        texts_of(lines@) == split_lines(text@),
{
    let mut lines: Vec<&'a str> = Vec::new();
    let mut rest = text;
    while !rest.is_empty()
        invariant
            texts_of(lines@) + split_lines(rest@) == split_lines(text@),
        decreases rest@.len(),
    {
        let (line, after) = split_first_line(rest);
        proof {
            let done = texts_of(lines@);
            let left = split_lines(after@);
            assert(texts_of(lines@.push(line)) =~= done.push(line@));
            assert(done.push(line@) + left =~= done + (seq![line@] + left));
        }
        lines.push(line);
        rest = after;
    }
    assert(texts_of(lines@) + split_lines(rest@) =~= texts_of(lines@));
    lines
}

} // verus!
