//! Positions in UTF-8 text: which character stands at a byte offset, and
//! which offset lies behind it.

use vstd::prelude::*;
use vstd::std_specs::iter::IteratorSpec;
use vstd::string::*;
use vstd::utf8::*;

verus! {

/// The part of `bytes` that starts at `at`.
pub open spec fn tail(bytes: Seq<u8>, at: int) -> Seq<u8> {
    bytes.subrange(at, bytes.len() as int)
}

/// `bytes` is UTF-8 text and `at` lies between two of its characters, or at
/// one of its ends.
pub open spec fn is_position(bytes: Seq<u8>, at: int) -> bool {
    valid_utf8(bytes) && is_char_boundary(bytes, at)
}

/// The character that starts at `at`, if any.
pub open spec fn char_at(bytes: Seq<u8>, at: int) -> Option<char> {
    if 0 <= at < bytes.len() {
        Some(decode_first_scalar(tail(bytes, at)) as char)
    } else {
        None
    }
}

/// The position behind the character that starts at `at`; `at` itself at the
/// end of the text.
pub open spec fn after(bytes: Seq<u8>, at: int) -> int {
    if 0 <= at < bytes.len() {
        at + length_of_first_scalar(tail(bytes, at))
    } else {
        at
    }
}

/// The characters that `bytes` holds between the positions `from` and `to`.
pub open spec fn text_between(bytes: Seq<u8>, from: int, to: int) -> Seq<char> {
    decode_utf8(bytes.subrange(from, to))
}

/// A position lies in the text, and what stands before it and what stands
/// behind it are UTF-8 text of their own.
pub proof fn lemma_position_tail(bytes: Seq<u8>, at: int)
    requires
        is_position(bytes, at),
    ensures
        0 <= at <= bytes.len(),
        valid_utf8(tail(bytes, at)),
        valid_utf8(bytes.subrange(0, at)),
{
    valid_utf8_split(bytes, at);
    if at != 0 {
        reveal_with_fuel(is_char_boundary, 1);
    }
}

/// A place in UTF-8 text behind which UTF-8 text stands is a position.
pub proof fn lemma_tail_position(bytes: Seq<u8>, at: int)
    requires
        valid_utf8(bytes),
        0 <= at <= bytes.len(),
        valid_utf8(tail(bytes, at)),
    ensures
        is_position(bytes, at),
{
    if at == bytes.len() {
        is_char_boundary_start_end_of_seq(bytes);
    } else {
        assert(tail(bytes, at)[0] == bytes[at]);
        is_char_boundary_iff_is_leading_byte(bytes, at);
    }
}

/// At a position before the end stands a character; behind it lies a
/// position, and between the two stand the bytes of that character.
pub proof fn lemma_step(bytes: Seq<u8>, at: int)
    requires
        is_position(bytes, at),
        at < bytes.len(),
    ensures
        at < after(bytes, at) <= bytes.len(),
        is_position(bytes, after(bytes, at)),
        valid_first_scalar(tail(bytes, at)),
        char_at(bytes, at) is Some,
        encode_scalar(char_at(bytes, at)->0 as u32) == bytes.subrange(at, after(bytes, at)),
{
    lemma_position_tail(bytes, at);
    let rest = tail(bytes, at);
    let next = after(bytes, at);
    assert(valid_first_scalar(rest) && valid_utf8(pop_first_scalar(rest)));
    assert(pop_first_scalar(rest) =~= tail(bytes, next));
    lemma_tail_position(bytes, next);
    decode_utf8_first_scalar(rest);
    assert(take_first_scalar(rest) =~= bytes.subrange(at, next));
}

/// An ASCII character takes one byte.
pub proof fn lemma_ascii_step(bytes: Seq<u8>, at: int)
    requires
        is_position(bytes, at),
        char_at(bytes, at) matches Some(c) && (c as u32) < 0x80,
    ensures
        after(bytes, at) == at + 1,
        is_position(bytes, at + 1),
        at + 1 <= bytes.len(),
{
    lemma_step(bytes, at);
    let c = char_at(bytes, at)->0;
    assert(encode_scalar(c as u32).len() == 1);
    assert(bytes.subrange(at, after(bytes, at)).len() == after(bytes, at) - at);
}

/// Behind a piece of UTF-8 text that stands at a position lies a position.
pub proof fn lemma_past_prefix(bytes: Seq<u8>, at: int, prefix: Seq<u8>)
    requires
        is_position(bytes, at),
        valid_utf8(prefix),
        0 <= at,
        at + prefix.len() <= bytes.len(),
        bytes.subrange(at, at + prefix.len()) == prefix,
    ensures
        is_position(bytes, at + prefix.len()),
{
    lemma_position_tail(bytes, at);
    let rest = tail(bytes, at);
    let n = prefix.len() as int;
    assert(rest.subrange(0, n) =~= prefix);
    assert(rest.subrange(n, rest.len() as int) =~= tail(bytes, at + n));
    if !valid_utf8(tail(bytes, at + n)) {
        partial_valid_partial_invalid_utf8(rest, n);
    }
    lemma_tail_position(bytes, at + n);
}

/// Between two positions stands UTF-8 text: the bytes there are its
/// characters written in UTF-8, and it is empty only where the two meet.
pub proof fn lemma_between(bytes: Seq<u8>, from: int, to: int)
    requires
        is_position(bytes, from),
        is_position(bytes, to),
        from <= to,
    ensures
        valid_utf8(bytes.subrange(from, to)),
        encode_utf8(text_between(bytes, from, to)) == bytes.subrange(from, to),
        from < to ==> text_between(bytes, from, to).len() > 0,
{
    lemma_position_tail(bytes, from);
    lemma_position_tail(bytes, to);
    let rest = tail(bytes, from);
    assert(tail(rest, to - from) =~= tail(bytes, to));
    lemma_tail_position(rest, to - from);
    valid_utf8_split(rest, to - from);
    assert(rest.subrange(0, to - from) =~= bytes.subrange(from, to));
    decode_utf8_encode_utf8(bytes.subrange(from, to));
}

/// The text between two positions is the text up to a position between them
/// and the text from there on.
pub proof fn lemma_text_join(bytes: Seq<u8>, from: int, middle: int, to: int)
    requires
        is_position(bytes, from),
        is_position(bytes, middle),
        is_position(bytes, to),
        from <= middle <= to,
    ensures
        text_between(bytes, from, to) == text_between(bytes, from, middle) + text_between(
            bytes,
            middle,
            to,
        ),
{
    lemma_between(bytes, from, to);
    lemma_between(bytes, middle, to);
    lemma_position_tail(bytes, to);
    let part = bytes.subrange(from, to);
    assert(tail(part, middle - from) =~= bytes.subrange(middle, to));
    lemma_tail_position(part, middle - from);
    decode_utf8_split(part, middle - from);
    assert(part.subrange(0, middle - from) =~= bytes.subrange(from, middle));
}

/// The character at a position is one of the characters of the text.
pub proof fn lemma_char_in_text(bytes: Seq<u8>, at: int)
    requires
        is_position(bytes, at),
        at < bytes.len(),
    ensures
        decode_utf8(bytes).contains(char_at(bytes, at)->0),
{
    lemma_step(bytes, at);
    lemma_position_tail(bytes, at);
    decode_utf8_split(bytes, at);
    let head = decode_utf8(bytes.subrange(0, at));
    let rest = decode_utf8(tail(bytes, at));
    assert(rest[0] == char_at(bytes, at)->0);
    assert(decode_utf8(bytes)[head.len() as int] == rest[0]);
}

/// Written in UTF-8, a piece of ASCII text is the same piece of the bytes.
pub proof fn lemma_ascii_bytes(text: Seq<char>, from: int, to: int)
    requires
        is_ascii_chars(text),
        0 <= from <= to <= text.len(),
    ensures
        encode_utf8(text).len() == text.len(),
        encode_utf8(text.subrange(from, to)) == encode_utf8(text).subrange(from, to),
{
    let part = text.subrange(from, to);
    is_ascii_chars_encode_utf8(text);
    is_ascii_chars_encode_utf8(part);
    assert(encode_utf8(part) =~= encode_utf8(text).subrange(from, to));
}

/// In ASCII text every offset is a position, at which the character of that
/// index stands and takes one byte.
pub proof fn lemma_ascii_text(text: Seq<char>, at: int)
    requires
        is_ascii_chars(text),
        0 <= at <= text.len(),
    ensures
        encode_utf8(text).len() == text.len(),
        is_position(encode_utf8(text), at),
        char_at(encode_utf8(text), at) == if at < text.len() {
            Some(text[at])
        } else {
            None
        },
        after(encode_utf8(text), at) == if at < text.len() {
            at + 1
        } else {
            at
        },
{
    let bytes = encode_utf8(text);
    let rest = text.subrange(at, text.len() as int);
    lemma_ascii_bytes(text, at, text.len() as int);
    encode_utf8_valid_utf8(text);
    encode_utf8_valid_utf8(rest);
    lemma_tail_position(bytes, at);
    if at < text.len() {
        encode_utf8_first_scalar(rest);
        char_u32_cast(rest[0], decode_first_scalar(tail(bytes, at)));
        assert(encode_scalar(rest[0] as u32).len() == 1);
    }
}

/// Between two offsets of ASCII text stand the characters between those
/// indices.
pub proof fn lemma_ascii_between(text: Seq<char>, from: int, to: int)
    requires
        is_ascii_chars(text),
        0 <= from <= to <= text.len(),
    ensures
        text_between(encode_utf8(text), from, to) == text.subrange(from, to),
{
    lemma_ascii_bytes(text, from, to);
    encode_utf8_decode_utf8(text.subrange(from, to));
}

/// The number of bytes that `c` takes in UTF-8.
pub fn utf8_width(c: char) -> (width: usize)
    ensures
        width == encode_scalar(c as u32).len(),
        1 <= width <= 4,
{
    let v = c as u32;
    if v < 0x80 {
        1
    } else if v < 0x800 {
        2
    } else if v < 0x10000 {
        3
    } else {
        4
    }
}

/// The part of `text` between two of its positions.
pub fn substring<'a>(text: &'a str, from: usize, to: usize) -> (part: &'a str)
    requires
        is_position(text.spec_bytes(), from as int),
        is_position(text.spec_bytes(), to as int),
        from <= to,
    ensures
        part.spec_bytes() == text.spec_bytes().subrange(from as int, to as int),
        part@ == text_between(text.spec_bytes(), from as int, to as int),
{
    broadcast use group_utf8_lib;

    let ghost bytes = text.spec_bytes();
    proof {
        lemma_position_tail(bytes, to as int);
        lemma_position_tail(bytes, from as int);
    }
    let (head, _) = text.split_at(to);
    proof {
        let kept = head.spec_bytes();
        assert(kept.subrange(from as int, kept.len() as int) =~= bytes.subrange(
            from as int,
            to as int,
        ));
        if from < to {
            assert(kept[from as int] == bytes[from as int]);
            is_char_boundary_iff_is_leading_byte(bytes, from as int);
            is_char_boundary_iff_is_leading_byte(kept, from as int);
        } else {
            is_char_boundary_start_end_of_seq(kept);
        }
    }
    let (_, part) = head.split_at(from);
    part
}

/// The character of `text` that starts at the position `at`.
pub fn char_from(text: &str, at: usize) -> (c: Option<char>)
    requires
        is_position(text.spec_bytes(), at as int),
    ensures
        c == char_at(text.spec_bytes(), at as int),
{
    broadcast use {group_utf8_lib, group_string_axioms};

    let ghost bytes = text.spec_bytes();
    proof {
        lemma_position_tail(bytes, at as int);
    }
    let (_, rest) = text.split_at(at);
    let mut chars = rest.chars();
    assert(chars.remaining() == rest@);
    let c = chars.next();
    proof {
        assert(encode_utf8(rest@) =~= tail(bytes, at as int));
        if rest@.len() > 0 {
            encode_utf8_first_scalar(rest@);
            char_u32_cast(rest@[0], decode_first_scalar(tail(bytes, at as int)));
            assert(tail(bytes, at as int).len() > 0);
        } else {
            assert(tail(bytes, at as int).len() == 0);
        }
    }
    c
}

} // verus!
