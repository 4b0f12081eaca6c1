//! Scanning: classes of characters, and the positions that passing over
//! characters leads to.

use crate::text::{
    after, char_at, char_from, is_position, lemma_position_tail, lemma_step, tail, utf8_width,
};
use vstd::string::*;
use vstd::prelude::*;
use vstd::utf8::*;

verus! {

/// `c` has the Unicode property White_Space.
pub open spec fn white_space(c: char) -> bool {
    let v = c as u32;
    ||| 0x09 <= v <= 0x0D
    ||| v == 0x20
    ||| v == 0x85
    ||| v == 0xA0
    ||| v == 0x1680
    ||| 0x2000 <= v <= 0x200A
    ||| v == 0x2028
    ||| v == 0x2029
    ||| v == 0x202F
    ||| v == 0x205F
    ||| v == 0x3000
}

/// Whether `c` is white space.
pub fn is_whitespace(c: char) -> (yes: bool)
    ensures
        yes == white_space(c),
{
    let v = c as u32;
    (0x09 <= v && v <= 0x0D) || v == 0x20 || v == 0x85 || v == 0xA0 || v == 0x1680 || (0x2000 <= v
        && v <= 0x200A) || v == 0x2028 || v == 0x2029 || v == 0x202F || v == 0x205F || v == 0x3000
}

/// A set of characters that a scan runs over.
#[derive(Clone, Copy, Debug)]
pub enum CharClass {
    /// The characters with the property White_Space.
    Whitespace,
    /// Every character but the given one.
    Except(char),
    /// Every character but `"` and `'`.
    ExceptQuotes,
    /// The characters of an element's name: all but `>`, `/` and white space.
    Name,
}

impl CharClass {
    /// `c` is in the class.
    pub open spec fn holds(self, c: char) -> bool {
        match self {
            CharClass::Whitespace => white_space(c),
            CharClass::Except(other) => c != other,
            CharClass::ExceptQuotes => c != '"' && c != '\'',
            CharClass::Name => c != '>' && c != '/' && !white_space(c),
        }
    }

    /// Whether `c` is in the class.
    pub fn contains(&self, c: char) -> (yes: bool)
        ensures
            yes == self.holds(c),
    {
        match self {
            CharClass::Whitespace => is_whitespace(c),
            CharClass::Except(other) => c != *other,
            CharClass::ExceptQuotes => c != '"' && c != '\'',
            CharClass::Name => c != '>' && c != '/' && !is_whitespace(c),
        }
    }
}

/// How many bytes of `bytes` lie at or behind `at`.
pub open spec fn left(bytes: Seq<u8>, at: int) -> nat {
    if at < bytes.len() {
        (bytes.len() - at) as nat
    } else {
        0
    }
}

/// The position reached from `at` by passing `count` characters, or as many
/// as there are.
pub open spec fn skip_chars(bytes: Seq<u8>, at: int, count: nat) -> int
    decreases count,
{
    if count == 0 {
        at
    } else {
        skip_chars(bytes, after(bytes, at), (count - 1) as nat)
    }
}

/// The position reached from `at` by passing characters for as long as they
/// are in `class`: that of the first character that is not, or the end.
pub open spec fn skip_while(bytes: Seq<u8>, at: int, class: CharClass) -> int
    decreases left(bytes, at),
{
    match char_at(bytes, at) {
        Some(c) => if class.holds(c) {
            skip_while(bytes, after(bytes, at), class)
        } else {
            at
        },
        None => at,
    }
}

/// `bytes` goes on with `prefix` at `at`.
pub open spec fn starts_with(bytes: Seq<u8>, at: int, prefix: Seq<u8>) -> bool {
    &&& 0 <= at
    &&& at + prefix.len() <= bytes.len()
    &&& bytes.subrange(at, at + prefix.len()) == prefix
}

/// The position reached from `at` by passing one character and then all that
/// comes before `target` and `target` itself. Only a place where the first
/// character of `target` stands is tried, and after a failed try the search
/// goes on behind that character. Without `target` ahead it is the end of the
/// text; with an empty `target` it is `at`.
pub open spec fn skip_past(bytes: Seq<u8>, at: int, target: Seq<u8>) -> int
    decreases left(bytes, at),
{
    match (char_at(target, 0), char_at(bytes, at)) {
        (Some(first), Some(_)) => {
            let found = skip_while(bytes, after(bytes, at), CharClass::Except(first));
            if starts_with(bytes, found, target) {
                found + target.len()
            } else {
                proof {
                    lemma_skip_while_grows(bytes, after(bytes, at), CharClass::Except(first));
                }
                skip_past(bytes, found, target)
            }
        },
        _ => at,
    }
}

/// Passing characters leads forward.
pub proof fn lemma_skip_chars_grows(bytes: Seq<u8>, at: int, count: nat)
    ensures
        skip_chars(bytes, at, count) >= at,
        count > 0 && 0 <= at < bytes.len() ==> skip_chars(bytes, at, count) > at,
    decreases count,
{
    if count > 0 {
        lemma_skip_chars_grows(bytes, after(bytes, at), (count - 1) as nat);
    }
}

/// A scan leads forward, and past a character of its class.
pub proof fn lemma_skip_while_grows(bytes: Seq<u8>, at: int, class: CharClass)
    ensures
        skip_while(bytes, at, class) >= at,
        char_at(bytes, at) matches Some(c) && class.holds(c) ==> skip_while(bytes, at, class) > at,
    decreases left(bytes, at),
{
    match char_at(bytes, at) {
        Some(c) => if class.holds(c) {
            lemma_skip_while_grows(bytes, after(bytes, at), class);
        },
        None => {},
    }
}

/// A search leads forward.
pub proof fn lemma_skip_past_grows(bytes: Seq<u8>, at: int, target: Seq<u8>)
    ensures
        skip_past(bytes, at, target) >= at,
    decreases left(bytes, at),
{
    match (char_at(target, 0), char_at(bytes, at)) {
        (Some(first), Some(_)) => {
            let found = skip_while(bytes, after(bytes, at), CharClass::Except(first));
            lemma_skip_while_grows(bytes, after(bytes, at), CharClass::Except(first));
            if !starts_with(bytes, found, target) {
                lemma_skip_past_grows(bytes, found, target);
            }
        },
        _ => {},
    }
}

/// A scan that starts at a position ends at a position, on a character that
/// is not in the class or at the end.
pub proof fn lemma_skip_while(bytes: Seq<u8>, at: int, class: CharClass)
    requires
        is_position(bytes, at),
    ensures
        at <= skip_while(bytes, at, class) <= bytes.len(),
        is_position(bytes, skip_while(bytes, at, class)),
        char_at(bytes, skip_while(bytes, at, class)) matches Some(c) ==> !class.holds(c),
    decreases left(bytes, at),
{
    lemma_position_tail(bytes, at);
    match char_at(bytes, at) {
        Some(c) => if class.holds(c) {
            lemma_step(bytes, at);
            lemma_skip_while(bytes, after(bytes, at), class);
        },
        None => {},
    }
}

/// Passing characters from a position on ends at a position.
pub proof fn lemma_skip_chars(bytes: Seq<u8>, at: int, count: nat)
    requires
        is_position(bytes, at),
    ensures
        at <= skip_chars(bytes, at, count) <= bytes.len(),
        is_position(bytes, skip_chars(bytes, at, count)),
    decreases count,
{
    lemma_position_tail(bytes, at);
    if count > 0 {
        if at < bytes.len() {
            lemma_step(bytes, at);
        }
        lemma_skip_chars(bytes, after(bytes, at), (count - 1) as nat);
    }
}

/// `target` stands nowhere from `from` up to `to`, `to` left out.
pub open spec fn absent(bytes: Seq<u8>, target: Seq<u8>, from: int, to: int) -> bool {
    forall|place: int| from <= place < to ==> !starts_with(bytes, place, target)
}

/// A text stands only where its first character stands.
pub proof fn lemma_starts_with_first(bytes: Seq<u8>, at: int, target: Seq<u8>)
    requires
        is_position(bytes, at),
        valid_utf8(target),
        target.len() > 0,
        starts_with(bytes, at, target),
    ensures
        char_at(bytes, at) == char_at(target, 0),
{
    let rest = tail(bytes, at);
    lemma_step(bytes, at);
    assert(valid_first_scalar(target));
    assert(tail(target, 0) =~= target);
    assert forall|i: int| 0 <= i < target.len() implies rest[i] == target[i] by {
        assert(bytes.subrange(at, at + target.len())[i] == target[i]);
    }
}

/// A text stands nowhere inside a character.
pub proof fn lemma_absent_inside(bytes: Seq<u8>, at: int, target: Seq<u8>)
    requires
        is_position(bytes, at),
        at < bytes.len(),
        valid_utf8(target),
        target.len() > 0,
    ensures
        absent(bytes, target, at + 1, after(bytes, at)),
{
    let rest = tail(bytes, at);
    lemma_step(bytes, at);
    assert(valid_first_scalar(target));
    assert forall|place: int| at + 1 <= place < after(bytes, at) implies !starts_with(
        bytes,
        place,
        target,
    ) by {
        assert(rest[place - at] == bytes[place]);
        assert(is_continuation_byte(bytes[place]));
        if starts_with(bytes, place, target) {
            assert(bytes.subrange(place, place + target.len())[0] == target[0]);
        }
    }
}

/// A scan for the first character of a text passes no place where the text
/// stands.
pub proof fn lemma_absent_before(bytes: Seq<u8>, at: int, target: Seq<u8>)
    requires
        is_position(bytes, at),
        valid_utf8(target),
        char_at(target, 0) is Some,
    ensures
        absent(
            bytes,
            target,
            at,
            skip_while(bytes, at, CharClass::Except(char_at(target, 0)->0)),
        ),
    decreases left(bytes, at),
{
    let first = char_at(target, 0)->0;
    lemma_position_tail(bytes, at);
    match char_at(bytes, at) {
        Some(c) => if c != first {
            lemma_step(bytes, at);
            lemma_absent_inside(bytes, at, target);
            if starts_with(bytes, at, target) {
                lemma_starts_with_first(bytes, at, target);
            }
            lemma_absent_before(bytes, after(bytes, at), target);
        },
        None => {},
    }
}

/// What `skip_past` finds is the first place behind the character at `at`
/// where `target` stands, and it gives the position behind `target` there;
/// where `target` stands nowhere behind that character, it gives the end of
/// the text.
pub proof fn lemma_skip_past_first(bytes: Seq<u8>, at: int, target: Seq<u8>)
    requires
        is_position(bytes, at),
        at < bytes.len(),
        valid_utf8(target),
        target.len() > 0,
    ensures
        ({
            let end = skip_past(bytes, at, target);
            let from = after(bytes, at);
            let place = end - target.len();
            ||| from <= place && starts_with(bytes, place, target) && absent(
                bytes,
                target,
                from,
                place,
            )
            ||| end == bytes.len() && absent(bytes, target, from, end + 1)
        }),
    decreases left(bytes, at),
{
    let first = char_at(target, 0)->0;
    let from = after(bytes, at);
    lemma_step(bytes, at);
    let found = skip_while(bytes, from, CharClass::Except(first));
    lemma_skip_while(bytes, from, CharClass::Except(first));
    lemma_absent_before(bytes, from, target);
    if !starts_with(bytes, found, target) {
        if found < bytes.len() {
            lemma_skip_past_first(bytes, found, target);
            lemma_absent_inside(bytes, found, target);
            let end = skip_past(bytes, found, target);
            let later = after(bytes, found);
            let place = end - target.len();
            if later <= place && starts_with(bytes, place, target) && absent(
                bytes,
                target,
                later,
                place,
            ) {
                assert(absent(bytes, target, from, place));
            } else {
                assert(absent(bytes, target, from, end + 1));
            }
        } else {
            assert(absent(bytes, target, from, found + 1));
        }
    }
}

/// In ASCII text, a text stands at an offset where its characters stand.
pub proof fn lemma_ascii_starts_with(text: Seq<char>, at: int, prefix: Seq<char>)
    requires
        is_ascii_chars(text),
        is_ascii_chars(prefix),
        0 <= at,
    ensures
        starts_with(encode_utf8(text), at, encode_utf8(prefix)) <==> at + prefix.len()
            <= text.len() && text.subrange(at, at + prefix.len()) == prefix,
{
    is_ascii_chars_encode_utf8(text);
    is_ascii_chars_encode_utf8(prefix);
    let bytes = encode_utf8(text);
    let wanted = encode_utf8(prefix);
    if at + prefix.len() <= text.len() {
        let part = text.subrange(at, at + prefix.len());
        let there = bytes.subrange(at, at + wanted.len());
        if part == prefix {
            assert(there =~= wanted);
        }
        if there == wanted {
            assert forall|i: int| 0 <= i < prefix.len() implies part[i] == prefix[i] by {
                assert(there[i] == wanted[i]);
                assert(text[at + i] as u8 == prefix[i] as u8);
            }
            assert(part =~= prefix);
        }
    }
}

/// Where no character from `at` on is `c`, a scan for `c` runs to the end.
pub proof fn lemma_skip_without(bytes: Seq<u8>, at: int, c: char)
    requires
        is_position(bytes, at),
        !decode_utf8(tail(bytes, at)).contains(c),
    ensures
        skip_while(bytes, at, CharClass::Except(c)) == bytes.len(),
    decreases left(bytes, at),
{
    lemma_position_tail(bytes, at);
    if at < bytes.len() {
        lemma_step(bytes, at);
        let rest = tail(bytes, at);
        let chars = decode_utf8(rest);
        let later = decode_utf8(tail(bytes, after(bytes, at)));
        assert(pop_first_scalar(rest) =~= tail(bytes, after(bytes, at)));
        assert(chars[0] == char_at(bytes, at)->0);
        assert(chars.contains(chars[0]));
        assert forall|d: char| later.contains(d) implies chars.contains(d) by {
            let i = choose|i: int| 0 <= i < later.len() && later[i] == d;
            assert(chars[i + 1] == d);
        }
        lemma_skip_without(bytes, after(bytes, at), c);
    }
}

/// The position reached in `text` from `at` by passing characters for as long
/// as they are in `class`.
pub fn scan(text: &str, at: usize, class: CharClass) -> (end: usize)
    requires
        is_position(text.spec_bytes(), at as int),
    ensures
        end == skip_while(text.spec_bytes(), at as int, class),
        at <= end <= text.spec_bytes().len(),
        is_position(text.spec_bytes(), end as int),
        char_at(text.spec_bytes(), end as int) matches Some(c) ==> !class.holds(c),
{
    let ghost bytes = text.spec_bytes();
    let limit = text.as_bytes().len();
    let mut end = at;
    proof {
        lemma_skip_while(bytes, at as int, class);
    }
    loop
        invariant
            bytes == text.spec_bytes(),
            limit == bytes.len(),
            is_position(bytes, end as int),
            skip_while(bytes, end as int, class) == skip_while(bytes, at as int, class),
        ensures
            end == skip_while(bytes, at as int, class),
        decreases bytes.len() - end,
    {
        proof {
            lemma_position_tail(bytes, end as int);
            if end < bytes.len() {
                lemma_step(bytes, end as int);
            }
        }
        match char_from(text, end) {
            Some(c) => {
                if class.contains(c) {
                    end += utf8_width(c);
                } else {
                    break ;
                }
            },
            None => {
                break ;
            },
        }
    }
    end
}

} // verus!
