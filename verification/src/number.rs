//! Numbers written in digits, and what the standard library makes of them.

use std::num::ParseIntError;
use vstd::prelude::*;
use vstd::utf8::is_scalar;

verus! {

/// `std::num::ParseIntError`, of which nothing is known here but that
/// `u32::from_str_radix` gives one where it gives no number.
#[verifier::external_type_specification]
#[verifier::external_body]
pub struct ExParseIntError(ParseIntError);

/// What the digit `c` counts in the base `radix`: `0` to `9` count 0 to 9, and
/// the letters from `a` or `A` on count 10 and more. A character that counts
/// `radix` or more, or nothing, is no digit.
pub open spec fn digit_of(c: char, radix: u32) -> Option<int> {
    let v = c as u32;
    let counts: int = if 0x30 <= v <= 0x39 {
        v - 0x30
    } else if 0x61 <= v <= 0x7A {
        v - 0x61 + 10
    } else if 0x41 <= v <= 0x5A {
        v - 0x41 + 10
    } else {
        36
    };
    if counts < radix {
        Some(counts)
    } else {
        None
    }
}

/// The number that `digits` write in the base `radix`, if they are all digits.
pub open spec fn number_of(digits: Seq<char>, radix: u32) -> Option<int>
    decreases digits.len(),
{
    if digits.len() == 0 {
        Some(0)
    } else {
        match (number_of(digits.drop_last(), radix), digit_of(digits.last(), radix)) {
            (Some(high), Some(low)) => Some(high * radix + low),
            _ => None,
        }
    }
}

/// The `u32` that `digits` write in the base `radix`: one digit or more,
/// nothing but digits, and a number that a `u32` holds.
pub open spec fn written_u32(digits: Seq<char>, radix: u32) -> Option<u32> {
    match number_of(digits, radix) {
        Some(number) => if digits.len() > 0 && number <= u32::MAX {
            Some(number as u32)
        } else {
            None
        },
        None => None,
    }
}

/// The `u32` that the standard library reads from `text` in the base
/// `radix`: what the digits write, with one `+` before them or without.
pub open spec fn parsed_u32(text: Seq<char>, radix: u32) -> Option<u32> {
    if text.len() > 0 && text[0] == '+' {
        written_u32(text.drop_first(), radix)
    } else {
        written_u32(text, radix)
    }
}

/// What writes a number holds nothing but digits.
pub proof fn lemma_all_digits(digits: Seq<char>, radix: u32, i: int)
    requires
        number_of(digits, radix) is Some,
        0 <= i < digits.len(),
    ensures
        digit_of(digits[i], radix) is Some,
    decreases digits.len(),
{
    if i < digits.len() - 1 {
        lemma_all_digits(digits.drop_last(), radix, i);
    }
}

/// `u32::from_str_radix` gives the number that `src` writes in the base
/// `radix`, and an error for anything that is not such a number or that a
/// `u32` does not hold. It panics on a base under 2 or over 36.
pub assume_specification[ u32::from_str_radix ](src: &str, radix: u32) -> (outcome: Result<
    u32,
    ParseIntError,
>)
    requires
        2 <= radix <= 36,
    ensures
        outcome is Ok <==> parsed_u32(src@, radix) is Some,
        outcome is Ok ==> Some(outcome->Ok_0) == parsed_u32(src@, radix),
;

/// `char::from_u32` gives the character with the number `i` where `i` is a
/// Unicode scalar value, and nothing where it is not.
pub assume_specification[ char::from_u32 ](i: u32) -> (c: Option<char>)
    ensures
        c is Some <==> is_scalar(i),
        c is Some ==> c->0 as u32 == i,
;

/// `String::push` adds `ch` at the end of the string.
pub assume_specification[ String::push ](s: &mut String, ch: char)
    ensures
        final(s)@ == old(s)@.push(ch),
;

} // verus!
