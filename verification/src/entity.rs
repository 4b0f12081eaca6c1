//! Character references: the table of the named ones, and decoding.

use crate::number::{lemma_all_digits, number_of, written_u32};
use crate::scan::{
    left, lemma_skip_while, lemma_skip_while_grows, lemma_skip_without, scan, skip_while,
    CharClass,
};
use crate::string_map::{empty_map, entries, insert, lookup, StringMap};
use crate::text::{
    char_at, char_from, is_position, lemma_ascii_step, lemma_char_in_text, lemma_step,
    lemma_text_join, substring, tail, text_between,
};
use std::borrow::Cow;
use vstd::prelude::*;
use vstd::string::*;
use vstd::utf8::*;

verus! {

/// How many named references the table of HTML entities holds.
pub const ENTITY_COUNT: usize = 2231;

/// The reference at `index` in the table of HTML entities, as it is written,
/// `&` and `;` included.
pub uninterp spec fn entity_name(index: int) -> Seq<char>;

/// The text that the reference at `index` in the table of HTML entities
/// stands for.
pub uninterp spec fn entity_characters(index: int) -> Seq<char>;

/// `entities::ENTITIES[index].entity`: the reference of the entry at `index`.
/// The array has 2231 entries, so an `index` under that is in it.
#[verifier::external_body]
pub(crate) fn entity_name_at(index: usize) -> (name: &'static str)
    requires
        index < ENTITY_COUNT,
    ensures
        name@ == entity_name(index as int),
{
    entities::ENTITIES[index].entity
}

/// `entities::ENTITIES[index].characters`: the text of the entry at `index`.
/// The array has 2231 entries, so an `index` under that is in it.
#[verifier::external_body]
pub(crate) fn entity_characters_at(index: usize) -> (characters: &'static str)
    requires
        index < ENTITY_COUNT,
    ensures
        characters@ == entity_characters(index as int),
{
    entities::ENTITIES[index].characters
}

/// The first `count` entries of the table of HTML entities as a map from
/// reference to text; of two entries with one reference the later one stays.
pub open spec fn entities_before(count: nat) -> Map<Seq<char>, Seq<char>>
    decreases count,
{
    if count == 0 {
        Map::empty()
    } else {
        entities_before((count - 1) as nat).insert(
            entity_name(count - 1),
            entity_characters(count - 1),
        )
    }
}

/// The named references and what each stands for.
pub open spec fn named_entities() -> Map<Seq<char>, Seq<char>> {
    entities_before(ENTITY_COUNT as nat)
}

/// The table of the named references: what each stands for.
pub fn character_entities() -> (table: StringMap)
    ensures
        entries(table) == named_entities(),
{
    let mut table = empty_map();
    let mut index: usize = 0;
    while index < ENTITY_COUNT
        invariant
            index <= ENTITY_COUNT,
            entries(table) == entities_before(index as nat),
        decreases ENTITY_COUNT - index,
    {
        let name = entity_name_at(index).to_owned();
        let characters = entity_characters_at(index).to_owned();
        insert(&mut table, name, characters);
        index += 1;
    }
    table
}

/// The character with the number `number`, if there is a number and it is
/// that of a character.
pub open spec fn char_of(number: Option<u32>) -> Option<char> {
    match number {
        Some(v) => if is_scalar(v) {
            Some(v as char)
        } else {
            None
        },
        None => None,
    }
}

/// The character that the reference between the `&` at `amp` and the `;` at
/// `semi` names by its number: behind `&#x` stand hexadecimal digits, behind
/// any other `&#` decimal ones, and nothing but digits: a sign is none.
pub open spec fn numeric(bytes: Seq<u8>, amp: int, semi: int) -> Option<char> {
    if char_at(bytes, amp + 1) != Some('#') {
        None
    } else if char_at(bytes, amp + 2) == Some('x') {
        char_of(written_u32(text_between(bytes, amp + 3, semi), 16))
    } else {
        char_of(written_u32(text_between(bytes, amp + 2, semi), 10))
    }
}

/// What takes the place of the reference that begins with the `&` at `amp`
/// and ends with the `;` at `semi`: what `table` has for it; else the
/// character that it names by number; else the reference itself.
pub open spec fn replacement(
    bytes: Seq<u8>,
    amp: int,
    semi: int,
    table: Map<Seq<char>, Seq<char>>,
) -> Seq<char> {
    let name = text_between(bytes, amp, semi + 1);
    if table.contains_key(name) {
        table[name]
    } else {
        match numeric(bytes, amp, semi) {
            Some(c) => seq![c],
            None => name,
        }
    }
}

/// The text from `at` on with its references replaced. A reference runs from
/// an `&` to the first `;` behind it; the search for the next one goes on
/// behind that `;`. From an `&` without a `;` behind it on, the text stays
/// as it is.
///
/// What takes the place of a reference is not read again. So decoding a
/// decoded text may change it once more: `&amp;lt;` gives `&lt;`, and that
/// gives `<`.
pub open spec fn decoded_from(bytes: Seq<u8>, at: int, table: Map<Seq<char>, Seq<char>>) -> Seq<
    char,
>
    decreases left(bytes, at),
{
    let amp = skip_while(bytes, at, CharClass::Except('&'));
    let semi = skip_while(bytes, amp, CharClass::Except(';'));
    if char_at(bytes, amp) is Some && char_at(bytes, semi) is Some {
        proof {
            lemma_skip_while_grows(bytes, at, CharClass::Except('&'));
            lemma_skip_while_grows(bytes, amp, CharClass::Except(';'));
        }
        text_between(bytes, at, amp) + replacement(bytes, amp, semi, table) + decoded_from(
            bytes,
            semi + 1,
            table,
        )
    } else {
        text_between(bytes, at, bytes.len() as int)
    }
}

/// The text `bytes` with its references replaced.
pub open spec fn decoded(bytes: Seq<u8>, table: Map<Seq<char>, Seq<char>>) -> Seq<char> {
    decoded_from(bytes, 0, table)
}

/// A text without `&` holds no reference: decoded, it is what it was.
pub proof fn lemma_decoded_plain(text: Seq<char>, table: Map<Seq<char>, Seq<char>>)
    requires
        !text.contains('&'),
    ensures
        decoded(encode_utf8(text), table) == text,
{
    broadcast use group_utf8_lib;

    let bytes = encode_utf8(text);
    is_char_boundary_start_end_of_seq(bytes);
    assert(tail(bytes, 0) =~= bytes);
    assert(bytes.subrange(0, bytes.len() as int) =~= bytes);
    lemma_skip_without(bytes, 0, '&');
}

/// In a text without `;` no reference ends: decoded, it is what it was.
pub proof fn lemma_decoded_unterminated(text: Seq<char>, table: Map<Seq<char>, Seq<char>>)
    requires
        !text.contains(';'),
    ensures
        decoded(encode_utf8(text), table) == text,
{
    broadcast use group_utf8_lib;

    let bytes = encode_utf8(text);
    is_char_boundary_start_end_of_seq(bytes);
    assert(bytes.subrange(0, bytes.len() as int) =~= bytes);
    let amp = skip_while(bytes, 0, CharClass::Except('&'));
    lemma_skip_while(bytes, 0, CharClass::Except('&'));
    decode_utf8_split(bytes, amp);
    let head = decode_utf8(bytes.subrange(0, amp));
    let rest = decode_utf8(tail(bytes, amp));
    assert forall|i: int| 0 <= i < rest.len() implies rest[i] != ';' by {
        assert(text[head.len() + i] == rest[i]);
        assert(text.contains(text[head.len() + i]));
    }
    lemma_skip_without(bytes, amp, ';');
}

/// Where no name is known and no `#` stands, every reference stays: decoded,
/// the text is what it was.
pub proof fn lemma_decoded_unknown(text: Seq<char>)
    requires
        !text.contains('#'),
    ensures
        decoded(encode_utf8(text), Map::empty()) == text,
{
    broadcast use group_utf8_lib;

    let bytes = encode_utf8(text);
    is_char_boundary_start_end_of_seq(bytes);
    assert(bytes.subrange(0, bytes.len() as int) =~= bytes);
    lemma_unknown_from(bytes, 0);
}

/// Where no name is known and no `#` stands, the text from a position on
/// stays what it is.
proof fn lemma_unknown_from(bytes: Seq<u8>, at: int)
    requires
        is_position(bytes, at),
        !decode_utf8(bytes).contains('#'),
    ensures
        decoded_from(bytes, at, Map::empty()) == text_between(bytes, at, bytes.len() as int),
    decreases left(bytes, at),
{
    let end = bytes.len() as int;
    let amp = skip_while(bytes, at, CharClass::Except('&'));
    let semi = skip_while(bytes, amp, CharClass::Except(';'));
    lemma_skip_while(bytes, at, CharClass::Except('&'));
    lemma_skip_while(bytes, amp, CharClass::Except(';'));
    if char_at(bytes, amp) is Some && char_at(bytes, semi) is Some {
        lemma_skip_while_grows(bytes, amp, CharClass::Except(';'));
        lemma_ascii_step(bytes, amp);
        lemma_ascii_step(bytes, semi);
        if amp + 1 < end {
            lemma_char_in_text(bytes, amp + 1);
        }
        is_char_boundary_start_end_of_seq(bytes);
        lemma_unknown_from(bytes, semi + 1);
        lemma_text_join(bytes, at, amp, end);
        lemma_text_join(bytes, amp, semi + 1, end);
        let piece = text_between(bytes, at, amp);
        let name = text_between(bytes, amp, semi + 1);
        let rest = text_between(bytes, semi + 1, end);
        assert(piece + name + rest =~= piece + (name + rest));
    }
}

/// Whether the first character of `text` is `+`.
fn begins_with_plus(text: &str) -> (plus: bool)
    ensures
        plus == (text@.len() > 0 && text@[0] == '+'),
{
    broadcast use group_utf8_lib;

    let ghost bytes = text.spec_bytes();
    proof {
        is_char_boundary_start_end_of_seq(bytes);
        assert(tail(bytes, 0) =~= bytes);
        assert(decode_utf8(bytes) == text@);
    }
    match char_from(text, 0) {
        Some(c) => c == '+',
        None => false,
    }
}

/// The character that a reference names by its number.
fn numeric_reference(text: &str, amp: usize, semi: usize) -> (named: Option<char>)
    requires
        is_position(text.spec_bytes(), amp as int),
        char_at(text.spec_bytes(), amp as int) == Some('&'),
        semi == skip_while(text.spec_bytes(), amp as int, CharClass::Except(';')),
        char_at(text.spec_bytes(), semi as int) is Some,
        is_position(text.spec_bytes(), semi as int),
    ensures
        named == numeric(text.spec_bytes(), amp as int, semi as int),
{
    let ghost bytes = text.spec_bytes();
    proof {
        lemma_ascii_step(bytes, amp as int);
        lemma_skip_while_grows(bytes, amp + 1, CharClass::Except(';'));
    }
    match char_from(text, amp + 1) {
        Some(c) => {
            if c != '#' {
                return None;
            }
        },
        None => {
            return None;
        },
    }
    proof {
        lemma_ascii_step(bytes, amp + 1);
        lemma_skip_while_grows(bytes, amp + 2, CharClass::Except(';'));
    }
    let hex = match char_from(text, amp + 2) {
        Some(c) => c == 'x',
        None => false,
    };
    let digits = if hex {
        proof {
            lemma_ascii_step(bytes, amp + 2);
            lemma_skip_while_grows(bytes, amp + 3, CharClass::Except(';'));
        }
        substring(text, amp + 3, semi)
    } else {
        substring(text, amp + 2, semi)
    };
    let radix: u32 = if hex {
        16
    } else {
        10
    };
    if begins_with_plus(digits) {
        proof {
            if number_of(digits@, radix) is Some {
                lemma_all_digits(digits@, radix, 0);
            }
        }
        return None;
    }
    match u32::from_str_radix(digits, radix) {
        Ok(v) => {
            let named = char::from_u32(v);
            proof {
                if named is Some {
                    char_u32_cast(named->0, v);
                }
            }
            named
        },
        Err(_) => None,
    }
}

/// Whether `text` holds no `&`, and so no reference.
fn is_plain(text: &str) -> (plain: bool)
    ensures
        plain == (skip_while(text.spec_bytes(), 0, CharClass::Except('&'))
            >= text.spec_bytes().len()),
        !text@.contains('&') ==> plain,
        plain ==> text@ == text_between(text.spec_bytes(), 0, text.spec_bytes().len() as int),
{
    broadcast use group_utf8_lib;

    let ghost bytes = text.spec_bytes();
    proof {
        is_char_boundary_start_end_of_seq(bytes);
        assert(tail(bytes, 0) =~= bytes);
        assert(bytes.subrange(0, bytes.len() as int) =~= bytes);
        if !text@.contains('&') {
            lemma_skip_without(bytes, 0, '&');
        }
    }
    scan(text, 0, CharClass::Except('&')) >= text.as_bytes().len()
}

/// Whether two texts are the same.
fn same_text(left_text: &str, right_text: &str) -> (same: bool)
    ensures
        same == (left_text@ == right_text@),
{
    broadcast use group_utf8_lib;

    let one = left_text.as_bytes();
    let other = right_text.as_bytes();
    proof {
        assert(decode_utf8(encode_utf8(left_text@)) == left_text@);
        assert(decode_utf8(encode_utf8(right_text@)) == right_text@);
    }
    if one.len() != other.len() {
        return false;
    }
    let mut i: usize = 0;
    while i < one.len()
        invariant
            i <= one.len(),
            one.len() == other.len(),
            one@ == left_text.spec_bytes(),
            other@ == right_text.spec_bytes(),
            forall|j: int| 0 <= j < i ==> one@[j] == other@[j],
        decreases one.len() - i,
    {
        if one[i] != other[i] {
            return false;
        }
        i += 1;
    }
    assert(one@ =~= other@);
    true
}

/// What the first `count` entries of the table have for a reference is the
/// text of the last of them with that reference.
pub proof fn lemma_entities_before(count: nat, name: Seq<char>, last: int)
    requires
        forall|j: int| last < j < count ==> entity_name(j) != name,
        last < 0 || (last < count && entity_name(last) == name),
    ensures
        entities_before(count).contains_key(name) <==> last >= 0,
        last >= 0 ==> entities_before(count)[name] == entity_characters(last),
    decreases count,
{
    if count > 0 && last != count - 1 {
        lemma_entities_before((count - 1) as nat, name, last);
    }
}

/// What the table of HTML entities has for the reference `name`, found by
/// going through the table.
pub fn find_entity(name: &str) -> (found: Option<&'static str>)
    ensures
        found is Some <==> named_entities().contains_key(name@),
        found is Some ==> found->0@ == named_entities()[name@],
{
    let mut index: usize = ENTITY_COUNT;
    while index > 0
        invariant
            index <= ENTITY_COUNT,
            forall|j: int| index <= j < ENTITY_COUNT ==> entity_name(j) != name@,
        decreases index,
    {
        index -= 1;
        if same_text(entity_name_at(index), name) {
            proof {
                lemma_entities_before(ENTITY_COUNT as nat, name@, index as int);
            }
            return Some(entity_characters_at(index));
        }
    }
    proof {
        lemma_entities_before(ENTITY_COUNT as nat, name@, -1);
    }
    None
}

/// The names that decoding goes by: those of `table`, or without one those
/// of the table of HTML entities.
pub open spec fn names_of(table: Option<&StringMap>) -> Map<Seq<char>, Seq<char>> {
    match table {
        Some(table) => entries(*table),
        None => named_entities(),
    }
}

/// What a reference stands for by its name.
fn find_name<'t>(table: Option<&'t StringMap>, name: &str) -> (found: Option<&'t str>)
    ensures
        found is Some <==> names_of(table).contains_key(name@),
        found is Some ==> found->0@ == names_of(table)[name@],
{
    match table {
        Some(table) => match lookup(table, name) {
            Some(characters) => Some(characters.as_str()),
            None => None,
        },
        None => match find_entity(name) {
            Some(characters) => Some(characters),
            None => None,
        },
    }
}

/// `text` with its references replaced, the named ones by what `table` has
/// for them, or without a table by what the table of HTML entities has.
fn decode<'a>(table: Option<&StringMap>, text: &'a str) -> (result: Cow<'a, str>)
    ensures
        result@ == decoded(text.spec_bytes(), names_of(table)),
        !text@.contains('&') ==> result@ == text@ && result is Borrowed,
{
    broadcast use group_utf8_lib;

    if is_plain(text) {
        return Cow::Borrowed(text);
    }
    let ghost bytes = text.spec_bytes();
    let ghost names = names_of(table);
    let end = text.as_bytes().len();
    let mut buf = String::new();
    let mut at: usize = 0;
    proof {
        is_char_boundary_start_end_of_seq(bytes);
    }
    loop
        invariant
            bytes == text.spec_bytes(),
            names == names_of(table),
            end == bytes.len(),
            valid_utf8(bytes),
            is_position(bytes, at as int),
            at <= end,
            buf@ + decoded_from(bytes, at as int, names) == decoded_from(bytes, 0, names),
        ensures
            buf@ + text_between(bytes, at as int, end as int) == decoded_from(bytes, 0, names),
            is_position(bytes, at as int),
            at <= end,
        decreases end - at,
    {
        let amp = scan(text, at, CharClass::Except('&'));
        if amp >= end {
            break ;
        }
        let semi = scan(text, amp, CharClass::Except(';'));
        if semi >= end {
            break ;
        }
        proof {
            lemma_skip_while_grows(bytes, amp as int, CharClass::Except(';'));
            lemma_step(bytes, semi as int);
            lemma_ascii_step(bytes, semi as int);
        }
        let ghost before = buf@;
        buf.append(substring(text, at, amp));
        let name = substring(text, amp, semi + 1);
        match find_name(table, name) {
            Some(characters) => {
                buf.append(characters);
            },
            None => {
                match numeric_reference(text, amp, semi) {
                    Some(c) => {
                        buf.push(c);
                    },
                    None => {
                        buf.append(name);
                    },
                }
            },
        }
        proof {
            let piece = text_between(bytes, at as int, amp as int);
            let put = replacement(bytes, amp as int, semi as int, names);
            let rest = decoded_from(bytes, semi + 1, names);
            assert(buf@ =~= before + piece + put);
            assert(buf@ + rest =~= before + (piece + put + rest));
        }
        at = semi + 1;
    }
    buf.append(substring(text, at, end));
    Cow::Owned(buf)
}

/// `text` with its references replaced: a named one by what `table` has for
/// it, a numeric one by its character, and any other left as it is. A text
/// without `&` comes back as it is, borrowed.
pub fn decode_entities_with<'a>(table: &StringMap, text: &'a str) -> (result: Cow<'a, str>)
    ensures
        result@ == decoded(text.spec_bytes(), entries(*table)),
        !text@.contains('&') ==> result@ == text@ && result is Borrowed,
{
    decode(Some(table), text)
}

/// `text` with its references replaced: a named one by its text in the table
/// of HTML entities, a numeric one by its character, and any other left as it
/// is. A text without `&` comes back as it is, borrowed.
///
/// Each name is looked for by going through the table of HTML entities: who
/// decodes much makes a map of it once, with [`character_entities`], and
/// calls [`decode_entities_with`].
pub fn decode_entities(text: &str) -> (result: Cow<'_, str>)
    ensures
        result@ == decoded(text.spec_bytes(), named_entities()),
        !text@.contains('&') ==> result@ == text@ && result is Borrowed,
{
    decode(None, text)
}

} // verus!
