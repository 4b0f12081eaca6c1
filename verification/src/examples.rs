//! What the definitions give for four small texts, worked out from them.

use crate::dom::NodeView;
use crate::entity::{char_of, decoded, decoded_from, numeric, replacement};
use crate::grammar::{
    attributes_at, element_of, end_tag_end, markup_at, parsed, siblings_at, start_tag_at,
    MarkupView, TagView,
};
use crate::number::{digit_of, lemma_all_digits, number_of, written_u32};
use crate::scan::{lemma_ascii_starts_with, skip_chars, skip_while, CharClass};
use crate::text::{after, char_at, lemma_ascii_between, lemma_ascii_text};
use vstd::prelude::*;
use vstd::string::*;
use vstd::utf8::*;

verus! {

/// `<a/>` is one element `a` at offset 0, without attributes or children.
pub proof fn example_empty_element()
    ensures
        parsed("<a/>".spec_bytes()) == (NodeView::Element {
            name: "a"@,
            offset: 0,
            attributes: Map::empty(),
            children: Seq::empty(),
        }),
{
    reveal_strlit("<a/>");
    reveal_strlit("</");
    reveal_strlit("a");
    let text = "<a/>"@;
    let bytes = encode_utf8(text);
    lemma_ascii_text(text, 0);
    lemma_ascii_text(text, 1);
    lemma_ascii_text(text, 2);
    lemma_ascii_text(text, 3);
    lemma_ascii_text(text, 4);
    lemma_ascii_between(text, 1, 2);
    assert(text.subrange(1, 2) =~= "a"@);
    lemma_ascii_starts_with(text, 0, "</"@);
    assert(text.subrange(0, 2)[1] != "</"@[1]);
    reveal(markup_at);
    reveal(start_tag_at);
    reveal_with_fuel(skip_while, 3);
    reveal_with_fuel(skip_chars, 3);
    let tag = TagView { name: "a"@, offset: 0, attributes: Map::empty() };
    assert(attributes_at(bytes, 2, Map::empty()) == (tag.attributes, 2int));
    assert(markup_at(bytes, 1) == (MarkupView::Empty(tag), 4int));
    assert(siblings_at(bytes, 4) == (Seq::<NodeView>::empty(), 4int));
    assert(siblings_at(bytes, 0).0 =~= seq![element_of(tag, Seq::empty())]);
}

/// `<a>bcd</a>` is an element `a` whose one child is the text `bcd` at
/// offset 3.
pub proof fn example_text_child()
    ensures
        parsed("<a>bcd</a>".spec_bytes()) == (NodeView::Element {
            name: "a"@,
            offset: 0,
            attributes: Map::empty(),
            children: seq![NodeView::Text { text: "bcd"@, offset: 3 }],
        }),
{
    reveal_strlit("<a>bcd</a>");
    reveal_strlit("</");
    reveal_strlit("a");
    reveal_strlit("bcd");
    let text = "<a>bcd</a>"@;
    let bytes = encode_utf8(text);
    assert forall|at: int| 0 <= at <= 10 implies #[trigger] char_at(bytes, at) == (if at < 10 {
        Some(text[at])
    } else {
        None
    }) && after(bytes, at) == (if at < 10 {
        at + 1
    } else {
        at
    }) by {
        lemma_ascii_text(text, at);
    }
    lemma_ascii_text(text, 0);
    lemma_ascii_between(text, 1, 2);
    lemma_ascii_between(text, 3, 6);
    assert(text.subrange(1, 2) =~= "a"@);
    assert(text.subrange(3, 6) =~= "bcd"@);
    lemma_ascii_starts_with(text, 0, "</"@);
    assert(text.subrange(0, 2)[1] != "</"@[1]);
    lemma_ascii_starts_with(text, 6, "</"@);
    assert(text.subrange(6, 8) =~= "</"@);
    reveal(markup_at);
    reveal(start_tag_at);
    reveal_with_fuel(skip_while, 5);
    reveal_with_fuel(skip_chars, 3);
    let tag = TagView { name: "a"@, offset: 0, attributes: Map::empty() };
    let child = NodeView::Text { text: "bcd"@, offset: 3 };
    assert(attributes_at(bytes, 2, Map::empty()) == (tag.attributes, 2int));
    assert(markup_at(bytes, 1) == (MarkupView::Open(tag), 3int));
    assert(end_tag_end(bytes, 6) == 10);
    assert(siblings_at(bytes, 10) == (Seq::<NodeView>::empty(), 10int));
    assert(siblings_at(bytes, 6) == (Seq::<NodeView>::empty(), 10int));
    assert(skip_while(bytes, 3, CharClass::Whitespace) == 3);
    assert(skip_while(bytes, 3, CharClass::Except('<')) == 6);
    assert(siblings_at(bytes, 3).0 =~= seq![child]);
    assert(siblings_at(bytes, 3).1 == 10);
    assert(siblings_at(bytes, 0).0 =~= seq![element_of(tag, seq![child])]);
}

/// Where no name is known, `a &#38; b` decodes to `a & b`.
pub proof fn example_numeric_reference()
    ensures
        decoded("a &#38; b".spec_bytes(), Map::empty()) == "a & b"@,
{
    reveal_strlit("a &#38; b");
    reveal_strlit("a & b");
    let text = "a &#38; b"@;
    let bytes = encode_utf8(text);
    assert forall|at: int| 0 <= at <= 9 implies #[trigger] char_at(bytes, at) == (if at < 9 {
        Some(text[at])
    } else {
        None
    }) && after(bytes, at) == (if at < 9 {
        at + 1
    } else {
        at
    }) by {
        lemma_ascii_text(text, at);
    }
    lemma_ascii_text(text, 0);
    lemma_ascii_between(text, 0, 2);
    lemma_ascii_between(text, 2, 7);
    lemma_ascii_between(text, 4, 6);
    lemma_ascii_between(text, 7, 9);
    reveal_with_fuel(skip_while, 6);
    reveal_with_fuel(number_of, 3);
    reveal_with_fuel(decoded_from, 2);
    assert(skip_while(bytes, 0, CharClass::Except('&')) == 2);
    assert(skip_while(bytes, 2, CharClass::Except(';')) == 6);
    assert(skip_while(bytes, 7, CharClass::Except('&')) == 9);
    let digits = text.subrange(4, 6);
    assert(digits.drop_last() =~= seq!['3']);
    assert(digits.drop_last().drop_last() =~= Seq::<char>::empty());
    assert(digit_of('3', 10) == Some(3int));
    assert(digit_of('8', 10) == Some(8int));
    assert(number_of(digits, 10) == Some(38int));
    assert(written_u32(digits, 10) == Some(38u32));
    assert(char_of(Some(38u32)) == Some('&'));
    assert(numeric(bytes, 2, 6) == Some('&'));
    assert(replacement(bytes, 2, 6, Map::empty()) == seq!['&']);
    assert(decoded_from(bytes, 7, Map::empty()) == text.subrange(7, 9));
    assert(text.subrange(0, 2) + seq!['&'] + text.subrange(7, 9) =~= "a & b"@);
}

/// A sign is no digit: `a &#+38; b` stays as it is.
pub proof fn example_signed_reference()
    ensures
        decoded("a &#+38; b".spec_bytes(), Map::empty()) == "a &#+38; b"@,
{
    reveal_strlit("a &#+38; b");
    let text = "a &#+38; b"@;
    let bytes = encode_utf8(text);
    assert forall|at: int| 0 <= at <= 10 implies #[trigger] char_at(bytes, at) == (if at < 10 {
        Some(text[at])
    } else {
        None
    }) && after(bytes, at) == (if at < 10 {
        at + 1
    } else {
        at
    }) by {
        lemma_ascii_text(text, at);
    }
    lemma_ascii_text(text, 0);
    lemma_ascii_between(text, 0, 2);
    lemma_ascii_between(text, 2, 8);
    lemma_ascii_between(text, 4, 7);
    lemma_ascii_between(text, 8, 10);
    reveal_with_fuel(skip_while, 7);
    reveal_with_fuel(decoded_from, 2);
    assert(skip_while(bytes, 0, CharClass::Except('&')) == 2);
    assert(skip_while(bytes, 2, CharClass::Except(';')) == 7);
    assert(skip_while(bytes, 8, CharClass::Except('&')) == 10);
    let digits = text.subrange(4, 7);
    assert(digits[0] == '+');
    assert(digit_of('+', 10) is None);
    if number_of(digits, 10) is Some {
        lemma_all_digits(digits, 10, 0);
    }
    assert(written_u32(digits, 10) is None);
    assert(numeric(bytes, 2, 7) is None);
    assert(replacement(bytes, 2, 7, Map::empty()) == text.subrange(2, 8));
    assert(decoded_from(bytes, 8, Map::empty()) == text.subrange(8, 10));
    assert(text.subrange(0, 2) + text.subrange(2, 8) + text.subrange(8, 10) =~= text);
}

} // verus!
