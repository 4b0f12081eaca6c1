//! Where the nodes of a reading lie in the text: each at its offset, in the
//! order of the document.

use crate::dom::NodeView;
use crate::grammar::{
    attributes_at, element_of, end_tag_end, lemma_attribute_grows, lemma_markup_grows, markup_at,
    siblings_at, start_tag_at, MarkupView,
};
use crate::scan::{
    left, lemma_skip_chars, lemma_skip_while, skip_chars, skip_past, skip_while, starts_with,
    white_space, CharClass,
};
use crate::text::{
    after, char_at, is_position, lemma_between, lemma_past_prefix, lemma_position_tail, lemma_step,
    tail, text_between,
};
use vstd::prelude::*;
use vstd::string::*;
use vstd::utf8::*;

verus! {

/// The text holds `text` at `at`.
pub open spec fn holds_text(bytes: Seq<u8>, at: int, text: Seq<char>) -> bool {
    starts_with(bytes, at, encode_utf8(text))
}

/// The node begins where its offset says: there stands the `<` of an
/// element, or the text of a text or white space node, which is not empty.
pub open spec fn begins_at_offset(bytes: Seq<u8>, node: NodeView) -> bool {
    match node {
        NodeView::Element { offset, .. } => char_at(bytes, offset) == Some('<'),
        NodeView::Text { text, offset } => text.len() > 0 && holds_text(bytes, offset, text),
        NodeView::Whitespace { text, offset } => {
            &&& text.len() > 0
            &&& holds_text(bytes, offset, text)
            &&& forall|i: int| 0 <= i < text.len() ==> white_space(#[trigger] text[i])
        },
    }
}

/// The nodes lie in `bytes` between `from` and `to` in the order of the
/// sequence: each begins where its offset says, behind the one before it, and
/// the children of an element lie in the same way between its `<` and the
/// node that follows it.
pub open spec fn in_order(bytes: Seq<u8>, nodes: Seq<NodeView>, from: int, to: int) -> bool
    decreases nodes,
{
    if nodes.len() == 0 {
        true
    } else {
        let first = nodes[0];
        let rest = nodes.drop_first();
        let bound = if rest.len() > 0 {
            rest[0].offset()
        } else {
            to
        };
        &&& from <= first.offset() < bound <= to
        &&& begins_at_offset(bytes, first)
        &&& first matches NodeView::Element { children, offset, .. } ==> in_order(
            bytes,
            children,
            offset + 1,
            bound,
        )
        &&& in_order(bytes, rest, first.offset() + 1, to)
    }
}

/// One node that begins where its offset says, with its children in order
/// behind its beginning, is in order.
pub proof fn lemma_in_order_one(bytes: Seq<u8>, node: NodeView, from: int, to: int)
    requires
        from <= node.offset() < to,
        begins_at_offset(bytes, node),
        node matches NodeView::Element { children, offset, .. } ==> in_order(
            bytes,
            children,
            offset + 1,
            to,
        ),
    ensures
        in_order(bytes, seq![node], from, to),
{
    let one = seq![node];
    assert(one[0] == node);
    assert(one.drop_first() =~= Seq::<NodeView>::empty());
    assert(in_order(bytes, one.drop_first(), node.offset() + 1, to));
}

/// Nodes that lie in order between two places lie in order between places
/// further apart.
pub proof fn lemma_in_order_widen(
    bytes: Seq<u8>,
    nodes: Seq<NodeView>,
    from: int,
    to: int,
    lower: int,
    upper: int,
)
    requires
        in_order(bytes, nodes, from, to),
        lower <= from,
        to <= upper,
    ensures
        in_order(bytes, nodes, lower, upper),
    decreases nodes,
{
    if nodes.len() > 0 {
        let first = nodes[0];
        let rest = nodes.drop_first();
        lemma_in_order_widen(bytes, rest, first.offset() + 1, to, first.offset() + 1, upper);
        if rest.len() == 0 {
            match first {
                NodeView::Element { children, offset, .. } => {
                    lemma_in_order_widen(bytes, children, offset + 1, to, offset + 1, upper);
                },
                _ => {},
            }
        }
    }
}

/// Nodes in order up to a place, and then nodes in order from that place on,
/// are in order together.
pub proof fn lemma_in_order_join(
    bytes: Seq<u8>,
    front: Seq<NodeView>,
    back: Seq<NodeView>,
    from: int,
    middle: int,
    to: int,
)
    requires
        in_order(bytes, front, from, middle),
        in_order(bytes, back, middle, to),
        from <= middle <= to,
    ensures
        in_order(bytes, front + back, from, to),
    decreases front.len(),
{
    if front.len() == 0 {
        assert(front + back =~= back);
        lemma_in_order_widen(bytes, back, middle, to, from, to);
    } else {
        let first = front[0];
        let rest = front.drop_first();
        assert((front + back).drop_first() =~= rest + back);
        assert((front + back)[0] == first);
        lemma_in_order_join(bytes, rest, back, first.offset() + 1, middle, to);
        if rest.len() == 0 {
            assert(rest + back =~= back);
            let bound = if back.len() > 0 {
                back[0].offset()
            } else {
                to
            };
            match first {
                NodeView::Element { children, offset, .. } => {
                    lemma_in_order_widen(bytes, children, offset + 1, middle, offset + 1, bound);
                },
                _ => {},
            }
        } else {
            assert((rest + back)[0] == rest[0]);
        }
    }
}

/// What a scan passes is in the class that it scans for.
pub proof fn lemma_scanned(bytes: Seq<u8>, at: int, class: CharClass)
    requires
        is_position(bytes, at),
    ensures
        forall|i: int|
            0 <= i < text_between(bytes, at, skip_while(bytes, at, class)).len() ==> class.holds(
                #[trigger] text_between(bytes, at, skip_while(bytes, at, class))[i],
            ),
    decreases left(bytes, at),
{
    let end = skip_while(bytes, at, class);
    lemma_skip_while(bytes, at, class);
    lemma_position_tail(bytes, at);
    match char_at(bytes, at) {
        Some(c) => if class.holds(c) {
            lemma_step(bytes, at);
            let next = after(bytes, at);
            lemma_scanned(bytes, next, class);
            lemma_skip_while(bytes, next, class);
            lemma_between(bytes, at, end);
            lemma_between(bytes, next, end);
            let part = bytes.subrange(at, end);
            assert(pop_first_scalar(part) =~= bytes.subrange(next, end));
            assert(decode_first_scalar(part) == decode_first_scalar(tail(bytes, at)));
            let chars = text_between(bytes, at, end);
            let later = text_between(bytes, next, end);
            assert(chars =~= seq![c] + later);
            assert forall|i: int| 0 <= i < chars.len() implies class.holds(
                #[trigger] chars[i],
            ) by {
                if i > 0 {
                    assert(chars[i] == later[i - 1]);
                }
            }
        } else {
            assert(bytes.subrange(at, at) =~= Seq::<u8>::empty());
        },
        None => {
            assert(bytes.subrange(at, at) =~= Seq::<u8>::empty());
        },
    }
}

/// A search that starts at a position ends at a position.
pub proof fn lemma_skip_past(bytes: Seq<u8>, at: int, target: Seq<u8>)
    requires
        is_position(bytes, at),
        valid_utf8(target),
    ensures
        at <= skip_past(bytes, at, target) <= bytes.len(),
        is_position(bytes, skip_past(bytes, at, target)),
    decreases left(bytes, at),
{
    lemma_position_tail(bytes, at);
    match (char_at(target, 0), char_at(bytes, at)) {
        (Some(first), Some(_)) => {
            lemma_step(bytes, at);
            let found = skip_while(bytes, after(bytes, at), CharClass::Except(first));
            lemma_skip_while(bytes, after(bytes, at), CharClass::Except(first));
            if starts_with(bytes, found, target) {
                lemma_past_prefix(bytes, found, target);
            } else {
                lemma_skip_past(bytes, found, target);
            }
        },
        _ => {},
    }
}

/// A list of attributes that starts at a position ends at a position.
pub proof fn lemma_attributes(bytes: Seq<u8>, at: int, found: Map<Seq<char>, Seq<char>>)
    requires
        is_position(bytes, at),
    ensures
        at <= attributes_at(bytes, at, found).1 <= bytes.len(),
        is_position(bytes, attributes_at(bytes, at, found).1),
    decreases left(bytes, at),
{
    let start = skip_while(bytes, at, CharClass::Whitespace);
    lemma_skip_while(bytes, at, CharClass::Whitespace);
    lemma_attribute_grows(bytes, at);
    match char_at(bytes, start) {
        Some(c) => if !(c == '>' || c == '/') {
            let key_end = skip_while(bytes, start, CharClass::Except('='));
            lemma_skip_while(bytes, start, CharClass::Except('='));
            let quote_at = skip_while(bytes, key_end, CharClass::ExceptQuotes);
            lemma_skip_while(bytes, key_end, CharClass::ExceptQuotes);
            let quote = match char_at(bytes, quote_at) {
                Some(q) => q,
                None => '"',
            };
            let value_start = after(bytes, quote_at);
            lemma_skip_chars(bytes, quote_at, 1);
            reveal_with_fuel(skip_chars, 2);
            let value_end = skip_while(bytes, value_start, CharClass::Except(quote));
            lemma_skip_while(bytes, value_start, CharClass::Except(quote));
            lemma_skip_chars(bytes, value_end, 1);
            let key = text_between(bytes, start, key_end);
            let value = text_between(bytes, value_start, value_end);
            lemma_attributes(bytes, after(bytes, value_end), found.insert(key, value));
        },
        None => {},
    }
}

/// Markup that starts at a position ends at a position, and the offset of a
/// start tag is the place just before its name.
pub proof fn lemma_markup(bytes: Seq<u8>, at: int)
    requires
        is_position(bytes, at),
    ensures
        at <= markup_at(bytes, at).1 <= bytes.len(),
        is_position(bytes, markup_at(bytes, at).1),
        markup_at(bytes, at).0 matches MarkupView::Empty(tag) ==> tag.offset == at - 1,
        markup_at(bytes, at).0 matches MarkupView::Open(tag) ==> tag.offset == at - 1,
{
    broadcast use group_utf8_lib;

    reveal(markup_at);
    reveal(start_tag_at);
    reveal_with_fuel(skip_chars, 2);
    lemma_position_tail(bytes, at);
    let name_end = skip_while(bytes, at, CharClass::Name);
    lemma_skip_while(bytes, at, CharClass::Name);
    lemma_attributes(bytes, name_end, Map::empty());
    let tag_end = attributes_at(bytes, name_end, Map::empty()).1;
    lemma_skip_chars(bytes, tag_end, 2);
    lemma_skip_chars(bytes, tag_end, 1);
    let inner = after(bytes, at);
    lemma_skip_chars(bytes, at, 1);
    lemma_skip_chars(bytes, inner, 1);
    lemma_skip_chars(bytes, inner, 2);
    lemma_skip_past(bytes, inner, "?>".spec_bytes());
    lemma_skip_past(bytes, skip_chars(bytes, inner, 2), "-->".spec_bytes());
    lemma_skip_past(bytes, after(bytes, inner), "]]>".spec_bytes());
    let close = skip_while(bytes, inner, CharClass::Except('>'));
    lemma_skip_while(bytes, inner, CharClass::Except('>'));
    lemma_skip_chars(bytes, close, 1);
}

/// An end tag that starts at a position ends at a position.
pub proof fn lemma_end_tag(bytes: Seq<u8>, at: int)
    requires
        is_position(bytes, at),
    ensures
        at <= end_tag_end(bytes, at) <= bytes.len(),
        is_position(bytes, end_tag_end(bytes, at)),
{
    reveal_with_fuel(skip_chars, 2);
    let name = skip_chars(bytes, at, 2);
    lemma_skip_chars(bytes, at, 2);
    let close = skip_while(bytes, name, CharClass::Except('>'));
    lemma_skip_while(bytes, name, CharClass::Except('>'));
    lemma_skip_chars(bytes, close, 1);
}

/// The nodes that a reading gives lie in the text in the order in which they
/// come, each where its offset says, and the reading ends at a position.
pub proof fn lemma_siblings_in_order(bytes: Seq<u8>, at: int)
    requires
        is_position(bytes, at),
    ensures
        at <= siblings_at(bytes, at).1 <= bytes.len(),
        is_position(bytes, siblings_at(bytes, at).1),
        in_order(bytes, siblings_at(bytes, at).0, at, siblings_at(bytes, at).1),
    decreases left(bytes, at),
{
    let start = skip_while(bytes, at, CharClass::Whitespace);
    lemma_skip_while(bytes, at, CharClass::Whitespace);
    lemma_markup_grows(bytes, at);
    lemma_position_tail(bytes, at);
    match char_at(bytes, start) {
        Some(c) => if c == '<' {
            lemma_step(bytes, start);
            assert(encode_scalar(c as u32).len() == 1);
            assert(bytes.subrange(start, after(bytes, start)).len() == after(bytes, start)
                - start);
            let space = NodeView::Whitespace { text: text_between(bytes, at, start), offset: at };
            let gap = if start > at {
                seq![space]
            } else {
                Seq::empty()
            };
            if start > at {
                lemma_between(bytes, at, start);
                assert(bytes.subrange(at, at + (start - at)) =~= bytes.subrange(at, start));
                lemma_scanned(bytes, at, CharClass::Whitespace);
                lemma_in_order_one(bytes, space, at, start);
            }
            if starts_with(bytes, start, "</".spec_bytes()) {
                lemma_end_tag(bytes, start);
                lemma_in_order_widen(bytes, gap, at, start, at, end_tag_end(bytes, start));
            } else {
                let (markup, next) = markup_at(bytes, after(bytes, start));
                lemma_markup(bytes, after(bytes, start));
                lemma_siblings_in_order(bytes, next);
                let (rest, end) = siblings_at(bytes, next);
                match markup {
                    MarkupView::Skipped => {
                        lemma_in_order_widen(bytes, rest, next, end, start, end);
                        lemma_in_order_join(bytes, gap, rest, at, start, end);
                    },
                    MarkupView::Empty(tag) => {
                        let node = element_of(tag, Seq::empty());
                        let one = seq![node];
                        assert(in_order(bytes, Seq::<NodeView>::empty(), start + 1, next));
                        lemma_in_order_one(bytes, node, start, next);
                        lemma_in_order_join(bytes, gap, one, at, start, next);
                        assert(gap + one =~= gap.push(node));
                        lemma_in_order_join(bytes, gap.push(node), rest, at, next, end);
                    },
                    MarkupView::Open(tag) => {
                        let node = element_of(tag, rest);
                        let one = seq![node];
                        lemma_in_order_widen(bytes, rest, next, end, start + 1, end);
                        lemma_in_order_one(bytes, node, start, end);
                        lemma_siblings_in_order(bytes, end);
                        let (later, last) = siblings_at(bytes, end);
                        lemma_in_order_join(bytes, gap, one, at, start, end);
                        assert(gap + one =~= gap.push(node));
                        lemma_in_order_join(bytes, gap.push(node), later, at, end, last);
                    },
                }
            }
        } else {
            let end = skip_while(bytes, start, CharClass::Except('<'));
            lemma_skip_while(bytes, start, CharClass::Except('<'));
            lemma_between(bytes, at, end);
            assert(bytes.subrange(at, at + (end - at)) =~= bytes.subrange(at, end));
            let node = NodeView::Text { text: text_between(bytes, at, end), offset: at };
            let one = seq![node];
            lemma_in_order_one(bytes, node, at, end);
            lemma_siblings_in_order(bytes, end);
            let (rest, last) = siblings_at(bytes, end);
            lemma_in_order_join(bytes, one, rest, at, end, last);
        },
        None => {},
    }
}

/// The nodes of the outermost level of a text lie in it in their order.
pub proof fn lemma_document_in_order(bytes: Seq<u8>)
    requires
        valid_utf8(bytes),
    ensures
        in_order(bytes, siblings_at(bytes, 0).0, 0, bytes.len() as int),
{
    is_char_boundary_start_end_of_seq(bytes);
    lemma_siblings_in_order(bytes, 0);
    lemma_in_order_widen(
        bytes,
        siblings_at(bytes, 0).0,
        0,
        siblings_at(bytes, 0).1,
        0,
        bytes.len() as int,
    );
}

} // verus!
