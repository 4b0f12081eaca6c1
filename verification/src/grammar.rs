//! What a text means as markup: the nodes that it holds, level by level.

use crate::dom::NodeView;
use crate::scan::{
    left, lemma_skip_chars_grows, lemma_skip_past_grows, lemma_skip_while_grows, skip_chars,
    skip_past, skip_while, starts_with, CharClass,
};
use crate::text::{after, char_at, text_between};
use vstd::prelude::*;
use vstd::string::*;

verus! {

/// A start tag: the element's name, where its `<` stands, and its attributes.
pub struct TagView {
    pub name: Seq<char>,
    pub offset: int,
    pub attributes: Map<Seq<char>, Seq<char>>,
}

/// What stands behind a `<` that opens no end tag.
pub enum MarkupView {
    /// Nothing that leaves a node: a processing instruction, a comment, a
    /// section in `<![ ]]>`, another declaration, or a start tag that the end
    /// of the text cuts short.
    Skipped,
    /// An element that ends in its own tag, with `/>`.
    Empty(TagView),
    /// The start tag of an element whose children follow.
    Open(TagView),
}

/// The attributes read from `at` on, added to `found`, and the position where
/// the list ends: on `>`, on `/` or at the end of the text.
///
/// A key is all that stands before the next `=`, its value what stands
/// between the next quote character and the next one of the same kind. A
/// later value of a key takes the place of an earlier one.
pub open spec fn attributes_at(bytes: Seq<u8>, at: int, found: Map<Seq<char>, Seq<char>>) -> (
    Map<Seq<char>, Seq<char>>,
    int,
)
    decreases left(bytes, at),
{
    let start = skip_while(bytes, at, CharClass::Whitespace);
    match char_at(bytes, start) {
        Some(c) => if c == '>' || c == '/' {
            (found, start)
        } else {
            let key_end = skip_while(bytes, start, CharClass::Except('='));
            let quote_at = skip_while(bytes, key_end, CharClass::ExceptQuotes);
            let quote = match char_at(bytes, quote_at) {
                Some(q) => q,
                None => '"',
            };
            let value_start = after(bytes, quote_at);
            let value_end = skip_while(bytes, value_start, CharClass::Except(quote));
            let key = text_between(bytes, start, key_end);
            let value = text_between(bytes, value_start, value_end);
            proof {
                lemma_attribute_grows(bytes, at);
            }
            attributes_at(bytes, after(bytes, value_end), found.insert(key, value))
        },
        None => (found, start),
    }
}

/// What the start tag whose name begins at `at`, behind its `<`, gives, and
/// the position behind it. The offset of the tag is that of its `<`.
#[verifier::opaque]
pub open spec fn start_tag_at(bytes: Seq<u8>, at: int) -> (MarkupView, int) {
    let name_end = skip_while(bytes, at, CharClass::Name);
    let (attributes, tag_end) = attributes_at(bytes, name_end, Map::empty());
    let tag = TagView { name: text_between(bytes, at, name_end), offset: at - 1, attributes };
    match char_at(bytes, tag_end) {
        Some(c) => if c == '/' {
            (MarkupView::Empty(tag), skip_chars(bytes, tag_end, 2))
        } else if c == '>' {
            (MarkupView::Open(tag), after(bytes, tag_end))
        } else {
            (MarkupView::Skipped, tag_end)
        },
        None => (MarkupView::Skipped, tag_end),
    }
}

/// What the markup that begins at `at`, behind its `<`, gives, and the
/// position behind it.
#[verifier::opaque]
pub open spec fn markup_at(bytes: Seq<u8>, at: int) -> (MarkupView, int) {
    match char_at(bytes, at) {
        Some(c) => if c == '?' {
            (MarkupView::Skipped, skip_past(bytes, after(bytes, at), "?>".spec_bytes()))
        } else if c == '!' {
            let inner = after(bytes, at);
            match char_at(bytes, inner) {
                Some(d) => if d == '-' {
                    (
                        MarkupView::Skipped,
                        skip_past(bytes, skip_chars(bytes, inner, 2), "-->".spec_bytes()),
                    )
                } else if d == '[' {
                    (MarkupView::Skipped, skip_past(bytes, after(bytes, inner), "]]>".spec_bytes()))
                } else {
                    (
                        MarkupView::Skipped,
                        after(bytes, skip_while(bytes, inner, CharClass::Except('>'))),
                    )
                },
                None => (MarkupView::Skipped, inner),
            }
        } else {
            start_tag_at(bytes, at)
        },
        None => start_tag_at(bytes, at),
    }
}

/// The position behind the end tag that begins at `at`.
pub open spec fn end_tag_end(bytes: Seq<u8>, at: int) -> int {
    after(bytes, skip_while(bytes, skip_chars(bytes, at, 2), CharClass::Except('>')))
}

/// The element that a start tag and its children make.
pub open spec fn element_of(tag: TagView, children: Seq<NodeView>) -> NodeView {
    NodeView::Element {
        name: tag.name,
        offset: tag.offset,
        attributes: tag.attributes,
        children,
    }
}

/// The nodes that follow one another from `at` on, up to an end tag or to the
/// end of the text, and the position behind that end tag. The children of an
/// element are the nodes that follow its start tag in the same way; where
/// they stop, the nodes that follow the element begin.
pub open spec fn siblings_at(bytes: Seq<u8>, at: int) -> (Seq<NodeView>, int)
    decreases left(bytes, at),
{
    let start = skip_while(bytes, at, CharClass::Whitespace);
    match char_at(bytes, start) {
        Some(c) => if c == '<' {
            let gap = if start > at {
                seq![NodeView::Whitespace { text: text_between(bytes, at, start), offset: at }]
            } else {
                Seq::empty()
            };
            proof {
                lemma_markup_grows(bytes, at);
            }
            if starts_with(bytes, start, "</".spec_bytes()) {
                (gap, end_tag_end(bytes, start))
            } else {
                let (markup, next) = markup_at(bytes, after(bytes, start));
                match markup {
                    MarkupView::Skipped => {
                        let (rest, end) = siblings_at(bytes, next);
                        (gap + rest, end)
                    },
                    MarkupView::Empty(tag) => {
                        let (rest, end) = siblings_at(bytes, next);
                        (gap.push(element_of(tag, Seq::empty())) + rest, end)
                    },
                    MarkupView::Open(tag) => {
                        let (children, inner) = siblings_at(bytes, next);
                        // The children end at or behind the place where they begin
                        // (lemma_siblings_grow), so this is `inner`.
                        let resume = if inner >= next {
                            inner
                        } else {
                            next
                        };
                        let (rest, end) = siblings_at(bytes, resume);
                        (gap.push(element_of(tag, children)) + rest, end)
                    },
                }
            }
        } else {
            let end = skip_while(bytes, start, CharClass::Except('<'));
            proof {
                lemma_markup_grows(bytes, at);
            }
            let (rest, end_of_all) = siblings_at(bytes, end);
            (
                seq![NodeView::Text { text: text_between(bytes, at, end), offset: at }] + rest,
                end_of_all,
            )
        },
        None => (Seq::empty(), start),
    }
}

/// The tree that a reading gave: its one node, or an element `root` at
/// offset 0, without attributes, around its nodes where there are several or
/// none.
pub open spec fn document(nodes: Seq<NodeView>) -> NodeView {
    if nodes.len() == 1 {
        nodes[0]
    } else {
        NodeView::Element {
            name: "root"@,
            offset: 0,
            attributes: Map::empty(),
            children: nodes,
        }
    }
}

/// The tree that the text `bytes` stands for.
pub open spec fn parsed(bytes: Seq<u8>) -> NodeView {
    document(siblings_at(bytes, 0).0)
}

/// One attribute takes at least one character.
pub proof fn lemma_attribute_grows(bytes: Seq<u8>, at: int)
    ensures
        ({
            let start = skip_while(bytes, at, CharClass::Whitespace);
            let key_end = skip_while(bytes, start, CharClass::Except('='));
            let quote_at = skip_while(bytes, key_end, CharClass::ExceptQuotes);
            let quote = match char_at(bytes, quote_at) {
                Some(q) => q,
                None => '"',
            };
            let value_start = after(bytes, quote_at);
            let value_end = skip_while(bytes, value_start, CharClass::Except(quote));
            &&& at <= start <= key_end <= quote_at <= value_start <= value_end <= after(
                bytes,
                value_end,
            )
            &&& char_at(bytes, start) is Some ==> start < quote_at && at < bytes.len()
        }),
{
    let start = skip_while(bytes, at, CharClass::Whitespace);
    let key_end = skip_while(bytes, start, CharClass::Except('='));
    let quote_at = skip_while(bytes, key_end, CharClass::ExceptQuotes);
    let quote = match char_at(bytes, quote_at) {
        Some(q) => q,
        None => '"',
    };
    let value_start = after(bytes, quote_at);
    let value_end = skip_while(bytes, value_start, CharClass::Except(quote));
    lemma_skip_while_grows(bytes, at, CharClass::Whitespace);
    lemma_skip_while_grows(bytes, start, CharClass::Except('='));
    lemma_skip_while_grows(bytes, key_end, CharClass::ExceptQuotes);
    lemma_skip_while_grows(bytes, value_start, CharClass::Except(quote));
}

/// A list of attributes ends at or behind the place where it begins.
pub proof fn lemma_attributes_grow(bytes: Seq<u8>, at: int, found: Map<Seq<char>, Seq<char>>)
    ensures
        attributes_at(bytes, at, found).1 >= at,
    decreases left(bytes, at),
{
    let start = skip_while(bytes, at, CharClass::Whitespace);
    lemma_attribute_grows(bytes, at);
    match char_at(bytes, start) {
        Some(c) => if !(c == '>' || c == '/') {
            let key_end = skip_while(bytes, start, CharClass::Except('='));
            let quote_at = skip_while(bytes, key_end, CharClass::ExceptQuotes);
            let quote = match char_at(bytes, quote_at) {
                Some(q) => q,
                None => '"',
            };
            let value_start = after(bytes, quote_at);
            let value_end = skip_while(bytes, value_start, CharClass::Except(quote));
            let key = text_between(bytes, start, key_end);
            let value = text_between(bytes, value_start, value_end);
            lemma_attributes_grow(bytes, after(bytes, value_end), found.insert(key, value));
        },
        None => {},
    }
}

/// Whatever stands at the next character that is no white space, reading it
/// takes at least that character.
pub proof fn lemma_markup_grows(bytes: Seq<u8>, at: int)
    ensures
        ({
            let start = skip_while(bytes, at, CharClass::Whitespace);
            &&& at <= start
            &&& char_at(bytes, start) is Some ==> {
                &&& at < bytes.len()
                &&& start < end_tag_end(bytes, start)
                &&& start < markup_at(bytes, after(bytes, start)).1
                &&& char_at(bytes, start) != Some('<') ==> start < skip_while(
                    bytes,
                    start,
                    CharClass::Except('<'),
                )
            }
        }),
{
    reveal(markup_at);
    reveal(start_tag_at);
    let start = skip_while(bytes, at, CharClass::Whitespace);
    lemma_skip_while_grows(bytes, at, CharClass::Whitespace);
    if char_at(bytes, start) is Some {
        lemma_skip_chars_grows(bytes, start, 2);
        lemma_skip_while_grows(bytes, skip_chars(bytes, start, 2), CharClass::Except('>'));
        lemma_skip_while_grows(bytes, start, CharClass::Except('<'));
        let inside = after(bytes, start);
        let name_end = skip_while(bytes, inside, CharClass::Name);
        lemma_skip_while_grows(bytes, inside, CharClass::Name);
        lemma_attributes_grow(bytes, name_end, Map::empty());
        let tag_end = attributes_at(bytes, name_end, Map::empty()).1;
        lemma_skip_chars_grows(bytes, tag_end, 2);
        let inner = after(bytes, inside);
        lemma_skip_past_grows(bytes, inner, "?>".spec_bytes());
        lemma_skip_chars_grows(bytes, inner, 2);
        lemma_skip_past_grows(bytes, skip_chars(bytes, inner, 2), "-->".spec_bytes());
        lemma_skip_past_grows(bytes, after(bytes, inner), "]]>".spec_bytes());
        lemma_skip_while_grows(bytes, inner, CharClass::Except('>'));
    }
}

/// The nodes that follow one another from a place end at or behind it.
pub proof fn lemma_siblings_grow(bytes: Seq<u8>, at: int)
    ensures
        siblings_at(bytes, at).1 >= at,
    decreases left(bytes, at),
{
    let start = skip_while(bytes, at, CharClass::Whitespace);
    lemma_markup_grows(bytes, at);
    match char_at(bytes, start) {
        Some(c) => if c == '<' {
            if !starts_with(bytes, start, "</".spec_bytes()) {
                let (markup, next) = markup_at(bytes, after(bytes, start));
                lemma_siblings_grow(bytes, next);
                match markup {
                    MarkupView::Open(tag) => {
                        let inner = siblings_at(bytes, next).1;
                        lemma_siblings_grow(bytes, inner);
                    },
                    _ => {},
                }
            }
        } else {
            lemma_siblings_grow(bytes, skip_while(bytes, start, CharClass::Except('<')));
        },
        None => {},
    }
}

} // verus!
