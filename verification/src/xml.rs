//! The reader: a place in a text, the steps that move it, and the tree that
//! it makes of what it passes.

use crate::dom::{
    element, lemma_views, lemma_views_push, text, views, whitespace, Attributes, Node,
};
use crate::grammar::{
    attributes_at, document, element_of, end_tag_end, lemma_attribute_grows, lemma_markup_grows,
    markup_at, parsed, siblings_at, start_tag_at, MarkupView, TagView,
};
use crate::order::{in_order, lemma_siblings_in_order};
use crate::scan::{
    lemma_skip_chars, scan, skip_chars, skip_past, skip_while, starts_with, CharClass,
};
use crate::stack::{close_all, lemma_tree_is_siblings, tree_from, FrameView};
use crate::string_map::{empty_map, entries, insert};
use crate::text::{
    after, char_at, char_from, is_position, lemma_past_prefix, lemma_position_tail, lemma_step,
    substring, utf8_width,
};
use vstd::prelude::*;
use vstd::string::*;
use vstd::utf8::*;

verus! {

/// A start tag: the element's name, where its `<` stands, and its attributes.
#[derive(Debug)]
pub struct Tag {
    pub name: String,
    pub offset: usize,
    pub attributes: Attributes,
}

impl View for Tag {
    type V = TagView;

    open spec fn view(&self) -> TagView {
        TagView {
            name: self.name@,
            offset: self.offset as int,
            attributes: entries(self.attributes),
        }
    }
}

/// What stands behind a `<` that opens no end tag.
#[derive(Debug)]
pub enum Markup {
    /// Nothing that leaves a node.
    Skipped,
    /// An element that ends in its own tag.
    Empty(Tag),
    /// The start tag of an element whose children follow.
    Open(Tag),
}

impl View for Markup {
    type V = MarkupView;

    open spec fn view(&self) -> MarkupView {
        match self {
            Markup::Skipped => MarkupView::Skipped,
            Markup::Empty(tag) => MarkupView::Empty(tag@),
            Markup::Open(tag) => MarkupView::Open(tag@),
        }
    }
}

/// An element whose start tag was read and whose end was not, with the nodes
/// that were read before it on its own level.
#[derive(Debug)]
pub struct Frame {
    pub tag: Tag,
    pub before: Vec<Node>,
}

impl View for Frame {
    type V = FrameView;

    open spec fn view(&self) -> FrameView {
        FrameView { tag: self.tag@, before: views(self.before@) }
    }
}

/// What each frame of a sequence is.
pub open spec fn frames(open: Seq<Frame>) -> Seq<FrameView> {
    open.map_values(|frame: Frame| frame@)
}

/// The element that a start tag and its children make.
pub fn close(tag: Tag, children: Vec<Node>) -> (node: Node)
    ensures
        node@ == element_of(tag@, views(children@)),
{
    Node::Element { name: tag.name, offset: tag.offset, attributes: tag.attributes, children }
}

/// A reader that stands at a position of a text.
#[derive(Debug)]
pub struct XmlParser<'a> {
    pub input: &'a str,
    pub offset: usize,
}

impl<'a> XmlParser<'a> {
    /// The text, as the bytes that offsets count.
    pub open spec fn bytes(&self) -> Seq<u8> {
        self.input.spec_bytes()
    }

    /// The offset lies between two characters of the text, or at one of its
    /// ends.
    pub open spec fn wf(&self) -> bool {
        is_position(self.bytes(), self.offset as int)
    }

    /// A reader at the beginning of `input`.
    pub fn new(input: &str) -> (parser: XmlParser<'_>)
        ensures
            parser.input == input,
            parser.offset == 0,
            parser.wf(),
    {
        broadcast use group_utf8_lib;

        XmlParser { input, offset: 0 }
    }

    /// Whether nothing is left to read.
    pub fn eof(&self) -> (end: bool)
        ensures
            end == (self.offset >= self.bytes().len()),
    {
        self.offset >= self.input.as_bytes().len()
    }

    /// The character at the offset, if there is one.
    pub fn next(&self) -> (c: Option<char>)
        requires
            self.wf(),
        ensures
            c == char_at(self.bytes(), self.offset as int),
    {
        char_from(self.input, self.offset)
    }

    /// Whether the text goes on with `s` at the offset.
    pub fn starts_with(&self, s: &str) -> (yes: bool)
        requires
            self.wf(),
        ensures
            yes == starts_with(self.bytes(), self.offset as int, s.spec_bytes()),
    {
        let text = self.input.as_bytes();
        let prefix = s.as_bytes();
        proof {
            lemma_position_tail(self.bytes(), self.offset as int);
        }
        if prefix.len() > text.len() - self.offset {
            return false;
        }
        let mut i: usize = 0;
        while i < prefix.len()
            invariant
                i <= prefix.len(),
                self.offset + prefix.len() <= text.len(),
                text@ == self.bytes(),
                prefix@ == s.spec_bytes(),
                forall|j: int| 0 <= j < i ==> text@[self.offset + j] == prefix@[j],
            decreases prefix.len() - i,
        {
            if text[self.offset + i] != prefix[i] {
                assert(text@.subrange(self.offset as int, self.offset + prefix@.len())[i as int]
                    != prefix@[i as int]);
                return false;
            }
            i += 1;
        }
        assert(text@.subrange(self.offset as int, self.offset + prefix@.len()) =~= prefix@);
        true
    }

    /// Passes `n` characters, or as many as are left.
    pub fn advance(&mut self, n: usize)
        requires
            old(self).wf(),
        ensures
            final(self).input == old(self).input,
            final(self).offset == skip_chars(old(self).bytes(), old(self).offset as int, n as nat),
            n == 1 ==> final(self).offset == after(old(self).bytes(), old(self).offset as int),
            final(self).offset >= old(self).offset,
            final(self).wf(),
    {
        proof {
            reveal_with_fuel(skip_chars, 2);
            lemma_skip_chars(self.bytes(), self.offset as int, n as nat);
        }
        let ghost bytes = self.bytes();
        let ghost start = self.offset as int;
        let end = self.input.as_bytes().len();
        let mut left: usize = n;
        while left > 0 && self.offset < end
            invariant
                self.wf(),
                end == bytes.len(),
                self.input == old(self).input,
                bytes == self.bytes(),
                skip_chars(bytes, self.offset as int, left as nat) == skip_chars(
                    bytes,
                    start,
                    n as nat,
                ),
            decreases left,
        {
            proof {
                lemma_step(bytes, self.offset as int);
            }
            match self.next() {
                Some(c) => {
                    self.offset += utf8_width(c);
                },
                None => {},
            }
            left -= 1;
        }
        proof {
            lemma_skip_chars_at_end(bytes, self.offset as int, left as nat);
        }
    }

    /// Passes characters for as long as they are in `class`.
    pub fn advance_while(&mut self, class: CharClass)
        requires
            old(self).wf(),
        ensures
            final(self).input == old(self).input,
            final(self).offset == skip_while(old(self).bytes(), old(self).offset as int, class),
            final(self).offset >= old(self).offset,
            final(self).wf(),
    {
        self.offset = scan(self.input, self.offset, class);
    }

    /// Passes one character, then everything up to and including `target`;
    /// without `target` ahead, everything.
    pub fn advance_until(&mut self, target: &str)
        requires
            old(self).wf(),
        ensures
            final(self).input == old(self).input,
            final(self).offset == skip_past(
                old(self).bytes(),
                old(self).offset as int,
                target.spec_bytes(),
            ),
            final(self).wf(),
    {
        broadcast use group_utf8_lib;

        let ghost bytes = self.bytes();
        let ghost start = self.offset as int;
        let ghost wanted = target.spec_bytes();
        let end = self.input.as_bytes().len();
        assert(valid_utf8(encode_utf8(target@)));
        match char_from(target, 0) {
            Some(first) => {
                while self.offset < end
                    invariant_except_break
                        skip_past(bytes, self.offset as int, wanted) == skip_past(
                            bytes,
                            start,
                            wanted,
                        ),
                    invariant
                        self.wf(),
                        end == bytes.len(),
                        valid_utf8(wanted),
                        self.input == old(self).input,
                        bytes == self.bytes(),
                        wanted == target.spec_bytes(),
                        char_at(wanted, 0) == Some(first),
                    ensures
                        self.wf(),
                        self.input == old(self).input,
                        self.offset == skip_past(bytes, start, wanted),
                    decreases bytes.len() - self.offset,
                {
                    proof {
                        lemma_step(bytes, self.offset as int);
                    }
                    self.advance(1);
                    self.advance_while(CharClass::Except(first));
                    if self.starts_with(target) {
                        proof {
                            lemma_past_prefix(bytes, self.offset as int, wanted);
                        }
                        self.offset += target.len();
                        break ;
                    }
                }
            },
            None => {},
        }
    }

    /// Reads the attributes of a start tag, up to its `>` or `/` or to the end
    /// of the text.
    pub fn parse_attributes(&mut self) -> (attributes: Attributes)
        requires
            old(self).wf(),
        ensures
            final(self).input == old(self).input,
            final(self).wf(),
            (entries(attributes), final(self).offset as int) == attributes_at(
                old(self).bytes(),
                old(self).offset as int,
                Map::empty(),
            ),
    {
        let ghost bytes = self.bytes();
        let ghost start = self.offset as int;
        let mut attributes = empty_map();
        loop
            invariant_except_break
                attributes_at(bytes, self.offset as int, entries(attributes)) == attributes_at(
                    bytes,
                    start,
                    Map::empty(),
                ),
            invariant
                self.wf(),
                self.input == old(self).input,
                bytes == self.bytes(),
            ensures
                (entries(attributes), self.offset as int) == attributes_at(
                    bytes,
                    start,
                    Map::empty(),
                ),
            decreases bytes.len() - self.offset,
        {
            let ghost at = self.offset as int;
            proof {
                lemma_attribute_grows(bytes, at);
            }
            self.advance_while(CharClass::Whitespace);
            match self.next() {
                Some(c) => {
                    if c == '>' || c == '/' {
                        break ;
                    }
                    let key_start = self.offset;
                    self.advance_while(CharClass::Except('='));
                    let key = substring(self.input, key_start, self.offset).to_owned();
                    self.advance_while(CharClass::ExceptQuotes);
                    let quote = match self.next() {
                        Some(q) => q,
                        None => '"',
                    };
                    self.advance(1);
                    let value_start = self.offset;
                    self.advance_while(CharClass::Except(quote));
                    let value = substring(self.input, value_start, self.offset).to_owned();
                    insert(&mut attributes, key, value);
                    self.advance(1);
                },
                None => {
                    break ;
                },
            }
        }
        attributes
    }

    /// Reads a start tag from its name on: the offset stands behind its `<`.
    pub fn parse_element(&mut self) -> (markup: Markup)
        requires
            old(self).wf(),
            old(self).offset >= 1,
        ensures
            final(self).input == old(self).input,
            final(self).wf(),
            (markup@, final(self).offset as int) == start_tag_at(
                old(self).bytes(),
                old(self).offset as int,
            ),
    {
        let name_start = self.offset;
        proof {
            reveal(start_tag_at);
        }
        self.advance_while(CharClass::Name);
        let name = substring(self.input, name_start, self.offset).to_owned();
        let attributes = self.parse_attributes();
        let tag = Tag { name, offset: name_start - 1, attributes };
        match self.next() {
            Some(c) => {
                if c == '/' {
                    self.advance(2);
                    Markup::Empty(tag)
                } else if c == '>' {
                    self.advance(1);
                    Markup::Open(tag)
                } else {
                    Markup::Skipped
                }
            },
            None => Markup::Skipped,
        }
    }

    /// Reads what stands behind a `<` that opens no end tag: the offset stands
    /// behind that `<`.
    pub fn parse_markup(&mut self) -> (markup: Markup)
        requires
            old(self).wf(),
            old(self).offset >= 1,
        ensures
            final(self).input == old(self).input,
            final(self).wf(),
            (markup@, final(self).offset as int) == markup_at(
                old(self).bytes(),
                old(self).offset as int,
            ),
    {
        proof {
            reveal(markup_at);
        }
        match self.next() {
            Some(c) => {
                if c == '?' {
                    self.advance(1);
                    self.advance_until("?>");
                    Markup::Skipped
                } else if c == '!' {
                    self.advance(1);
                    match self.next() {
                        Some(d) => {
                            if d == '-' {
                                self.advance(2);
                                self.advance_until("-->");
                            } else if d == '[' {
                                self.advance(1);
                                self.advance_until("]]>");
                            } else {
                                self.advance_while(CharClass::Except('>'));
                                self.advance(1);
                            }
                        },
                        None => {},
                    }
                    Markup::Skipped
                } else {
                    self.parse_element()
                }
            },
            None => self.parse_element(),
        }
    }

    /// Passes an end tag: the offset stands on its `<`.
    pub fn skip_end_tag(&mut self)
        requires
            old(self).wf(),
        ensures
            final(self).input == old(self).input,
            final(self).wf(),
            final(self).offset == end_tag_end(old(self).bytes(), old(self).offset as int),
    {
        self.advance(2);
        self.advance_while(CharClass::Except('>'));
        self.advance(1);
    }

    /// Reads nodes up to an end tag that ends no element read here, or to the
    /// end of the text, and gives those of the outermost level. An element
    /// that the end of the text leaves open ends there.
    pub fn parse_nodes(&mut self) -> (nodes: Vec<Node>)
        requires
            old(self).wf(),
        ensures
            final(self).input == old(self).input,
            final(self).wf(),
            (views(nodes@), final(self).offset as int) == siblings_at(
                old(self).bytes(),
                old(self).offset as int,
            ),
            in_order(
                old(self).bytes(),
                views(nodes@),
                old(self).offset as int,
                final(self).offset as int,
            ),
    {
        let ghost bytes = self.bytes();
        let ghost start = self.offset as int;
        let ghost whole = siblings_at(bytes, start);
        proof {
            lemma_tree_is_siblings(bytes, start);
            lemma_siblings_in_order(bytes, start);
        }
        let mut open: Vec<Frame> = Vec::new();
        let mut nodes: Vec<Node> = Vec::new();
        assert(frames(open@) =~= Seq::empty());
        loop
            invariant_except_break
                tree_from(bytes, self.offset as int, frames(open@), views(nodes@)) == whole,
            invariant
                self.wf(),
                self.input == old(self).input,
                bytes == self.bytes(),
                whole == siblings_at(bytes, old(self).offset as int),
                in_order(bytes, whole.0, old(self).offset as int, whole.1),
            ensures
                (close_all(frames(open@), views(nodes@)), self.offset as int) == whole,
            decreases bytes.len() - self.offset,
        {
            let begin = self.offset;
            proof {
                lemma_markup_grows(bytes, begin as int);
            }
            self.advance_while(CharClass::Whitespace);
            match self.next() {
                Some(c) => {
                    if c == '<' {
                        if self.offset > begin {
                            let gap = whitespace(substring(self.input, begin, self.offset), begin);
                            proof {
                                lemma_views_push(nodes@, gap);
                            }
                            nodes.push(gap);
                        }
                        if self.starts_with("</") {
                            self.skip_end_tag();
                            let ghost before = frames(open@);
                            match open.pop() {
                                Some(frame) => {
                                    let node = close(frame.tag, nodes);
                                    nodes = frame.before;
                                    proof {
                                        lemma_views_push(nodes@, node);
                                        assert(frames(open@) =~= before.drop_last());
                                    }
                                    nodes.push(node);
                                },
                                None => {
                                    assert(frames(open@) =~= Seq::empty());
                                    return nodes;
                                },
                            }
                        } else {
                            self.advance(1);
                            match self.parse_markup() {
                                Markup::Skipped => {},
                                Markup::Empty(tag) => {
                                    let node = close(tag, Vec::new());
                                    proof {
                                        lemma_views_push(nodes@, node);
                                    }
                                    nodes.push(node);
                                },
                                Markup::Open(tag) => {
                                    let ghost before = frames(open@);
                                    let frame = Frame { tag, before: nodes };
                                    open.push(frame);
                                    nodes = Vec::new();
                                    proof {
                                        assert(frames(open@) =~= before.push(frame@));
                                    }
                                },
                            }
                        }
                    } else {
                        self.advance_while(CharClass::Except('<'));
                        let node = text(substring(self.input, begin, self.offset), begin);
                        proof {
                            lemma_views_push(nodes@, node);
                        }
                        nodes.push(node);
                    }
                },
                None => {
                    break ;
                },
            }
        }
        while open.len() > 0
            invariant
                close_all(frames(open@), views(nodes@)) == whole.0,
            decreases open.len(),
        {
            let ghost before = frames(open@);
            match open.pop() {
                Some(frame) => {
                    let node = close(frame.tag, nodes);
                    nodes = frame.before;
                    proof {
                        lemma_views_push(nodes@, node);
                        assert(frames(open@) =~= before.drop_last());
                    }
                    nodes.push(node);
                },
                None => {},
            }
        }
        nodes
    }

    /// Reads the text from the offset on and gives its tree: the one node of
    /// the outermost level, or an element `root` around the nodes of that
    /// level where there are several or none.
    pub fn parse(&mut self) -> (root: Node)
        requires
            old(self).wf(),
        ensures
            final(self).input == old(self).input,
            final(self).wf(),
            root@ == document(siblings_at(old(self).bytes(), old(self).offset as int).0),
            final(self).offset == siblings_at(old(self).bytes(), old(self).offset as int).1,
            old(self).offset == 0 ==> root@ == parsed(old(self).bytes()),
    {
        let mut nodes = self.parse_nodes();
        proof {
            lemma_views(nodes@);
        }
        if nodes.len() == 1 {
            nodes.remove(0)
        } else {
            element("root", 0, empty_map(), nodes)
        }
    }
}

/// At the end of the text there is nothing to pass.
proof fn lemma_skip_chars_at_end(bytes: Seq<u8>, at: int, count: nat)
    requires
        count == 0 || at >= bytes.len(),
    ensures
        skip_chars(bytes, at, count) == at,
    decreases count,
{
    if count > 0 {
        lemma_skip_chars_at_end(bytes, at, (count - 1) as nat);
    }
}

} // verus!
