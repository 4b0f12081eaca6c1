//! The document tree: elements, text and white space.

use crate::string_map::{entries, lookup, StringMap};
use vstd::prelude::*;
use vstd::string::*;

verus! {

/// The attributes of an element: a value for each key.
pub type Attributes = StringMap;

/// A node of a document tree. Its offset is the place in the text, counted in
/// bytes, where it begins.
#[derive(Debug)]
pub enum Node {
    Element { name: String, offset: usize, attributes: Attributes, children: Vec<Node> },
    Text { text: String, offset: usize },
    Whitespace { text: String, offset: usize },
}

/// What a node is: its kind, its strings and its offset, and for an element
/// its attributes and what its children are, in their order.
pub enum NodeView {
    Element {
        name: Seq<char>,
        offset: int,
        attributes: Map<Seq<char>, Seq<char>>,
        children: Seq<NodeView>,
    },
    Text { text: Seq<char>, offset: int },
    Whitespace { text: Seq<char>, offset: int },
}

impl View for Node {
    type V = NodeView;

    open spec fn view(&self) -> NodeView {
        node_view(*self)
    }
}

/// What `node` is.
pub open spec fn node_view(node: Node) -> NodeView
    decreases node,
{
    match node {
        Node::Element { name, offset, attributes, children } => NodeView::Element {
            name: name@,
            offset: offset as int,
            attributes: entries(attributes),
            children: views(children@),
        },
        Node::Text { text, offset } => NodeView::Text { text: text@, offset: offset as int },
        Node::Whitespace { text, offset } => NodeView::Whitespace {
            text: text@,
            offset: offset as int,
        },
    }
}

/// What each node of a sequence is.
pub open spec fn views(nodes: Seq<Node>) -> Seq<NodeView>
    decreases nodes,
{
    if nodes.len() == 0 {
        Seq::empty()
    } else {
        views(nodes.drop_last()).push(node_view(nodes.last()))
    }
}

/// What a sequence of nodes is, node by node.
pub proof fn lemma_views(nodes: Seq<Node>)
    ensures
        views(nodes).len() == nodes.len(),
        forall|i: int| 0 <= i < nodes.len() ==> #[trigger] views(nodes)[i] == nodes[i]@,
    decreases nodes.len(),
{
    if nodes.len() > 0 {
        lemma_views(nodes.drop_last());
    }
}

/// What a sequence is with one node more at its end.
pub proof fn lemma_views_push(nodes: Seq<Node>, node: Node)
    ensures
        views(nodes.push(node)) == views(nodes).push(node@),
{
    assert(nodes.push(node).drop_last() =~= nodes);
}

impl NodeView {
    /// Where the node begins.
    pub open spec fn offset(self) -> int {
        match self {
            NodeView::Element { offset, .. } => offset,
            NodeView::Text { offset, .. } => offset,
            NodeView::Whitespace { offset, .. } => offset,
        }
    }

    /// The text of a text or white space node; of an element, that of its
    /// first child, if it has a child and that child has one.
    pub open spec fn first_text(self) -> Option<Seq<char>>
        decreases self,
    {
        match self {
            NodeView::Element { children, .. } => if children.len() > 0 {
                children[0].first_text()
            } else {
                None
            },
            NodeView::Text { text, .. } => Some(text),
            NodeView::Whitespace { text, .. } => Some(text),
        }
    }
}

impl Node {
    /// The name of an element.
    pub fn tag_name(&self) -> (name: Option<&str>)
        ensures
            self@ is Element ==> name is Some && name->0@ == self@->name,
            !(self@ is Element) ==> name is None,
    {
        match self {
            Node::Element { name, .. } => Some(name.as_str()),
            _ => None,
        }
    }

    /// Where the node begins.
    pub fn offset(&self) -> (offset: usize)
        ensures
            offset == self@.offset(),
    {
        match self {
            Node::Element { offset, .. } => *offset,
            Node::Text { offset, .. } => *offset,
            Node::Whitespace { offset, .. } => *offset,
        }
    }

    /// The value that an element has for the attribute `key`.
    pub fn attr(&self, key: &str) -> (value: Option<&str>)
        ensures
            value is Some <==> self@ is Element && self@->attributes.contains_key(key@),
            value is Some ==> value->0@ == self@->attributes[key@],
    {
        match self {
            Node::Element { attributes, .. } => match lookup(attributes, key) {
                Some(value) => Some(value.as_str()),
                None => None,
            },
            _ => None,
        }
    }

    /// The child of an element at `index`, counted from 0.
    pub fn child(&self, index: usize) -> (child: Option<&Node>)
        ensures
            child is Some <==> self@ is Element && index < self@->children.len(),
            child is Some ==> child->0@ == self@->children[index as int],
    {
        match self {
            Node::Element { children, .. } => {
                proof {
                    lemma_views(children@);
                }
                if index < children.len() {
                    Some(&children[index])
                } else {
                    None
                }
            },
            _ => None,
        }
    }

    /// The text of a text or white space node; of an element, the text that
    /// its first child gives in the same way.
    pub fn text(&self) -> (text: Option<&str>)
        ensures
            text is Some == self@.first_text() is Some,
            text is Some ==> text->0@ == self@.first_text()->0,
    {
        let mut node = self;
        loop
            invariant
                node@.first_text() == self@.first_text(),
            decreases node,
        {
            match node {
                Node::Element { children, .. } => {
                    proof {
                        lemma_views(children@);
                    }
                    if children.len() > 0 {
                        node = &children[0];
                    } else {
                        return None;
                    }
                },
                Node::Text { text, .. } => {
                    return Some(text.as_str());
                },
                Node::Whitespace { text, .. } => {
                    return Some(text.as_str());
                },
            }
        }
    }
}

/// An element with the given name, offset, attributes and children.
pub fn element(name: &str, offset: usize, attributes: Attributes, children: Vec<Node>) -> (node:
    Node)
    ensures
        node@ == (NodeView::Element {
            name: name@,
            offset: offset as int,
            attributes: entries(attributes),
            children: views(children@),
        }),
{
    Node::Element { name: name.to_owned(), offset, attributes, children }
}

/// A text node with the given text and offset.
pub fn text(content: &str, offset: usize) -> (node: Node)
    ensures
        node@ == (NodeView::Text { text: content@, offset: offset as int }),
{
    Node::Text { text: content.to_owned(), offset }
}

/// A white space node with the given text and offset.
pub fn whitespace(content: &str, offset: usize) -> (node: Node)
    ensures
        node@ == (NodeView::Whitespace { text: content@, offset: offset as int }),
{
    Node::Whitespace { text: content.to_owned(), offset }
}

} // verus!
