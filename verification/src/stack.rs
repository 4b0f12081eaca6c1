//! Reading with a list of the open elements in place of one level of calls
//! for each of them, and why it gives the same nodes.

use crate::dom::NodeView;
use crate::grammar::{
    element_of, end_tag_end, lemma_markup_grows, lemma_siblings_grow, markup_at, siblings_at,
    MarkupView, TagView,
};
use crate::scan::{left, skip_while, starts_with, CharClass};
use crate::text::{after, char_at, text_between};
use vstd::prelude::*;
use vstd::string::*;

verus! {

/// An element whose start tag was read and whose end was not, with the nodes
/// that were read before it on its own level.
pub struct FrameView {
    pub tag: TagView,
    pub before: Seq<NodeView>,
}

/// The nodes of the outermost level once every open element is ended where
/// the reading stopped: `nodes` are the children of the innermost one.
pub open spec fn close_all(open: Seq<FrameView>, nodes: Seq<NodeView>) -> Seq<NodeView>
    decreases open.len(),
{
    if open.len() == 0 {
        nodes
    } else {
        let frame = open.last();
        close_all(open.drop_last(), frame.before.push(element_of(frame.tag, nodes)))
    }
}

/// The nodes of the outermost level that reading from `at` on gives, and the
/// position where the reading stops: behind an end tag that ends no open
/// element, or at the end of the text.
///
/// `open` holds the elements that are open at `at`, the outermost first,
/// and `nodes` what was read so far on the innermost level.
pub open spec fn tree_from(
    bytes: Seq<u8>,
    at: int,
    open: Seq<FrameView>,
    nodes: Seq<NodeView>,
) -> (Seq<NodeView>, int)
    decreases left(bytes, at),
{
    let start = skip_while(bytes, at, CharClass::Whitespace);
    match char_at(bytes, start) {
        Some(c) => if c == '<' {
            let nodes = if start > at {
                nodes.push(
                    NodeView::Whitespace { text: text_between(bytes, at, start), offset: at },
                )
            } else {
                nodes
            };
            proof {
                lemma_markup_grows(bytes, at);
            }
            if starts_with(bytes, start, "</".spec_bytes()) {
                let next = end_tag_end(bytes, start);
                if open.len() == 0 {
                    (nodes, next)
                } else {
                    let frame = open.last();
                    tree_from(
                        bytes,
                        next,
                        open.drop_last(),
                        frame.before.push(element_of(frame.tag, nodes)),
                    )
                }
            } else {
                let (markup, next) = markup_at(bytes, after(bytes, start));
                match markup {
                    MarkupView::Skipped => tree_from(bytes, next, open, nodes),
                    MarkupView::Empty(tag) => tree_from(
                        bytes,
                        next,
                        open,
                        nodes.push(element_of(tag, Seq::empty())),
                    ),
                    MarkupView::Open(tag) => tree_from(
                        bytes,
                        next,
                        open.push(FrameView { tag, before: nodes }),
                        Seq::empty(),
                    ),
                }
            }
        } else {
            let end = skip_while(bytes, start, CharClass::Except('<'));
            proof {
                lemma_markup_grows(bytes, at);
            }
            tree_from(
                bytes,
                end,
                open,
                nodes.push(NodeView::Text { text: text_between(bytes, at, end), offset: at }),
            )
        },
        None => (close_all(open, nodes), start),
    }
}

/// Where the reading goes on once the nodes `done` of the innermost level
/// have ended at `at`: the innermost open element is complete.
pub open spec fn resumed(bytes: Seq<u8>, at: int, open: Seq<FrameView>, done: Seq<NodeView>) -> (
    Seq<NodeView>,
    int,
) {
    if open.len() == 0 {
        (done, at)
    } else {
        let frame = open.last();
        tree_from(bytes, at, open.drop_last(), frame.before.push(element_of(frame.tag, done)))
    }
}

/// At the end of the text every open element ends.
pub proof fn lemma_close_all_at_end(
    bytes: Seq<u8>,
    at: int,
    open: Seq<FrameView>,
    nodes: Seq<NodeView>,
)
    requires
        char_at(bytes, at) is None,
    ensures
        tree_from(bytes, at, open, nodes) == (close_all(open, nodes), at),
        resumed(bytes, at, open, nodes) == (close_all(open, nodes), at),
    decreases open.len(),
{
    if open.len() > 0 {
        let frame = open.last();
        lemma_close_all_at_end(
            bytes,
            at,
            open.drop_last(),
            frame.before.push(element_of(frame.tag, nodes)),
        );
    }
}

/// Reading with a list of open elements gives what reading level by level
/// gives: the nodes that follow from `at` on complete the innermost level,
/// and behind them the reading goes on one level further out.
pub proof fn lemma_tree_by_levels(
    bytes: Seq<u8>,
    at: int,
    open: Seq<FrameView>,
    nodes: Seq<NodeView>,
)
    ensures
        tree_from(bytes, at, open, nodes) == resumed(
            bytes,
            siblings_at(bytes, at).1,
            open,
            nodes + siblings_at(bytes, at).0,
        ),
    decreases left(bytes, at),
{
    let start = skip_while(bytes, at, CharClass::Whitespace);
    let (found, stop) = siblings_at(bytes, at);
    lemma_markup_grows(bytes, at);
    match char_at(bytes, start) {
        Some(c) => if c == '<' {
            let gap = if start > at {
                seq![NodeView::Whitespace { text: text_between(bytes, at, start), offset: at }]
            } else {
                Seq::empty()
            };
            let with_gap = if start > at {
                nodes.push(
                    NodeView::Whitespace { text: text_between(bytes, at, start), offset: at },
                )
            } else {
                nodes
            };
            assert(with_gap =~= nodes + gap);
            if starts_with(bytes, start, "</".spec_bytes()) {
            } else {
                let (markup, next) = markup_at(bytes, after(bytes, start));
                let (rest, end) = siblings_at(bytes, next);
                match markup {
                    MarkupView::Skipped => {
                        lemma_tree_by_levels(bytes, next, open, with_gap);
                        assert(with_gap + rest =~= nodes + (gap + rest));
                    },
                    MarkupView::Empty(tag) => {
                        let node = element_of(tag, Seq::empty());
                        lemma_tree_by_levels(bytes, next, open, with_gap.push(node));
                        assert(with_gap.push(node) + rest =~= nodes + (gap.push(node) + rest));
                    },
                    MarkupView::Open(tag) => {
                        let frame = FrameView { tag, before: with_gap };
                        let node = element_of(tag, rest);
                        lemma_siblings_grow(bytes, next);
                        let (later, last) = siblings_at(bytes, end);
                        lemma_tree_by_levels(bytes, next, open.push(frame), Seq::empty());
                        assert(Seq::<NodeView>::empty() + rest =~= rest);
                        assert(open.push(frame).drop_last() =~= open);
                        lemma_tree_by_levels(bytes, end, open, with_gap.push(node));
                        assert(with_gap.push(node) + later =~= nodes + (gap.push(node) + later));
                    },
                }
            }
        } else {
            let end = skip_while(bytes, start, CharClass::Except('<'));
            let node = NodeView::Text { text: text_between(bytes, at, end), offset: at };
            let (rest, last) = siblings_at(bytes, end);
            lemma_tree_by_levels(bytes, end, open, nodes.push(node));
            assert(nodes.push(node) + rest =~= nodes + (seq![node] + rest));
        },
        None => {
            assert(nodes + Seq::<NodeView>::empty() =~= nodes);
            lemma_close_all_at_end(bytes, start, open, nodes);
        },
    }
}

/// Reading from `at` on with no element open gives the nodes that follow one
/// another from `at` on.
pub proof fn lemma_tree_is_siblings(bytes: Seq<u8>, at: int)
    ensures
        tree_from(bytes, at, Seq::empty(), Seq::empty()) == siblings_at(bytes, at),
{
    lemma_tree_by_levels(bytes, at, Seq::empty(), Seq::empty());
    assert(Seq::<NodeView>::empty() + siblings_at(bytes, at).0 =~= siblings_at(bytes, at).0);
}

} // verus!
