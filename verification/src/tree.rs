//! Elements with their children: the events of a document put together
//! into a tree.

use vstd::prelude::*;
use crate::events::{all_borrowed, Event, events_view, EventSpec};

verus! {

/// A node of a document, as a mathematical value.
pub enum NodeSpec {
    /// An element with what it holds.
    Element(ElementSpec),
    /// Character data, still escaped.
    Text(Seq<u8>),
    /// The content of a CDATA section.
    CData(Seq<u8>),
}

/// An element, as a mathematical value: its name, the raw region that
/// carries its attributes, and its children in document order.
pub struct ElementSpec {
    pub name: Seq<u8>,
    pub attrs: Seq<u8>,
    pub children: Seq<NodeSpec>,
}

/// A node of a document. Its content borrows from the document.
#[derive(Debug, PartialEq)]
pub enum Node<'a> {
    /// An element with what it holds.
    Element(Element<'a>),
    /// Character data, still escaped.
    Text(&'a [u8]),
    /// The content of a CDATA section.
    CData(&'a [u8]),
}

/// An element: its name, the raw region that carries its attributes, and its
/// children in document order.
#[derive(Debug, PartialEq)]
pub struct Element<'a> {
    pub name: &'a [u8],
    pub attrs: &'a [u8],
    pub children: Vec<Node<'a>>,
}

/// The value of a node.
pub open spec fn node_view(n: Node) -> NodeSpec
    decreases n,
{
    match n {
        Node::Element(e) => NodeSpec::Element(element_view(e)),
        Node::Text(t) => NodeSpec::Text(t@),
        Node::CData(t) => NodeSpec::CData(t@),
    }
}

/// The value of an element.
pub open spec fn element_view(e: Element) -> ElementSpec
    decreases e,
{
    ElementSpec { name: e.name@, attrs: e.attrs@, children: nodes_view(e.children@) }
}

/// The values of a list of nodes.
pub open spec fn nodes_view(nodes: Seq<Node>) -> Seq<NodeSpec>
    decreases nodes,
{
    Seq::new(
        nodes.len(),
        |i: int|
            if 0 <= i < nodes.len() {
                node_view(nodes[i])
            } else {
                NodeSpec::Text(Seq::empty())
            },
    )
}

/// What a stretch of events holds: the nodes up to the tag that closes the
/// enclosing element, and the position behind that tag.
pub struct Parsed {
    pub nodes: Seq<NodeSpec>,
    pub next: int,
}

/// The nodes that the events from `i` on hold, up to the closing tag of the
/// enclosing element or, at the top, the end of the document.
///
/// An opening tag starts an element, whose children are the nodes up to its
/// closing tag; a self-closing tag is an element without children; text and
/// CDATA are nodes of their own; comments, processing instructions, the XML
/// declaration and document types are no nodes.
pub open spec fn nodes_from(events: Seq<EventSpec>, i: int) -> Parsed
    decreases events.len() - i,
{
    if i < 0 || i >= events.len() {
        Parsed { nodes: Seq::empty(), next: events.len() as int }
    } else {
        match events[i] {
            EventSpec::End(_) => Parsed { nodes: Seq::empty(), next: i + 1 },
            EventSpec::Eof => Parsed { nodes: Seq::empty(), next: events.len() as int },
            EventSpec::Start(t) => {
                let inner = nodes_from(events, i + 1);
                let after = if i < inner.next <= events.len() {
                    inner.next
                } else {
                    i + 1
                };
                let rest = nodes_from(events, after);
                Parsed {
                    nodes: seq![
                        NodeSpec::Element(
                            ElementSpec { name: t.name, attrs: t.attrs, children: inner.nodes },
                        ),
                    ] + rest.nodes,
                    next: rest.next,
                }
            },
            EventSpec::Empty(t) => {
                let rest = nodes_from(events, i + 1);
                Parsed {
                    nodes: seq![
                        NodeSpec::Element(
                            ElementSpec { name: t.name, attrs: t.attrs, children: Seq::empty() },
                        ),
                    ] + rest.nodes,
                    next: rest.next,
                }
            },
            EventSpec::Text(d) => {
                let rest = nodes_from(events, i + 1);
                Parsed { nodes: seq![NodeSpec::Text(d)] + rest.nodes, next: rest.next }
            },
            EventSpec::CData(d) => {
                let rest = nodes_from(events, i + 1);
                Parsed { nodes: seq![NodeSpec::CData(d)] + rest.nodes, next: rest.next }
            },
            _ => nodes_from(events, i + 1),
        }
    }
}

/// The nodes at the top of a document.
pub open spec fn document_nodes(events: Seq<EventSpec>) -> Seq<NodeSpec> {
    nodes_from(events, 0).nodes
}

/// The nodes of a stretch of events end behind where they start.
pub proof fn lemma_nodes_from_advances(events: Seq<EventSpec>, i: int)
    requires
        0 <= i,
    ensures
        i < events.len() ==> i < nodes_from(events, i).next <= events.len(),
        i >= events.len() ==> nodes_from(events, i).next == events.len(),
    decreases events.len() - i,
{
    if i < events.len() {
        match events[i] {
            EventSpec::End(_) => {},
            EventSpec::Eof => {},
            EventSpec::Start(t) => {
                lemma_nodes_from_advances(events, i + 1);
                let inner = nodes_from(events, i + 1);
                lemma_nodes_from_advances(events, inner.next);
            },
            _ => {
                lemma_nodes_from_advances(events, i + 1);
            },
        }
    }
}

/// Puts one node before a list of nodes.
fn prepend_node<'a>(node: Node<'a>, rest: Vec<Node<'a>>) -> (r: Vec<Node<'a>>)
    ensures
        nodes_view(r@) == seq![node_view(node)] + nodes_view(rest@),
{
    let mut r: Vec<Node<'a>> = Vec::new();
    r.push(node);
    let ghost tail = rest@;
    let mut rest = rest;
    r.append(&mut rest);
    assert(nodes_view(r@) =~= seq![node_view(node)] + nodes_view(tail)) by {
        assert(r@ =~= seq![node] + tail);
    }
    r
}

/// Puts the events from `i` on together into nodes.
pub fn parse_nodes<'a>(events: &[Event<'a>], i: usize) -> (r: (Vec<Node<'a>>, usize))
    requires
        all_borrowed(events@),
    ensures
        nodes_view(r.0@) == nodes_from(events_view(events@), i as int).nodes,
        r.1 == nodes_from(events_view(events@), i as int).next,
        i < events@.len() ==> i < r.1,
        r.1 <= events@.len(),
    decreases events@.len() - i,
{
    let ghost ev = events_view(events@);
    proof {
        lemma_nodes_from_advances(ev, i as int);
    }
    if i >= events.len() {
        let nodes: Vec<Node<'a>> = Vec::new();
        assert(nodes_view(nodes@) =~= Seq::<NodeSpec>::empty());
        return (nodes, events.len());
    }
    assert(ev[i as int] == events@[i as int]@);
    assert(events@[i as int].is_borrowed());
    match &events[i] {
        Event::End(_) => {
            let nodes: Vec<Node<'a>> = Vec::new();
            assert(nodes_view(nodes@) =~= Seq::<NodeSpec>::empty());
            (nodes, i + 1)
        },
        Event::Eof => {
            let nodes: Vec<Node<'a>> = Vec::new();
            assert(nodes_view(nodes@) =~= Seq::<NodeSpec>::empty());
            (nodes, events.len())
        },
        Event::Start(t) => {
            let (children, after) = parse_nodes(events, i + 1);
            let (rest, next) = parse_nodes(events, after);
            let element = Element {
                name: t.name_borrowed(),
                attrs: t.attributes_borrowed(),
                children,
            };
            (prepend_node(Node::Element(element), rest), next)
        },
        Event::Empty(t) => {
            let (rest, next) = parse_nodes(events, i + 1);
            let children: Vec<Node<'a>> = Vec::new();
            assert(nodes_view(children@) =~= Seq::<NodeSpec>::empty());
            let element = Element {
                name: t.name_borrowed(),
                attrs: t.attributes_borrowed(),
                children,
            };
            (prepend_node(Node::Element(element), rest), next)
        },
        Event::Text(t) => {
            let (rest, next) = parse_nodes(events, i + 1);
            (prepend_node(Node::Text(t.content_borrowed()), rest), next)
        },
        Event::CData(t) => {
            let (rest, next) = parse_nodes(events, i + 1);
            (prepend_node(Node::CData(t.content_borrowed()), rest), next)
        },
        _ => parse_nodes(events, i + 1),
    }
}

} // verus!
