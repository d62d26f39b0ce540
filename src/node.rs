//! The tree: elements with attributes and children, and text nodes.
use vstd::prelude::*;
use crate::attributes::Attribute;

verus! {

/// An element: a tag, its attributes and its children, in order.
#[derive(Debug)]
pub struct Element {
    pub tag: String,
    pub attrs: Vec<Attribute>,
    pub children: Vec<Node>,
    pub self_closing: bool,
}

/// A node of the tree.
#[derive(Debug)]
pub enum Node {
    Element(Element),
    Text(String),
}

/// The number of nodes in the tree rooted at `n`, `n` included.
pub open spec fn node_count(n: Node) -> nat
    decreases n,
{
    match n {
        Node::Text(_) => 1,
        Node::Element(e) => element_count(e),
    }
}

/// The number of nodes in the tree rooted at `e`, `e` included.
pub open spec fn element_count(e: Element) -> nat
    decreases e,
{
    1 + children_count(e.children@)
}

/// The number of nodes in the trees rooted at the nodes of `s`.
pub open spec fn children_count(s: Seq<Node>) -> nat
    decreases s,
{
    if s.len() == 0 {
        0
    } else {
        children_count(s.subrange(0, s.len() - 1)) + node_count(s[s.len() - 1])
    }
}

/// Every element with children in the tree rooted at `n`, placed at
/// indentation level `level`, has the level of its children within `usize`.
pub open spec fn node_fits(n: Node, level: nat) -> bool
    decreases n,
{
    match n {
        Node::Text(_) => true,
        Node::Element(e) => element_fits(e, level),
    }
}

/// `node_fits` of an element.
pub open spec fn element_fits(e: Element, level: nat) -> bool
    decreases e,
{
    e.children@.len() == 0 || (level + 1 <= usize::MAX && children_fit(e.children@, level + 1))
}

/// `node_fits` of each node of `s`, at level `level`.
pub open spec fn children_fit(s: Seq<Node>, level: nat) -> bool
    decreases s,
{
    if s.len() == 0 {
        true
    } else {
        children_fit(s.subrange(0, s.len() - 1), level) && node_fits(s[s.len() - 1], level)
    }
}

impl Node {
    /// Whether this node is a text node.
    pub fn is_text(&self) -> (r: bool)
        ensures
            r == (*self is Text),
    {
        match self {
            Node::Text(_) => true,
            Node::Element(_) => false,
        }
    }
}

/// An element that is closed by a closing tag.
pub fn element(tag: &str, attrs: Vec<Attribute>, children: Vec<Node>) -> (r: Node)
    ensures
        r is Element,
        r->Element_0.tag@ == tag@,
        r->Element_0.attrs == attrs,
        r->Element_0.children == children,
        !r->Element_0.self_closing,
{
    Node::Element(Element { tag: String::from_str(tag), attrs, children, self_closing: false })
}

/// A self-closing element, which has no children.
pub fn self_closing_element(tag: &str, attrs: Vec<Attribute>) -> (r: Node)
    ensures
        r is Element,
        r->Element_0.tag@ == tag@,
        r->Element_0.attrs == attrs,
        r->Element_0.children@.len() == 0,
        r->Element_0.self_closing,
{
    Node::Element(
        Element { tag: String::from_str(tag), attrs, children: Vec::new(), self_closing: true },
    )
}

/// A `div` element.
pub fn div(attrs: Vec<Attribute>, children: Vec<Node>) -> (r: Node)
    ensures
        r is Element,
        r->Element_0.tag@ == seq!['d', 'i', 'v'],
        r->Element_0.attrs == attrs,
        r->Element_0.children == children,
        !r->Element_0.self_closing,
{
    proof {
        reveal_strlit("div");
    }
    element("div", attrs, children)
}

/// A text node.
pub fn text(s: &str) -> (r: Node)
    ensures
        r is Text,
        r->Text_0@ == s@,
{
    Node::Text(String::from_str(s))
}

} // verus!
