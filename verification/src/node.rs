//! Tree nodes and the shape they stand for.

use vstd::prelude::*;
use crate::shape::Shape;

verus! {

/// One vertex of a tree: a key and two owned, optional children.
#[derive(Debug)]
pub struct Node {
    pub(crate) value: i32,
    pub(crate) left: Option<Box<Node>>,
    pub(crate) right: Option<Box<Node>>,
}

/// The shape behind a borrowed link: empty where the link is absent.
pub open spec fn shape_of(link: Option<&Box<Node>>) -> Shape {
    match link {
        None => Shape::Empty,
        Some(node) => node@,
    }
}

/// The shapes behind a row of borrowed nodes.
pub open spec fn shapes_of(nodes: Seq<&Box<Node>>) -> Seq<Shape> {
    nodes.map_values(|node: &Box<Node>| node@)
}

impl View for Node {
    type V = Shape;

    open(crate) spec fn view(&self) -> Shape {
        self.shape()
    }
}

impl Node {
    /// The shape of the subtree rooted here: this node's key over the shapes
    /// behind its two child slots.
    pub open(crate) spec fn shape(self) -> Shape
        decreases self,
    {
        Shape::Fork(
            Box::new(Node::slot_shape(self.left)),
            self.value,
            Box::new(Node::slot_shape(self.right)),
        )
    }

    /// The shape behind an owned child slot: empty where the slot is.
    pub open(crate) spec fn slot_shape(slot: Option<Box<Node>>) -> Shape
        decreases slot,
    {
        match slot {
            None => Shape::Empty,
            Some(node) => node.shape(),
        }
    }

    /// A node without children.
    pub fn new(value: i32) -> (node: Node)
        ensures
            node@ == Shape::leaf(value),
    {
        Node { value, left: None, right: None }
    }

    /// The key stored at this node.
    pub fn value(&self) -> (value: i32)
        ensures
            self@ matches Shape::Fork(_, key, _) && key == value,
    {
        self.value
    }
}

impl From<Node> for Option<Box<Node>> {
    fn from(node: Node) -> (slot: Option<Box<Node>>) {
        Some(Box::new(node))
    }
}

impl vstd::std_specs::convert::FromSpecImpl<Node> for Option<Box<Node>> {
    open spec fn obeys_from_spec() -> bool {
        true
    }

    open spec fn from_spec(node: Node) -> Option<Box<Node>> {
        Some(Box::new(node))
    }
}

} // verus!
