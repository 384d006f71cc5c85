//! Breadth-first traversal, one key per step.

use std::collections::VecDeque;
use vstd::prelude::*;
use crate::forest::{lemma_walk_is_level_order, walk};
use crate::node::{shape_of, shapes_of, Node};
use crate::shape::{kids, present, Shape};

verus! {

/// A walk over a tree level by level, left to right within a level.
///
/// The walk holds at most one node that is due next, and a first-in-first-out
/// queue of the nodes that wait behind it.
pub struct LevelIterator<'a> {
    node: Option<&'a Box<Node>>,
    dequeue: VecDeque<&'a Box<Node>>,
}

impl<'a> LevelIterator<'a> {
    /// The subtree at the node that is due next; empty where none is held.
    pub closed spec fn current(&self) -> Shape {
        shape_of(self.node)
    }

    /// The subtrees at the queued nodes, the front of the queue first.
    pub closed spec fn waiting(&self) -> Seq<Shape> {
        shapes_of(self.dequeue@)
    }

    /// The subtrees that wait to be visited, the next one first.
    spec fn pending(&self) -> Seq<Shape> {
        present(self.current()) + self.waiting()
    }

    /// The keys that the walk has yet to yield, in the order in which it
    /// will yield them.
    pub closed spec fn remaining(&self) -> Seq<i32> {
        walk(self.pending())
    }

    /// A walk that starts at `node` and covers the subtree below it.
    pub fn new(node: Option<&'a Box<Node>>) -> (it: Self)
        ensures
            it.remaining() == shape_of(node).level_order(),
            it.current() == shape_of(node),
            it.waiting() == Seq::<Shape>::empty(),
    {
        let it = Self { node, dequeue: VecDeque::new() };
        proof {
            lemma_walk_is_level_order(shape_of(node));
        }
        it
    }

    /// Yields the next key, or `None` once every key has been yielded.
    ///
    /// The node that is due is the one held, or else the front of the queue.
    /// Its key is yielded, its children join the back of the queue, left
    /// before right, and no node is held afterwards.
    pub fn next(&mut self) -> (out: Option<i32>)
        ensures
            match out {
                Some(value) => {
                    &&& old(self).remaining().len() > 0
                    &&& value == old(self).remaining().first()
                    &&& final(self).remaining() == old(self).remaining().drop_first()
                },
                None => {
                    &&& old(self).remaining().len() == 0
                    &&& final(self).remaining() == old(self).remaining()
                },
            },
            final(self).current() is Empty,
            ({
                let due = present(old(self).current()) + old(self).waiting();
                if due.len() == 0 {
                    out is None && final(self).waiting() == old(self).waiting()
                } else {
                    &&& due.first() matches Shape::Fork(_, key, _) && out == Some(key)
                    &&& final(self).waiting() == due.drop_first() + kids(due.first())
                }
            }),
    {
        if self.node.is_none() {
            self.node = self.dequeue.pop_front();
            assert(self.pending() =~= old(self).pending());
        }
        match self.node {
            None => None,
            Some(node) => {
                let ghost waiting = shapes_of(self.dequeue@);
                assert(self.pending().drop_first() =~= waiting);
                if let Some(ref left) = node.left {
                    self.dequeue.push_back(left);
                }
                if let Some(ref right) = node.right {
                    self.dequeue.push_back(right);
                }
                self.node = None;
                proof {
                    let from_left = present(Node::slot_shape(node.left));
                    let from_right = present(Node::slot_shape(node.right));
                    assert(kids(node@) == from_left + from_right);
                    assert(self.pending() =~= waiting + kids(node@));
                }
                Some(node.value)
            },
        }
    }

    /// Runs the walk to its end and returns the keys it yields.
    pub fn collect(self) -> (out: Vec<i32>)
        ensures
            out@ == self.remaining(),
    {
        let mut it = self;
        let mut out: Vec<i32> = Vec::new();
        loop
            invariant_except_break
                out@ + it.remaining() == self.remaining(),
            ensures
                out@ == self.remaining(),
            decreases it.remaining().len(),
        {
            match it.next() {
                Some(value) => {
                    out.push(value);
                },
                None => {
                    break ;
                },
            }
        }
        out
    }
}

} // verus!
