//! What holds of every tree: the effect of insertion on keys, order and
//! size, and what the two traversal orders list.

use vstd::prelude::*;
use vstd::seq_lib::seq_to_set_distributes_over_add;
use crate::forest::{lemma_single, lemma_walk_is_level_order, lemma_walk_keys, lemma_walk_len};
use crate::level_iter::LevelIterator;
use crate::shape::{strictly_ascending, Shape};
use crate::tree::Tree;

verus! {

/// Insertion adds the value to the keys and changes nothing else about them.
pub proof fn lemma_insert_keys(t: Shape, value: i32)
    ensures
        t.insert(value).keys() == t.keys().insert(value),
    decreases t,
{
    match t {
        Shape::Empty => {},
        Shape::Fork(left, key, right) => {
            if value > key {
                lemma_insert_keys(*right, value);
            } else if value < key {
                lemma_insert_keys(*left, value);
            }
        },
    }
}

/// Insertion into a search tree gives a search tree.
pub proof fn lemma_insert_keeps_order(t: Shape, value: i32)
    requires
        t.is_bst(),
    ensures
        t.insert(value).is_bst(),
    decreases t,
{
    match t {
        Shape::Empty => {},
        Shape::Fork(left, key, right) => {
            if value > key {
                lemma_insert_keeps_order(*right, value);
                lemma_insert_keys(*right, value);
            } else if value < key {
                lemma_insert_keeps_order(*left, value);
                lemma_insert_keys(*left, value);
            }
        },
    }
}

/// Inserting a key that a search tree already holds leaves the tree as it is.
pub proof fn lemma_insert_present(t: Shape, value: i32)
    requires
        t.is_bst(),
        t.keys().contains(value),
    ensures
        t.insert(value) == t,
    decreases t,
{
    match t {
        Shape::Empty => {},
        Shape::Fork(left, key, right) => {
            if value > key {
                assert(!left.keys().contains(value));
                lemma_insert_present(*right, value);
            } else if value < key {
                assert(!right.keys().contains(value));
                lemma_insert_present(*left, value);
            }
        },
    }
}

/// Insertion into a search tree adds exactly one node for a new key and no
/// node for a key that the tree already holds.
pub proof fn lemma_insert_size(t: Shape, value: i32)
    requires
        t.is_bst(),
    ensures
        t.insert(value).size() == if t.keys().contains(value) {
            t.size()
        } else {
            t.size() + 1
        },
    decreases t,
{
    match t {
        Shape::Empty => {},
        Shape::Fork(left, key, right) => {
            if value > key {
                assert(!left.keys().contains(value));
                lemma_insert_size(*right, value);
            } else if value < key {
                assert(!right.keys().contains(value));
                lemma_insert_size(*left, value);
            }
        },
    }
}

/// Inserting a value a second time changes nothing: the tree, and so its
/// node count, is that of inserting it once.
pub proof fn lemma_insert_twice(t: Shape, value: i32)
    ensures
        t.insert(value).insert(value) == t.insert(value),
        t.insert(value).insert(value).size() == t.insert(value).size(),
    decreases t,
{
    match t {
        Shape::Empty => {},
        Shape::Fork(left, key, right) => {
            if value > key {
                lemma_insert_twice(*right, value);
            } else if value < key {
                lemma_insert_twice(*left, value);
            }
        },
    }
}

/// The in-order listing holds each node once: it is as long as the tree is
/// large, and its elements are the tree's keys.
pub proof fn lemma_in_order_keys(t: Shape)
    ensures
        t.in_order().len() == t.size(),
        t.in_order().to_set() == t.keys(),
    decreases t,
{
    match t {
        Shape::Empty => {},
        Shape::Fork(left, key, right) => {
            lemma_in_order_keys(*left);
            lemma_in_order_keys(*right);
            left.in_order().lemma_push_to_set_commute(key);
            seq_to_set_distributes_over_add(left.in_order().push(key), right.in_order());
        },
    }
}

/// The in-order listing of a search tree is strictly ascending.
pub proof fn lemma_in_order_ascending(t: Shape)
    requires
        t.is_bst(),
    ensures
        strictly_ascending(t.in_order()),
    decreases t,
{
    match t {
        Shape::Empty => {},
        Shape::Fork(left, key, right) => {
            lemma_in_order_ascending(*left);
            lemma_in_order_ascending(*right);
            lemma_in_order_keys(*left);
            lemma_in_order_keys(*right);
            let low = left.in_order();
            let high = right.in_order();
            let all = t.in_order();
            assert forall|i: int, j: int| 0 <= i < j < all.len() implies all[i] < all[j] by {
                if i < low.len() {
                    assert(low.to_set().contains(low[i]));
                }
                if j > low.len() {
                    assert(high.to_set().contains(high[j - low.len() - 1]));
                }
            }
        },
    }
}

/// A tree grown by insertions alone is a search tree, and its keys are the
/// values that were inserted.
pub proof fn lemma_from_inserts(values: Seq<i32>)
    ensures
        Shape::from_inserts(values).is_bst(),
        Shape::from_inserts(values).keys() == values.to_set(),
    decreases values.len(),
{
    if values.len() > 0 {
        let before = Shape::from_inserts(values.drop_last());
        lemma_from_inserts(values.drop_last());
        lemma_insert_keeps_order(before, values.last());
        lemma_insert_keys(before, values.last());
        values.drop_last().lemma_push_to_set_commute(values.last());
        assert(values.drop_last().push(values.last()) =~= values);
    }
}

/// One more insertion grows the tree of the insertions before it.
pub proof fn lemma_from_inserts_push(values: Seq<i32>, value: i32)
    ensures
        Shape::from_inserts(values.push(value)) == Shape::from_inserts(values).insert(value),
{
    assert(values.push(value).drop_last() =~= values);
}

/// Whatever values are inserted, in whatever order and however often, the
/// in-order listing of the tree they grow is strictly ascending, and its
/// elements are the distinct values inserted.
pub proof fn lemma_in_order_of_inserts(values: Seq<i32>)
    ensures
        strictly_ascending(Shape::from_inserts(values).in_order()),
        Shape::from_inserts(values).in_order().to_set() == values.to_set(),
{
    lemma_from_inserts(values);
    lemma_in_order_ascending(Shape::from_inserts(values));
    lemma_in_order_keys(Shape::from_inserts(values));
}

/// Every node hangs to the right of the one above it.
spec fn is_right_chain(t: Shape) -> bool
    decreases t,
{
    match t {
        Shape::Empty => true,
        Shape::Fork(left, _, right) => *left is Empty && is_right_chain(*right),
    }
}

/// A value above every key of a chain extends the chain by one level.
proof fn lemma_chain_insert(t: Shape, value: i32)
    requires
        is_right_chain(t),
        forall|k: i32| t.keys().contains(k) ==> k < value,
    ensures
        is_right_chain(t.insert(value)),
        t.insert(value).height() == t.height() + 1,
    decreases t,
{
    match t {
        Shape::Empty => {},
        Shape::Fork(left, key, right) => {
            assert(t.keys().contains(key));
            assert forall|k: i32| right.keys().contains(k) implies k < value by {
                assert(t.keys().contains(k));
            }
            lemma_chain_insert(*right, value);
        },
    }
}

/// Values inserted in ascending order grow a tree that is as high as it is
/// large: the tree is not rebalanced.
pub proof fn lemma_ascending_inserts_height(values: Seq<i32>)
    requires
        strictly_ascending(values),
    ensures
        Shape::from_inserts(values).height() == values.len(),
        Shape::from_inserts(values).size() == values.len(),
{
    lemma_ascending_inserts_chain(values);
}

/// Values inserted in ascending order grow a chain to the right.
proof fn lemma_ascending_inserts_chain(values: Seq<i32>)
    requires
        strictly_ascending(values),
    ensures
        is_right_chain(Shape::from_inserts(values)),
        Shape::from_inserts(values).height() == values.len(),
        Shape::from_inserts(values).size() == values.len(),
    decreases values.len(),
{
    if values.len() > 0 {
        let head = values.drop_last();
        let before = Shape::from_inserts(head);
        lemma_ascending_inserts_chain(head);
        lemma_from_inserts(head);
        assert forall|k: i32| before.keys().contains(k) implies k < values.last() by {
            assert(head.contains(k));
        }
        lemma_chain_insert(before, values.last());
        lemma_insert_size(before, values.last());
    }
}

/// The level-order listing holds each node once: it is as long as the tree
/// is large, and its elements are the tree's keys.
pub proof fn lemma_level_order_keys(t: Shape)
    ensures
        t.level_order().len() == t.size(),
        t.level_order().to_set() == t.keys(),
{
    lemma_walk_is_level_order(t);
    lemma_walk_len(seq![t]);
    lemma_walk_keys(seq![t]);
    lemma_single(t, 0);
}

/// The lazy level-order walk of a tree and its eager listing hold the same
/// keys in the same order.
pub proof fn lemma_level_iter_lists_values(tree: &Tree, it: LevelIterator<'_>, out: Vec<i32>)
    requires
        call_ensures(Tree::level_iter, (tree,), it),
        call_ensures(Tree::values, (tree,), out),
    ensures
        it.remaining() == out@,
{
}

/// Both listings of the empty tree are empty.
pub proof fn lemma_empty_traversals()
    ensures
        Shape::Empty.in_order() == Seq::<i32>::empty(),
        Shape::Empty.level_order() == Seq::<i32>::empty(),
{
}

} // verus!
