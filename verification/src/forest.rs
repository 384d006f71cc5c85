//! Rows of trees, and the queue walk over them.
//!
//! A breadth-first traversal keeps a queue of subtrees. This module defines
//! what such a queue will still yield (`walk`) and proves that, started on a
//! single tree, the walk lists that tree level by level.

use vstd::prelude::*;
use vstd::seq_lib::seq_to_set_distributes_over_add;
use crate::shape::{kids, present, Shape};

verus! {

/// The number of nodes in all trees of the row.
pub open spec fn forest_size(f: Seq<Shape>) -> nat
    decreases f.len(),
{
    if f.len() == 0 {
        0
    } else {
        f.first().size() + forest_size(f.drop_first())
    }
}

/// The keys held in any tree of the row.
pub open spec fn forest_keys(f: Seq<Shape>) -> Set<i32>
    decreases f.len(),
{
    if f.len() == 0 {
        Set::empty()
    } else {
        f.first().keys().union(forest_keys(f.drop_first()))
    }
}

/// The keys at `depth` in each tree of the row, tree after tree.
pub open spec fn forest_level(f: Seq<Shape>, depth: nat) -> Seq<i32>
    decreases f.len(),
{
    if f.len() == 0 {
        Seq::empty()
    } else {
        f.first().level(depth) + forest_level(f.drop_first(), depth)
    }
}

/// The levels `0 .. count` of the row, one after the other.
pub open spec fn forest_first_levels(f: Seq<Shape>, count: nat) -> Seq<i32>
    decreases count,
{
    if count == 0 {
        Seq::empty()
    } else {
        forest_first_levels(f, (count - 1) as nat) + forest_level(f, (count - 1) as nat)
    }
}

/// The row below: the children of each tree's root, tree after tree.
pub open spec fn children(f: Seq<Shape>) -> Seq<Shape>
    decreases f.len(),
{
    if f.len() == 0 {
        Seq::empty()
    } else {
        kids(f.first()) + children(f.drop_first())
    }
}

/// What a first-in-first-out traversal yields from the queue `q`: the key of
/// the front tree, then the walk of the rest with the front's children
/// appended.
pub open spec fn walk(q: Seq<Shape>) -> Seq<i32>
    decreases forest_size(q), q.len(),
{
    if q.len() == 0 {
        Seq::empty()
    } else {
        match q.first() {
            Shape::Empty => walk(q.drop_first()),
            Shape::Fork(_, key, _) => {
                proof {
                    lemma_forest_size_concat(q.drop_first(), kids(q.first()));
                    lemma_kids_size(q.first());
                }
                seq![key] + walk(q.drop_first() + kids(q.first()))
            },
        }
    }
}

/// The size of two rows joined is the sum of their sizes.
pub proof fn lemma_forest_size_concat(a: Seq<Shape>, b: Seq<Shape>)
    ensures
        forest_size(a + b) == forest_size(a) + forest_size(b),
    decreases a.len(),
{
    if a.len() > 0 {
        assert((a + b).drop_first() =~= a.drop_first() + b);
        lemma_forest_size_concat(a.drop_first(), b);
    }
}

/// The keys of two rows joined are the keys of either.
pub proof fn lemma_forest_keys_concat(a: Seq<Shape>, b: Seq<Shape>)
    ensures
        forest_keys(a + b) == forest_keys(a).union(forest_keys(b)),
    decreases a.len(),
{
    if a.len() > 0 {
        assert((a + b).drop_first() =~= a.drop_first() + b);
        lemma_forest_keys_concat(a.drop_first(), b);
    }
}

/// A level of two rows joined is the level of the first, then that of the
/// second.
pub proof fn lemma_forest_level_concat(a: Seq<Shape>, b: Seq<Shape>, depth: nat)
    ensures
        forest_level(a + b, depth) == forest_level(a, depth) + forest_level(b, depth),
    decreases a.len(),
{
    if a.len() > 0 {
        assert((a + b).drop_first() =~= a.drop_first() + b);
        lemma_forest_level_concat(a.drop_first(), b, depth);
    }
}

/// The row below two rows joined is the row below the first, then the row
/// below the second.
pub proof fn lemma_children_concat(a: Seq<Shape>, b: Seq<Shape>)
    ensures
        children(a + b) == children(a) + children(b),
    decreases a.len(),
{
    if a.len() > 0 {
        assert((a + b).drop_first() =~= a.drop_first() + b);
        lemma_children_concat(a.drop_first(), b);
    }
}

/// A row of one tree is that tree.
pub proof fn lemma_single(t: Shape, depth: nat)
    ensures
        forest_size(seq![t]) == t.size(),
        forest_level(seq![t], depth) == t.level(depth),
        children(seq![t]) == kids(t),
        forest_keys(seq![t]) == t.keys(),
        forest_size(present(t)) == t.size(),
        forest_level(present(t), depth) == t.level(depth),
        forest_keys(present(t)) == t.keys(),
{
    let one = seq![t];
    assert(forest_size(one.drop_first()) == 0);
    assert(forest_keys(one.drop_first()) =~= Set::<i32>::empty());
    assert(forest_level(one.drop_first(), depth) =~= Seq::<i32>::empty());
    assert(children(one.drop_first()) =~= Seq::<Shape>::empty());
}

/// The children of a root hold every node of the tree but the root.
pub proof fn lemma_kids_size(t: Shape)
    ensures
        t is Fork ==> forest_size(kids(t)) + 1 == t.size(),
{
    match t {
        Shape::Empty => {},
        Shape::Fork(left, _, right) => {
            lemma_single(*left, 0);
            lemma_single(*right, 0);
            lemma_forest_size_concat(present(*left), present(*right));
        },
    }
}

/// The children of a root hold every key of the tree but, at most, the
/// root's.
pub proof fn lemma_kids_keys(t: Shape)
    ensures
        t matches Shape::Fork(_, key, _) ==> forest_keys(kids(t)).insert(key) == t.keys(),
{
    match t {
        Shape::Empty => {},
        Shape::Fork(left, key, right) => {
            lemma_single(*left, 0);
            lemma_single(*right, 0);
            lemma_forest_keys_concat(present(*left), present(*right));
        },
    }
}

/// A level of the children of a root is the next level of the tree.
pub proof fn lemma_kids_level(t: Shape, depth: nat)
    ensures
        forest_level(kids(t), depth) == t.level(depth + 1),
{
    match t {
        Shape::Empty => {},
        Shape::Fork(left, _, right) => {
            lemma_single(*left, depth);
            lemma_single(*right, depth);
            lemma_forest_level_concat(present(*left), present(*right), depth);
        },
    }
}

/// Level `depth` of the row below is level `depth + 1` of the row.
pub proof fn lemma_children_level(f: Seq<Shape>, depth: nat)
    ensures
        forest_level(children(f), depth) == forest_level(f, depth + 1),
    decreases f.len(),
{
    if f.len() > 0 {
        lemma_forest_level_concat(kids(f.first()), children(f.drop_first()), depth);
        lemma_kids_level(f.first(), depth);
        lemma_children_level(f.drop_first(), depth);
    }
}

/// The walk of a queue yields the roots of any front part first, and by then
/// the children of that part stand at the back.
pub proof fn lemma_walk_split(a: Seq<Shape>, b: Seq<Shape>)
    ensures
        walk(a + b) == forest_level(a, 0) + walk(b + children(a)),
    decreases a.len(),
{
    if a.len() > 0 {
        let front = a.first();
        let rest = a.drop_first();
        assert((a + b).drop_first() =~= rest + b);
        match front {
            Shape::Empty => {
                lemma_walk_split(rest, b);
            },
            Shape::Fork(_, key, _) => {
                lemma_walk_split(rest, b + kids(front));
                assert((rest + b) + kids(front) =~= rest + (b + kids(front)));
                assert((b + kids(front)) + children(rest) =~= b + children(a));
            },
        }
    }
}

/// A queue of empty trees yields nothing.
proof fn lemma_walk_of_empties(f: Seq<Shape>)
    requires
        forall|i: int| 0 <= i < f.len() ==> f[i] is Empty,
    ensures
        walk(f) == Seq::<i32>::empty(),
    decreases f.len(),
{
    if f.len() > 0 {
        assert forall|i: int| 0 <= i < f.drop_first().len() implies f.drop_first()[i] is Empty by {}
        lemma_walk_of_empties(f.drop_first());
    }
}

/// The trees of the row below are lower by one level at least.
proof fn lemma_children_height(f: Seq<Shape>, bound: nat)
    requires
        forall|i: int| 0 <= i < f.len() ==> f[i].height() <= bound + 1,
    ensures
        forall|j: int| 0 <= j < children(f).len() ==> children(f)[j].height() <= bound,
    decreases f.len(),
{
    if f.len() > 0 {
        let front = f.first();
        let rest = f.drop_first();
        assert forall|i: int| 0 <= i < rest.len() implies rest[i].height() <= bound + 1 by {}
        lemma_children_height(rest, bound);
        assert forall|j: int| 0 <= j < children(f).len() implies children(f)[j].height()
            <= bound by {
            let k = kids(front);
            if j >= k.len() {
                assert(children(f)[j] == children(rest)[j - k.len()]);
            }
        }
    }
}

/// The first levels of a row are its roots, then the first levels of the
/// row below.
proof fn lemma_first_levels_shift(f: Seq<Shape>, count: nat)
    ensures
        forest_first_levels(f, count + 1) == forest_level(f, 0) + forest_first_levels(
            children(f),
            count,
        ),
    decreases count,
{
    if count == 0 {
        assert(forest_first_levels(f, 0) =~= Seq::<i32>::empty());
    } else {
        let below = (count - 1) as nat;
        lemma_first_levels_shift(f, below);
        lemma_children_level(f, below);
        assert(forest_first_levels(f, count + 1) =~= forest_level(f, 0) + forest_first_levels(
            children(f),
            count,
        ));
    }
}

/// The walk of a row whose trees have at most `bound` levels lists the row
/// level by level.
proof fn lemma_walk_levels(f: Seq<Shape>, bound: nat)
    requires
        forall|i: int| 0 <= i < f.len() ==> f[i].height() <= bound,
    ensures
        walk(f) == forest_first_levels(f, bound),
    decreases bound,
{
    if bound == 0 {
        assert forall|i: int| 0 <= i < f.len() implies f[i] is Empty by {}
        lemma_walk_of_empties(f);
    } else {
        let below = (bound - 1) as nat;
        let none = Seq::<Shape>::empty();
        lemma_walk_split(f, none);
        lemma_children_height(f, below);
        lemma_walk_levels(children(f), below);
        lemma_first_levels_shift(f, below);
    }
}

/// The first levels of a row of one tree are those of the tree.
proof fn lemma_single_first_levels(t: Shape, count: nat)
    ensures
        forest_first_levels(seq![t], count) == t.first_levels(count),
    decreases count,
{
    if count > 0 {
        lemma_single_first_levels(t, (count - 1) as nat);
        lemma_single(t, (count - 1) as nat);
    }
}

/// Started on one tree, the queue walk is that tree's level order.
pub proof fn lemma_walk_is_level_order(t: Shape)
    ensures
        walk(seq![t]) == t.level_order(),
        walk(present(t)) == t.level_order(),
{
    lemma_walk_levels(seq![t], t.height());
    lemma_single_first_levels(t, t.height());
    if t is Empty {
        lemma_walk_of_empties(present(t));
    }
}

/// The queue walk yields one key for each node in the queue's trees.
pub proof fn lemma_walk_len(q: Seq<Shape>)
    ensures
        walk(q).len() == forest_size(q),
    decreases forest_size(q), q.len(),
{
    if q.len() > 0 {
        match q.first() {
            Shape::Empty => {
                lemma_walk_len(q.drop_first());
            },
            Shape::Fork(_, key, _) => {
                lemma_forest_size_concat(q.drop_first(), kids(q.first()));
                lemma_kids_size(q.first());
                lemma_walk_len(q.drop_first() + kids(q.first()));
            },
        }
    }
}

/// The queue walk yields the keys of the queue's trees and no others.
pub proof fn lemma_walk_keys(q: Seq<Shape>)
    ensures
        walk(q).to_set() == forest_keys(q),
    decreases forest_size(q), q.len(),
{
    if q.len() > 0 {
        let rest = q.drop_first();
        match q.first() {
            Shape::Empty => {
                lemma_walk_keys(rest);
            },
            Shape::Fork(_, key, _) => {
                let next = rest + kids(q.first());
                lemma_forest_size_concat(rest, kids(q.first()));
                lemma_kids_size(q.first());
                lemma_walk_keys(next);
                lemma_forest_keys_concat(rest, kids(q.first()));
                lemma_kids_keys(q.first());
                seq_to_set_distributes_over_add(seq![key], walk(next));
                assert(seq![key].to_set() =~= Set::<i32>::empty().insert(key)) by {
                    assert(seq![key][0] == key);
                }
            },
        }
    }
}

} // verus!
