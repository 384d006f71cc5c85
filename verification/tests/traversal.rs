use bst::{InOrderIterator, LevelIterator, Tree};

fn grown(values: &[i32]) -> Tree {
    let mut tree = Tree::new();
    for value in values {
        tree.insert(*value);
    }
    tree
}

/// A fixed, scattered sequence with repeats.
fn scattered(count: usize) -> Vec<i32> {
    let mut state: u32 = 12345;
    let mut out = Vec::new();
    for _ in 0..count {
        state = state.wrapping_mul(1103515245).wrapping_add(12345);
        out.push(((state >> 16) % 200) as i32 - 100);
    }
    out
}

#[test]
fn empty_tree_yields_nothing() {
    let tree = Tree::new();
    assert_eq!(tree.values(), Vec::<i32>::new());
    assert_eq!(tree.level_iter().collect(), Vec::<i32>::new());
    assert_eq!(tree.in_ord_iter().collect(), Vec::<i32>::new());
    assert_eq!(tree.level_iter().next(), None);
    assert_eq!(tree.in_ord_iter().next(), None);
}

#[test]
fn walks_over_an_absent_node_yield_nothing() {
    assert_eq!(LevelIterator::new(None).collect(), Vec::<i32>::new());
    assert_eq!(InOrderIterator::new(None).collect(), Vec::<i32>::new());
    assert_eq!(LevelIterator::new(None).next(), None);
    assert_eq!(InOrderIterator::new(None).next(), None);
}

#[test]
fn level_iter_steps_through_the_levels() {
    let tree = grown(&[8, 32, 64, 2, 128, 4]);
    let mut walk = tree.level_iter();
    assert_eq!(walk.next(), Some(8));
    assert_eq!(walk.next(), Some(2));
    assert_eq!(walk.next(), Some(32));
    assert_eq!(walk.next(), Some(4));
    assert_eq!(walk.next(), Some(64));
    assert_eq!(walk.next(), Some(128));
    assert_eq!(walk.next(), None);
    assert_eq!(walk.next(), None);
}

#[test]
fn in_ord_iter_steps_in_ascending_order() {
    let tree = grown(&[42, 2, 12, 62, 20, 40]);
    let mut walk = tree.in_ord_iter();
    assert_eq!(walk.next(), Some(2));
    assert_eq!(walk.next(), Some(12));
    assert_eq!(walk.next(), Some(20));
    assert_eq!(walk.next(), Some(40));
    assert_eq!(walk.next(), Some(42));
    assert_eq!(walk.next(), Some(62));
    assert_eq!(walk.next(), None);
    assert_eq!(walk.next(), None);
}

#[test]
fn collect_after_some_steps_gives_the_rest() {
    let tree = grown(&[8, 32, 64, 2, 128, 4]);
    let mut level = tree.level_iter();
    assert_eq!(level.next(), Some(8));
    assert_eq!(level.next(), Some(2));
    assert_eq!(level.collect(), vec![32, 4, 64, 128]);
    let mut sorted = tree.in_ord_iter();
    assert_eq!(sorted.next(), Some(2));
    assert_eq!(sorted.collect(), vec![4, 8, 32, 64, 128]);
}

#[test]
fn a_fresh_walk_starts_over() {
    let tree = grown(&[3, 1, 2]);
    let mut first = tree.level_iter();
    assert_eq!(first.next(), Some(3));
    assert_eq!(tree.level_iter().collect(), vec![3, 1, 2]);
    assert_eq!(first.collect(), vec![1, 2]);
    assert_eq!(tree.in_ord_iter().collect(), vec![1, 2, 3]);
    assert_eq!(tree.in_ord_iter().collect(), vec![1, 2, 3]);
}

#[test]
fn levels_are_listed_left_to_right() {
    //            50
    //        /        \
    //      30          70
    //     /  \        /  \
    //   20    40    60    80
    //     \         /
    //      25     55
    let tree = grown(&[50, 30, 70, 20, 40, 60, 80, 25, 55]);
    assert_eq!(tree.values(), vec![50, 30, 70, 20, 40, 60, 80, 25, 55]);
    assert_eq!(
        tree.in_ord_iter().collect(),
        vec![20, 25, 30, 40, 50, 55, 60, 70, 80]
    );
}

#[test]
fn a_deeper_left_branch_comes_after_shallower_nodes() {
    //        10
    //       /  \
    //      5    20
    //     /
    //    3
    //   /
    //  1
    let tree = grown(&[10, 5, 20, 3, 1]);
    assert_eq!(tree.values(), vec![10, 5, 20, 3, 1]);
    //        10
    //       /  \
    //      5    20
    //             \
    //              30
    //             /
    //            25
    let tree = grown(&[10, 20, 5, 30, 25]);
    assert_eq!(tree.values(), vec![10, 5, 20, 30, 25]);
}

#[test]
fn level_iter_and_values_agree() {
    for count in [0, 1, 2, 3, 10, 100, 500] {
        let tree = grown(&scattered(count));
        assert_eq!(tree.level_iter().collect(), tree.values());
    }
}

#[test]
fn in_order_is_the_sorted_distinct_input() {
    for count in [0, 1, 2, 3, 10, 100, 500] {
        let input = scattered(count);
        let tree = grown(&input);
        let mut expected = input.clone();
        expected.sort();
        expected.dedup();
        let listed = tree.in_ord_iter().collect();
        assert_eq!(listed, expected);
        for pair in listed.windows(2) {
            assert!(pair[0] < pair[1]);
        }
    }
}

#[test]
fn both_orders_list_the_same_keys() {
    let tree = grown(&scattered(300));
    let mut level = tree.values();
    let sorted = tree.in_ord_iter().collect();
    assert_eq!(level.len(), sorted.len());
    assert_eq!(level[0], tree.root().unwrap().value());
    level.sort();
    assert_eq!(level, sorted);
}

#[test]
fn walks_from_the_root_match_the_tree() {
    let tree = grown(&[42, 2, 12, 62, 20, 40]);
    assert_eq!(LevelIterator::new(tree.root()).collect(), tree.values());
    assert_eq!(
        InOrderIterator::new(tree.root()).collect(),
        vec![2, 12, 20, 40, 42, 62]
    );
}

#[test]
fn walking_does_not_change_the_tree() {
    let tree = grown(&[8, 32, 64, 2, 128, 4]);
    let before = tree.values();
    let _ = tree.level_iter().collect();
    let _ = tree.in_ord_iter().collect();
    let mut partial = tree.in_ord_iter();
    let _ = partial.next();
    assert_eq!(tree.values(), before);
}
