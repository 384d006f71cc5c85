use bst::{Node, Tree};

fn grown(values: &[i32]) -> Tree {
    let mut tree = Tree::new();
    for value in values {
        tree.insert(*value);
    }
    tree
}

#[test]
fn first_insert_becomes_the_root() {
    let tree = grown(&[42, 2, 12, 62, 20, 40]);
    let root = tree.root();
    assert!(root.is_some());
    assert_eq!(root.unwrap().value(), 42);
}

#[test]
fn new_tree_has_no_root() {
    let tree = Tree::new();
    assert!(tree.root().is_none());
}

#[test]
fn single_insert_gives_a_single_node() {
    let tree = grown(&[7]);
    assert_eq!(tree.root().unwrap().value(), 7);
    assert_eq!(tree.values(), vec![7]);
    assert_eq!(tree.in_ord_iter().collect(), vec![7]);
}

#[test]
fn repeated_value_gives_one_node() {
    let tree = grown(&[5, 5, 5]);
    assert_eq!(tree.values(), vec![5]);
    assert_eq!(tree.level_iter().collect(), vec![5]);
    assert_eq!(tree.in_ord_iter().collect(), vec![5]);
    assert_eq!(tree.root().unwrap().value(), 5);
}

#[test]
fn second_insert_of_a_value_changes_nothing() {
    let once = grown(&[8, 32, 64, 2, 128, 4]);
    let twice = grown(&[8, 32, 64, 2, 128, 4, 64]);
    assert_eq!(once.values().len(), 6);
    assert_eq!(twice.values(), once.values());
    assert_eq!(twice.in_ord_iter().collect(), once.in_ord_iter().collect());
}

#[test]
fn duplicate_deep_in_the_tree_is_ignored() {
    let tree = grown(&[42, 2, 12, 62, 20, 40, 40, 12, 2, 42, 62, 20]);
    assert_eq!(tree.values(), vec![42, 2, 62, 12, 20, 40]);
    assert_eq!(tree.in_ord_iter().collect(), vec![2, 12, 20, 40, 42, 62]);
}

#[test]
fn each_new_value_adds_one_node() {
    let mut tree = Tree::new();
    let values = [50, 30, 70, 20, 40, 60, 80];
    for (done, value) in values.iter().enumerate() {
        assert_eq!(tree.values().len(), done);
        tree.insert(*value);
        assert_eq!(tree.values().len(), done + 1);
    }
}

#[test]
fn ascending_input_grows_a_chain_to_the_right() {
    let tree = grown(&[1, 2, 3, 4, 5]);
    // one node on each level, so both orders agree
    assert_eq!(tree.values(), vec![1, 2, 3, 4, 5]);
    assert_eq!(tree.in_ord_iter().collect(), vec![1, 2, 3, 4, 5]);
}

#[test]
fn descending_input_grows_a_chain_to_the_left() {
    let tree = grown(&[5, 4, 3, 2, 1]);
    assert_eq!(tree.values(), vec![5, 4, 3, 2, 1]);
    assert_eq!(tree.in_ord_iter().collect(), vec![1, 2, 3, 4, 5]);
}

#[test]
fn form_follows_the_order_of_insertion() {
    let balanced = grown(&[2, 1, 3]);
    let chain = grown(&[1, 2, 3]);
    assert_eq!(balanced.values(), vec![2, 1, 3]);
    assert_eq!(chain.values(), vec![1, 2, 3]);
    assert_eq!(balanced.in_ord_iter().collect(), chain.in_ord_iter().collect());
}

#[test]
fn extreme_and_negative_keys_are_ordered() {
    let tree = grown(&[0, i32::MAX, i32::MIN, -1, 1]);
    assert_eq!(tree.values(), vec![0, i32::MIN, i32::MAX, -1, 1]);
    assert_eq!(
        tree.in_ord_iter().collect(),
        vec![i32::MIN, -1, 0, 1, i32::MAX]
    );
}

#[test]
fn insert_iterative_places_values_like_insert() {
    let mut tree = Tree::new();
    for value in [8, 32, 64, 2, 128, 4, 32] {
        tree.insert_iterative(value);
    }
    assert_eq!(tree.values(), vec![8, 2, 32, 4, 64, 128]);
    assert_eq!(tree.in_ord_iter().collect(), vec![2, 4, 8, 32, 64, 128]);
}

#[test]
fn insert_recursive_places_values_like_insert() {
    let mut root = Box::new(Node::new(8));
    for value in [32, 64, 2, 128, 4, 8, 2] {
        Tree::insert_recursive(&mut root, value);
    }
    assert_eq!(root.value(), 8);
    let level = bst::LevelIterator::new(Some(&root)).collect();
    assert_eq!(level, vec![8, 2, 32, 4, 64, 128]);
    let sorted = bst::InOrderIterator::new(Some(&root)).collect();
    assert_eq!(sorted, vec![2, 4, 8, 32, 64, 128]);
}

#[test]
fn insert_recursive_on_a_leaf_hangs_one_child() {
    let mut low = Box::new(Node::new(10));
    Tree::insert_recursive(&mut low, 3);
    assert_eq!(bst::LevelIterator::new(Some(&low)).collect(), vec![10, 3]);
    assert_eq!(bst::InOrderIterator::new(Some(&low)).collect(), vec![3, 10]);

    let mut high = Box::new(Node::new(10));
    Tree::insert_recursive(&mut high, 30);
    assert_eq!(bst::LevelIterator::new(Some(&high)).collect(), vec![10, 30]);
    assert_eq!(bst::InOrderIterator::new(Some(&high)).collect(), vec![10, 30]);

    let mut same = Box::new(Node::new(10));
    Tree::insert_recursive(&mut same, 10);
    assert_eq!(bst::LevelIterator::new(Some(&same)).collect(), vec![10]);
}

#[test]
fn node_new_is_a_leaf() {
    let node = Node::new(-3);
    assert_eq!(node.value(), -3);
    let boxed = Box::new(node);
    assert_eq!(bst::LevelIterator::new(Some(&boxed)).collect(), vec![-3]);
    assert_eq!(bst::InOrderIterator::new(Some(&boxed)).collect(), vec![-3]);
}

#[test]
fn node_converts_into_a_filled_slot() {
    let slot: Option<Box<Node>> = Node::new(9).into();
    assert!(slot.is_some());
    assert_eq!(slot.as_ref().unwrap().value(), 9);
    let again = Option::<Box<Node>>::from(Node::new(11));
    assert_eq!(again.unwrap().value(), 11);
}
