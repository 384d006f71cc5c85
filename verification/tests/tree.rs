use bst::Tree;

#[test]
fn tree_insertion_works() {
    let mut tree = Tree::new();
    tree.insert(42);
    tree.insert(2);
    tree.insert(12);
    tree.insert(62);
    tree.insert(20);
    tree.insert(40);
    //          42
    //         /  \
    //        2    62
    //         \
    //          12
    //            \
    //             20
    //               \
    //                40
    assert!(tree.root().is_some());
}

#[test]
fn tree_traversal_works() {
    let mut tree = Tree::new();
    tree.insert(8);
    tree.insert(32);
    tree.insert(64);
    tree.insert(2);
    tree.insert(128);
    tree.insert(4);
    //       8
    //      / \
    //     2   32
    //      \    \
    //       4    64
    //              \
    //              128
    assert_eq!(tree.values(), vec![8, 2, 32, 4, 64, 128]);
}

#[test]
fn tree_level_iter_works() {
    let mut tree = Tree::new();
    tree.insert(8);
    tree.insert(32);
    tree.insert(64);
    tree.insert(2);
    tree.insert(128);
    tree.insert(4);
    assert_eq!(
        tree.level_iter().collect(),
        vec![8, 2, 32, 4, 64, 128]
    );
}

#[test]
fn tree_in_ord_iter_works() {
    let mut tree = Tree::new();
    tree.insert(42);
    tree.insert(2);
    tree.insert(12);
    tree.insert(62);
    tree.insert(20);
    tree.insert(40);
    assert_eq!(
        tree.in_ord_iter().collect(),
        vec![2, 12, 20, 40, 42, 62]
    );
}
