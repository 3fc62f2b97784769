use algos::binary_tree::BinaryTree;
use algos::bst::BST;

#[test]
fn bst_basic_test() {
    let mut bst = BST::new();
    bst.insert(8, 'e');
    bst.insert(6, 'c');
    bst.insert(7, 'd');
    bst.insert(5, 'b');
    bst.insert(10, 'g');
    bst.insert(9, 'f');
    bst.insert(11, 'h');
    bst.insert(4, 'a');

    println!("bst is empty: {:?}", bst.is_empty());
    println!("bst size: {}", bst.size());
    println!("bst leaves: {}", bst.leaf_size());
    println!("bst internals: {}", bst.none_leaf_size());
    println!("bst depth: {}", bst.depth());

    let min_kv = bst.min();
    let max_kv = bst.max();
    println!("min key-val: {:?}-{:?}", min_kv.0, min_kv.1);
    println!("max key-val: {:?}-{:?}", max_kv.0, max_kv.1);

    println!("bst contains 5: {}", bst.contains(&5));
    println!("key: 5, val: {:?}", bst.get(&5).unwrap());
}

#[test]
fn bst_counts_and_extremes() {
    let mut bst = BST::new();
    bst.insert(8, 'e');
    bst.insert(6, 'c');
    bst.insert(7, 'd');
    bst.insert(5, 'b');
    bst.insert(10, 'g');
    bst.insert(9, 'f');
    bst.insert(11, 'h');
    bst.insert(4, 'a');

    assert!(!bst.is_empty());
    assert_eq!(bst.size(), 8);
    assert_eq!(bst.leaf_size(), 4);
    assert_eq!(bst.none_leaf_size(), 4);
    assert_eq!(bst.depth(), 4);
    assert_eq!(bst.min(), (Some(&4), Some(&'a')));
    assert_eq!(bst.max(), (Some(&11), Some(&'h')));
    assert!(bst.contains(&5));
    assert!(!bst.contains(&12));
    assert_eq!(bst.get(&5), Some(&'b'));
    assert_eq!(bst.get(&12), None);
}

#[test]
fn bst_overwrites_in_place() {
    let mut bst = BST::new();
    bst.insert(3, "three");
    bst.insert(1, "one");
    bst.insert(4, "four");
    bst.insert(3, "newer three");
    assert_eq!(bst.size(), 3);
    assert_eq!(bst.get(&3), Some(&"newer three"));
}

#[test]
fn bst_empty_tree() {
    let bst: BST<char> = BST::new();
    assert!(bst.is_empty());
    assert_eq!(bst.size(), 0);
    assert_eq!(bst.depth(), 0);
    assert_eq!(bst.min(), (None, None));
    assert_eq!(bst.max(), (None, None));
}

#[test]
fn binary_tree_basic_test() {
    let mut bt = BinaryTree::new(10);
    let root = bt.get_key();
    println!("root key: {:?}", root);

    bt.set_key(11);
    let root = bt.get_key();
    println!("root key: {:?}", root);

    bt.insert_left_tree(2);
    bt.insert_right_tree(18);
    println!("left child: {:?}", bt.get_left());
    println!("right child: {:?}", bt.get_right());

    println!("min key: {:?}", bt.min());
    println!("max key: {:?}", bt.max());

    println!("tree noes: {}", bt.size());
    println!("tree leaves: {}", bt.leaf_size());
    println!("tree internals: {}", bt.none_leaf_size());
    println!("tree depth: {}", bt.depth());
    println!("tree contains '2', {}", bt.contains(&2));
}

#[test]
fn binary_tree_counts() {
    let mut bt = BinaryTree::new(10);
    bt.set_key(11);
    bt.insert_left_tree(2);
    bt.insert_right_tree(18);
    assert_eq!(bt.get_key(), 11);
    assert_eq!(bt.min(), Some(&2));
    assert_eq!(bt.max(), Some(&18));
    assert_eq!(bt.size(), 3);
    assert_eq!(bt.leaf_size(), 2);
    assert_eq!(bt.none_leaf_size(), 1);
    assert_eq!(bt.depth(), 2);
    assert!(bt.contains(&2));
    assert!(bt.contains(&18));
}
