use bintree::BinaryTree;

fn check_has(tree: &BinaryTree<i32>, exp: &[bool]) {
    let got: Vec<bool> = (0..exp.len()).map(|i| tree.has(&(i as i32))).collect();
    assert_eq!(&got, exp);
}

#[test]
fn len() {
    let mut tree = BinaryTree::new();
    assert_eq!(tree.len(), 0);
    tree.insert(2);
    assert_eq!(tree.len(), 1);
    tree.insert(1);
    assert_eq!(tree.len(), 2);
    tree.insert(2); // not a unique item
    assert_eq!(tree.len(), 2);
}

#[test]
fn has() {
    let mut tree = BinaryTree::new();
    check_has(&tree, &[false, false, false, false, false]);
    tree.insert(0);
    check_has(&tree, &[true, false, false, false, false]);
    tree.insert(4);
    check_has(&tree, &[true, false, false, false, true]);
    tree.insert(4);
    check_has(&tree, &[true, false, false, false, true]);
    tree.insert(3);
    check_has(&tree, &[true, false, false, true, true]);
}

#[test]
fn unbalanced() {
    let mut tree = BinaryTree::new();
    for i in 0..100 {
        tree.insert(i);
    }
    assert_eq!(tree.len(), 100);
    assert!(tree.has(&50));
}

#[test]
fn new_tree_is_empty() {
    let tree: BinaryTree<i32> = BinaryTree::new();
    assert_eq!(tree.len(), 0);
    assert!(!tree.has(&0));
}

#[test]
fn len_counts_distinct_values() {
    let mut tree = BinaryTree::new();
    for v in [5, 3, 5, 9, 3, 3, 1, 9] {
        tree.insert(v);
    }
    assert_eq!(tree.len(), 4);
}

#[test]
fn values_never_inserted_are_absent() {
    let mut tree = BinaryTree::new();
    for v in [10, -4, 7, 22] {
        tree.insert(v);
    }
    for v in [0, 1, -5, 8, 21, 23, i32::MIN, i32::MAX] {
        assert!(!tree.has(&v));
    }
}

#[test]
fn reinserted_values_are_present() {
    let mut tree = BinaryTree::new();
    for v in [8, 8, 2, 8, 13, 2] {
        tree.insert(v);
    }
    for v in [8, 2, 13] {
        assert!(tree.has(&v));
    }
}

#[test]
fn inserting_twice_matches_inserting_once() {
    let mut once = BinaryTree::new();
    let mut twice = BinaryTree::new();
    for v in [3, 1, 4] {
        once.insert(v);
        twice.insert(v);
    }
    once.insert(6);
    twice.insert(6);
    twice.insert(6);
    assert_eq!(once.len(), twice.len());
    for v in 0..8 {
        assert_eq!(once.has(&v), twice.has(&v));
    }
}

#[test]
fn descending_inserts_are_all_found() {
    let mut tree = BinaryTree::new();
    for i in (0..100).rev() {
        tree.insert(i);
    }
    assert_eq!(tree.len(), 100);
    for i in 0..100 {
        assert!(tree.has(&i));
    }
    assert!(!tree.has(&100));
}

#[test]
fn extreme_values_are_stored() {
    let mut tree = BinaryTree::new();
    tree.insert(i32::MAX);
    tree.insert(i32::MIN);
    tree.insert(0);
    assert_eq!(tree.len(), 3);
    assert!(tree.has(&i32::MAX));
    assert!(tree.has(&i32::MIN));
}

#[test]
fn string_values_form_a_set() {
    let mut tree = BinaryTree::new();
    for w in ["pear", "apple", "fig", "apple"] {
        tree.insert(String::from(w));
    }
    assert_eq!(tree.len(), 3);
    assert!(tree.has(&String::from("fig")));
    assert!(!tree.has(&String::from("plum")));
}
