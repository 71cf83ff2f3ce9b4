use data_structures::binary_tree::BinaryTree;

#[test]
fn binary_tree_test_insert() {
    let mut sut = BinaryTree::new();
    assert!(sut.insert(42));
    assert!(sut.insert(41));
    assert!(sut.insert(43));
}

#[test]
fn test_traversal() {
    let mut sut = BinaryTree::new();
    sut.insert(10);
    sut.insert(8);
    sut.insert(11);
    sut.insert(9);
    sut.insert(12);

    assert_eq!(sut.inorder(), vec![8, 9, 10, 11, 12]);
    assert_eq!(sut.preorder(), vec![10, 8, 9, 11, 12]);
    assert_eq!(sut.postorder(), vec![9, 8, 12, 11, 10]);
}

#[test]
fn test_find() {
    let mut sut = BinaryTree::new();
    sut.insert(10);
    sut.insert(8);
    sut.insert(11);
    sut.insert(9);
    sut.insert(12);

    assert!(sut.find(10));
    assert!(sut.find(8));
    assert!(sut.find(11));
    assert!(sut.find(9));
    assert!(sut.find(12));
}

#[test]
fn binary_tree_test_iter_count() {
    let mut sut = BinaryTree::new();
    sut.insert(10);
    sut.insert(8);
    sut.insert(11);
    sut.insert(9);
    sut.insert(12);

    assert_eq!(sut.iter().count(), 5);
}

#[test]
fn test_iter_elementwise() {
    let mut sut = BinaryTree::new();
    sut.insert(10);
    sut.insert(8);
    sut.insert(11);
    sut.insert(9);
    sut.insert(12);

    let mut iter = sut.iter();
    assert_eq!(iter.next(), Some(10));
    assert_eq!(iter.next(), Some(8));
    assert_eq!(iter.next(), Some(9));
    assert_eq!(iter.next(), Some(11));
    assert_eq!(iter.next(), Some(12));
}

#[test]
fn duplicate_insert_reports_false() {
    let mut sut = BinaryTree::new();
    assert!(sut.insert(5));
    assert!(!sut.insert(5));
    assert_eq!(sut.inorder(), vec![5]);
}

#[test]
fn empty_tree_behaviour() {
    let sut = BinaryTree::new();
    assert!(sut.is_empty());
    assert!(!sut.find(1));
    assert_eq!(sut.inorder(), Vec::<u64>::new());
    assert_eq!(sut.preorder(), Vec::<u64>::new());
    assert_eq!(sut.postorder(), Vec::<u64>::new());
    let mut it = sut.iter();
    assert_eq!(it.next(), None);
}
