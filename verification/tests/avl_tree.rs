use data_structures::avl_tree::set::AVLTreeSet;
use data_structures::avl_tree::tree::{AVLNode, AVLTree};
use rand::seq::SliceRandom;
use std::collections::BTreeSet;

/// Recomputes the height of a subtree from scratch.
fn height(tree: &AVLTree) -> usize {
    match tree {
        None => 0,
        Some(node) => 1 + height(&node.left).max(height(&node.right)),
    }
}

/// Checks the AVL invariants of a subtree by walking it: cached
/// heights correct, every balance factor in {-1, 0, 1}, search order.
fn check_invariants(tree: &AVLTree, lo: Option<u64>, hi: Option<u64>) {
    if let Some(node) = tree {
        if let Some(lo) = lo {
            assert!(lo < node.value);
        }
        if let Some(hi) = hi {
            assert!(node.value < hi);
        }
        let lh = height(&node.left);
        let rh = height(&node.right);
        assert_eq!(node.height, 1 + lh.max(rh));
        assert!(lh.max(rh) - lh.min(rh) <= 1);
        check_invariants(&node.left, lo, Some(node.value));
        check_invariants(&node.right, Some(node.value), hi);
    }
}

fn collect(set: &AVLTreeSet) -> Vec<u64> {
    let mut out = Vec::new();
    let mut it = set.iter();
    while let Some(v) = it.next() {
        out.push(v);
    }
    out
}

#[test]
fn avl_tree_test_insert() {
    let mut set = AVLTreeSet::new();

    assert!(set.insert(1)); // Insert new value
    assert!(!set.insert(1)); // Should not insert existing value

    assert!(set.insert(2)); // Insert another new value
    assert_eq!(
        // Checking the tree structure
        set.root,
        Some(Box::new(AVLNode {
            value: 1,
            left: None,
            right: Some(Box::new(AVLNode {
                value: 2,
                left: None,
                right: None,
                height: 1,
            })),
            height: 2,
        }))
    );
}

#[test]
fn small_iter_test() {
    let mut set = AVLTreeSet::new();

    for i in (1..4u64).rev() {
        set.insert(i);
    }

    let mut iter = set.iter();
    assert_eq!(iter.next(), Some(1));
    assert_eq!(iter.next(), Some(2));
    assert_eq!(iter.next(), Some(3));
    assert_eq!(iter.next(), None);
}

#[test]
fn test_avl_insert_and_remove_basic() {
    let mut tree = AVLTreeSet::new();
    tree.insert(50);
    tree.insert(70);
    tree.insert(90);
    assert_eq!(tree.insert(90), false);
    assert_eq!(tree.contains(&50), true);
    assert_eq!(tree.contains(&70), true);
    assert_eq!(tree.contains(&90), true);
    tree.remove(&70);
    assert_eq!(tree.contains(&70), false);
    assert_eq!(tree.get(&50).unwrap(), &50);
    assert_eq!(tree.root.unwrap().value, 90);
}

#[test]
fn test_insert_randomly() {
    let avl = AVLTreeSet::from_iter(&(1..50u64).collect::<Vec<u64>>());
    let btree = (1..50u64).collect::<BTreeSet<u64>>();

    let mut it = avl.iter();
    for b in btree.iter() {
        assert_eq!(it.next(), Some(*b));
    }
    assert_eq!(it.next(), None);
}

#[test]
fn test_delete_somehow_randomly() {
    let mut avl = AVLTreeSet::from_iter(&(1..100u64).collect::<Vec<u64>>());
    let mut btree = (1..100u64).collect::<BTreeSet<u64>>();

    avl.remove(&45);
    avl.remove(&12);
    avl.remove(&36);
    avl.remove(&73);
    avl.remove(&75);
    avl.remove(&80);

    btree.remove(&45);
    btree.remove(&12);
    btree.remove(&36);
    btree.remove(&73);
    btree.remove(&75);
    btree.remove(&80);

    assert_eq!(avl.contains(&90), true);
    assert_eq!(avl.get(&90).unwrap(), &90);

    let mut it = avl.iter();
    for b in btree.iter() {
        assert_eq!(it.next(), Some(*b));
    }
    assert_eq!(it.next(), None);
}

#[test]
fn set_test_insert() {
    let mut avl = AVLTreeSet::new();
    let mut btree = BTreeSet::new();

    avl.insert(10);
    avl.insert(9);
    avl.insert(4);

    btree.insert(10u64);
    btree.insert(9);
    btree.insert(4);

    let mut it = avl.iter();
    for b in btree.iter() {
        assert_eq!(it.next(), Some(*b));
    }
    assert_eq!(it.next(), None);
}

#[test]
fn truly_random_insert() {
    let mut vec: Vec<u64> = (0..10000).collect();
    vec.shuffle(&mut rand::rng());
    let avl = AVLTreeSet::from_iter(&vec);
    let btree = vec.iter().cloned().collect::<BTreeSet<u64>>();

    let mut it = avl.iter();
    for b in btree.iter() {
        assert_eq!(it.next(), Some(*b));
    }
    assert_eq!(it.next(), None);
}

#[test]
fn random_remove() {
    let mut vec: Vec<u64> = (0..100000).collect();
    vec.shuffle(&mut rand::rng());
    let mut avl = AVLTreeSet::from_iter(&vec);
    let mut btree = vec.iter().cloned().collect::<BTreeSet<u64>>();

    let mut remove: Vec<u64> = (0..10000).collect();
    remove.shuffle(&mut rand::rng());
    for item in remove.iter() {
        avl.remove(item);
        btree.remove(item);
    }

    let mut it = avl.iter();
    for b in btree.iter() {
        assert_eq!(it.next(), Some(*b));
    }
    assert_eq!(it.next(), None);
}

#[test]
fn invariants_hold_after_every_operation() {
    // A deterministic mixed sequence of insertions and removals; after
    // each step the walked tree must satisfy order, height and balance
    // invariants, and iteration must be strictly ascending.
    let mut set = AVLTreeSet::new();
    let mut state: u64 = 9;
    for step in 0..400u64 {
        state = state.wrapping_mul(6364136223846793005).wrapping_add(1442695040888963407);
        let key = state % 64;
        if step % 3 == 2 {
            set.remove(&key);
        } else {
            set.insert(key);
        }
        check_invariants(&set.root, None, None);
        let keys = collect(&set);
        for pair in keys.windows(2) {
            assert!(pair[0] < pair[1]);
        }
    }
}

#[test]
fn membership_follows_inserts_and_removes() {
    let mut set = AVLTreeSet::new();
    assert!(!set.contains(&3));
    set.insert(3);
    assert!(set.contains(&3));
    set.insert(8);
    set.remove(&3);
    assert!(!set.contains(&3));
    assert!(set.contains(&8));
}

#[test]
fn iteration_count_tracks_successful_operations() {
    let mut set = AVLTreeSet::new();
    let mut expected: usize = 0;
    for key in [5u64, 1, 9, 5, 1, 7] {
        if set.insert(key) {
            expected += 1;
        }
    }
    assert_eq!(collect(&set).len(), expected);
    if set.remove(&5) {
        expected -= 1;
    }
    // 6 was never inserted: remove reports false and changes nothing.
    if set.remove(&6) {
        expected -= 1;
    }
    assert_eq!(collect(&set).len(), expected);
    assert_eq!(expected, 3);
}

#[test]
fn duplicate_insert_keeps_sequence() {
    let mut set = AVLTreeSet::new();
    for key in [4u64, 2, 6, 1, 3] {
        set.insert(key);
    }
    let before = collect(&set);
    assert_eq!(set.insert(4), false);
    assert_eq!(collect(&set), before);
}

#[test]
fn differential_oracle_mixed_operations() {
    // The same pseudo-random operation sequence against the standard
    // ordered set; the in-order sequences must agree after every step.
    let mut avl = AVLTreeSet::new();
    let mut oracle = BTreeSet::new();
    let mut state: u64 = 42;
    for step in 0..300u64 {
        state = state.wrapping_mul(2862933555777941757).wrapping_add(3037000493);
        let key = state % 48;
        if step % 5 == 4 {
            assert_eq!(avl.remove(&key), oracle.remove(&key));
        } else {
            assert_eq!(avl.insert(key), oracle.insert(key));
        }
        let got = collect(&avl);
        let want: Vec<u64> = oracle.iter().cloned().collect();
        assert_eq!(got, want);
    }
}

#[test]
fn two_child_removal_promotes_successor() {
    // Insert 1..=7 ascending: the balanced tree's root is 4 with two
    // children. Removing it promotes its in-order successor, 5, and
    // the tree stays height-balanced.
    let mut set = AVLTreeSet::new();
    for key in 1..=7u64 {
        set.insert(key);
    }
    assert_eq!(set.root.as_ref().unwrap().value, 4);
    set.remove(&4);
    assert_eq!(set.root.as_ref().unwrap().value, 5);
    check_invariants(&set.root, None, None);
    assert_eq!(collect(&set), vec![1, 2, 3, 5, 6, 7]);
}

#[test]
fn left_heavy_insert_triggers_right_rotation() {
    let mut set = AVLTreeSet::new();
    set.insert(10);
    set.insert(9);
    set.insert(4);
    assert_eq!(set.root.as_ref().unwrap().value, 9);
    assert_eq!(collect(&set), vec![4, 9, 10]);
}

#[test]
fn from_iter_drops_duplicates() {
    let set = AVLTreeSet::from_iter(&vec![3, 1, 3, 2, 1]);
    assert_eq!(collect(&set), vec![1, 2, 3]);
}

#[test]
fn empty_set_behaviour() {
    let mut set = AVLTreeSet::new();
    assert!(!set.contains(&0));
    assert_eq!(set.get(&0), None);
    assert_eq!(set.take(&0), None);
    assert_eq!(set.remove(&0), false);
    let mut it = set.iter();
    assert_eq!(it.next(), None);
}

#[test]
fn take_returns_the_stored_key() {
    let mut set = AVLTreeSet::new();
    set.insert(11);
    set.insert(22);
    assert_eq!(set.take(&11), Some(11));
    assert_eq!(set.take(&11), None);
    assert!(set.contains(&22));
}
