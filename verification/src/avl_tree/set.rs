//! The public ordered-set container: insert, remove, lookup and
//! in-order iteration, each re-establishing the AVL invariants.

use vstd::prelude::*;
use vstd::set_lib::lemma_set_disjoint_lens;
use crate::avl_tree::tree::{
    AVLNode, AVLTree, height_of, inorder_of, keys_of, lemma_wf_height_cached, max_nat, wf_tree,
};

verus! {

/// An ordered set of `u64` keys, kept balanced by AVL rotations.
#[derive(Debug, PartialEq)]
pub struct AVLTreeSet {
    pub root: AVLTree,
}

impl View for AVLTreeSet {
    type V = Set<u64>;

    /// The mathematical set of keys the container currently holds.
    open spec fn view(&self) -> Set<u64> {
        keys_of(self.root)
    }
}

impl AVLTreeSet {
    /// Every cached height is correct, every node is AVL-balanced and
    /// the binary-search-tree order holds.
    pub open spec fn wf(self) -> bool {
        wf_tree(self.root)
    }

    /// The keys in ascending order, as produced by a full iteration.
    pub open spec fn spec_inorder(self) -> Seq<u64> {
        inorder_of(self.root)
    }

    /// Height of the whole tree. An insertion asks for one step of
    /// headroom below `usize::MAX`, far beyond any tree that fits in
    /// memory.
    pub open spec fn spec_height(self) -> nat {
        height_of(self.root)
    }

    /// Creates an empty set.
    pub fn new() -> (set: Self)
        ensures
            set.wf(),
            set@ == Set::<u64>::empty(),
            set.spec_inorder() == Seq::<u64>::empty(),
    {
        AVLTreeSet { root: None }
    }

    /// Descends to the insertion point, attaches a fresh leaf and
    /// re-establishes heights and balance bottom-up along the path.
    fn insert_into(tree: &mut AVLTree, value: u64) -> (inserted: bool)
        requires
            wf_tree(*old(tree)),
            height_of(*old(tree)) + 1 < usize::MAX,
        ensures
            wf_tree(*final(tree)),
            keys_of(*final(tree)) == keys_of(*old(tree)).insert(value),
            inserted == !keys_of(*old(tree)).contains(value),
            !inserted ==> *final(tree) == *old(tree),
            height_of(*old(tree)) <= height_of(*final(tree)) <= height_of(*old(tree)) + 1,
        decreases *old(tree),
    {
        match tree.take() {
            None => {
                *tree = Some(
                    Box::new(AVLNode { value, left: None, right: None, height: 1 }),
                );
                proof {
                    assert(keys_of(*tree) =~= keys_of(*old(tree)).insert(value));
                }
                true
            },
            Some(mut node) => {
                if value == node.value {
                    *tree = Some(node);
                    proof {
                        assert(keys_of(*tree) =~= keys_of(*old(tree)).insert(value));
                    }
                    false
                } else if value < node.value {
                    proof {
                        assert(old(tree).unwrap().wf());
                    }
                    let inserted = Self::insert_into(&mut node.left, value);
                    proof {
                        lemma_wf_height_cached(node.left);
                        lemma_wf_height_cached(node.right);
                        assert(old(tree).unwrap().wf());
                        assert(height_of(*old(tree)) == 1 + max_nat(
                            height_of(old(tree).unwrap().left),
                            height_of(old(tree).unwrap().right),
                        ));
                    }
                    (&mut *node).update_height();
                    proof {
                        assert forall|k: u64| keys_of(node.left).contains(k) implies k
                            < node.value by {
                            if k != value {
                                assert(keys_of(old(tree).unwrap().left).contains(k));
                            }
                        }
                    }
                    (&mut *node).rebalance();
                    *tree = Some(node);
                    proof {
                        assert(!keys_of(old(tree).unwrap().right).contains(value));
                        assert(keys_of(*tree) =~= keys_of(*old(tree)).insert(value));
                        if !inserted {
                            assert(*tree =~= *old(tree));
                        }
                    }
                    inserted
                } else {
                    proof {
                        assert(old(tree).unwrap().wf());
                    }
                    let inserted = Self::insert_into(&mut node.right, value);
                    proof {
                        lemma_wf_height_cached(node.left);
                        lemma_wf_height_cached(node.right);
                        assert(old(tree).unwrap().wf());
                        assert(height_of(*old(tree)) == 1 + max_nat(
                            height_of(old(tree).unwrap().left),
                            height_of(old(tree).unwrap().right),
                        ));
                    }
                    (&mut *node).update_height();
                    proof {
                        assert forall|k: u64| keys_of(node.right).contains(k) implies node.value
                            < k by {
                            if k != value {
                                assert(keys_of(old(tree).unwrap().right).contains(k));
                            }
                        }
                    }
                    (&mut *node).rebalance();
                    *tree = Some(node);
                    proof {
                        assert(!keys_of(old(tree).unwrap().left).contains(value));
                        assert(keys_of(*tree) =~= keys_of(*old(tree)).insert(value));
                        if !inserted {
                            assert(*tree =~= *old(tree));
                        }
                    }
                    inserted
                }
            },
        }
    }

    /// Adds `value` to the set. Returns `false`, and leaves the tree
    /// untouched, when the key is already present; duplicates are
    /// never stored.
    pub fn insert(&mut self, value: u64) -> (inserted: bool)
        requires
            old(self).wf(),
            old(self).spec_height() + 1 < usize::MAX,
        ensures
            final(self).wf(),
            final(self)@ == old(self)@.insert(value),
            inserted == !old(self)@.contains(value),
            !inserted ==> *final(self) == *old(self),
            final(self).spec_height() <= old(self).spec_height() + 1,
    {
        Self::insert_into(&mut self.root, value)
    }

    /// Removes and returns the smallest key of a non-empty subtree,
    /// re-balancing the path it descended.
    fn take_min(tree: &mut AVLTree) -> (min: u64)
        requires
            *old(tree) is Some,
            wf_tree(*old(tree)),
            height_of(*old(tree)) + 1 <= usize::MAX,
        ensures
            wf_tree(*final(tree)),
            keys_of(*old(tree)).contains(min),
            keys_of(*final(tree)) == keys_of(*old(tree)).remove(min),
            forall|k: u64| keys_of(*old(tree)).contains(k) ==> min <= k,
            height_of(*old(tree)) - 1 <= height_of(*final(tree)) <= height_of(*old(tree)),
        decreases *old(tree),
    {
        let mut node = tree.take().unwrap();
        proof {
            assert(old(tree).unwrap().wf());
            assert(height_of(*old(tree)) == 1 + max_nat(
                height_of(old(tree).unwrap().left),
                height_of(old(tree).unwrap().right),
            ));
        }
        if node.left.is_none() {
            let min = node.value;
            *tree = node.right;
            proof {
                assert(keys_of(*old(tree)) == old(tree).unwrap().keys());
                assert(keys_of(old(tree).unwrap().left) =~= Set::<u64>::empty());
                assert(!keys_of(old(tree).unwrap().right).contains(min));
                assert(keys_of(*tree) =~= keys_of(*old(tree)).remove(min));
                assert forall|k: u64| keys_of(*old(tree)).contains(k) implies min <= k by {
                    if k != min {
                        assert(keys_of(old(tree).unwrap().right).contains(k));
                    }
                }
            }
            min
        } else {
            let min = Self::take_min(&mut node.left);
            proof {
                lemma_wf_height_cached(node.left);
                lemma_wf_height_cached(node.right);
                assert(keys_of(old(tree).unwrap().left).contains(min));
            }
            (&mut *node).update_height();
            proof {
                assert forall|k: u64| keys_of(node.left).contains(k) implies k < node.value by {
                    assert(keys_of(old(tree).unwrap().left).contains(k));
                }
            }
            (&mut *node).rebalance();
            *tree = Some(node);
            proof {
                assert(min < old(tree).unwrap().value);
                assert(!keys_of(old(tree).unwrap().right).contains(min));
                assert(keys_of(*tree) =~= keys_of(*old(tree)).remove(min));
                assert forall|k: u64| keys_of(*old(tree)).contains(k) implies min <= k by {
                    if k != min && !keys_of(old(tree).unwrap().left).contains(k) {
                        if k != old(tree).unwrap().value {
                            assert(keys_of(old(tree).unwrap().right).contains(k));
                        }
                    }
                }
            }
            min
        }
    }

    /// Descends to `value`, removes its node (replacing a two-child
    /// node's key by its in-order successor) and re-establishes
    /// heights and balance bottom-up along the path.
    fn remove_from(tree: &mut AVLTree, value: u64) -> (removed: bool)
        requires
            wf_tree(*old(tree)),
            height_of(*old(tree)) + 1 <= usize::MAX,
        ensures
            wf_tree(*final(tree)),
            keys_of(*final(tree)) == keys_of(*old(tree)).remove(value),
            removed == keys_of(*old(tree)).contains(value),
            !removed ==> *final(tree) == *old(tree),
            height_of(*old(tree)) - 1 <= height_of(*final(tree)) <= height_of(*old(tree)),
        decreases *old(tree),
    {
        match tree.take() {
            None => {
                proof {
                    assert(keys_of(*tree) =~= keys_of(*old(tree)).remove(value));
                }
                false
            },
            Some(mut node) => {
                proof {
                    assert(old(tree).unwrap().wf());
                    assert(height_of(*old(tree)) == 1 + max_nat(
                        height_of(old(tree).unwrap().left),
                        height_of(old(tree).unwrap().right),
                    ));
                }
                if value < node.value {
                    let removed = Self::remove_from(&mut node.left, value);
                    proof {
                        lemma_wf_height_cached(node.left);
                        lemma_wf_height_cached(node.right);
                    }
                    (&mut *node).update_height();
                    proof {
                        assert forall|k: u64| keys_of(node.left).contains(k) implies k
                            < node.value by {
                            assert(keys_of(old(tree).unwrap().left).contains(k));
                        }
                    }
                    (&mut *node).rebalance();
                    *tree = Some(node);
                    proof {
                        assert(!keys_of(old(tree).unwrap().right).contains(value));
                        assert(keys_of(*tree) =~= keys_of(*old(tree)).remove(value));
                        if !removed {
                            assert(*tree =~= *old(tree));
                        }
                    }
                    removed
                } else if value > node.value {
                    let removed = Self::remove_from(&mut node.right, value);
                    proof {
                        lemma_wf_height_cached(node.left);
                        lemma_wf_height_cached(node.right);
                    }
                    (&mut *node).update_height();
                    proof {
                        assert forall|k: u64| keys_of(node.right).contains(k) implies node.value
                            < k by {
                            assert(keys_of(old(tree).unwrap().right).contains(k));
                        }
                    }
                    (&mut *node).rebalance();
                    *tree = Some(node);
                    proof {
                        assert(!keys_of(old(tree).unwrap().left).contains(value));
                        assert(keys_of(*tree) =~= keys_of(*old(tree)).remove(value));
                        if !removed {
                            assert(*tree =~= *old(tree));
                        }
                    }
                    removed
                } else {
                    if node.left.is_none() {
                        *tree = node.right;
                        proof {
                            assert(keys_of(*old(tree)) == old(tree).unwrap().keys());
                            assert(keys_of(old(tree).unwrap().left) =~= Set::<u64>::empty());
                            assert(!keys_of(old(tree).unwrap().right).contains(value));
                            assert(keys_of(*tree) =~= keys_of(*old(tree)).remove(value));
                        }
                    } else if node.right.is_none() {
                        *tree = node.left;
                        proof {
                            assert(keys_of(*old(tree)) == old(tree).unwrap().keys());
                            assert(keys_of(old(tree).unwrap().right) =~= Set::<u64>::empty());
                            assert(!keys_of(old(tree).unwrap().left).contains(value));
                            assert(keys_of(*tree) =~= keys_of(*old(tree)).remove(value));
                        }
                    } else {
                        let successor = Self::take_min(&mut node.right);
                        node.value = successor;
                        proof {
                            lemma_wf_height_cached(node.left);
                            lemma_wf_height_cached(node.right);
                            assert(keys_of(old(tree).unwrap().right).contains(successor));
                            assert(value < successor);
                        }
                        (&mut *node).update_height();
                        proof {
                            assert forall|k: u64| keys_of(node.left).contains(k) implies k
                                < node.value by {
                                assert(keys_of(old(tree).unwrap().left).contains(k));
                            }
                            assert forall|k: u64| keys_of(node.right).contains(k) implies node.value
                                < k by {
                                assert(keys_of(old(tree).unwrap().right).contains(k));
                            }
                        }
                        (&mut *node).rebalance();
                        *tree = Some(node);
                        proof {
                            assert(!keys_of(old(tree).unwrap().left).contains(value));
                            assert(keys_of(*tree) =~= keys_of(*old(tree)).remove(value));
                        }
                    }
                    true
                }
            },
        }
    }

    /// Removes `value` from the set, handing the removed key back;
    /// `None` when it was not there, and the tree is then untouched.
    pub fn take(&mut self, value: &u64) -> (taken: Option<u64>)
        requires
            old(self).wf(),
            old(self).spec_height() + 1 <= usize::MAX,
        ensures
            final(self).wf(),
            final(self)@ == old(self)@.remove(*value),
            taken == if old(self)@.contains(*value) {
                Some(*value)
            } else {
                None::<u64>
            },
            !old(self)@.contains(*value) ==> *final(self) == *old(self),
    {
        let removed = Self::remove_from(&mut self.root, *value);
        if removed {
            Some(*value)
        } else {
            None
        }
    }

    /// Removes `value` from the set; `false` when it was not there.
    pub fn remove(&mut self, value: &u64) -> (removed: bool)
        requires
            old(self).wf(),
            old(self).spec_height() + 1 <= usize::MAX,
        ensures
            final(self).wf(),
            final(self)@ == old(self)@.remove(*value),
            removed == old(self)@.contains(*value),
            !removed ==> *final(self) == *old(self),
    {
        self.take(value).is_some()
    }

    /// Pure binary-search descent.
    fn get_in(tree: &AVLTree, value: u64) -> (found: Option<&u64>)
        requires
            wf_tree(*tree),
        ensures
            found is Some <==> keys_of(*tree).contains(value),
            found is Some ==> *found.unwrap() == value,
        decreases *tree,
    {
        match tree {
            None => None,
            Some(node) => {
                if value == node.value {
                    Some(&node.value)
                } else if value < node.value {
                    proof {
                        assert(!keys_of(node.right).contains(value));
                    }
                    Self::get_in(&node.left, value)
                } else {
                    proof {
                        assert(!keys_of(node.left).contains(value));
                    }
                    Self::get_in(&node.right, value)
                }
            },
        }
    }

    /// Looks `value` up and hands back a reference to the stored key.
    pub fn get(&self, value: &u64) -> (found: Option<&u64>)
        requires
            self.wf(),
        ensures
            found is Some <==> self@.contains(*value),
            found is Some ==> *found.unwrap() == *value,
    {
        Self::get_in(&self.root, *value)
    }

    /// True exactly when `value` is in the set.
    pub fn contains(&self, value: &u64) -> (present: bool)
        requires
            self.wf(),
        ensures
            present == self@.contains(*value),
    {
        self.get(value).is_some()
    }

    /// Starts a fresh in-order traversal: the iterator walks the keys
    /// in ascending order without touching the set, so any number of
    /// independent traversals can be started.
    pub fn iter<'a>(&'a self) -> (it: AVLTreeSetIter<'a>)
        ensures
            it.remaining() == self.spec_inorder(),
    {
        let it = AVLTreeSetIter { prev_nodes: Vec::new(), current_tree: &self.root };
        proof {
            assert(it.remaining() =~= self.spec_inorder());
        }
        it
    }

    /// Builds a set from an arbitrary sequence of keys by repeated
    /// insertion; duplicates are silently dropped, so the first
    /// occurrence of a key wins.
    pub fn from_iter(keys: &Vec<u64>) -> (set: Self)
        requires
            keys@.len() + 1 < usize::MAX,
        ensures
            set.wf(),
            forall|k: u64| set@.contains(k) <==> keys@.contains(k),
    {
        let mut set = Self::new();
        let mut i: usize = 0;
        while i < keys.len()
            invariant
                i <= keys@.len(),
                keys@.len() + 1 < usize::MAX,
                set.wf(),
                set.spec_height() <= i,
                forall|k: u64| set@.contains(k) <==> keys@.subrange(0, i as int).contains(k),
            decreases keys@.len() - i,
        {
            let ghost prefix = keys@.subrange(0, i as int);
            set.insert(keys[i]);
            i = i + 1;
            proof {
                assert(keys@.subrange(0, i as int) =~= prefix.push(keys@[i - 1]));
                assert forall|k: u64| keys@.subrange(0, i as int).contains(k) implies set@.contains(
                    k,
                ) by {
                    if k != keys@[i - 1] {
                        assert(prefix.contains(k));
                    }
                }
                assert forall|k: u64| set@.contains(k) implies keys@.subrange(
                    0,
                    i as int,
                ).contains(k) by {
                    if k != keys@[i - 1] {
                        assert(prefix.contains(k));
                        let j = choose|j: int| 0 <= j < prefix.len() && prefix[j] == k;
                        assert(keys@.subrange(0, i as int)[j] == k);
                    } else {
                        assert(keys@.subrange(0, i as int)[i - 1] == k);
                    }
                }
            }
        }
        proof {
            assert(keys@.subrange(0, keys@.len() as int) =~= keys@);
        }
        set
    }
}

impl Default for AVLTreeSet {
    /// An empty set.
    fn default() -> (set: Self)
        ensures
            set.wf(),
            set@ == Set::<u64>::empty(),
    {
        AVLTreeSet { root: None }
    }
}

/// A stateful in-order traversal over a borrowed tree: an explicit
/// stack of the nodes whose own key and right subtree are still
/// pending, and the subtree the walk currently descends into.
#[derive(Debug)]
pub struct AVLTreeSetIter<'a> {
    prev_nodes: Vec<&'a AVLNode>,
    current_tree: &'a AVLTree,
}

impl<'a> AVLTreeSetIter<'a> {
    /// The keys the pending nodes still owe: for each stacked node,
    /// nearest first, its own key followed by its right subtree.
    pub closed spec fn pending(stack: Seq<&'a AVLNode>) -> Seq<u64>
        decreases stack.len(),
    {
        if stack.len() == 0 {
            Seq::empty()
        } else {
            seq![stack.last().value] + inorder_of(stack.last().right) + Self::pending(
                stack.drop_last(),
            )
        }
    }

    /// The keys the traversal has not yet produced.
    pub closed spec fn remaining(self) -> Seq<u64> {
        inorder_of(*self.current_tree) + Self::pending(self.prev_nodes@)
    }

    /// Produces the next key in ascending order, `None` once the
    /// traversal is complete. Descends along left children, stacking
    /// each passed node; a popped node hands out its key and then its
    /// right subtree.
    pub fn next(&mut self) -> (item: Option<u64>)
        ensures
            old(self).remaining().len() == 0 ==> item is None && final(self).remaining() == old(
                self,
            ).remaining(),
            old(self).remaining().len() > 0 ==> item == Some(old(self).remaining()[0])
                && final(self).remaining() == old(self).remaining().skip(1),
    {
        loop
            invariant
                self.remaining() == old(self).remaining(),
            decreases inorder_of(*self.current_tree).len(),
        {
            match self.current_tree {
                None => {
                    match self.prev_nodes.pop() {
                        None => {
                            proof {
                                assert(self.prev_nodes@.len() == 0);
                                assert(*self.current_tree is None);
                                assert(inorder_of(*self.current_tree) == Seq::<u64>::empty());
                                assert(Self::pending(self.prev_nodes@) == Seq::<u64>::empty());
                                assert(self.remaining() =~= Seq::<u64>::empty());
                            }
                            return None;
                        },
                        Some(prev_node) => {
                            proof {
                                let pushed = self.prev_nodes@.push(prev_node);
                                assert(pushed.drop_last() =~= self.prev_nodes@);
                                assert(pushed.last() == prev_node);
                                assert(Self::pending(pushed) == seq![prev_node.value]
                                    + inorder_of(prev_node.right) + Self::pending(
                                    self.prev_nodes@,
                                ));
                            }
                            self.current_tree = &prev_node.right;
                            proof {
                                assert(old(self).remaining()[0] == prev_node.value);
                                assert(self.remaining() =~= old(self).remaining().skip(1));
                            }
                            return Some(prev_node.value);
                        },
                    }
                },
                Some(current_node) => {
                    let ghost before = *self;
                    if current_node.left.is_some() {
                        self.prev_nodes.push(&**current_node);
                        self.current_tree = &current_node.left;
                        proof {
                            let pushed = before.prev_nodes@.push(&**current_node);
                            assert(pushed.drop_last() =~= before.prev_nodes@);
                            assert(pushed.last() == &**current_node);
                            assert(Self::pending(pushed) == seq![current_node.value] + inorder_of(
                                current_node.right,
                            ) + Self::pending(before.prev_nodes@));
                            assert(self.remaining() =~= before.remaining());
                        }
                    } else {
                        self.current_tree = &current_node.right;
                        proof {
                            assert(inorder_of(before.current_tree.unwrap().left)
                                =~= Seq::<u64>::empty());
                            assert(before.remaining()[0] == current_node.value);
                            assert(self.remaining() =~= before.remaining().skip(1));
                        }
                        return Some(current_node.value);
                    }
                },
            }
        }
    }
}

/// In-order iteration of a well-formed tree yields strictly ascending
/// keys with no duplicates, and exactly the keys the set holds.
pub proof fn lemma_inorder_sorted(set: AVLTreeSet)
    requires
        set.wf(),
    ensures
        forall|i: int, j: int|
            0 <= i < j < set.spec_inorder().len() ==> set.spec_inorder()[i]
                < set.spec_inorder()[j],
        forall|i: int|
            0 <= i < set.spec_inorder().len() ==> set@.contains(#[trigger] set.spec_inorder()[i]),
        forall|k: u64| set@.contains(k) ==> set.spec_inorder().contains(k),
{
    lemma_tree_inorder_sorted(set.root);
}

/// The number of keys a full iteration produces equals the
/// cardinality of the set: the number of successful insertions minus
/// the number of successful removals.
pub proof fn lemma_iter_count(set: AVLTreeSet)
    requires
        set.wf(),
    ensures
        set@.finite(),
        set.spec_inorder().len() == set@.len(),
{
    lemma_tree_inorder_count(set.root);
}

/// Induction behind [`lemma_inorder_sorted`].
proof fn lemma_tree_inorder_sorted(tree: AVLTree)
    requires
        wf_tree(tree),
    ensures
        forall|i: int, j: int|
            0 <= i < j < inorder_of(tree).len() ==> inorder_of(tree)[i] < inorder_of(tree)[j],
        forall|i: int|
            0 <= i < inorder_of(tree).len() ==> keys_of(tree).contains(
                #[trigger] inorder_of(tree)[i],
            ),
        forall|k: u64| keys_of(tree).contains(k) ==> inorder_of(tree).contains(k),
    decreases tree,
{
    if tree is Some {
        let node = tree.unwrap();
        assert(node.wf());
        lemma_tree_inorder_sorted(node.left);
        lemma_tree_inorder_sorted(node.right);
        let left = inorder_of(node.left);
        let right = inorder_of(node.right);
        let whole = inorder_of(tree);
        assert(whole == left + seq![node.value] + right);
        assert forall|i: int|
            0 <= i < whole.len() implies keys_of(tree).contains(#[trigger] whole[i]) by {
            if i < left.len() {
                assert(whole[i] == left[i]);
            } else if i == left.len() {
                assert(whole[i] == node.value);
            } else {
                assert(whole[i] == right[i - left.len() - 1]);
            }
        }
        assert forall|i: int, j: int|
            0 <= i < j < whole.len() implies whole[i] < whole[j] by {
            if j < left.len() {
            } else if i < left.len() {
                assert(keys_of(node.left).contains(left[i]));
                if j > left.len() {
                    assert(keys_of(node.right).contains(right[j - left.len() - 1]));
                }
            } else if i == left.len() {
                assert(keys_of(node.right).contains(right[j - left.len() - 1]));
            } else {
                assert(whole[i] == right[i - left.len() - 1]);
                assert(whole[j] == right[j - left.len() - 1]);
            }
        }
        assert forall|k: u64| keys_of(tree).contains(k) implies whole.contains(k) by {
            if keys_of(node.left).contains(k) {
                let i = choose|i: int| 0 <= i < left.len() && left[i] == k;
                assert(whole[i] == k);
            } else if k == node.value {
                assert(whole[left.len() as int] == k);
            } else {
                assert(keys_of(node.right).contains(k));
                let i = choose|i: int| 0 <= i < right.len() && right[i] == k;
                assert(whole[left.len() + 1 + i] == k);
            }
        }
    }
}

/// Induction behind [`lemma_iter_count`].
proof fn lemma_tree_inorder_count(tree: AVLTree)
    requires
        wf_tree(tree),
    ensures
        keys_of(tree).finite(),
        inorder_of(tree).len() == keys_of(tree).len(),
    decreases tree,
{
    if tree is Some {
        let node = tree.unwrap();
        assert(node.wf());
        lemma_tree_inorder_count(node.left);
        lemma_tree_inorder_count(node.right);
        let united = keys_of(node.left) + keys_of(node.right);
        assert(keys_of(node.left).disjoint(keys_of(node.right)));
        lemma_set_disjoint_lens(keys_of(node.left), keys_of(node.right));
        assert(keys_of(tree) =~= united.insert(node.value));
        assert(!united.contains(node.value));
        assert(united.insert(node.value).len() == united.len() + 1);
    }
}

} // verus!
