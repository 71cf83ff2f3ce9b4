//! The AVL tree node: key, exclusively owned children, cached subtree
//! height, and the local rebalancing machinery (balance factor, height
//! update, rotations).

use vstd::prelude::*;

verus! {

/// One vertex of the tree. `height` caches the height of the subtree
/// rooted here (a leaf has height 1, an empty subtree height 0).
#[derive(Debug, PartialEq)]
pub struct AVLNode {
    pub value: u64,
    pub left: AVLTree,
    pub right: AVLTree,
    pub height: usize,
}

/// A possibly empty, exclusively owned subtree.
pub type AVLTree = Option<Box<AVLNode>>;

/// The larger of two naturals.
pub open spec fn max_nat(a: nat, b: nat) -> nat {
    if a >= b {
        a
    } else {
        b
    }
}

/// Mathematical height of a subtree: 0 for an empty subtree, otherwise
/// one more than the taller child.
pub open spec fn height_of(tree: AVLTree) -> nat
    decreases tree,
{
    match tree {
        None => 0,
        Some(node) => node.subtree_height(),
    }
}

/// The set of keys stored in a subtree.
pub open spec fn keys_of(tree: AVLTree) -> Set<u64>
    decreases tree,
{
    match tree {
        None => Set::empty(),
        Some(node) => node.keys(),
    }
}

/// The keys of a subtree in ascending order: left subtree, then the
/// node's own key, then the right subtree.
pub open spec fn inorder_of(tree: AVLTree) -> Seq<u64>
    decreases tree,
{
    match tree {
        None => Seq::empty(),
        Some(node) => node.inorder(),
    }
}

/// The cached height at the root of a subtree agrees with the
/// mathematical height of its children (nothing is said about the
/// caches deeper down, nor about order or balance).
pub open spec fn height_cached(tree: AVLTree) -> bool {
    match tree {
        None => true,
        Some(node) => node.height == node.subtree_height(),
    }
}

/// Well-formedness of a subtree: binary-search-tree order, correct
/// cached heights and the AVL balance bound, at every node.
pub open spec fn wf_tree(tree: AVLTree) -> bool
    decreases tree,
{
    match tree {
        None => true,
        Some(node) => node.wf(),
    }
}

/// A well-formed subtree in particular has its root's height cached
/// correctly.
pub proof fn lemma_wf_height_cached(tree: AVLTree)
    requires
        wf_tree(tree),
    ensures
        height_cached(tree),
{
    if tree is Some {
        assert(tree.unwrap().wf());
    }
}

impl AVLNode {
    /// Height of the subtree rooted at this node.
    pub open spec fn subtree_height(self) -> nat
        decreases self,
    {
        1 + max_nat(height_of(self.left), height_of(self.right))
    }

    /// The keys of the subtree rooted at this node.
    pub open spec fn keys(self) -> Set<u64>
        decreases self,
    {
        keys_of(self.left).union(keys_of(self.right)).insert(self.value)
    }

    /// The keys of the subtree rooted at this node, in symmetric order.
    pub open spec fn inorder(self) -> Seq<u64>
        decreases self,
    {
        inorder_of(self.left) + seq![self.value] + inorder_of(self.right)
    }

    /// Binary-search-tree order at this node alone: everything to the
    /// left is smaller, everything to the right is larger.
    pub open spec fn ordered(self) -> bool {
        &&& (forall|k: u64| keys_of(self.left).contains(k) ==> k < self.value)
        &&& (forall|k: u64| keys_of(self.right).contains(k) ==> self.value < k)
    }

    /// The AVL balance bound at this node alone.
    pub open spec fn balanced(self) -> bool {
        &&& height_of(self.left) <= height_of(self.right) + 1
        &&& height_of(self.right) <= height_of(self.left) + 1
    }

    /// Well-formedness of the subtree rooted at this node.
    pub open spec fn wf(self) -> bool
        decreases self,
    {
        &&& wf_tree(self.left)
        &&& wf_tree(self.right)
        &&& self.ordered()
        &&& self.balanced()
        &&& self.height == self.subtree_height()
    }

    /// Height of the left subtree, read from its cached value.
    fn left_height(&self) -> (h: usize)
        requires
            height_cached(self.left),
        ensures
            h == height_of(self.left),
    {
        match &self.left {
            None => 0,
            Some(node) => node.height,
        }
    }

    /// Height of the right subtree, read from its cached value.
    fn right_height(&self) -> (h: usize)
        requires
            height_cached(self.right),
        ensures
            h == height_of(self.right),
    {
        match &self.right {
            None => 0,
            Some(node) => node.height,
        }
    }

    /// Left height minus right height. The guard keeps the unsigned
    /// subtraction from wrapping; the precondition keeps the value in
    /// `i8` range (any tree that fits in memory is far below it).
    pub fn balance_factor(&self) -> (bf: i8)
        requires
            height_cached(self.left),
            height_cached(self.right),
            -128 <= height_of(self.left) - height_of(self.right) <= 127,
        ensures
            bf as int == height_of(self.left) - height_of(self.right),
    {
        let left_height = self.left_height();
        let right_height = self.right_height();

        if left_height >= right_height {
            (left_height - right_height) as i8
        } else {
            let diff: usize = right_height - left_height;
            (-(diff as i16)) as i8
        }
    }

    /// Recomputes this node's cached height from its children's cached
    /// heights. The children must already be finalized.
    pub fn update_height(&mut self)
        requires
            height_cached(old(self).left),
            height_cached(old(self).right),
            max_nat(height_of(old(self).left), height_of(old(self).right)) + 1 <= usize::MAX,
        ensures
            final(self).value == old(self).value,
            final(self).left == old(self).left,
            final(self).right == old(self).right,
            final(self).height == final(self).subtree_height(),
    {
        let left_height = self.left_height();
        let right_height = self.right_height();
        let taller: usize = if left_height >= right_height {
            left_height
        } else {
            right_height
        };
        self.height = 1 + taller;
    }

    /// Single right rotation: the left child takes this node's
    /// structural position by a value swap, so the node identity at the
    /// top stays constant; the displaced key moves into a new right
    /// child. Cached heights of the two touched nodes are recomputed,
    /// child first. In-order key order is preserved; order and balance
    /// of the result are the caller's business.
    fn rotate_right(&mut self)
        requires
            old(self).left is Some,
            height_cached(old(self).left.unwrap().left),
            height_cached(old(self).left.unwrap().right),
            height_cached(old(self).right),
            height_of(old(self).left.unwrap().left) + 1 <= usize::MAX,
            max_nat(height_of(old(self).left.unwrap().right), height_of(old(self).right)) + 2
                <= usize::MAX,
        ensures
            final(self).value == old(self).left.unwrap().value,
            final(self).left == old(self).left.unwrap().left,
            final(self).right is Some,
            ({
                let lifted = final(self).right.unwrap();
                &&& lifted.value == old(self).value
                &&& lifted.left == old(self).left.unwrap().right
                &&& lifted.right == old(self).right
                &&& lifted.height == lifted.subtree_height()
            }),
            final(self).height == final(self).subtree_height(),
            final(self).inorder() == old(self).inorder(),
            final(self).keys() == old(self).keys(),
    {
        let mut new_center = self.left.take().unwrap();
        let moved_left = new_center.left.take();
        let left_of_new_right = new_center.right.take();
        let right_tree = self.right.take();

        let displaced: u64 = self.value;
        self.value = new_center.value;
        new_center.value = displaced;

        new_center.left = left_of_new_right;
        new_center.right = right_tree;
        (&mut *new_center).update_height();

        self.left = moved_left;
        self.right = Some(new_center);
        self.update_height();

        proof {
            let center = old(self).left.unwrap();
            let lifted = self.right.unwrap();
            assert(inorder_of(self.right) == lifted.inorder());
            assert(lifted.inorder() == inorder_of(center.right) + seq![old(self).value]
                + inorder_of(old(self).right));
            assert(inorder_of(old(self).left) == center.inorder());
            assert(center.inorder() == inorder_of(center.left) + seq![center.value]
                + inorder_of(center.right));
            assert(self.inorder() =~= old(self).inorder());

            assert(keys_of(self.right) == lifted.keys());
            assert(lifted.keys() == keys_of(center.right).union(keys_of(old(self).right)).insert(
                old(self).value,
            ));
            assert(keys_of(old(self).left) == center.keys());
            assert(center.keys() == keys_of(center.left).union(keys_of(center.right)).insert(
                center.value,
            ));
            assert(self.keys() =~= old(self).keys());
        }
    }

    /// Single left rotation, the mirror image of [`Self::rotate_right`].
    fn rotate_left(&mut self)
        requires
            old(self).right is Some,
            height_cached(old(self).right.unwrap().right),
            height_cached(old(self).right.unwrap().left),
            height_cached(old(self).left),
            height_of(old(self).right.unwrap().right) + 1 <= usize::MAX,
            max_nat(height_of(old(self).right.unwrap().left), height_of(old(self).left)) + 2
                <= usize::MAX,
        ensures
            final(self).value == old(self).right.unwrap().value,
            final(self).right == old(self).right.unwrap().right,
            final(self).left is Some,
            ({
                let lowered = final(self).left.unwrap();
                &&& lowered.value == old(self).value
                &&& lowered.right == old(self).right.unwrap().left
                &&& lowered.left == old(self).left
                &&& lowered.height == lowered.subtree_height()
            }),
            final(self).height == final(self).subtree_height(),
            final(self).inorder() == old(self).inorder(),
            final(self).keys() == old(self).keys(),
    {
        let mut new_center = self.right.take().unwrap();
        let moved_right = new_center.right.take();
        let right_of_new_left = new_center.left.take();
        let left_tree = self.left.take();

        let displaced: u64 = self.value;
        self.value = new_center.value;
        new_center.value = displaced;

        new_center.right = right_of_new_left;
        new_center.left = left_tree;
        (&mut *new_center).update_height();

        self.right = moved_right;
        self.left = Some(new_center);
        self.update_height();

        proof {
            let center = old(self).right.unwrap();
            let lowered = self.left.unwrap();
            assert(inorder_of(self.left) == lowered.inorder());
            assert(lowered.inorder() == inorder_of(old(self).left) + seq![old(self).value]
                + inorder_of(center.left));
            assert(inorder_of(old(self).right) == center.inorder());
            assert(center.inorder() == inorder_of(center.left) + seq![center.value]
                + inorder_of(center.right));
            assert(self.inorder() =~= old(self).inorder());

            assert(keys_of(self.left) == lowered.keys());
            assert(lowered.keys() == keys_of(old(self).left).union(keys_of(center.left)).insert(
                old(self).value,
            ));
            assert(keys_of(old(self).right) == center.keys());
            assert(center.keys() == keys_of(center.left).union(keys_of(center.right)).insert(
                center.value,
            ));
            assert(self.keys() =~= old(self).keys());
        }
    }
    /// Restores the AVL balance bound at this node. The children must
    /// already be well formed and the imbalance at most two, which is
    /// all a single insertion or removal below this node can produce;
    /// one call therefore suffices, it never needs to loop. A node that
    /// is already balanced is left untouched; otherwise the subtree
    /// keeps its keys and its in-order sequence, and its height stays
    /// or shrinks by one.
    #[verifier::rlimit(100)]
    pub fn rebalance(&mut self)
        requires
            wf_tree(old(self).left),
            wf_tree(old(self).right),
            old(self).ordered(),
            old(self).height == old(self).subtree_height(),
            height_of(old(self).left) <= height_of(old(self).right) + 2,
            height_of(old(self).right) <= height_of(old(self).left) + 2,
            old(self).subtree_height() + 1 <= usize::MAX,
        ensures
            final(self).wf(),
            final(self).keys() == old(self).keys(),
            final(self).inorder() == old(self).inorder(),
            old(self).height - 1 <= final(self).height <= old(self).height,
            old(self).balanced() ==> *final(self) == *old(self),
    {
        proof {
            lemma_wf_height_cached(old(self).left);
            lemma_wf_height_cached(old(self).right);
        }
        let ghost low = height_of(old(self).left);
        let ghost high = height_of(old(self).right);
        let bf = self.balance_factor();
        if bf == -2 {
            proof {
                assert(high == low + 2);
                assert(self.right is Some);
            }
            let ghost pivot = old(self).right.unwrap();
            let ghost near = height_of(pivot.left);
            let ghost far = height_of(pivot.right);
            let mut right_node = self.right.take().unwrap();
            proof {
                assert(pivot.wf());
                assert(1 + max_nat(near, far) == high);
                lemma_wf_height_cached(right_node.left);
                lemma_wf_height_cached(right_node.right);
            }
            if right_node.balance_factor() == 1 {
                // The right child leans left: rotate it right first,
                // then this node left (the double-rotation case).
                proof {
                    assert(near == far + 1);
                    assert(near == low + 1 && far == low);
                    assert(pivot.left is Some);
                }
                let ghost hinge = pivot.left.unwrap();
                proof {
                    assert(hinge.wf());
                    assert(max_nat(height_of(hinge.left), height_of(hinge.right)) == low);
                    lemma_wf_height_cached(hinge.left);
                    lemma_wf_height_cached(hinge.right);
                }
                (&mut *right_node).rotate_right();
                self.right = Some(right_node);
                proof {
                    assert(self.keys() =~= old(self).keys());
                    assert(self.inorder() =~= old(self).inorder());
                    lemma_wf_height_cached(hinge.left);
                    assert(height_of(self.right.unwrap().right) == low + 1);
                }
                self.rotate_left();
                proof {
                    let lowered = self.left.unwrap();
                    let inner = self.right.unwrap();
                    assert(lowered.left == old(self).left && lowered.value == old(self).value
                        && lowered.right == hinge.left);
                    assert(inner.left == hinge.right && inner.value == pivot.value
                        && inner.right == pivot.right);
                    assert(self.value == hinge.value);
                    assert(keys_of(old(self).right) == pivot.keys());
                    assert(keys_of(pivot.left) == hinge.keys());
                    assert forall|k: u64| keys_of(hinge.left).contains(k)
                        || keys_of(hinge.right).contains(k) implies #[trigger] hinge.keys().contains(k) by {}
                    assert forall|k: u64| hinge.keys().contains(k) || keys_of(pivot.right).contains(k)
                        || k == pivot.value implies #[trigger] pivot.keys().contains(k) by {
                        assert(keys_of(pivot.left) == hinge.keys());
                    }
                    assert forall|k: u64| keys_of(lowered.right).contains(k) implies lowered.value < k by {
                        assert(hinge.keys().contains(k));
                        assert(pivot.keys().contains(k));
                    }
                    assert(lowered.wf());
                    assert forall|k: u64| keys_of(inner.left).contains(k) implies k < inner.value by {
                        assert(hinge.keys().contains(k));
                        assert(pivot.keys().contains(k));
                    }
                    assert(inner.wf());
                    assert(keys_of(pivot.left).contains(hinge.value));
                    assert forall|k: u64| keys_of(self.left).contains(k) implies k < self.value by {
                        if keys_of(old(self).left).contains(k) || k == old(self).value {
                            assert(pivot.keys().contains(hinge.value));
                        } else {
                            assert(keys_of(hinge.left).contains(k));
                        }
                    }
                    assert forall|k: u64| keys_of(self.right).contains(k) implies self.value < k by {
                        assert(keys_of(pivot.left).contains(hinge.value));
                        if keys_of(hinge.right).contains(k) {
                            assert(hinge.keys().contains(k));
                        } else if k != pivot.value {
                            assert(keys_of(pivot.right).contains(k));
                        }
                    }
                    assert(height_of(self.left) == low + 1);
                    assert(height_of(self.right) == low + 1);
                    assert(self.wf());
                    assert(old(self).height == low + 3);
                    assert(self.height == low + 2);
                }
            } else {
                // Single left rotation.
                proof {
                    assert(far == low + 1);
                    assert(low <= near <= low + 1);
                }
                self.right = Some(right_node);
                proof {
                    assert(self.keys() =~= old(self).keys());
                    assert(self.inorder() =~= old(self).inorder());
                }
                self.rotate_left();
                proof {
                    let lowered = self.left.unwrap();
                    assert(lowered.left == old(self).left && lowered.value == old(self).value
                        && lowered.right == pivot.left);
                    assert(self.value == pivot.value && self.right == pivot.right);
                    assert(keys_of(old(self).right) == pivot.keys());
                    assert forall|k: u64| keys_of(pivot.left).contains(k)
                        || keys_of(pivot.right).contains(k) implies #[trigger] pivot.keys().contains(k) by {}
                    assert forall|k: u64| keys_of(lowered.right).contains(k) implies lowered.value < k by {
                        assert(pivot.keys().contains(k));
                    }
                    assert(lowered.wf());
                    assert(pivot.keys().contains(pivot.value));
                    assert forall|k: u64| keys_of(self.left).contains(k) implies k < self.value by {
                        assert(keys_of(old(self).right).contains(pivot.value));
                        if !keys_of(old(self).left).contains(k) && k != old(self).value {
                            assert(keys_of(pivot.left).contains(k));
                        }
                    }
                    assert(height_of(self.left) == 1 + max_nat(low, near));
                    assert(height_of(self.right) == low + 1);
                    assert(self.wf());
                    assert(old(self).height == low + 3);
                    assert(low + 2 <= self.height <= low + 3);
                }
            }
        } else if bf == 2 {
            proof {
                assert(low == high + 2);
                assert(self.left is Some);
            }
            let ghost pivot = old(self).left.unwrap();
            let ghost near = height_of(pivot.right);
            let ghost far = height_of(pivot.left);
            let mut left_node = self.left.take().unwrap();
            proof {
                assert(pivot.wf());
                assert(1 + max_nat(far, near) == low);
                lemma_wf_height_cached(left_node.left);
                lemma_wf_height_cached(left_node.right);
            }
            if left_node.balance_factor() == -1 {
                // The left child leans right: rotate it left first,
                // then this node right (the double-rotation case).
                proof {
                    assert(near == far + 1);
                    assert(near == high + 1 && far == high);
                    assert(pivot.right is Some);
                }
                let ghost hinge = pivot.right.unwrap();
                proof {
                    assert(hinge.wf());
                    assert(max_nat(height_of(hinge.left), height_of(hinge.right)) == high);
                    lemma_wf_height_cached(hinge.left);
                    lemma_wf_height_cached(hinge.right);
                }
                (&mut *left_node).rotate_left();
                self.left = Some(left_node);
                proof {
                    assert(self.keys() =~= old(self).keys());
                    assert(self.inorder() =~= old(self).inorder());
                    lemma_wf_height_cached(hinge.right);
                    assert(height_of(self.left.unwrap().left) == high + 1);
                }
                self.rotate_right();
                proof {
                    let lifted = self.right.unwrap();
                    let inner = self.left.unwrap();
                    assert(lifted.right == old(self).right && lifted.value == old(self).value
                        && lifted.left == hinge.right);
                    assert(inner.right == hinge.left && inner.value == pivot.value
                        && inner.left == pivot.left);
                    assert(self.value == hinge.value);
                    assert(keys_of(old(self).left) == pivot.keys());
                    assert(keys_of(pivot.right) == hinge.keys());
                    assert forall|k: u64| keys_of(hinge.left).contains(k)
                        || keys_of(hinge.right).contains(k) implies #[trigger] hinge.keys().contains(k) by {}
                    assert forall|k: u64| hinge.keys().contains(k) || keys_of(pivot.left).contains(k)
                        || k == pivot.value implies #[trigger] pivot.keys().contains(k) by {
                        assert(keys_of(pivot.right) == hinge.keys());
                    }
                    assert forall|k: u64| keys_of(lifted.left).contains(k) implies k < lifted.value by {
                        assert(hinge.keys().contains(k));
                        assert(pivot.keys().contains(k));
                    }
                    assert(lifted.wf());
                    assert forall|k: u64| keys_of(inner.right).contains(k) implies inner.value < k by {
                        assert(hinge.keys().contains(k));
                        assert(pivot.keys().contains(k));
                    }
                    assert(inner.wf());
                    assert(keys_of(pivot.right).contains(hinge.value));
                    assert forall|k: u64| keys_of(self.right).contains(k) implies self.value < k by {
                        if keys_of(old(self).right).contains(k) || k == old(self).value {
                            assert(pivot.keys().contains(hinge.value));
                        } else {
                            assert(keys_of(hinge.right).contains(k));
                        }
                    }
                    assert forall|k: u64| keys_of(self.left).contains(k) implies k < self.value by {
                        assert(keys_of(pivot.right).contains(hinge.value));
                        if keys_of(hinge.left).contains(k) {
                            assert(hinge.keys().contains(k));
                        } else if k != pivot.value {
                            assert(keys_of(pivot.left).contains(k));
                        }
                    }
                    assert(height_of(self.right) == high + 1);
                    assert(height_of(self.left) == high + 1);
                    assert(self.wf());
                    assert(old(self).height == high + 3);
                    assert(self.height == high + 2);
                }
            } else {
                // Single right rotation.
                proof {
                    assert(far == high + 1);
                    assert(high <= near <= high + 1);
                }
                self.left = Some(left_node);
                proof {
                    assert(self.keys() =~= old(self).keys());
                    assert(self.inorder() =~= old(self).inorder());
                }
                self.rotate_right();
                proof {
                    let lifted = self.right.unwrap();
                    assert(lifted.right == old(self).right && lifted.value == old(self).value
                        && lifted.left == pivot.right);
                    assert(self.value == pivot.value && self.left == pivot.left);
                    assert(keys_of(old(self).left) == pivot.keys());
                    assert forall|k: u64| keys_of(pivot.left).contains(k)
                        || keys_of(pivot.right).contains(k) implies #[trigger] pivot.keys().contains(k) by {}
                    assert forall|k: u64| keys_of(lifted.left).contains(k) implies k < lifted.value by {
                        assert(pivot.keys().contains(k));
                    }
                    assert(lifted.wf());
                    assert(pivot.keys().contains(pivot.value));
                    assert forall|k: u64| keys_of(self.right).contains(k) implies self.value < k by {
                        assert(keys_of(old(self).left).contains(pivot.value));
                        if !keys_of(old(self).right).contains(k) && k != old(self).value {
                            assert(keys_of(pivot.right).contains(k));
                        }
                    }
                    assert(height_of(self.right) == 1 + max_nat(high, near));
                    assert(height_of(self.left) == high + 1);
                    assert(self.wf());
                    assert(old(self).height == high + 3);
                    assert(high + 2 <= self.height <= high + 3);
                }
            }
        }
    }
}

} // verus!
