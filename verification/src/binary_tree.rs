//! A plain (unbalanced) binary search tree: insertion, lookup and the
//! three classic traversals.

use vstd::prelude::*;

verus! {

/// A binary search tree holding a root link.
#[derive(Debug)]
pub struct BinaryTree {
    pub head: Link,
}

/// A link between nodes.
pub type Link = Option<Box<Node>>;

/// One vertex: the stored value and the two owned subtrees.
#[derive(Debug, PartialEq)]
pub struct Node {
    pub left: Link,
    pub right: Link,
    pub value: u64,
}

/// The set of values stored in a subtree.
pub open spec fn keys_of(link: Link) -> Set<u64>
    decreases link,
{
    match link {
        None => Set::empty(),
        Some(node) => node.keys(),
    }
}

/// The values of a subtree in symmetric order: left, root, right.
pub open spec fn inorder_of(link: Link) -> Seq<u64>
    decreases link,
{
    match link {
        None => Seq::empty(),
        Some(node) => node.in_seq(),
    }
}

/// The values of a subtree root first: root, left, right.
pub open spec fn preorder_of(link: Link) -> Seq<u64>
    decreases link,
{
    match link {
        None => Seq::empty(),
        Some(node) => node.pre_seq(),
    }
}

/// The values of a subtree root last: left, right, root.
pub open spec fn postorder_of(link: Link) -> Seq<u64>
    decreases link,
{
    match link {
        None => Seq::empty(),
        Some(node) => node.post_seq(),
    }
}

/// Binary-search-tree order at every node, no duplicates.
pub open spec fn wf_tree(link: Link) -> bool
    decreases link,
{
    match link {
        None => true,
        Some(node) => node.wf(),
    }
}

impl Node {
    /// The set of values of the subtree rooted here.
    pub open spec fn keys(self) -> Set<u64>
        decreases self,
    {
        keys_of(self.left).union(keys_of(self.right)).insert(self.value)
    }

    /// Symmetric-order values of the subtree rooted here.
    pub open spec fn in_seq(self) -> Seq<u64>
        decreases self,
    {
        inorder_of(self.left) + seq![self.value] + inorder_of(self.right)
    }

    /// Root-first values of the subtree rooted here.
    pub open spec fn pre_seq(self) -> Seq<u64>
        decreases self,
    {
        seq![self.value] + preorder_of(self.left) + preorder_of(self.right)
    }

    /// Root-last values of the subtree rooted here.
    pub open spec fn post_seq(self) -> Seq<u64>
        decreases self,
    {
        postorder_of(self.left) + postorder_of(self.right) + seq![self.value]
    }

    /// Binary-search-tree order of the subtree rooted here.
    pub open spec fn wf(self) -> bool
        decreases self,
    {
        &&& wf_tree(self.left)
        &&& wf_tree(self.right)
        &&& (forall|k: u64| keys_of(self.left).contains(k) ==> k < self.value)
        &&& (forall|k: u64| keys_of(self.right).contains(k) ==> self.value < k)
    }

    /// A leaf holding `value`.
    pub fn new(value: u64) -> (node: Self)
        ensures
            node.wf(),
            node.keys() == Set::<u64>::empty().insert(value),
    {
        let node = Node { left: None, right: None, value };
        proof {
            assert(node.keys() =~= Set::<u64>::empty().insert(value));
        }
        node
    }

    /// Inserts `value` below this node, keeping the search order;
    /// returns `false`, with the subtree untouched, on a duplicate.
    pub fn insert(&mut self, value: u64) -> (inserted: bool)
        requires
            old(self).wf(),
        ensures
            final(self).wf(),
            final(self).keys() == old(self).keys().insert(value),
            inserted == !old(self).keys().contains(value),
            !inserted ==> *final(self) == *old(self),
        decreases *old(self),
    {
        if value == self.value {
            proof {
                assert(self.keys() =~= old(self).keys().insert(value));
            }
            false
        } else if value < self.value {
            match self.left.take() {
                Some(mut node) => {
                    let inserted = (&mut *node).insert(value);
                    self.left = Some(node);
                    proof {
                        assert forall|k: u64| keys_of(self.left).contains(k) implies k
                            < self.value by {
                            if k != value {
                                assert(keys_of(old(self).left).contains(k));
                            }
                        }
                        assert(!keys_of(old(self).right).contains(value));
                        assert(self.keys() =~= old(self).keys().insert(value));
                        if !inserted {
                            assert(*self =~= *old(self));
                        }
                    }
                    inserted
                },
                None => {
                    self.left = Some(Box::new(Node::new(value)));
                    proof {
                        assert forall|k: u64| keys_of(self.left).contains(k) implies k
                            < self.value by {}
                        assert(!keys_of(old(self).right).contains(value));
                        assert(self.keys() =~= old(self).keys().insert(value));
                    }
                    true
                },
            }
        } else {
            match self.right.take() {
                Some(mut node) => {
                    let inserted = (&mut *node).insert(value);
                    self.right = Some(node);
                    proof {
                        assert forall|k: u64| keys_of(self.right).contains(k) implies self.value
                            < k by {
                            if k != value {
                                assert(keys_of(old(self).right).contains(k));
                            }
                        }
                        assert(!keys_of(old(self).left).contains(value));
                        assert(self.keys() =~= old(self).keys().insert(value));
                        if !inserted {
                            assert(*self =~= *old(self));
                        }
                    }
                    inserted
                },
                None => {
                    self.right = Some(Box::new(Node::new(value)));
                    proof {
                        assert forall|k: u64| keys_of(self.right).contains(k) implies self.value
                            < k by {}
                        assert(!keys_of(old(self).left).contains(value));
                        assert(self.keys() =~= old(self).keys().insert(value));
                    }
                    true
                },
            }
        }
    }

    /// Binary-search descent for `value`.
    fn find(&self, value: u64) -> (present: bool)
        requires
            self.wf(),
        ensures
            present == self.keys().contains(value),
        decreases *self,
    {
        if value == self.value {
            true
        } else if value > self.value {
            proof {
                assert(!keys_of(self.left).contains(value));
            }
            match self.right.as_ref() {
                Some(node) => node.find(value),
                None => false,
            }
        } else {
            proof {
                assert(!keys_of(self.right).contains(value));
            }
            match self.left.as_ref() {
                Some(node) => node.find(value),
                None => false,
            }
        }
    }

    /// The symmetric-order traversal of the subtree rooted here.
    pub fn inorder(&self) -> (r: Vec<u64>)
        requires
            self.in_seq().len() <= usize::MAX,
        ensures
            r@ == self.in_seq(),
    {
        let mut out = Vec::new();
        push_inorder(self, &mut out);
        out
    }

    /// The root-last traversal of the subtree rooted here.
    pub fn postorder(&self) -> (r: Vec<u64>)
        requires
            self.post_seq().len() <= usize::MAX,
        ensures
            r@ == self.post_seq(),
    {
        let mut out = Vec::new();
        push_postorder(self, &mut out);
        out
    }

    /// The root-first traversal of the subtree rooted here.
    pub fn preorder(&self) -> (r: Vec<u64>)
        requires
            self.pre_seq().len() <= usize::MAX,
        ensures
            r@ == self.pre_seq(),
    {
        let mut out = Vec::new();
        push_preorder(self, &mut out);
        out
    }
}

/// Appends the symmetric-order traversal of `node` to `out`.
fn push_inorder(node: &Node, out: &mut Vec<u64>)
    requires
        old(out)@.len() + node.in_seq().len() <= usize::MAX,
    ensures
        final(out)@ == old(out)@ + node.in_seq(),
    decreases *node,
{
    match &node.left {
        Some(child) => push_inorder(child, out),
        None => (),
    }
    out.push(node.value);
    match &node.right {
        Some(child) => push_inorder(child, out),
        None => (),
    }
    proof {
        assert(out@ =~= old(out)@ + node.in_seq());
    }
}

/// Appends the root-last traversal of `node` to `out`.
fn push_postorder(node: &Node, out: &mut Vec<u64>)
    requires
        old(out)@.len() + node.post_seq().len() <= usize::MAX,
    ensures
        final(out)@ == old(out)@ + node.post_seq(),
    decreases *node,
{
    match &node.left {
        Some(child) => push_postorder(child, out),
        None => (),
    }
    match &node.right {
        Some(child) => push_postorder(child, out),
        None => (),
    }
    out.push(node.value);
    proof {
        assert(out@ =~= old(out)@ + node.post_seq());
    }
}

/// Appends the root-first traversal of `node` to `out`.
fn push_preorder(node: &Node, out: &mut Vec<u64>)
    requires
        old(out)@.len() + node.pre_seq().len() <= usize::MAX,
    ensures
        final(out)@ == old(out)@ + node.pre_seq(),
    decreases *node,
{
    out.push(node.value);
    match &node.left {
        Some(child) => push_preorder(child, out),
        None => (),
    }
    match &node.right {
        Some(child) => push_preorder(child, out),
        None => (),
    }
    proof {
        assert(out@ =~= old(out)@ + node.pre_seq());
    }
}

impl View for BinaryTree {
    type V = Set<u64>;

    /// The mathematical set of values the tree currently holds.
    open spec fn view(&self) -> Set<u64> {
        keys_of(self.head)
    }
}

impl BinaryTree {
    /// The binary-search-tree order holds everywhere.
    pub open spec fn wf(self) -> bool {
        wf_tree(self.head)
    }

    /// Root-first order of the whole tree, as the iterator walks it.
    pub open spec fn spec_preorder(self) -> Seq<u64> {
        preorder_of(self.head)
    }

    /// Creates a new, empty tree.
    pub fn new() -> (tree: Self)
        ensures
            tree.wf(),
            tree@ == Set::<u64>::empty(),
    {
        BinaryTree { head: None }
    }

    /// Inserts a new element, keeping the tree ordered; returns
    /// `false`, with the tree untouched, on a duplicate.
    pub fn insert(&mut self, value: u64) -> (inserted: bool)
        requires
            old(self).wf(),
        ensures
            final(self).wf(),
            final(self)@ == old(self)@.insert(value),
            inserted == !old(self)@.contains(value),
            !inserted ==> *final(self) == *old(self),
    {
        match self.head.take() {
            None => {
                self.head = Some(Box::new(Node::new(value)));
                proof {
                    assert(self@ =~= old(self)@.insert(value));
                }
                true
            },
            Some(mut node) => {
                let inserted = (&mut *node).insert(value);
                self.head = Some(node);
                inserted
            },
        }
    }

    /// Checks if the tree is empty.
    pub fn is_empty(&self) -> (empty: bool)
        ensures
            empty == (self@ =~= Set::<u64>::empty()),
    {
        proof {
            if self.head is Some {
                assert(self@.contains(self.head.unwrap().value));
            }
        }
        self.head.is_none()
    }

    /// True exactly when the tree holds `value`.
    pub fn find(&self, value: u64) -> (present: bool)
        requires
            self.wf(),
        ensures
            present == self@.contains(value),
    {
        match self.head.as_ref() {
            Some(node) => node.find(value),
            None => false,
        }
    }

    /// The values in ascending (symmetric) order.
    pub fn inorder(&self) -> (r: Vec<u64>)
        requires
            inorder_of(self.head).len() <= usize::MAX,
        ensures
            r@ == inorder_of(self.head),
    {
        match &self.head {
            Some(node) => node.inorder(),
            None => Vec::new(),
        }
    }

    /// The values in root-first order.
    pub fn preorder(&self) -> (r: Vec<u64>)
        requires
            preorder_of(self.head).len() <= usize::MAX,
        ensures
            r@ == preorder_of(self.head),
    {
        match &self.head {
            Some(node) => node.preorder(),
            None => Vec::new(),
        }
    }

    /// The values in root-last order.
    pub fn postorder(&self) -> (r: Vec<u64>)
        requires
            postorder_of(self.head).len() <= usize::MAX,
        ensures
            r@ == postorder_of(self.head),
    {
        match &self.head {
            Some(node) => node.postorder(),
            None => Vec::new(),
        }
    }

    /// Starts a fresh traversal over the values in root-first order.
    pub fn iter<'a>(&'a self) -> (it: Iter<'a>)
        ensures
            it.remaining() == self.spec_preorder(),
    {
        let mut visited: Vec<&'a Node> = Vec::new();
        match &self.head {
            Some(root) => {
                visited.push(&**root);
            },
            None => (),
        }
        let it = Iter { visited };
        proof {
            if self.head is Some {
                let stacked = it.visited@;
                assert(stacked.drop_last() =~= Seq::<&'a Node>::empty());
                assert(Iter::pending(stacked) == self.head.unwrap().pre_seq() + Iter::pending(
                    stacked.drop_last(),
                ));
            }
            assert(it.remaining() =~= self.spec_preorder());
        }
        it
    }
}

/// A traversal over a borrowed tree's values in root-first order: an
/// explicit stack of the subtree roots that are still to be visited,
/// nearest on top.
#[derive(Debug)]
pub struct Iter<'a> {
    visited: Vec<&'a Node>,
}

impl<'a> Iter<'a> {
    /// The values the stacked subtrees still owe, top of the stack
    /// first.
    pub closed spec fn pending(stack: Seq<&'a Node>) -> Seq<u64>
        decreases stack.len(),
    {
        if stack.len() == 0 {
            Seq::empty()
        } else {
            stack.last().pre_seq() + Self::pending(stack.drop_last())
        }
    }

    /// The values the traversal has not yet produced.
    pub closed spec fn remaining(self) -> Seq<u64> {
        Self::pending(self.visited@)
    }

    /// Produces the next value in root-first order, `None` once the
    /// traversal is done: pops the nearest subtree, hands out its root
    /// and stacks its children, right below left.
    pub fn next(&mut self) -> (item: Option<u64>)
        ensures
            old(self).remaining().len() == 0 ==> item is None && final(self).remaining() == old(
                self,
            ).remaining(),
            old(self).remaining().len() > 0 ==> item == Some(old(self).remaining()[0])
                && final(self).remaining() == old(self).remaining().skip(1),
    {
        match self.visited.pop() {
            None => {
                proof {
                    assert(old(self).remaining() == self.remaining());
                }
                None
            },
            Some(node) => {
                let ghost rest = self.visited@;
                proof {
                    assert(rest.push(node).drop_last() =~= rest);
                    assert(rest.push(node).last() == node);
                    assert(old(self).remaining() == node.pre_seq() + Self::pending(rest));
                }
                match (&node.left, &node.right) {
                    (None, None) => {
                        proof {
                            assert(preorder_of(node.left) =~= Seq::<u64>::empty());
                            assert(preorder_of(node.right) =~= Seq::<u64>::empty());
                        }
                    },
                    (Some(left), None) => {
                        self.visited.push(&**left);
                        proof {
                            let pushed = rest.push(&**left);
                            assert(pushed.drop_last() =~= rest);
                            assert(pushed.last() == &**left);
                            assert(Self::pending(pushed) == left.pre_seq() + Self::pending(rest));
                            assert(preorder_of(node.left) == left.pre_seq());
                            assert(preorder_of(node.right) =~= Seq::<u64>::empty());
                        }
                    },
                    (None, Some(right)) => {
                        self.visited.push(&**right);
                        proof {
                            let pushed = rest.push(&**right);
                            assert(pushed.drop_last() =~= rest);
                            assert(pushed.last() == &**right);
                            assert(Self::pending(pushed) == right.pre_seq() + Self::pending(
                                rest,
                            ));
                            assert(preorder_of(node.right) == right.pre_seq());
                            assert(preorder_of(node.left) =~= Seq::<u64>::empty());
                        }
                    },
                    (Some(left), Some(right)) => {
                        self.visited.push(&**right);
                        self.visited.push(&**left);
                        proof {
                            let with_right = rest.push(&**right);
                            let with_both = with_right.push(&**left);
                            assert(with_right.drop_last() =~= rest);
                            assert(with_right.last() == &**right);
                            assert(with_both.drop_last() =~= with_right);
                            assert(with_both.last() == &**left);
                            assert(Self::pending(with_right) == right.pre_seq() + Self::pending(
                                rest,
                            ));
                            assert(Self::pending(with_both) == left.pre_seq() + Self::pending(
                                with_right,
                            ));
                            assert(preorder_of(node.left) == left.pre_seq());
                            assert(preorder_of(node.right) == right.pre_seq());
                        }
                    },
                }
                proof {
                    assert(self.remaining() =~= old(self).remaining().skip(1));
                }
                Some(node.value)
            },
        }
    }

    /// How many values the traversal has still to produce, counted by
    /// walking them.
    pub fn count(self) -> (n: usize)
        requires
            self.remaining().len() <= usize::MAX,
        ensures
            n == self.remaining().len(),
    {
        let ghost whole = self.remaining();
        let mut walk = self;
        let mut n: usize = 0;
        loop
            invariant
                whole.len() <= usize::MAX,
                n + walk.remaining().len() == whole.len(),
            ensures
                n == whole.len(),
            decreases walk.remaining().len(),
        {
            match walk.next() {
                Some(_) => {
                    n = n + 1;
                },
                None => {
                    break ;
                },
            }
        }
        n
    }
}

} // verus!
