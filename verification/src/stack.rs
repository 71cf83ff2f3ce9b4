//! A last-in-first-out stack with push, pop, membership and iteration.

use vstd::prelude::*;
use crate::linked_list::LinkedList;

verus! {

/// A stack built from nodes: the top node and the cached depth.
#[derive(Debug)]
pub struct Stack {
    first: Link,
    size: i32,
}

/// A link between nodes.
type Link = Option<Box<Node>>;

/// One node: the stored value and the link to the node below it.
#[derive(Debug)]
struct Node {
    next: Link,
    value: u64,
}

/// The values a chain of nodes holds, top first.
spec fn seq_of(link: Link) -> Seq<u64>
    decreases link,
{
    match link {
        None => Seq::empty(),
        Some(node) => seq![node.value] + seq_of(node.next),
    }
}

impl Node {
    /// The values of the chain starting at this node.
    spec fn seq(self) -> Seq<u64>
        decreases self,
    {
        seq![self.value] + seq_of(self.next)
    }

    /// A node holding `value` with nothing below it.
    fn new(value: u64) -> (node: Self)
        ensures
            node.seq() == seq![value],
    {
        let node = Node { next: None, value };
        proof {
            assert(node.seq() =~= seq![value]);
        }
        node
    }

    /// True exactly when the chain below this node holds `value`.
    fn contains(&self, value: u64) -> (present: bool)
        ensures
            present == seq_of(self.next).contains(value),
        decreases *self,
    {
        match &self.next {
            Some(node) => {
                if node.value == value {
                    proof {
                        assert(seq_of(self.next)[0] == value);
                    }
                    true
                } else {
                    let present = node.contains(value);
                    proof {
                        if seq_of(node.next).contains(value) {
                            let i = choose|i: int|
                                0 <= i < seq_of(node.next).len() && seq_of(node.next)[i] == value;
                            assert(seq_of(self.next)[i + 1] == value);
                        }
                        if seq_of(self.next).contains(value) {
                            let i = choose|i: int|
                                0 <= i < seq_of(self.next).len() && seq_of(self.next)[i] == value;
                            assert(seq_of(node.next)[i - 1] == value);
                        }
                    }
                    present
                }
            },
            None => false,
        }
    }
}

impl View for Stack {
    type V = Seq<u64>;

    /// The mathematical sequence of values, top of the stack first.
    closed spec fn view(&self) -> Seq<u64> {
        seq_of(self.first)
    }
}

impl Stack {
    /// The cached depth agrees with the chain and stays within `i32`.
    pub closed spec fn wf(self) -> bool {
        self.size == self@.len()
    }

    /// Creates a new, empty stack.
    pub fn new() -> (stack: Self)
        ensures
            stack.wf(),
            stack@ == Seq::<u64>::empty(),
    {
        Stack { first: None, size: 0 }
    }

    /// Puts `elem` on top of the stack.
    pub fn push(&mut self, elem: u64)
        requires
            old(self).wf(),
            old(self)@.len() < i32::MAX,
        ensures
            final(self).wf(),
            final(self)@ == seq![elem] + old(self)@,
    {
        if self.is_empty() {
            self.first = Some(Box::new(Node::new(elem)));
            self.size = self.size + 1;
            proof {
                assert(self@ =~= seq![elem] + old(self)@);
            }
        } else {
            let mut new_node = Box::new(Node::new(elem));
            new_node.next = self.first.take();
            self.first = Some(new_node);
            self.size = self.size + 1;
            proof {
                assert(self@ =~= seq![elem] + old(self)@);
            }
        }
    }

    /// The depth of the stack.
    pub fn size(&self) -> (depth: i32)
        requires
            self.wf(),
        ensures
            depth == self@.len(),
    {
        self.size
    }

    /// True exactly when the stack holds `value`.
    pub fn contains(&self, value: u64) -> (present: bool)
        ensures
            present == self@.contains(value),
    {
        match &self.first {
            None => false,
            Some(first) => {
                if first.value == value {
                    proof {
                        assert(self@[0] == value);
                    }
                    true
                } else {
                    let present = first.contains(value);
                    proof {
                        if seq_of(first.next).contains(value) {
                            let i = choose|i: int|
                                0 <= i < seq_of(first.next).len() && seq_of(first.next)[i]
                                    == value;
                            assert(self@[i + 1] == value);
                        }
                        if self@.contains(value) {
                            let i = choose|i: int| 0 <= i < self@.len() && self@[i] == value;
                            assert(seq_of(first.next)[i - 1] == value);
                        }
                    }
                    present
                }
            },
        }
    }

    /// Takes the most recently pushed value off the stack.
    pub fn pop(&mut self) -> (popped: Option<u64>)
        requires
            old(self).wf(),
        ensures
            final(self).wf(),
            old(self)@.len() == 0 ==> popped is None && *final(self) == *old(self),
            old(self)@.len() > 0 ==> popped == Some(old(self)@[0]) && final(self)@ == old(
                self,
            )@.skip(1),
    {
        if self.is_empty() {
            None
        } else {
            let mut old_head = self.first.take();
            self.first = old_head.as_mut().unwrap().next.take();
            self.size = self.size - 1;
            proof {
                assert(self@ =~= old(self)@.skip(1));
            }
            Some(old_head.unwrap().value)
        }
    }

    /// True exactly when the stack holds nothing.
    pub fn is_empty(&self) -> (empty: bool)
        ensures
            empty == (self@.len() == 0),
    {
        self.first.is_none()
    }

    /// Starts a fresh traversal over the values, top of the stack
    /// first.
    pub fn iter<'a>(&'a self) -> (it: Iter<'a>)
        ensures
            it.remaining() == self@,
    {
        Iter { head: &self.first }
    }

    /// Consumes the stack into an owning iterator over its values,
    /// top first.
    pub fn into_iter(self) -> (it: IntoIter)
        requires
            self.wf(),
        ensures
            it.wf(),
            it.remaining() == self@,
    {
        IntoIter { stack: self }
    }

    /// Builds a stack by pushing the list's values front to back, so
    /// the list's last value ends on top.
    pub fn from(list: LinkedList) -> (stack: Self)
        requires
            list.wf(),
            list@.len() <= i32::MAX,
        ensures
            stack.wf(),
            stack@ == list@.reverse(),
    {
        let ghost whole = list@;
        let mut source = list;
        let mut stack = Stack::new();
        let ghost mut taken: int = 0;
        proof {
            assert(source@ =~= whole.skip(0));
            assert(stack@ =~= whole.take(0).reverse());
        }
        loop
            invariant
                source.wf(),
                stack.wf(),
                whole.len() <= i32::MAX,
                0 <= taken <= whole.len(),
                source@ == whole.skip(taken),
                stack@ == whole.take(taken).reverse(),
            ensures
                stack.wf(),
                stack@ == whole.reverse(),
            decreases source@.len(),
        {
            match source.pop_front() {
                None => {
                    proof {
                        assert(whole.skip(taken).len() == 0);
                        assert(taken == whole.len());
                        assert(whole.take(whole.len() as int) =~= whole);
                    }
                    break ;
                },
                Some(value) => {
                    proof {
                        assert(whole.take(taken).reverse().len() == taken);
                        assert(value == whole[taken]);
                    }
                    stack.push(value);
                    proof {
                        assert(source@ =~= whole.skip(taken + 1));
                        assert(stack@ =~= whole.take(taken + 1).reverse());
                        taken = taken + 1;
                    }
                },
            }
        }
        stack
    }
}

impl Default for Stack {
    /// An empty stack.
    fn default() -> (stack: Self)
        ensures
            stack.wf(),
            stack@ == Seq::<u64>::empty(),
    {
        Stack::new()
    }
}

/// A borrowed traversal over a stack's values, top first: the link
/// the walk stands at.
#[derive(Debug)]
pub struct Iter<'a> {
    head: &'a Link,
}

impl<'a> Iter<'a> {
    /// The values the traversal has not yet produced.
    pub closed spec fn remaining(self) -> Seq<u64> {
        seq_of(*self.head)
    }

    /// Produces the next value, `None` once the traversal is done.
    pub fn next(&mut self) -> (item: Option<u64>)
        ensures
            old(self).remaining().len() == 0 ==> item is None && *final(self) == *old(self),
            old(self).remaining().len() > 0 ==> item == Some(old(self).remaining()[0])
                && final(self).remaining() == old(self).remaining().skip(1),
    {
        match self.head {
            None => None,
            Some(node) => {
                self.head = &node.next;
                proof {
                    assert(self.remaining() =~= old(self).remaining().skip(1));
                }
                Some(node.value)
            },
        }
    }

    /// How many values the traversal has still to produce, counted by
    /// walking the rest of the chain.
    pub fn count(self) -> (n: usize)
        requires
            self.remaining().len() <= usize::MAX,
        ensures
            n == self.remaining().len(),
    {
        let ghost whole = self.remaining();
        let mut walk = self;
        let mut n: usize = 0;
        loop
            invariant
                whole.len() <= usize::MAX,
                n + walk.remaining().len() == whole.len(),
            ensures
                n == whole.len(),
            decreases walk.remaining().len(),
        {
            match walk.next() {
                Some(_) => {
                    n = n + 1;
                },
                None => {
                    break ;
                },
            }
        }
        n
    }
}

/// An owning traversal over a stack's values, top first.
#[derive(Debug)]
pub struct IntoIter {
    pub stack: Stack,
}

impl IntoIter {
    /// The inner stack stays consistent.
    pub open spec fn wf(self) -> bool {
        self.stack.wf()
    }

    /// The values the traversal has not yet produced.
    pub open spec fn remaining(self) -> Seq<u64> {
        self.stack@
    }

    /// Produces the next value, `None` once the traversal is done.
    pub fn next(&mut self) -> (item: Option<u64>)
        requires
            old(self).wf(),
        ensures
            final(self).wf(),
            old(self).remaining().len() == 0 ==> item is None,
            old(self).remaining().len() > 0 ==> item == Some(old(self).remaining()[0])
                && final(self).remaining() == old(self).remaining().skip(1),
    {
        self.stack.pop()
    }
}

} // verus!
