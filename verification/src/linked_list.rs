//! A singly linked list with append, indexed removal, membership,
//! merge sort and iteration.

use vstd::prelude::*;
use vstd::seq_lib::group_to_multiset_ensures;
use vstd::seq_lib::lemma_multiset_commutative;

verus! {

broadcast use group_to_multiset_ensures;

/// A linked list built from nodes: a head link and the cached length.
#[derive(Debug, PartialEq)]
pub struct LinkedList {
    pub head: Link,
    pub len: usize,
}

/// A link between nodes.
pub type Link = Option<Box<Node>>;

/// One node: the stored value and the link to the next node.
#[derive(Debug, PartialEq)]
pub struct Node {
    pub next: Link,
    pub value: u64,
}

/// The values a chain of nodes holds, front first.
pub open spec fn seq_of(link: Link) -> Seq<u64>
    decreases link,
{
    match link {
        None => Seq::empty(),
        Some(node) => seq![node.value] + seq_of(node.next),
    }
}

/// Non-decreasing order.
pub open spec fn sorted_seq(s: Seq<u64>) -> bool {
    forall|i: int, j: int| 0 <= i < j < s.len() ==> s[i] <= s[j]
}

impl View for LinkedList {
    type V = Seq<u64>;

    /// The mathematical sequence of values, front first.
    open spec fn view(&self) -> Seq<u64> {
        seq_of(self.head)
    }
}

impl Node {
    /// The values of the chain starting at this node.
    pub open spec fn seq(self) -> Seq<u64>
        decreases self,
    {
        seq![self.value] + seq_of(self.next)
    }

    /// A node holding `value` and no successor.
    fn new(value: u64) -> (node: Self)
        ensures
            node.seq() == seq![value],
    {
        let node = Node { next: None, value };
        proof {
            assert(node.seq() =~= seq![value]);
        }
        node
    }

    /// Appends `val` at the back of the chain.
    fn append(&mut self, val: u64) -> (appended: bool)
        ensures
            appended,
            final(self).seq() == old(self).seq().push(val),
        decreases *old(self),
    {
        match self.next.take() {
            None => {
                self.next = Some(Box::new(Node::new(val)));
                proof {
                    assert(self.seq() =~= old(self).seq().push(val));
                }
                true
            },
            Some(mut node) => {
                let appended = (&mut *node).append(val);
                self.next = Some(node);
                proof {
                    assert(self.seq() =~= old(self).seq().push(val));
                }
                appended
            },
        }
    }

    /// True exactly when the chain holds `val`.
    fn contains(&self, val: u64) -> (present: bool)
        ensures
            present == self.seq().contains(val),
        decreases *self,
    {
        if val == self.value {
            proof {
                assert(self.seq()[0] == val);
            }
            true
        } else {
            match &self.next {
                Some(node) => {
                    let present = node.contains(val);
                    proof {
                        if seq_of(self.next).contains(val) {
                            let i = choose|i: int|
                                0 <= i < seq_of(self.next).len() && seq_of(self.next)[i] == val;
                            assert(self.seq()[i + 1] == val);
                        }
                        if self.seq().contains(val) {
                            let i = choose|i: int|
                                0 <= i < self.seq().len() && self.seq()[i] == val;
                            assert(seq_of(self.next)[i - 1] == val);
                        }
                    }
                    present
                },
                None => false,
            }
        }
    }

    /// Removes the node at list position `index`; this node sits at
    /// position `cur`.
    fn remove(&mut self, index: usize, cur: usize) -> (removed: bool)
        requires
            cur < index,
            old(self).seq().len() + cur > index,
        ensures
            removed,
            final(self).seq() == old(self).seq().remove(index - cur),
        decreases index - cur,
    {
        if cur + 1 == index {
            let garbage = self.next.take().unwrap();
            self.next = garbage.next;
            proof {
                assert(self.seq() =~= old(self).seq().remove(index - cur));
            }
            true
        } else {
            let mut node = self.next.take().unwrap();
            let removed = (&mut *node).remove(index, cur + 1);
            self.next = Some(node);
            proof {
                assert(self.seq() =~= old(self).seq().remove(index - cur));
            }
            removed
        }
    }

    /// True exactly when the chain is in non-decreasing order.
    fn is_sorted(&self) -> (sorted: bool)
        ensures
            sorted == sorted_seq(self.seq()),
        decreases *self,
    {
        match &self.next {
            Some(node) => {
                if self.value <= node.value {
                    let sorted = node.is_sorted();
                    proof {
                        if sorted_seq(node.seq()) {
                            assert forall|i: int, j: int|
                                0 <= i < j < self.seq().len() implies self.seq()[i]
                                <= self.seq()[j] by {
                                if i > 0 {
                                    assert(self.seq()[i] == node.seq()[i - 1]);
                                    assert(self.seq()[j] == node.seq()[j - 1]);
                                } else if j > 1 {
                                    assert(node.seq()[0] <= node.seq()[j - 1]);
                                }
                            }
                        } else {
                            let (i, j) = choose|i: int, j: int|
                                0 <= i < j < node.seq().len() && node.seq()[i] > node.seq()[j];
                            assert(self.seq()[i + 1] > self.seq()[j + 1]);
                        }
                    }
                    sorted
                } else {
                    proof {
                        assert(self.seq()[0] > self.seq()[1]);
                    }
                    false
                }
            },
            None => true,
        }
    }

    /// The number of values in the chain starting at this node.
    fn get_length(&self) -> (n: usize)
        requires
            self.seq().len() <= usize::MAX,
        ensures
            n == self.seq().len(),
        decreases *self,
    {
        match &self.next {
            None => 1,
            Some(node) => 1 + node.get_length(),
        }
    }

    /// Detaches everything after the first `at + 1` nodes of the chain
    /// and hands it back.
    fn detach(&mut self, at: usize) -> (back: Link)
        requires
            old(self).seq().len() >= at + 2,
        ensures
            final(self).seq() == old(self).seq().take(at + 1),
            seq_of(back) == old(self).seq().skip(at + 1),
        decreases at,
    {
        if at == 0 {
            let back = self.next.take();
            proof {
                assert(self.seq() =~= old(self).seq().take(1));
                assert(seq_of(back) =~= old(self).seq().skip(1));
            }
            back
        } else {
            let mut node = self.next.take().unwrap();
            let back = (&mut *node).detach(at - 1);
            self.next = Some(node);
            proof {
                assert(self.seq() =~= old(self).seq().take(at + 1));
                assert(seq_of(back) =~= old(self).seq().skip(at + 1));
            }
            back
        }
    }
}

impl LinkedList {
    /// The cached length agrees with the chain.
    pub open spec fn wf(self) -> bool {
        self.len == self@.len()
    }

    /// Creates a new, empty list.
    #[inline]
    pub fn new() -> (list: Self)
        ensures
            list.wf(),
            list@ == Seq::<u64>::empty(),
    {
        LinkedList { head: None, len: 0 }
    }

    /// True exactly when the list holds nothing.
    #[inline]
    pub fn is_empty(&self) -> (empty: bool)
        requires
            self.wf(),
        ensures
            empty == (self@.len() == 0),
    {
        self.len == 0
    }

    /// Appends a new element at the back of the list; always succeeds.
    pub fn append(&mut self, val: u64) -> (appended: bool)
        requires
            old(self).wf(),
            old(self)@.len() < usize::MAX,
        ensures
            appended,
            final(self).wf(),
            final(self)@ == old(self)@.push(val),
    {
        match self.head.take() {
            Some(mut first) => {
                self.len = self.len + 1;
                let appended = (&mut *first).append(val);
                self.head = Some(first);
                appended
            },
            None => {
                self.head = Some(Box::new(Node::new(val)));
                self.len = self.len + 1;
                proof {
                    assert(self@ =~= old(self)@.push(val));
                }
                true
            },
        }
    }

    /// True exactly when the list holds `val`.
    pub fn contains(&self, val: u64) -> (present: bool)
        ensures
            present == self@.contains(val),
    {
        match &self.head {
            Some(first) => first.contains(val),
            None => false,
        }
    }

    /// Removes the element at position `index`; `false`, with the
    /// list untouched, when the index is out of range.
    pub fn remove(&mut self, index: usize) -> (removed: bool)
        requires
            old(self).wf(),
        ensures
            final(self).wf(),
            removed == (index < old(self)@.len()),
            removed ==> final(self)@ == old(self)@.remove(index as int),
            !removed ==> *final(self) == *old(self),
    {
        if index >= self.len {
            false
        } else if index == 0 {
            let mut old_head = self.head.take().unwrap();
            match old_head.next.take() {
                Some(rest) => {
                    self.head = Some(rest);
                },
                None => {},
            }
            self.len = self.len - 1;
            proof {
                assert(self@ =~= old(self)@.remove(0));
            }
            true
        } else {
            match self.head.take() {
                Some(mut first) => {
                    self.len = self.len - 1;
                    let removed = (&mut *first).remove(index, 0);
                    self.head = Some(first);
                    removed
                },
                None => false,
            }
        }
    }

    /// True exactly when the list is non-empty and in non-decreasing
    /// order; an empty list reports `false`.
    pub fn is_sorted(&self) -> (sorted: bool)
        ensures
            sorted == (self@.len() > 0 && sorted_seq(self@)),
    {
        match &self.head {
            Some(head) => head.is_sorted(),
            None => false,
        }
    }

    /// The first value of a non-empty list.
    fn front_value(&self) -> (val: u64)
        requires
            self@.len() > 0,
        ensures
            val == self@[0],
    {
        match &self.head {
            Some(node) => node.value,
            None => {
                proof {
                    assert(false);
                }
                0
            },
        }
    }

    /// Removes the head and hands its value back.
    pub fn pop_front(&mut self) -> (popped: Option<u64>)
        requires
            old(self).wf(),
        ensures
            final(self).wf(),
            old(self)@.len() == 0 ==> popped is None && *final(self) == *old(self),
            old(self)@.len() > 0 ==> popped == Some(old(self)@[0]) && final(self)@ == old(
                self,
            )@.skip(1),
    {
        if self.len == 0 {
            None
        } else {
            let mut old_head = self.head.take().unwrap();
            let res = Some(old_head.value);
            match old_head.next.take() {
                Some(next) => {
                    self.head = Some(next);
                },
                None => {},
            }
            self.len = self.len - 1;
            proof {
                assert(self@ =~= old(self)@.skip(1));
            }
            res
        }
    }

    /// Splits the list in two around its middle, leaving it empty.
    fn split(&mut self) -> (halves: (LinkedList, LinkedList))
        requires
            old(self).wf(),
            old(self)@.len() >= 2,
        ensures
            halves.0.wf(),
            halves.1.wf(),
            halves.0@ == old(self)@.take(old(self)@.len() as int / 2),
            halves.1@ == old(self)@.skip(old(self)@.len() as int / 2),
            halves.0@.len() < old(self)@.len(),
            halves.1@.len() < old(self)@.len(),
            final(self).len == old(self).len,
    {
        let middle = self.len / 2;
        let mut head = self.head.take().unwrap();
        let back_link = (&mut *head).detach(middle - 1);
        let front = LinkedList { head: Some(head), len: middle };
        let back = LinkedList { head: back_link, len: self.len - middle };
        proof {
            assert(front@ =~= old(self)@.take(old(self)@.len() as int / 2));
        }
        (front, back)
    }

    /// Merges two sorted lists into one sorted list holding exactly
    /// the elements of both; the two inputs are drained.
    fn merge(front: &mut LinkedList, back: &mut LinkedList) -> (merged: Self)
        requires
            old(front).wf(),
            old(back).wf(),
            sorted_seq(old(front)@),
            sorted_seq(old(back)@),
            1 <= old(front)@.len() + old(back)@.len() <= usize::MAX,
        ensures
            merged.wf(),
            sorted_seq(merged@),
            merged@.to_multiset() == old(front)@.to_multiset().add(old(back)@.to_multiset()),
            forall|y: u64|
                merged@.contains(y) ==> old(front)@.contains(y) || old(back)@.contains(y),
        decreases old(front)@.len() + old(back)@.len(),
    {
        if front.is_empty() {
            let merged = LinkedList { head: back.head.take(), len: back.len };
            proof {
                assert(merged@.to_multiset() =~= old(front)@.to_multiset().add(
                    old(back)@.to_multiset(),
                ));
            }
            merged
        } else if back.is_empty() {
            let merged = LinkedList { head: front.head.take(), len: front.len };
            proof {
                assert(merged@.to_multiset() =~= old(front)@.to_multiset().add(
                    old(back)@.to_multiset(),
                ));
            }
            merged
        } else {
            let take_front = front.front_value() <= back.front_value();
            let popped = if take_front {
                front.pop_front()
            } else {
                back.pop_front()
            };
            let first: u64 = popped.unwrap();
            let ghost front_rest = front@;
            let ghost back_rest = back@;
            let rest = Self::merge(front, back);
            proof {
                assert(rest@.to_multiset().len() == rest@.len());
                assert(front_rest.to_multiset().len() == front_rest.len());
                assert(back_rest.to_multiset().len() == back_rest.len());
            }
            let merged = LinkedList {
                head: Some(Box::new(Node { next: rest.head, value: first })),
                len: rest.len + 1,
            };
            proof {
                assert(merged@ =~= seq![first] + rest@);
                assert(seq![first] =~= Seq::<u64>::empty().push(first));
                lemma_multiset_commutative(seq![first], rest@);
                assert(merged@.to_multiset() =~= rest@.to_multiset().insert(first));
                if take_front {
                    assert(old(front)@ =~= Seq::<u64>::empty().push(first) + front_rest);
                    lemma_multiset_commutative(Seq::<u64>::empty().push(first), front_rest);
                } else {
                    assert(old(back)@ =~= Seq::<u64>::empty().push(first) + back_rest);
                    lemma_multiset_commutative(Seq::<u64>::empty().push(first), back_rest);
                }
                assert(merged@.to_multiset() =~= old(front)@.to_multiset().add(
                    old(back)@.to_multiset(),
                ));
                assert forall|i: int, j: int|
                    0 <= i < j < merged@.len() implies merged@[i] <= merged@[j] by {
                    if i == 0 {
                        let y = rest@[j - 1];
                        assert(rest@.contains(y));
                        if front_rest.contains(y) {
                            let k = choose|k: int|
                                0 <= k < front_rest.len() && front_rest[k] == y;
                            if take_front {
                                assert(old(front)@[k + 1] == y);
                                assert(old(front)@[0] == first);
                            } else {
                                assert(old(front)@[k] == y);
                                assert(old(front)@[0] >= first);
                            }
                        } else {
                            let k = choose|k: int| 0 <= k < back_rest.len() && back_rest[k] == y;
                            if take_front {
                                assert(old(back)@[k] == y);
                                assert(old(back)@[0] >= first);
                            } else {
                                assert(old(back)@[k + 1] == y);
                                assert(old(back)@[0] == first);
                            }
                        }
                    } else {
                        assert(merged@[i] == rest@[i - 1]);
                        assert(merged@[j] == rest@[j - 1]);
                    }
                }
                assert forall|y: u64|
                    merged@.contains(y) implies old(front)@.contains(y) || old(back)@.contains(
                    y,
                ) by {
                    let k = choose|k: int| 0 <= k < merged@.len() && merged@[k] == y;
                    if k == 0 {
                        if take_front {
                            assert(old(front)@[0] == y);
                        } else {
                            assert(old(back)@[0] == y);
                        }
                    } else {
                        assert(rest@.contains(y));
                        if front_rest.contains(y) {
                            let m = choose|m: int|
                                0 <= m < front_rest.len() && front_rest[m] == y;
                            if take_front {
                                assert(old(front)@[m + 1] == y);
                            } else {
                                assert(old(front)@[m] == y);
                            }
                        } else {
                            let m = choose|m: int| 0 <= m < back_rest.len() && back_rest[m] == y;
                            if take_front {
                                assert(old(back)@[m] == y);
                            } else {
                                assert(old(back)@[m + 1] == y);
                            }
                        }
                    }
                }
            }
            merged
        }
    }

    /// Sorts the list in non-decreasing order by merge sort, keeping
    /// exactly the elements it held.
    pub fn sort(&mut self)
        requires
            old(self).wf(),
        ensures
            final(self).wf(),
            sorted_seq(final(self)@),
            final(self)@.to_multiset() == old(self)@.to_multiset(),
        decreases old(self)@.len(),
    {
        if self.len <= 1 {
            return ;
        }
        let ghost whole = self@;
        let (mut front, mut back) = self.split();
        if front.len > 1 {
            front.sort();
        }
        if back.len > 1 {
            back.sort();
        }
        let ghost front_sorted = front@;
        let ghost back_sorted = back@;
        proof {
            assert(front_sorted.to_multiset().len() == front_sorted.len());
            assert(back_sorted.to_multiset().len() == back_sorted.len());
        }
        let merged = Self::merge(&mut front, &mut back);
        self.head = merged.head;
        proof {
            assert(whole =~= whole.take(whole.len() as int / 2) + whole.skip(
                whole.len() as int / 2,
            ));
            lemma_multiset_commutative(
                whole.take(whole.len() as int / 2),
                whole.skip(whole.len() as int / 2),
            );
            assert(front_sorted.to_multiset() == whole.take(
                whole.len() as int / 2,
            ).to_multiset());
            assert(back_sorted.to_multiset() == whole.skip(
                whole.len() as int / 2,
            ).to_multiset());
            assert(self@ == merged@);
            assert(merged@.to_multiset() == front_sorted.to_multiset().add(
                back_sorted.to_multiset(),
            ));
            assert(self@.to_multiset() == old(self)@.to_multiset());
            assert(merged@.to_multiset().len() == merged@.len());
            assert(whole.to_multiset().len() == whole.len());
            assert(front_sorted.to_multiset().add(back_sorted.to_multiset()).len()
                == front_sorted.to_multiset().len() + back_sorted.to_multiset().len());
            assert(self.len == self@.len());
        }
    }

    /// Starts a fresh traversal over the values, front first.
    pub fn iter<'a>(&'a self) -> (it: Iter<'a>)
        requires
            self.wf(),
        ensures
            it.wf(),
            it.remaining() == self@,
    {
        Iter { head: &self.head, len: self.len }
    }

    /// Consumes the list into an owning iterator over its values.
    pub fn into_iter(self) -> (it: IntoIter)
        requires
            self.wf(),
        ensures
            it.wf(),
            it.remaining() == self@,
    {
        IntoIter { list: self }
    }

    /// Builds a list around an existing chain of nodes, counting its
    /// length by walking it.
    pub fn from_node(node: Node) -> (list: Self)
        requires
            node.seq().len() <= usize::MAX,
        ensures
            list.wf(),
            list@ == node.seq(),
    {
        let length = node.get_length();
        LinkedList { head: Some(Box::new(node)), len: length }
    }

    /// Builds a list holding the values of `v` in order.
    pub fn from(v: Vec<u64>) -> (list: Self)
        ensures
            list.wf(),
            list@ == v@,
    {
        let mut list = LinkedList::new();
        let mut i: usize = 0;
        while i < v.len()
            invariant
                i <= v@.len(),
                list.wf(),
                list@ == v@.take(i as int),
            decreases v@.len() - i,
        {
            list.append(v[i]);
            i = i + 1;
            proof {
                assert(list@ =~= v@.take(i as int));
            }
        }
        proof {
            assert(v@.take(v@.len() as int) =~= v@);
        }
        list
    }
}

/// A borrowed traversal over a list's values, front first: the link
/// the walk stands at and how many values are left.
#[derive(Debug)]
pub struct Iter<'a> {
    head: &'a Link,
    len: usize,
}

impl<'a> Iter<'a> {
    /// The tracked length agrees with the chain ahead.
    pub closed spec fn wf(self) -> bool {
        self.len == seq_of(*self.head).len()
    }

    /// The values the traversal has not yet produced.
    pub closed spec fn remaining(self) -> Seq<u64> {
        seq_of(*self.head)
    }

    /// Produces the next value, `None` once the traversal is done.
    pub fn next(&mut self) -> (item: Option<u64>)
        requires
            old(self).wf(),
        ensures
            final(self).wf(),
            old(self).remaining().len() == 0 ==> item is None && *final(self) == *old(self),
            old(self).remaining().len() > 0 ==> item == Some(old(self).remaining()[0])
                && final(self).remaining() == old(self).remaining().skip(1),
    {
        if self.len == 0 {
            None
        } else {
            match self.head {
                Some(node) => {
                    self.len = self.len - 1;
                    self.head = &node.next;
                    proof {
                        assert(self.remaining() =~= old(self).remaining().skip(1));
                    }
                    Some(node.value)
                },
                None => {
                    proof {
                        assert(false);
                    }
                    None
                },
            }
        }
    }

    /// How many values the traversal has still to produce.
    pub fn count(self) -> (n: usize)
        requires
            self.wf(),
        ensures
            n == self.remaining().len(),
    {
        self.len
    }
}

/// An owning traversal over a list's values, front first.
#[derive(Debug)]
pub struct IntoIter {
    pub list: LinkedList,
}

impl IntoIter {
    /// The inner list stays consistent.
    pub open spec fn wf(self) -> bool {
        self.list.wf()
    }

    /// The values the traversal has not yet produced.
    pub open spec fn remaining(self) -> Seq<u64> {
        self.list@
    }

    /// Produces the next value, `None` once the traversal is done.
    pub fn next(&mut self) -> (item: Option<u64>)
        requires
            old(self).wf(),
        ensures
            final(self).wf(),
            old(self).remaining().len() == 0 ==> item is None,
            old(self).remaining().len() > 0 ==> item == Some(old(self).remaining()[0])
                && final(self).remaining() == old(self).remaining().skip(1),
    {
        self.list.pop_front()
    }
}

} // verus!
