//! A singly linked list: each node owns its value and the link to its
//! successor, and the list owns the first node together with a stored size.

use vstd::prelude::*;
use vstd::std_specs::cmp::PartialEqSpec;

verus! {

/// Linked list errors.
#[derive(Clone, Copy, Debug, PartialEq, Eq, Structural)]
pub enum LinkedListError {
    IndexOutOfBounds { index: usize, size: usize },
    InvalidArraySize { size: usize, array_size: usize },
}

/// A node in a linked list.
#[derive(Debug)]
struct LinkedListNode<T> {
    /// The node's value.
    value: T,
    /// The next node in the linked list.
    next: Option<Box<LinkedListNode<T>>>,
}

impl<T> LinkedListNode<T> {
    /// The values stored in this node and all nodes reachable behind it.
    pub closed spec fn seq(self) -> Seq<T>
        decreases self,
    {
        match self.next {
            Option::Some(next) => seq![self.value] + next.seq(),
            Option::None => seq![self.value],
        }
    }

    /// Take the node's value and next node, consuming the node itself.
    pub fn take(self) -> (r: (T, Option<LinkedListNode<T>>))
        ensures
            r.0 == self.seq()[0],
            match r.1 {
                Option::Some(rest) => rest.seq() == self.seq().drop_first(),
                Option::None => self.seq().len() == 1,
            },
    {
        let LinkedListNode { value, next } = self;
        let rest = match next {
            Some(boxed) => {
                proof {
                    assert(boxed.seq() =~= self.seq().drop_first());
                }
                Some(*boxed)
            },
            None => None,
        };
        (value, rest)
    }

    /// Get a reference to the node's value.
    pub fn get_value(&self) -> (v: &T)
        ensures
            *v == self.seq()[0],
    {
        &self.value
    }

    /// Get a mutable reference to the node's value.
    pub fn get_value_mut(&mut self) -> (v: &mut T)
        ensures
            *v == old(self).seq()[0],
            final(self).seq() =~= old(self).seq().update(0, *final(v)),
    {
        &mut self.value
    }

    /// Set a node's value.
    pub fn set_value(&mut self, value: T)
        ensures
            final(self).seq() == old(self).seq().update(0, value),
    {
        self.value = value;
        proof {
            assert(self.seq() =~= old(self).seq().update(0, value));
        }
    }

    /// Take the node's value, consuming the node itself.
    pub fn take_value(self) -> (v: T)
        ensures
            v == self.seq()[0],
    {
        self.value
    }

    /// Check if the node points to another node after it.
    pub fn has_next(&self) -> (b: bool)
        ensures
            b <==> self.seq().len() > 1,
    {
        proof {
            if let Option::Some(next) = &self.next {
                lemma_node_seq_len(**next);
            }
        }
        self.next.is_some()
    }

    /// Get an optional reference to the next node.
    pub fn get_next(&self) -> (r: Option<&LinkedListNode<T>>)
        ensures
            match r {
                Option::Some(next) => next.seq() == self.seq().drop_first(),
                Option::None => self.seq().len() == 1,
            },
    {
        match &self.next {
            Some(next) => {
                proof {
                    assert(next.seq() =~= self.seq().drop_first());
                }
                Some(&**next)
            },
            None => None,
        }
    }

    /// Get an optional mutable reference to the next node.
    pub fn get_next_mut(&mut self) -> (r: Option<&mut LinkedListNode<T>>)
        ensures
            old(self).seq().len() == 1 ==> r is None && *final(self) == *old(self),
            old(self).seq().len() > 1 ==> r is Some && (*r->0).seq() == old(self).seq().drop_first()
                && final(self).seq() == seq![old(self).seq()[0]] + final(r->0).seq(),
    {
        proof {
            if let Option::Some(next) = &self.next {
                lemma_node_seq_len(**next);
                assert(next.seq() =~= self.seq().drop_first());
            }
        }
        match &mut self.next {
            Some(next) => Some(&mut **next),
            None => None,
        }
    }

    /// Take ownership of the next node, removing it from the list.
    pub fn take_next(&mut self) -> (r: Option<LinkedListNode<T>>)
        ensures
            match r {
                Option::Some(rest) => rest.seq() == old(self).seq().drop_first()
                    && final(self).seq() == seq![old(self).seq()[0]],
                Option::None => old(self).seq().len() == 1 && *final(self) == *old(self),
            },
    {
        match self.next.take() {
            Some(boxed) => {
                proof {
                    assert(boxed.seq() =~= old(self).seq().drop_first());
                    assert(self.seq() =~= seq![old(self).seq()[0]]);
                }
                Some(*boxed)
            },
            None => None,
        }
    }

    /// Set the node's next node.
    pub fn set_next(&mut self, next: Self)
        ensures
            final(self).seq() == seq![old(self).seq()[0]] + next.seq(),
    {
        self.next = Some(Box::new(next));
        proof {
            assert(self.seq() =~= seq![old(self).seq()[0]] + next.seq());
        }
    }

    /// Set an empty next node with the specified value.
    pub fn set_next_by_value(&mut self, value: T)
        ensures
            final(self).seq() == seq![old(self).seq()[0], value],
    {
        let node = LinkedListNode { value, next: None };
        proof {
            assert(node.seq() =~= seq![value]);
        }
        self.next = Some(Box::new(node));
        proof {
            assert(self.seq() =~= seq![old(self).seq()[0], value]);
        }
    }
}

/// Every chain of nodes holds at least its own value.
proof fn lemma_node_seq_len<T>(node: LinkedListNode<T>)
    ensures
        node.seq().len() >= 1,
    decreases node,
{
    if let Option::Some(next) = node.next {
        lemma_node_seq_len(*next);
    }
}

/// Walk `index` links forward and borrow the value stored there.
fn node_get<T>(node: &LinkedListNode<T>, index: usize) -> (v: &T)
    requires
        index < node.seq().len(),
    ensures
        *v == node.seq()[index as int],
    decreases index,
{
    if index == 0 {
        node.get_value()
    } else {
        let next = node.get_next().unwrap();
        node_get(next, index - 1)
    }
}

/// Walk `index` links forward and borrow the value stored there mutably.
fn node_get_mut<T>(node: &mut LinkedListNode<T>, index: usize) -> (v: &mut T)
    requires
        index < old(node).seq().len(),
    ensures
        *v == old(node).seq()[index as int],
        final(node).seq() =~= old(node).seq().update(index as int, *final(v)),
    decreases index,
{
    if index == 0 {
        node.get_value_mut()
    } else {
        let next = node.get_next_mut().unwrap();
        node_get_mut(next, index - 1)
    }
}

/// Splice a new node holding `value` into the chain so that it comes to
/// stand `index` places behind `node`.
fn node_insert<T>(node: &mut LinkedListNode<T>, index: usize, value: T)
    requires
        1 <= index <= old(node).seq().len(),
    ensures
        final(node).seq() == old(node).seq().insert(index as int, value),
    decreases index,
{
    if index == 1 {
        let rest = node.take_next();
        let spliced = LinkedListNode {
            value,
            next: match rest {
                Some(n) => Some(Box::new(n)),
                None => None,
            },
        };
        node.set_next(spliced);
        proof {
            assert(node.seq() =~= old(node).seq().insert(1, value));
        }
    } else {
        let next = node.get_next_mut().unwrap();
        node_insert(next, index - 1, value);
        proof {
            assert(node.seq() =~= old(node).seq().insert(index as int, value));
        }
    }
}

/// Detach the node standing `index` places behind `node` and return its
/// value, splicing its predecessor directly to its successor.
fn node_remove<T>(node: &mut LinkedListNode<T>, index: usize) -> (v: T)
    requires
        1 <= index < old(node).seq().len(),
    ensures
        v == old(node).seq()[index as int],
        final(node).seq() == old(node).seq().remove(index as int),
    decreases index,
{
    if index == 1 {
        let target = node.take_next().unwrap();
        let (value, rest) = target.take();
        match rest {
            Some(n) => node.set_next(n),
            None => (),
        }
        proof {
            assert(node.seq() =~= old(node).seq().remove(1));
        }
        value
    } else {
        let next = node.get_next_mut().unwrap();
        let value = node_remove(next, index - 1);
        proof {
            assert(node.seq() =~= old(node).seq().remove(index as int));
        }
        value
    }
}

/// A linked list.
#[derive(Debug)]
pub struct LinkedList<T> {
    /// The first node in the linked list.
    head: Option<LinkedListNode<T>>,
    /// The total number of nodes in the linked list.
    size: usize,
}

impl<T> View for LinkedList<T> {
    type V = Seq<T>;

    closed spec fn view(&self) -> Seq<T> {
        match self.head {
            Option::Some(node) => node.seq(),
            Option::None => Seq::empty(),
        }
    }
}

impl<T> LinkedList<T> {
    /// The stored size equals the number of nodes reachable from the head.
    pub closed spec fn wf(self) -> bool {
        self.size == self@.len()
    }

    /// Create an empty linked list.
    pub fn new() -> (ll: Self)
        ensures
            ll.wf(),
            ll@ == Seq::<T>::empty(),
    {
        Self { head: None, size: 0 }
    }

    /// Get the number of nodes in the linked list.
    pub fn len(&self) -> (n: usize)
        requires
            self.wf(),
        ensures
            n == self@.len(),
    {
        self.size
    }

    /// Get a reference to the value at a node by index.
    pub fn get_value(&self, index: usize) -> (r: Result<&T, LinkedListError>)
        requires
            self.wf(),
        ensures
            index < self@.len() ==> (r matches Ok(v) && *v == self@[index as int]),
            index >= self@.len() ==> (r matches Err(e) && e == (LinkedListError::IndexOutOfBounds {
                index,
                size: self@.len() as usize,
            })),
    {
        if index < self.size {
            Ok(node_get(self.head.as_ref().unwrap(), index))
        } else {
            Err(LinkedListError::IndexOutOfBounds { index, size: self.size })
        }
    }

    /// Get a mutable reference to the value at a node by index.
    pub fn get_value_mut(&mut self, index: usize) -> (r: Result<&mut T, LinkedListError>)
        requires
            old(self).wf(),
        ensures
            index < old(self)@.len() ==> r is Ok && *r->Ok_0 == old(self)@[index as int]
                && final(self)@ == old(self)@.update(index as int, *final(r->Ok_0))
                && final(self).wf(),
            index >= old(self)@.len() ==> *final(self) == *old(self) && (r matches Err(e) && e
                == (LinkedListError::IndexOutOfBounds {
                index,
                size: old(self)@.len() as usize,
            })),
    {
        if index < self.size {
            Ok(node_get_mut(self.head.as_mut().unwrap(), index))
        } else {
            Err(LinkedListError::IndexOutOfBounds { index, size: self.size })
        }
    }

    /// Set the value at a node by index.
    pub fn set_value(&mut self, index: usize, value: T) -> (r: Result<(), LinkedListError>)
        requires
            old(self).wf(),
        ensures
            index < old(self)@.len() ==> r is Ok && final(self).wf() && final(self)@ == old(
                self,
            )@.update(index as int, value),
            index >= old(self)@.len() ==> *final(self) == *old(self) && (r matches Err(e) && e
                == (LinkedListError::IndexOutOfBounds {
                index,
                size: old(self)@.len() as usize,
            })),
    {
        if index < self.size {
            let slot = node_get_mut(self.head.as_mut().unwrap(), index);
            *slot = value;
            Ok(())
        } else {
            Err(LinkedListError::IndexOutOfBounds { index, size: self.size })
        }
    }

    /// Insert a value in a new node at a given index in the linked list.
    pub fn push(&mut self, index: usize, value: T) -> (r: Result<(), LinkedListError>)
        requires
            old(self).wf(),
            old(self)@.len() < usize::MAX,
        ensures
            index <= old(self)@.len() ==> r is Ok && final(self).wf() && final(self)@ == old(
                self,
            )@.insert(index as int, value),
            index > old(self)@.len() ==> *final(self) == *old(self) && (r matches Err(e) && e
                == (LinkedListError::IndexOutOfBounds {
                index,
                size: old(self)@.len() as usize,
            })),
    {
        if index == 0 {
            self.push_front(value);
            proof {
                assert(self@ =~= old(self)@.insert(0, value));
            }
            Ok(())
        } else if index <= self.size {
            node_insert(self.head.as_mut().unwrap(), index, value);
            self.size = self.size + 1;
            Ok(())
        } else {
            Err(LinkedListError::IndexOutOfBounds { index, size: self.size })
        }
    }

    /// Insert a value at the start of the linked list.
    pub fn push_front(&mut self, value: T)
        requires
            old(self).wf(),
            old(self)@.len() < usize::MAX,
        ensures
            final(self).wf(),
            final(self)@ == seq![value] + old(self)@,
    {
        let next = match self.head.take() {
            Some(node) => Some(Box::new(node)),
            None => None,
        };
        self.head = Some(LinkedListNode { value, next });
        self.size = self.size + 1;
    }

    /// Remove the first node, returning the node's owned value.
    pub fn pop_front(&mut self) -> (r: Result<T, LinkedListError>)
        requires
            old(self).wf(),
        ensures
            final(self).wf(),
            old(self)@.len() > 0 ==> r == Ok::<T, LinkedListError>(old(self)@[0])
                && final(self)@ == old(self)@.drop_first(),
            old(self)@.len() == 0 ==> *final(self) == *old(self)
                && r == Err::<T, LinkedListError>(
                (LinkedListError::IndexOutOfBounds { index: 0, size: 0 }),
            ),
    {
        if self.size >= 1 {
            let node = self.head.take().unwrap();
            let LinkedListNode { value, next } = node;
            self.head = match next {
                Some(boxed) => Some(*boxed),
                None => None,
            };
            self.size = self.size - 1;
            assert(self@ =~= old(self)@.drop_first());
            Ok(value)
        } else {
            Err(LinkedListError::IndexOutOfBounds { index: 0, size: 0 })
        }
    }

    /// Insert a value at the end of the linked list.
    pub fn push_back(&mut self, value: T)
        requires
            old(self).wf(),
            old(self)@.len() < usize::MAX,
        ensures
            final(self).wf(),
            final(self)@ == old(self)@.push(value),
    {
        if self.size > 0 {
            node_insert(self.head.as_mut().unwrap(), self.size, value);
            proof {
                assert(self@ =~= old(self)@.push(value));
            }
        } else {
            self.head = Some(LinkedListNode { value, next: None });
            proof {
                assert(self@ =~= old(self)@.push(value));
            }
        }
        self.size = self.size + 1;
    }

    /// Remove the node at a given index, returning the node's owned value.
    pub fn pop(&mut self, index: usize) -> (r: Result<T, LinkedListError>)
        requires
            old(self).wf(),
        ensures
            index < old(self)@.len() ==> r == Ok::<T, LinkedListError>(old(self)@[index as int])
                && final(self).wf() && final(self)@ == old(self)@.remove(index as int),
            index >= old(self)@.len() ==> *final(self) == *old(self) && r
                == Err::<T, LinkedListError>(
                (LinkedListError::IndexOutOfBounds { index, size: old(self)@.len() as usize }),
            ),
    {
        if self.size >= 1 && index == 0 {
            let r = self.pop_front();
            proof {
                assert(self@ =~= old(self)@.remove(0));
            }
            r
        } else if index < self.size {
            let value = node_remove(self.head.as_mut().unwrap(), index);
            self.size = self.size - 1;
            Ok(value)
        } else {
            Err(LinkedListError::IndexOutOfBounds { index, size: self.size })
        }
    }

    /// Remove the last node, returning the node's owned value.
    pub fn pop_back(&mut self) -> (r: Result<T, LinkedListError>)
        requires
            old(self).wf(),
        ensures
            final(self).wf(),
            old(self)@.len() > 0 ==> r == Ok::<T, LinkedListError>(old(self)@.last())
                && final(self)@ == old(self)@.drop_last(),
            old(self)@.len() == 0 ==> *final(self) == *old(self)
                && r == Err::<T, LinkedListError>(
                (LinkedListError::IndexOutOfBounds { index: 0, size: 0 }),
            ),
    {
        if self.size == 1 {
            let node = self.head.take().unwrap();
            self.size = 0;
            proof {
                assert(self@ =~= old(self)@.drop_last());
            }
            Ok(node.take_value())
        } else if self.size > 1 {
            let value = node_remove(self.head.as_mut().unwrap(), self.size - 1);
            self.size = self.size - 1;
            proof {
                assert(old(self)@.remove(old(self)@.len() - 1) =~= old(self)@.drop_last());
            }
            Ok(value)
        } else {
            Err(LinkedListError::IndexOutOfBounds { index: 0, size: 0 })
        }
    }

    /// Clear the linked list.
    pub fn clear(&mut self)
        ensures
            final(self).wf(),
            final(self)@ == Seq::<T>::empty(),
    {
        self.head = None;
        self.size = 0;
    }

    /// Reverse the elements in the linked list in place.
    pub fn reverse(&mut self)
        requires
            old(self).wf(),
        ensures
            final(self).wf(),
            final(self)@ == old(self)@.reverse(),
    {
        let ghost n = old(self)@.len() as int;
        let mut orig = LinkedList { head: self.head.take(), size: self.size };
        self.size = 0;
        let ghost mut i = 0int;
        proof {
            assert(orig@ =~= old(self)@);
            assert(self@ =~= old(self)@.take(0).reverse());
        }
        while orig.len() > 0
            invariant
                0 <= i <= n,
                n == old(self)@.len(),
                n <= usize::MAX,
                orig.wf(),
                self.wf(),
                orig@ == old(self)@.skip(i),
                self@ == old(self)@.take(i).reverse(),
            decreases n - i,
        {
            let value = orig.pop_front().unwrap();
            self.push_front(value);
            proof {
                i = i + 1;
                assert(orig@ =~= old(self)@.skip(i));
                assert(self@ =~= old(self)@.take(i).reverse());
            }
        }
        proof {
            assert(old(self)@.take(n) =~= old(self)@);
        }
    }

    /// Returns an iterator over the elements in the linked list.
    pub fn iter<'a>(&'a self) -> (it: Iter<'a, T>)
        ensures
            it@ == self@,
    {
        Iter::new(self)
    }
}

impl<T: core::fmt::Debug> LinkedList<T> {
    /// Move the values out into a fixed-size array; fails unless the list
    /// holds exactly as many values as the array has room for.
    pub fn try_into_array<const N: usize>(self) -> (r: Result<[T; N], LinkedListError>)
        requires
            self.wf(),
        ensures
            self@.len() == N ==> (r matches Ok(arr) && arr@ == self@),
            self@.len() != N ==> r == Err::<[T; N], LinkedListError>(
                (LinkedListError::InvalidArraySize { size: self@.len() as usize, array_size: N }),
            ),
    {
        if self.size == N {
            Ok(crate::vec_into_array(self.into_vec()))
        } else {
            Err(LinkedListError::InvalidArraySize { size: self.size, array_size: N })
        }
    }
}

impl<T> IntoIterator for LinkedList<T> {
    type Item = T;

    type IntoIter = std::vec::IntoIter<T>;

    /// Turn the list into an iterator that drains its values in order.
    fn into_iter(self) -> (it: std::vec::IntoIter<T>)
        ensures
            vstd::std_specs::vec::into_iter_elts(it) == self@,
    {
        self.into_vec().into_iter()
    }
}

/// An iterator over the elements of a linked list.
pub struct Iter<'a, T> {
    /// A reference to the current node.
    current_node: Option<&'a LinkedListNode<T>>,
}

impl<'a, T> View for Iter<'a, T> {
    type V = Seq<T>;

    /// The values the iterator has not yet handed out.
    closed spec fn view(&self) -> Seq<T> {
        match self.current_node {
            Option::Some(node) => node.seq(),
            Option::None => Seq::empty(),
        }
    }
}

impl<'a, T> Iter<'a, T> {
    /// Create an iterator from a linked list.
    pub fn new(ll: &'a LinkedList<T>) -> (it: Self)
        ensures
            it@ == ll@,
    {
        Self { current_node: ll.head.as_ref() }
    }

    /// Hand out a reference to the next value, or `None` past the last one.
    pub fn next(&mut self) -> (r: Option<&'a T>)
        ensures
            old(self)@.len() == 0 ==> r is None && *final(self) == *old(self),
            old(self)@.len() > 0 ==> (r matches Some(v) && *v == old(self)@[0] && final(self)@
                == old(self)@.drop_first()),
    {
        match self.current_node {
            Some(node) => {
                self.current_node = node.get_next();
                Some(node.get_value())
            },
            None => None,
        }
    }
}

/// Whether two value sequences have the same length and agree position by
/// position under `T`'s equality specification.
pub open spec fn seqs_agree<T: PartialEq>(x: Seq<T>, y: Seq<T>) -> bool {
    x.len() == y.len() && (forall|i: int| 0 <= i < x.len() ==> #[trigger] x[i].eq_spec(&y[i]))
}

/// Compare two chains of nodes value by value.
fn node_eq<T: PartialEq>(a: &LinkedListNode<T>, b: &LinkedListNode<T>) -> (r: bool)
    ensures
        <T as PartialEqSpec>::obeys_eq_spec() ==> (r <==> seqs_agree(a.seq(), b.seq())),
    decreases *a,
{
    if !(a.value == b.value) {
        proof {
            if <T as PartialEqSpec>::obeys_eq_spec() && seqs_agree(a.seq(), b.seq()) {
                assert(a.seq()[0].eq_spec(&b.seq()[0]));
            }
        }
        false
    } else {
        match (&a.next, &b.next) {
            (Some(x), Some(y)) => {
                let r = node_eq(&**x, &**y);
                proof {
                    if <T as PartialEqSpec>::obeys_eq_spec() {
                        if r {
                            assert forall|i: int| 0 <= i < a.seq().len() implies #[trigger] a.seq()[i].eq_spec(&b.seq()[i]) by {
                                if i > 0 {
                                    assert(x.seq()[i - 1].eq_spec(&y.seq()[i - 1]));
                                }
                            }
                        } else {
                            if seqs_agree(a.seq(), b.seq()) {
                                assert forall|i: int| 0 <= i < x.seq().len() implies #[trigger] x.seq()[i].eq_spec(&y.seq()[i]) by {
                                    assert(a.seq()[i + 1].eq_spec(&b.seq()[i + 1]));
                                }
                                assert(false);
                            }
                        }
                    }
                }
                r
            },
            (None, None) => true,
            (Some(x), None) => {
                proof {
                    lemma_node_seq_len(**x);
                }
                false
            },
            (None, Some(y)) => {
                proof {
                    lemma_node_seq_len(**y);
                }
                false
            },
        }
    }
}

impl<T: PartialEq> PartialEq for LinkedList<T> {
    /// Two lists are equal when they hold equal values in the same order.
    fn eq(&self, other: &Self) -> (r: bool) {
        match (&self.head, &other.head) {
            (Some(a), Some(b)) => node_eq(a, b),
            (None, None) => true,
            _ => false,
        }
    }
}

impl<T: PartialEq> vstd::std_specs::cmp::PartialEqSpecImpl for LinkedList<T> {
    open spec fn obeys_eq_spec() -> bool {
        <T as PartialEqSpec>::obeys_eq_spec()
    }

    open spec fn eq_spec(&self, other: &Self) -> bool {
        seqs_agree(self@, other@)
    }
}

impl<T> LinkedList<T> {
    /// Build a linked list from a vector, keeping the values in order, by
    /// repeatedly prepending the vector's values from its back to its front.
    pub fn from_vec(values: Vec<T>) -> (ll: Self)
        ensures
            ll.wf(),
            ll@ == values@,
    {
        let ghost full = values@;
        let mut vector = values;
        let n = vector.len();
        let mut ll = Self::new();
        while vector.len() > 0
            invariant
                ll.wf(),
                vector@ + ll@ == full,
                full.len() == n,
            decreases vector@.len(),
        {
            let value = vector.pop().unwrap();
            let pushed = ll.push(0, value);
            proof {
                assert(pushed is Ok);
                assert(vector@ + ll@ =~= full);
            }
        }
        proof {
            assert(ll@ =~= full);
        }
        ll
    }

    /// Flatten the linked list into a vector, keeping the values in order,
    /// by repeatedly taking the front node until the chain is exhausted.
    pub fn into_vec(self) -> (v: Vec<T>)
        ensures
            v@ == self@,
    {
        let ghost full = self@;
        let LinkedList { head, size: _ } = self;
        let mut current = head;
        let mut vector: Vec<T> = Vec::new();
        while current.is_some()
            invariant
                vector@ + (match current {
                    Option::Some(node) => node.seq(),
                    Option::None => Seq::<T>::empty(),
                }) == full,
            decreases (match current {
                Option::Some(node) => node.seq().len(),
                Option::None => 0nat,
            }),
        {
            let node = current.take().unwrap();
            let (value, rest) = node.take();
            vector.push(value);
            current = rest;
            proof {
                assert(vector@ + (match current {
                    Option::Some(node) => node.seq(),
                    Option::None => Seq::<T>::empty(),
                }) =~= full);
            }
        }
        proof {
            assert(vector@ =~= full);
        }
        vector
    }
}

impl<T> From<Vec<T>> for LinkedList<T> {
    /// Build a linked list holding the vector's values in order.
    fn from(vector: Vec<T>) -> (ll: Self)
        ensures
            ll.wf(),
            ll@ == vector@,
    {
        Self::from_vec(vector)
    }
}

impl<T> vstd::std_specs::convert::FromSpecImpl<Vec<T>> for LinkedList<T> {
    open spec fn obeys_from_spec() -> bool {
        false
    }

    open spec fn from_spec(vector: Vec<T>) -> Self {
        choose|ll: LinkedList<T>| ll.wf() && ll@ == vector@
    }
}

impl<'a, T: Clone> From<&'a [T]> for LinkedList<T> {
    /// Build a linked list holding clones of the slice's values in order.
    fn from(arr: &'a [T]) -> (ll: Self)
        ensures
            ll@.len() == arr@.len(),
            forall|i: int| 0 <= i < ll@.len() ==> cloned::<T>(arr@[i], #[trigger] ll@[i]),
            ll.wf(),
    {
        Self::from_vec(crate::clone_values(arr))
    }
}

impl<'a, T: Clone> vstd::std_specs::convert::FromSpecImpl<&'a [T]> for LinkedList<T> {
    open spec fn obeys_from_spec() -> bool {
        false
    }

    open spec fn from_spec(arr: &'a [T]) -> Self {
        choose|ll: LinkedList<T>|
            ll.wf() && ll@.len() == arr@.len() && (forall|i: int|
                0 <= i < ll@.len() ==> cloned::<T>(arr@[i], #[trigger] ll@[i]))
    }
}

impl<'a, T: Clone> From<&'a mut [T]> for LinkedList<T> {
    /// Build a linked list holding clones of the slice's values in order.
    fn from(arr: &'a mut [T]) -> (ll: Self)
        ensures
            ll@.len() == old(arr)@.len(),
            forall|i: int| 0 <= i < ll@.len() ==> cloned::<T>(old(arr)@[i], #[trigger] ll@[i]),
            ll.wf(),
            final(arr)@ == old(arr)@,
    {
        Self::from_vec(crate::clone_values(arr))
    }
}

impl<'a, T: Clone> vstd::std_specs::convert::FromSpecImpl<&'a mut [T]> for LinkedList<T> {
    open spec fn obeys_from_spec() -> bool {
        false
    }

    open spec fn from_spec(arr: &'a mut [T]) -> Self {
        choose|ll: LinkedList<T>|
            ll.wf() && ll@.len() == arr@.len() && (forall|i: int|
                0 <= i < ll@.len() ==> cloned::<T>(arr@[i], #[trigger] ll@[i]))
    }
}

impl<'a, T: Clone, const N: usize> From<&'a [T; N]> for LinkedList<T> {
    /// Build a linked list holding clones of the array's values in order.
    fn from(arr: &'a [T; N]) -> (ll: Self)
        ensures
            ll@.len() == arr@.len(),
            forall|i: int| 0 <= i < ll@.len() ==> cloned::<T>(arr@[i], #[trigger] ll@[i]),
            ll.wf(),
    {
        Self::from_vec(crate::clone_values(arr.as_slice()))
    }
}

impl<'a, T: Clone, const N: usize> vstd::std_specs::convert::FromSpecImpl<&'a [T; N]> for LinkedList<T> {
    open spec fn obeys_from_spec() -> bool {
        false
    }

    open spec fn from_spec(arr: &'a [T; N]) -> Self {
        choose|ll: LinkedList<T>|
            ll.wf() && ll@.len() == arr@.len() && (forall|i: int|
                0 <= i < ll@.len() ==> cloned::<T>(arr@[i], #[trigger] ll@[i]))
    }
}

impl<'a, T: Clone, const N: usize> From<&'a mut [T; N]> for LinkedList<T> {
    /// Build a linked list holding clones of the array's values in order.
    fn from(arr: &'a mut [T; N]) -> (ll: Self)
        ensures
            ll@.len() == old(arr)@.len(),
            forall|i: int| 0 <= i < ll@.len() ==> cloned::<T>(old(arr)@[i], #[trigger] ll@[i]),
            ll.wf(),
    {
        Self::from_vec(crate::clone_values(arr.as_slice()))
    }
}

impl<'a, T: Clone, const N: usize> vstd::std_specs::convert::FromSpecImpl<&'a mut [T; N]> for LinkedList<T> {
    open spec fn obeys_from_spec() -> bool {
        false
    }

    open spec fn from_spec(arr: &'a mut [T; N]) -> Self {
        choose|ll: LinkedList<T>|
            ll.wf() && ll@.len() == arr@.len() && (forall|i: int|
                0 <= i < ll@.len() ==> cloned::<T>(arr@[i], #[trigger] ll@[i]))
    }
}

impl<T, const N: usize> From<[T; N]> for LinkedList<T> {
    /// Build a linked list holding the array's values in order.
    fn from(arr: [T; N]) -> (ll: Self)
        ensures
            ll.wf(),
            ll@ == arr@,
    {
        Self::from_vec(crate::array_into_vec(arr))
    }
}

impl<T, const N: usize> vstd::std_specs::convert::FromSpecImpl<[T; N]> for LinkedList<T> {
    open spec fn obeys_from_spec() -> bool {
        false
    }

    open spec fn from_spec(arr: [T; N]) -> Self {
        choose|ll: LinkedList<T>| ll.wf() && ll@ == arr@
    }
}

impl<T> Default for LinkedList<T> {
    /// The default linked list is empty.
    fn default() -> (ll: Self)
        ensures
            ll.wf(),
            ll@ == Seq::<T>::empty(),
    {
        Self::new()
    }
}

} // verus!

