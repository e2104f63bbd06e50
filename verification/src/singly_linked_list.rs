//! A singly linked list: an owned forward-only chain of nodes.

use vstd::prelude::*;

verus! {

/// One link in the chain: a value together with exclusive ownership of the
/// remainder of the chain.
pub struct Node<T> {
    pub value: T,
    pub next: Option<Box<Node<T>>>,
}

impl<T> Node<T> {
    /// The values stored in the chain that starts at this node, front first.
    pub open spec fn chain(self) -> Seq<T>
        decreases self,
    {
        match self.next {
            None => seq![self.value],
            Some(rest) => seq![self.value] + rest.chain(),
        }
    }

    pub fn new(value: T) -> (n: Self)
        ensures
            n.value == value,
            n.next is None,
    {
        Node { value, next: None }
    }
}

/// A forward-only list of owned nodes. Its view is the sequence of stored
/// values from the head onward; the head is `None` exactly when the list is
/// empty.
pub struct SinglyLinkedList<T> {
    head: Option<Box<Node<T>>>,
}

impl<T> View for SinglyLinkedList<T> {
    type V = Seq<T>;

    closed spec fn view(&self) -> Seq<T> {
        match self.head {
            None => Seq::empty(),
            Some(n) => n.chain(),
        }
    }
}

impl<T> SinglyLinkedList<T> {
    pub fn new() -> (l: Self)
        ensures
            l@ == Seq::<T>::empty(),
    {
        SinglyLinkedList { head: None }
    }

    /// The pushed value becomes the new head; the old head becomes its
    /// successor.
    pub fn push_front(&mut self, value: T)
        ensures
            final(self)@ == old(self)@.insert(0, value),
    {
        let mut new_node = Box::new(Node::new(value));
        let old_head = self.head.take();
        match old_head {
            Some(h) => {
                new_node.next = Some(h);
                self.head = Some(new_node);
            }
            None => {
                self.head = Some(new_node);
            }
        }
        proof {
            assert(self@ =~= old(self)@.insert(0, value));
        }
    }

    /// Removes and returns the head's value, promoting its successor; `None`
    /// exactly when the list is empty, in which case the list is unchanged.
    pub fn pop_front(&mut self) -> (r: Option<T>)
        ensures
            match r {
                None => old(self)@.len() == 0 && *final(self) == *old(self),
                Some(v) => {
                    &&& old(self)@.len() > 0
                    &&& v == old(self)@[0]
                    &&& final(self)@ == old(self)@.drop_first()
                },
            },
    {
        let old_head = self.head.take();
        match old_head {
            Some(h) => {
                let node = *h;
                self.head = node.next;
                proof {
                    assert(self@ =~= old(self)@.drop_first());
                }
                Some(node.value)
            }
            None => None,
        }
    }

    /// A reference to the head's value, or `None` exactly when the list is
    /// empty.
    pub fn peek(&self) -> (r: Option<&T>)
        ensures
            match r {
                None => self@.len() == 0,
                Some(v) => self@.len() > 0 && *v == self@[0],
            },
    {
        match &self.head {
            Some(node) => Some(&node.value),
            None => None,
        }
    }

    pub fn is_empty(&self) -> (r: bool)
        ensures
            r == (self@.len() == 0),
    {
        self.head.is_none()
    }
}

impl<T: Default> Default for SinglyLinkedList<T> {
    fn default() -> (l: Self)
        ensures
            l@ == Seq::<T>::empty(),
    {
        SinglyLinkedList::new()
    }
}

/// Round trip: pushing `v` on the front of a list whose view is `s` and
/// immediately popping the front returns `v` and restores the view `s`.
/// The first clause also states that after any push the head seen by `peek`
/// is the value pushed most recently.
pub proof fn lemma_push_front_pop_front_round_trip<T>(s: Seq<T>, v: T)
    ensures
        s.insert(0, v)[0] == v,
        s.insert(0, v).drop_first() == s,
        s.insert(0, v).len() == s.len() + 1,
{
    assert(s.insert(0, v).drop_first() =~= s);
}

} // verus!
