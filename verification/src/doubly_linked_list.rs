//! A doubly linked list with constant-time operations at both ends and
//! indexed insertion and lookup.
//!
//! Nodes live in a slot arena (a dense vector) and address one another by
//! stable slot numbers instead of pointers, so the `prev`/`next` aliasing of
//! a pointer-based chain becomes plain indices with an explicit invariant.
//! A ghost sequence records which arena slot holds each list position, front
//! to back; removal swaps the last arena slot into the vacated one so that
//! the arena stays dense and no storage outlives the list's knowledge of it.

use vstd::prelude::*;

verus! {

broadcast use vstd::set::group_set_axioms;

/// One node of the chain: a value and the slot numbers of its neighbors.
pub struct Node<T> {
    pub value: T,
    pub prev: Option<usize>,
    pub next: Option<usize>,
}

impl<T> Node<T> {
    pub fn new(value: T) -> (n: Self)
        ensures
            n.value == value,
            n.prev is None,
            n.next is None,
    {
        Node { value, prev: None, next: None }
    }
}

/// The list: a dense arena of nodes, the slot numbers of the first and last
/// node, and the length. The ghost `slots` sequence lists the arena slot of
/// each list position from front to back; `wf` ties the `prev`/`next` slot
/// numbers, `head`, `tail` and `len` to it.
pub struct DoublyLinkedList<T> {
    nodes: Vec<Node<T>>,
    head: Option<usize>,
    tail: Option<usize>,
    len: usize,
    slots: Ghost<Seq<int>>,
}

impl<T> View for DoublyLinkedList<T> {
    type V = Seq<T>;

    closed spec fn view(&self) -> Seq<T> {
        Seq::new(self.slots@.len(), |k: int| self.nodes@[self.slots@[k]].value)
    }
}

impl<T> DoublyLinkedList<T> {
    /// The chain structure: every listed slot is a valid arena slot, no slot
    /// is listed twice, each node's `prev` and `next` name the slots of its
    /// list neighbors, and `head`, `tail` and `len` agree with the slot
    /// listing. (Stated separately from `wf` so that removal can speak of an
    /// arena that still holds one extra, unlisted slot.)
    spec fn chain_ok(self) -> bool {
        let ord = self.slots@;
        &&& self.len == ord.len()
        &&& ord.no_duplicates()
        &&& (forall|k: int| 0 <= k < ord.len() ==> 0 <= #[trigger] ord[k] < self.nodes@.len())
        &&& (forall|k: int| #![trigger self.nodes@[ord[k]]]
            0 <= k < ord.len() ==> self.nodes@[ord[k]].prev == (if k == 0 {
                Option::<usize>::None
            } else {
                Some(ord[k - 1] as usize)
            }))
        &&& (forall|k: int| #![trigger self.nodes@[ord[k]]]
            0 <= k < ord.len() ==> self.nodes@[ord[k]].next == (if k == ord.len() - 1 {
                Option::<usize>::None
            } else {
                Some(ord[k + 1] as usize)
            }))
        &&& self.head == (if ord.len() == 0 {
            Option::<usize>::None
        } else {
            Some(ord[0] as usize)
        })
        &&& self.tail == (if ord.len() == 0 {
            Option::<usize>::None
        } else {
            Some(ord[ord.len() - 1] as usize)
        })
    }

    /// Well-formedness: the chain structure holds and every arena slot is
    /// part of the chain.
    pub closed spec fn wf(self) -> bool {
        &&& self.chain_ok()
        &&& self.nodes@.len() == self.slots@.len()
    }

    pub fn new() -> (l: Self)
        ensures
            l@ == Seq::<T>::empty(),
            l.wf(),
    {
        let l = DoublyLinkedList {
            nodes: Vec::new(),
            head: None,
            tail: None,
            len: 0,
            slots: Ghost(Seq::empty()),
        };
        proof {
            assert(l@ =~= Seq::<T>::empty());
        }
        l
    }

    pub fn is_empty(&self) -> (r: bool)
        requires
            self.wf(),
        ensures
            r == (self@.len() == 0),
    {
        self.len == 0
    }

    /// Allocates a node for the value and links it as the new head; if the
    /// list was empty it becomes the tail as well.
    #[verifier::rlimit(100)]
    pub fn push_front(&mut self, value: T)
        requires
            old(self).wf(),
        ensures
            final(self).wf(),
            final(self)@ == old(self)@.insert(0, value),
    {
        let j = self.nodes.len();
        let old_head = self.head;
        self.nodes.push(Node { value, prev: None, next: old_head });
        match old_head {
            None => {
                self.tail = Some(j);
            }
            Some(h) => {
                self.nodes[h].prev = Some(j);
            }
        }
        self.head = Some(j);
        self.len = self.nodes.len();
        proof {
            self.slots@ = old(self).slots@.insert(0, j as int);
            let ord0 = old(self).slots@;
            let ord = self.slots@;
            assert(ord[0] == j as int);
            assert forall|k: int| 0 <= k < ord.len() implies #[trigger] ord[k] == (if k == 0 {
                j as int
            } else {
                ord0[k - 1]
            }) by {
                ord0.insert_ensures(0, j as int);
            }
            assert forall|k1: int, k2: int|
                0 <= k1 < ord.len() && 0 <= k2 < ord.len() && k1 != k2 implies ord[k1]
                != ord[k2] by {
                if k1 != 0 && k2 != 0 {
                    assert(ord0[k1 - 1] != ord0[k2 - 1]);
                }
            }
            assert(self.wf());
            assert(self@ =~= old(self)@.insert(0, value));
        }
    }

    /// Allocates a node for the value and links it as the new tail; if the
    /// list was empty it becomes the head as well.
    #[verifier::rlimit(100)]
    pub fn push_back(&mut self, value: T)
        requires
            old(self).wf(),
        ensures
            final(self).wf(),
            final(self)@ == old(self)@.push(value),
    {
        let j = self.nodes.len();
        let old_tail = self.tail;
        self.nodes.push(Node { value, prev: old_tail, next: None });
        match old_tail {
            None => {
                self.head = Some(j);
            }
            Some(t) => {
                self.nodes[t].next = Some(j);
            }
        }
        self.tail = Some(j);
        self.len = self.nodes.len();
        proof {
            self.slots@ = old(self).slots@.push(j as int);
            let ord0 = old(self).slots@;
            let ord = self.slots@;
            assert forall|k1: int, k2: int|
                0 <= k1 < ord.len() && 0 <= k2 < ord.len() && k1 != k2 implies ord[k1]
                != ord[k2] by {
                if k1 < ord.len() - 1 && k2 < ord.len() - 1 {
                    assert(ord0[k1] != ord0[k2]);
                }
            }
            assert(self.wf());
            assert(self@ =~= old(self)@.push(value));
        }
    }

    /// Detaches the head node, reclaims its arena slot and returns its
    /// value, promoting its successor to head; `None` exactly when the list
    /// is empty, in which case nothing changes.
    #[verifier::rlimit(100)]
    pub fn pop_front(&mut self) -> (r: Option<T>)
        requires
            old(self).wf(),
        ensures
            final(self).wf(),
            match r {
                None => old(self)@.len() == 0 && *final(self) == *old(self),
                Some(v) => {
                    &&& old(self)@.len() > 0
                    &&& v == old(self)@[0]
                    &&& final(self)@ == old(self)@.drop_first()
                },
            },
    {
        match self.head {
            None => None,
            Some(h) => {
                let nxt = self.nodes[h].next;
                match nxt {
                    None => {
                        self.tail = None;
                    }
                    Some(n2) => {
                        self.nodes[n2].prev = None;
                    }
                }
                self.head = nxt;
                self.len = self.len - 1;
                proof {
                    self.slots@ = old(self).slots@.drop_first();
                    let ord0 = old(self).slots@;
                    let ord = self.slots@;
                    assert forall|k1: int, k2: int|
                        0 <= k1 < ord.len() && 0 <= k2 < ord.len() && k1 != k2 implies ord[k1]
                        != ord[k2] by {
                        assert(ord0[k1 + 1] != ord0[k2 + 1]);
                    }
                    assert forall|k: int| 0 <= k < ord.len() implies !(#[trigger] ord[k] == h as int) by {
                        assert(ord0[k + 1] != ord0[0]);
                    }
                    assert(self.chain_ok());
                }
                let node = self.detach(h);
                proof {
                    assert(self@ =~= old(self)@.drop_first());
                }
                Some(node.value)
            }
        }
    }

    /// Detaches the tail node, reclaims its arena slot and returns its
    /// value, promoting its predecessor to tail; `None` exactly when the
    /// list is empty, in which case nothing changes.
    #[verifier::rlimit(100)]
    pub fn pop_back(&mut self) -> (r: Option<T>)
        requires
            old(self).wf(),
        ensures
            final(self).wf(),
            match r {
                None => old(self)@.len() == 0 && *final(self) == *old(self),
                Some(v) => {
                    &&& old(self)@.len() > 0
                    &&& v == old(self)@.last()
                    &&& final(self)@ == old(self)@.drop_last()
                },
            },
    {
        match self.tail {
            None => None,
            Some(t) => {
                let prv = self.nodes[t].prev;
                match prv {
                    None => {
                        self.head = None;
                    }
                    Some(p2) => {
                        self.nodes[p2].next = None;
                    }
                }
                self.tail = prv;
                self.len = self.len - 1;
                proof {
                    self.slots@ = old(self).slots@.drop_last();
                    let ord0 = old(self).slots@;
                    let ord = self.slots@;
                    let last = ord0.len() - 1;
                    assert forall|k: int| 0 <= k < ord.len() implies !(#[trigger] ord[k] == t as int) by {
                        assert(ord0[k] != ord0[last]);
                    }
                    assert(self.chain_ok());
                }
                let node = self.detach(t);
                proof {
                    assert(self@ =~= old(self)@.drop_last());
                }
                Some(node.value)
            }
        }
    }

    /// Reclaims the arena slot `h` of a node that is no longer part of the
    /// chain: the last arena slot is swapped into `h`, the links of the
    /// moved node's neighbors (or `head`/`tail`) are re-aimed at `h`, and
    /// the detached node is returned.
    #[verifier::rlimit(100)]
    fn detach(&mut self, h: usize) -> (node: Node<T>)
        requires
            old(self).chain_ok(),
            old(self).nodes@.len() == old(self).slots@.len() + 1,
            h < old(self).nodes@.len(),
            !old(self).slots@.contains(h as int),
        ensures
            final(self).wf(),
            final(self)@ == old(self)@,
            node == old(self).nodes@[h as int],
    {
        let m = self.nodes.len() - 1;
        let node = self.nodes.swap_remove(h);
        if h < m {
            proof {
                lemma_slot_listed(self.slots@, m + 1, h as int, m as int);
            }
            let ghost km = choose|k: int|
                0 <= k < self.slots@.len() && self.slots@[k] == m as int;
            let p2 = self.nodes[h].prev;
            let n3 = self.nodes[h].next;
            proof {
                assert(self.nodes@[h as int] == old(self).nodes@[m as int]);
                assert(p2 == (if km == 0 {
                    Option::<usize>::None
                } else {
                    Some(old(self).slots@[km - 1] as usize)
                }));
                assert(n3 == (if km == old(self).slots@.len() - 1 {
                    Option::<usize>::None
                } else {
                    Some(old(self).slots@[km + 1] as usize)
                }));
            }
            match p2 {
                None => {
                    self.head = Some(h);
                }
                Some(pi) => {
                    proof {
                        assert(old(self).slots@[km - 1] != old(self).slots@[km]);
                    }
                    self.nodes[pi].next = Some(h);
                }
            }
            match n3 {
                None => {
                    self.tail = Some(h);
                }
                Some(ni) => {
                    proof {
                        assert(old(self).slots@[km + 1] != old(self).slots@[km]);
                    }
                    self.nodes[ni].prev = Some(h);
                }
            }
            proof {
                self.slots@ = old(self).slots@.update(km, h as int);
                let ord0 = old(self).slots@;
                let ord = self.slots@;
                let n = ord.len();
                assert(ord[km] == h as int);
                assert forall|k1: int, k2: int|
                    0 <= k1 < n && 0 <= k2 < n && k1 != k2 implies ord[k1] != ord[k2] by {
                    assert(ord0[k1] != ord0[k2]);
                }
                assert forall|k: int| 0 <= k < n implies 0 <= #[trigger] ord[k]
                    < self.nodes@.len() by {
                    if k != km {
                        assert(ord0[k] != ord0[km]);
                    }
                }
                assert forall|k: int| #![trigger ord[k]]
                    0 <= k < n implies self.nodes@[ord[k]] == (Node {
                    value: old(self).nodes@[ord0[k]].value,
                    prev: if k == 0 {
                        Option::<usize>::None
                    } else {
                        Some(ord[k - 1] as usize)
                    },
                    next: if k == n - 1 {
                        Option::<usize>::None
                    } else {
                        Some(ord[k + 1] as usize)
                    },
                }) by {
                    if k == km {
                        assert(self.nodes@[h as int].value == old(self).nodes@[m as int].value);
                        assert(self.nodes@[h as int].prev == p2);
                        assert(self.nodes@[h as int].next == n3);
                    } else {
                        assert(ord0[k] != ord0[km]);
                        assert(ord[k] == ord0[k]);
                        if k == km - 1 {
                            assert(self.nodes@[ord0[k]].value == old(self).nodes@[ord0[k]].value);
                            assert(self.nodes@[ord0[k]].prev == old(self).nodes@[ord0[k]].prev);
                            assert(self.nodes@[ord0[k]].next == Some(h as usize));
                        } else if k == km + 1 {
                            assert(self.nodes@[ord0[k]].value == old(self).nodes@[ord0[k]].value);
                            assert(self.nodes@[ord0[k]].prev == Some(h as usize));
                            assert(self.nodes@[ord0[k]].next == old(self).nodes@[ord0[k]].next);
                        } else {
                            if km >= 1 {
                                assert(ord0[k] != ord0[km - 1]);
                            }
                            if km < n - 1 {
                                assert(ord0[k] != ord0[km + 1]);
                            }
                            assert(self.nodes@[ord0[k]] == old(self).nodes@[ord0[k]]);
                        }
                    }
                }
                assert(self.head == (if n == 0 {
                    Option::<usize>::None
                } else {
                    Some(ord[0] as usize)
                })) by {
                    if km != 0 {
                        assert(ord[0] == ord0[0]);
                    }
                }
                assert(self.tail == (if n == 0 {
                    Option::<usize>::None
                } else {
                    Some(ord[n - 1] as usize)
                })) by {
                    if km != n - 1 {
                        assert(ord[n - 1] == ord0[n - 1]);
                    }
                }
                assert(self.wf());
                assert forall|k: int| #![trigger ord[k]]
                    0 <= k < n implies self.nodes@[ord[k]].value == old(self).nodes@[ord0[
                    k]].value by {}
                lemma_view_congruence(*old(self), *self);
            }
        } else {
            proof {
                let ord = self.slots@;
                assert forall|k: int| 0 <= k < ord.len() implies 0 <= #[trigger] ord[k]
                    < self.nodes@.len() by {
                    assert(ord[k] != h as int);
                }
                assert(self.wf());
                assert(self@ =~= old(self)@);
            }
        }
        node
    }

    /// The arena slot of the node at list position `index`, found by walking
    /// `next` from the head.
    fn slot_of(&self, index: usize) -> (s: usize)
        requires
            self.wf(),
            index < self@.len(),
        ensures
            s as int == self.slots@[index as int],
    {
        let mut cur: usize = self.head.unwrap();
        let mut k: usize = 0;
        while k < index
            invariant
                self.wf(),
                index < self@.len(),
                k <= index,
                cur as int == self.slots@[k as int],
            decreases index - k,
        {
            cur = self.nodes[cur].next.unwrap();
            k = k + 1;
        }
        cur
    }

    /// Inserts the value at position `index`: position `0` is the front and
    /// any position at or past the length is the back; otherwise the new
    /// node is spliced between the node at `index - 1` and the node at
    /// `index`.
    #[verifier::rlimit(100)]
    pub fn insert_ith(&mut self, index: usize, value: T)
        requires
            old(self).wf(),
        ensures
            final(self).wf(),
            final(self)@ == old(self)@.insert(
                if index as int <= old(self)@.len() {
                    index as int
                } else {
                    old(self)@.len() as int
                },
                value,
            ),
    {
        if index == 0 {
            self.push_front(value);
            proof {
                assert(old(self)@.insert(0, value) =~= self@);
            }
        } else if index >= self.len {
            self.push_back(value);
            proof {
                assert(old(self)@.insert(old(self)@.len() as int, value) =~= old(self)@.push(
                    value,
                ));
            }
        } else {
            let cur = self.slot_of(index);
            let pi = self.nodes[cur].prev.unwrap();
            let j = self.nodes.len();
            self.nodes.push(Node { value, prev: Some(pi), next: Some(cur) });
            proof {
                assert(old(self).slots@[index - 1] != old(self).slots@[index as int]);
            }
            self.nodes[pi].next = Some(j);
            self.nodes[cur].prev = Some(j);
            self.len = self.nodes.len();
            proof {
                self.slots@ = old(self).slots@.insert(index as int, j as int);
                let ord0 = old(self).slots@;
                let ord = self.slots@;
                ord0.insert_ensures(index as int, j as int);
                assert forall|k1: int, k2: int|
                    0 <= k1 < ord.len() && 0 <= k2 < ord.len() && k1 != k2 implies ord[k1]
                    != ord[k2] by {
                    if k1 != index as int && k2 != index as int {
                        let p1: int = if k1 < index as int {
                            k1
                        } else {
                            k1 - 1
                        };
                        let p2: int = if k2 < index as int {
                            k2
                        } else {
                            k2 - 1
                        };
                        assert(ord0[p1] != ord0[p2]);
                    }
                }
                let i = index as int;
                assert forall|k: int| #![trigger ord[k]]
                    0 <= k < ord.len() implies 0 <= ord[k] < self.nodes@.len()
                    && self.nodes@[ord[k]].prev == (if k == 0 {
                    Option::<usize>::None
                } else {
                    Some(ord[k - 1] as usize)
                }) && self.nodes@[ord[k]].next == (if k == ord.len() - 1 {
                    Option::<usize>::None
                } else {
                    Some(ord[k + 1] as usize)
                }) by {
                    if k == i {
                        assert(ord[k] == j as int);
                        assert(self.nodes@[j as int].value == value);
                        assert(self.nodes@[j as int].prev == Some(pi));
                        assert(self.nodes@[j as int].next == Some(cur));
                        assert(ord[i - 1] == ord0[i - 1]);
                        assert(ord[i + 1] == ord0[i]);
                    } else if k == i - 1 {
                        assert(ord[k] == ord0[k]);
                        assert(self.nodes@[ord0[k]].next == Some(j as usize));
                        assert(self.nodes@[ord0[k]].prev == old(self).nodes@[ord0[k]].prev);
                    } else if k == i + 1 {
                        assert(ord[k] == ord0[i]);
                        assert(self.nodes@[ord0[i]].prev == Some(j as usize));
                        assert(self.nodes@[ord0[i]].next == old(self).nodes@[ord0[i]].next);
                        if k < ord.len() - 1 {
                            assert(ord[k + 1] == ord0[i + 1]);
                        }
                    } else {
                        let p: int = if k < i {
                            k
                        } else {
                            k - 1
                        };
                        assert(ord[k] == ord0[p]);
                        assert(ord0[p] != ord0[i - 1]);
                        assert(ord0[p] != ord0[i]);
                        assert(self.nodes@[ord0[p]] == old(self).nodes@[ord0[p]]);
                    }
                }
                assert(self.wf());
                assert forall|k: int| 0 <= k < ord.len() implies #[trigger] self@[k] == (if k
                    < i {
                    old(self)@[k]
                } else if k == i {
                    value
                } else {
                    old(self)@[k - 1]
                }) by {
                    if k != i {
                        let p: int = if k < i {
                            k
                        } else {
                            k - 1
                        };
                        assert(ord[k] == ord0[p]);
                        assert(self.nodes@[ord0[p]].value == old(self).nodes@[ord0[p]].value);
                    }
                }
                assert(self@ =~= old(self)@.insert(i, value));
            }
        }
    }

    /// A reference to the value at position `index`, or `None` exactly when
    /// `index` is out of range.
    pub fn peek_ith(&self, index: usize) -> (r: Option<&T>)
        requires
            self.wf(),
        ensures
            match r {
                None => index >= self@.len(),
                Some(v) => index < self@.len() && *v == self@[index as int],
            },
    {
        if index >= self.len {
            return None;
        }
        let cur = self.slot_of(index);
        Some(&self.nodes[cur].value)
    }

    /// A reference to the first value, or `None` exactly when the list is
    /// empty.
    pub fn peek_front(&self) -> (r: Option<&T>)
        requires
            self.wf(),
        ensures
            match r {
                None => self@.len() == 0,
                Some(v) => self@.len() > 0 && *v == self@[0],
            },
    {
        match self.head {
            None => None,
            Some(h) => Some(&self.nodes[h].value),
        }
    }

    /// A reference to the last value, or `None` exactly when the list is
    /// empty.
    pub fn peek_back(&self) -> (r: Option<&T>)
        requires
            self.wf(),
        ensures
            match r {
                None => self@.len() == 0,
                Some(v) => self@.len() > 0 && *v == self@[self@.len() - 1],
            },
    {
        match self.tail {
            None => None,
            Some(t) => Some(&self.nodes[t].value),
        }
    }
}

impl<T> DoublyLinkedList<T> {
    /// The values read by walking forward along `next` from `slot`,
    /// stopping at `None`, at an invalid slot, or after `fuel` steps.
    pub closed spec fn walk_next(self, slot: Option<usize>, fuel: nat) -> Seq<T>
        decreases fuel,
    {
        match slot {
            None => Seq::empty(),
            Some(i) => if fuel == 0 || i >= self.nodes@.len() {
                Seq::empty()
            } else {
                seq![self.nodes@[i as int].value] + self.walk_next(
                    self.nodes@[i as int].next,
                    (fuel - 1) as nat,
                )
            },
        }
    }

    /// The values reachable from the head along `next`.
    pub closed spec fn forward_values(self) -> Seq<T> {
        self.walk_next(self.head, self.nodes@.len())
    }

    /// The values read by walking backward along `prev` from `slot`,
    /// stopping at `None`, at an invalid slot, or after `fuel` steps.
    pub closed spec fn walk_prev(self, slot: Option<usize>, fuel: nat) -> Seq<T>
        decreases fuel,
    {
        match slot {
            None => Seq::empty(),
            Some(i) => if fuel == 0 || i >= self.nodes@.len() {
                Seq::empty()
            } else {
                seq![self.nodes@[i as int].value] + self.walk_prev(
                    self.nodes@[i as int].prev,
                    (fuel - 1) as nat,
                )
            },
        }
    }

    /// The values reachable from the tail along `prev`.
    pub closed spec fn backward_values(self) -> Seq<T> {
        self.walk_prev(self.tail, self.nodes@.len())
    }
}

/// Walking forward from the slot at position `k` visits exactly the view
/// from position `k` on.
proof fn lemma_walk_next_from<T>(l: DoublyLinkedList<T>, k: int, fuel: nat)
    requires
        l.wf(),
        0 <= k <= l.slots@.len(),
        fuel >= l.slots@.len() - k,
    ensures
        l.walk_next(
            if k == l.slots@.len() {
                Option::<usize>::None
            } else {
                Some(l.slots@[k] as usize)
            },
            fuel,
        ) == l@.subrange(k, l.slots@.len() as int),
    decreases l.slots@.len() - k,
{
    let n = l.slots@.len() as int;
    if k == n {
        assert(l@.subrange(n, n) =~= Seq::<T>::empty());
    } else {
        let i = l.slots@[k];
        assert(l.nodes@[i].next == (if k == n - 1 {
            Option::<usize>::None
        } else {
            Some(l.slots@[k + 1] as usize)
        }));
        lemma_walk_next_from(l, k + 1, (fuel - 1) as nat);
        assert(l@.subrange(k, n) =~= seq![l@[k]] + l@.subrange(k + 1, n));
    }
}

/// Walking backward from the slot at position `k` visits exactly the
/// reverse of the view up to and including position `k`.
proof fn lemma_walk_prev_from<T>(l: DoublyLinkedList<T>, k: int, fuel: nat)
    requires
        l.wf(),
        -1 <= k < l.slots@.len(),
        fuel >= k + 1,
    ensures
        l.walk_prev(
            if k < 0 {
                Option::<usize>::None
            } else {
                Some(l.slots@[k] as usize)
            },
            fuel,
        ) == l@.subrange(0, k + 1).reverse(),
    decreases k + 1,
{
    if k < 0 {
        assert(l@.subrange(0, 0).reverse() =~= Seq::<T>::empty());
    } else {
        let i = l.slots@[k];
        assert(l.nodes@[i].prev == (if k == 0 {
            Option::<usize>::None
        } else {
            Some(l.slots@[k - 1] as usize)
        }));
        lemma_walk_prev_from(l, k - 1, (fuel - 1) as nat);
        assert(l@.subrange(0, k + 1).reverse() =~= seq![l@[k]] + l@.subrange(0, k).reverse());
    }
}

/// After any sequence of operations the stored length agrees with a walk of
/// the chain: following `next` from the head visits exactly the view, so
/// the walk reaches `None` after exactly `len` nodes.
pub proof fn lemma_forward_walk_matches<T>(l: DoublyLinkedList<T>)
    requires
        l.wf(),
    ensures
        l.forward_values() == l@,
        l.forward_values().len() == l@.len(),
{
    lemma_walk_next_from(l, 0, l.nodes@.len());
    assert(l@.subrange(0, l.slots@.len() as int) =~= l@);
}

/// Walking backward from the tail along `prev` yields the reverse of the
/// view: the element `i` positions from the front (what `peek_ith(i)`
/// returns) is the element `len - 1 - i` positions from the back.
pub proof fn lemma_backward_walk_reverses<T>(l: DoublyLinkedList<T>)
    requires
        l.wf(),
    ensures
        l.backward_values() == l@.reverse(),
        forall|i: int|
            0 <= i < l@.len() ==> l.backward_values()[l@.len() - 1 - i] == #[trigger] l@[i],
{
    lemma_walk_prev_from(l, l.slots@.len() - 1, l.nodes@.len());
    assert(l@.subrange(0, l@.len() as int) =~= l@);
}

/// Inserting at position `0` is pushing at the front, and inserting at the
/// length is pushing at the back: at the ends, `insert_ith` agrees with
/// `push_front` and `push_back`.
pub proof fn lemma_insert_at_ends<T>(s: Seq<T>, v: T)
    ensures
        s.insert(0, v) == seq![v] + s,
        s.insert(s.len() as int, v) == s.push(v),
{
    assert(s.insert(0, v) =~= seq![v] + s);
    assert(s.insert(s.len() as int, v) =~= s.push(v));
}

/// First-in first-out: pushing at the back does not disturb what the next
/// pop of the front returns, and the two operations commute. Hence pushing
/// N values at the back and popping the front N times returns them in push
/// order, while pushing them at the front instead returns them in reverse
/// order, the last pushed first.
pub proof fn lemma_fifo_commutes<T>(s: Seq<T>, v: T)
    requires
        s.len() > 0,
    ensures
        s.push(v)[0] == s[0],
        s.push(v).drop_first() == s.drop_first().push(v),
{
    assert(s.push(v).drop_first() =~= s.drop_first().push(v));
}

impl<T: Default> Default for DoublyLinkedList<T> {
    fn default() -> (l: Self)
        ensures
            l@ == Seq::<T>::empty(),
            l.wf(),
    {
        DoublyLinkedList::new()
    }
}

/// Two lists whose slot listings pick out equal values slot by slot have
/// equal views.
proof fn lemma_view_congruence<T>(a: DoublyLinkedList<T>, b: DoublyLinkedList<T>)
    requires
        a.slots@.len() == b.slots@.len(),
        forall|k: int| #![trigger b.slots@[k]]
            0 <= k < b.slots@.len() ==> a.nodes@[a.slots@[k]].value == b.nodes@[b.slots@[
            k]].value,
    ensures
        a@ == b@,
{
    assert(a@ =~= b@);
}

/// A duplicate-free listing of `n - 1` slots drawn from `0 .. n` that avoids
/// the slot `h` must list every other slot, in particular `x`.
proof fn lemma_slot_listed(ord: Seq<int>, n: int, h: int, x: int)
    requires
        ord.no_duplicates(),
        ord.len() + 1 == n,
        forall|k: int| 0 <= k < ord.len() ==> 0 <= #[trigger] ord[k] < n,
        0 <= h < n,
        !ord.contains(h),
        0 <= x < n,
        x != h,
    ensures
        ord.contains(x),
{
    if !ord.contains(x) {
        let s = ord.to_set();
        ord.unique_seq_to_set();
        let r = vstd::set_lib::set_int_range(0, n);
        vstd::set_lib::lemma_int_range(0, n);
        let r2 = r.remove(h).remove(x);
        assert(s.subset_of(r2)) by {
            assert forall|y: int| s.contains(y) implies r2.contains(y) by {
                assert(ord.contains(y));
            }
        }
        vstd::set_lib::lemma_len_subset(s, r2);
        assert(r2.len() == n - 2);
        assert(false);
    }
}

} // verus!
