//! A binary heap (priority queue) ordered by a pluggable comparator.
//!
//! The backing storage is a dense sequence laid out as a complete binary
//! tree: the children of the element at index `i` sit at indices `2*i + 1`
//! and `2*i + 2`. The heap invariant says that no element should rise above
//! its parent according to the comparator.

use vstd::prelude::*;

verus! {

broadcast use vstd::seq_lib::group_to_multiset_ensures;

/// An injected strict-weak-order comparison strategy. `precedes(a, b)` says
/// that `a` should rise above `b` in the heap; implementors must prove that
/// the relation is asymmetric and that incomparability is transitive, which
/// together make it a strict weak order.
pub trait Comparator<T>: Sized {
    /// Whether `a` should be ranked strictly before `b`.
    spec fn precedes(self, a: T, b: T) -> bool;

    /// A strict ordering never holds in both directions.
    proof fn asymmetry(self, a: T, b: T)
        requires
            self.precedes(a, b),
        ensures
            !self.precedes(b, a),
    ;

    /// "Does not precede" is transitive (equivalently: incomparable elements
    /// form equivalence classes).
    proof fn negative_transitivity(self, a: T, b: T, c: T)
        requires
            !self.precedes(a, b),
            !self.precedes(b, c),
        ensures
            !self.precedes(a, c),
    ;

    /// The executable comparison, which agrees with `precedes`.
    fn lt(&self, a: &T, b: &T) -> (r: bool)
        ensures
            r == self.precedes(*a, *b),
    ;
}

/// A strict weak order is transitive: derived from asymmetry and negative
/// transitivity.
pub proof fn lemma_precedes_transitive<T, C: Comparator<T>>(c: C, a: T, b: T, d: T)
    requires
        c.precedes(a, b),
        c.precedes(b, d),
    ensures
        c.precedes(a, d),
{
    if !c.precedes(a, d) {
        c.asymmetry(b, d);
        c.negative_transitivity(a, d, b);
    }
}

/// A strict weak order is irreflexive: derived from asymmetry.
pub proof fn lemma_precedes_irreflexive<T, C: Comparator<T>>(c: C, a: T)
    ensures
        !c.precedes(a, a),
{
    if c.precedes(a, a) {
        c.asymmetry(a, a);
    }
}

/// The index of the parent of the node at index `i` in the implicit tree.
pub open spec fn parent_index(i: int) -> int {
    (i - 1) / 2
}

/// The heap invariant: no element precedes its parent.
pub open spec fn heap_ordered<T, C: Comparator<T>>(c: C, s: Seq<T>) -> bool {
    forall|j: int| #![trigger s[j]] 1 <= j < s.len() ==> !c.precedes(s[j], s[parent_index(j)])
}

/// The heap invariant holds everywhere except possibly between `idx` and its
/// parent.
spec fn heap_ordered_except_at<T, C: Comparator<T>>(c: C, s: Seq<T>, idx: int) -> bool {
    forall|j: int| #![trigger s[j]]
        1 <= j < s.len() && j != idx ==> !c.precedes(s[j], s[parent_index(j)])
}

/// The heap invariant holds everywhere except possibly between `idx` and its
/// children.
spec fn heap_ordered_except_below<T, C: Comparator<T>>(c: C, s: Seq<T>, idx: int) -> bool {
    forall|j: int| #![trigger s[j]]
        1 <= j < s.len() && parent_index(j) != idx ==> !c.precedes(s[j], s[parent_index(j)])
}

/// Across the possibly disordered position `idx`, the children of `idx` are
/// still in order with respect to the parent of `idx`.
spec fn hole_bridged<T, C: Comparator<T>>(c: C, s: Seq<T>, idx: int) -> bool {
    idx >= 1 ==> forall|j: int| #![trigger s[j]]
        1 <= j < s.len() && parent_index(j) == idx ==> !c.precedes(s[j], s[parent_index(idx)])
}

/// Exchanging two elements of a sequence preserves its multiset of values.
proof fn lemma_swap_preserves_multiset<T>(s: Seq<T>, i: int, j: int)
    requires
        0 <= i < s.len(),
        0 <= j < s.len(),
    ensures
        s.update(i, s[j]).update(j, s[i]).to_multiset() == s.to_multiset(),
{
    let t = s.update(i, s[j]).update(j, s[i]);
    if i == j {
        assert(t =~= s);
    } else {
        assert(s.contains(s[i]));
        assert(s.contains(s[j]));
        let s1 = s.update(i, s[j]);
        assert(s1.to_multiset() == s.to_multiset().insert(s[j]).remove(s[i]));
        assert(s1[j] == s[j]);
        assert(t.to_multiset() == s1.to_multiset().insert(s[i]).remove(s1[j]));
        assert(t.to_multiset() =~= s.to_multiset());
    }
}

/// Exchanges the elements at indices `i` and `j`.
fn swap_at<T>(v: &mut Vec<T>, i: usize, j: usize)
    requires
        i < j,
        j < old(v)@.len(),
    ensures
        final(v)@ == old(v)@.update(i as int, old(v)@[j as int]).update(j as int, old(v)@[i as int]),
{
    let s = v.as_mut_slice();
    let (left, right) = s.split_at_mut(j);
    let (front, mid) = left.split_at_mut(i);
    let a = mid.first_mut();
    let b = right.first_mut();
    match (a, b) {
        (Some(x), Some(y)) => {
            core::mem::swap(x, y);
        }
        _ => {
            proof {
                assert(false);
            }
        }
    }
    proof {
        assert(front@.len() == i);
        assert(v@ =~= old(v)@.update(i as int, old(v)@[j as int]).update(j as int, old(v)@[i as int]));
    }
}

/// An array-backed binary heap whose order is given by an injected
/// comparator. Its view is the backing sequence; `wf` says that the view
/// satisfies the heap invariant for that comparator.
pub struct Heap<T, C: Comparator<T>> {
    data: Vec<T>,
    comparator: C,
}

impl<T, C: Comparator<T>> View for Heap<T, C> {
    type V = Seq<T>;

    closed spec fn view(&self) -> Seq<T> {
        self.data@
    }
}

impl<T, C: Comparator<T>> Heap<T, C> {
    /// The comparator this heap was constructed with.
    pub closed spec fn order(self) -> C {
        self.comparator
    }

    /// Well-formedness: the backing sequence satisfies the heap invariant.
    pub open spec fn wf(self) -> bool {
        heap_ordered(self.order(), self@)
    }

    /// Constructs an empty heap with the given strict ordering strategy.
    pub fn new(comparator: C) -> (h: Self)
        ensures
            h@ == Seq::<T>::empty(),
            h.order() == comparator,
            h.wf(),
    {
        Heap { data: Vec::new(), comparator }
    }

    /// Appends the value at the end of the backing sequence, then bubbles it
    /// up until it no longer precedes its parent. The contents grow by
    /// exactly the pushed value and the heap invariant is preserved.
    pub fn push(&mut self, value: T)
        requires
            old(self).wf(),
        ensures
            final(self).wf(),
            final(self).order() == old(self).order(),
            final(self)@.len() == old(self)@.len() + 1,
            final(self)@.to_multiset() == old(self)@.to_multiset().insert(value),
    {
        self.data.push(value);
        let last = self.data.len() - 1;
        proof {
            assert(self@ == old(self)@.push(value));
            assert forall|j: int| 1 <= j < self@.len() && j != last as int
                implies !self.order().precedes(self@[j], self@[parent_index(j)]) by {
                assert(self@[j] == old(self)@[j]);
                assert(parent_index(j) < j);
                assert(self@[parent_index(j)] == old(self)@[parent_index(j)]);
            }
        }
        self.bubble_up(last);
    }

    /// Removes and returns the root: the element that precedes-or-ties every
    /// element of the heap. The last element is swapped into the root slot
    /// and bubbled down. On an empty heap returns `None` and changes
    /// nothing.
    pub fn pop(&mut self) -> (r: Option<T>)
        requires
            old(self).wf(),
        ensures
            final(self).wf(),
            final(self).order() == old(self).order(),
            match r {
                None => old(self)@.len() == 0 && *final(self) == *old(self),
                Some(v) => {
                    &&& old(self)@.len() > 0
                    &&& v == old(self)@[0]
                    &&& final(self)@.len() == old(self)@.len() - 1
                    &&& final(self)@.to_multiset() == old(self)@.to_multiset().remove(v)
                    &&& forall|j: int| 0 <= j < old(self)@.len()
                        ==> !old(self).order().precedes(#[trigger] old(self)@[j], v)
                },
            },
    {
        if self.data.is_empty() {
            return None;
        }
        proof {
            lemma_root_minimal(self.order(), self@);
        }
        let popped_value = self.data.swap_remove(0);
        proof {
            let s = old(self)@;
            let t = self@;
            assert(t =~= s.update(0, s.last()).drop_last());
            assert(t.to_multiset() == s.to_multiset().remove(popped_value)) by {
                assert(s.update(0, s.last()).to_multiset()
                    == s.to_multiset().insert(s.last()).remove(s[0]));
                assert(s.update(0, s.last()).drop_last()
                    =~= s.update(0, s.last()).remove(s.len() - 1));
                assert(s.update(0, s.last()).remove(s.len() - 1).to_multiset()
                    == s.update(0, s.last()).to_multiset().remove(s.update(0, s.last())[s.len() - 1]));
                assert(s.contains(s[0]));
                if s.len() > 1 {
                    assert(s.update(0, s.last())[s.len() - 1] == s.last());
                    assert(s.to_multiset().insert(s.last()).remove(s[0]).remove(s.last())
                        =~= s.to_multiset().remove(s[0]));
                } else {
                    assert(s.update(0, s.last())[s.len() - 1] == s.last());
                    assert(s[0] == s.last());
                    assert(s.to_multiset().insert(s.last()).remove(s[0]).remove(s.last())
                        =~= s.to_multiset().remove(s[0]));
                }
            }
            assert forall|j: int| 1 <= j < t.len() && parent_index(j) != 0
                implies !self.order().precedes(t[j], t[parent_index(j)]) by {
                assert(parent_index(j) >= 1);
                assert(t[j] == s[j]);
                assert(t[parent_index(j)] == s[parent_index(j)]);
            }
        }
        self.bubble_down(0);
        Some(popped_value)
    }

    /// A reference to the root without removing it, or `None` exactly when
    /// the heap is empty. The root is what the next `pop` would return.
    pub fn peek(&self) -> (r: Option<&T>)
        ensures
            match r {
                None => self@.len() == 0,
                Some(v) => self@.len() > 0 && *v == self@[0],
            },
    {
        if self.data.is_empty() {
            None
        } else {
            Some(&self.data[0])
        }
    }

    /// Restores the heap invariant by repeatedly swapping the element at
    /// `index` with its parent while the comparator says it should precede
    /// the parent.
    fn bubble_up(&mut self, index: usize)
        requires
            index < old(self)@.len(),
            heap_ordered_except_at(old(self).order(), old(self)@, index as int),
            hole_bridged(old(self).order(), old(self)@, index as int),
        ensures
            final(self).wf(),
            final(self).order() == old(self).order(),
            final(self)@.len() == old(self)@.len(),
            final(self)@.to_multiset() == old(self)@.to_multiset(),
    {
        let mut index = index;
        loop
            invariant
                index < self@.len(),
                self.order() == old(self).order(),
                self@.len() == old(self)@.len(),
                self@.to_multiset() == old(self)@.to_multiset(),
                heap_ordered_except_at(self.order(), self@, index as int),
                hole_bridged(self.order(), self@, index as int),
            ensures
                self.order() == old(self).order(),
                self@.len() == old(self)@.len(),
                self@.to_multiset() == old(self)@.to_multiset(),
                heap_ordered(self.order(), self@),
            decreases index,
        {
            if index == 0 {
                break;
            }
            let parent = (index - 1) / 2;
            if self.comparator.lt(&self.data[index], &self.data[parent]) {
                let ghost c = self.order();
                let ghost s = self@;
                let ghost i = index as int;
                let ghost p = parent as int;
                swap_at(&mut self.data, parent, index);
                proof {
                    let t = self@;
                    assert(t == s.update(p, s[i]).update(i, s[p]));
                    lemma_swap_preserves_multiset(s, p, i);
                    assert(c.precedes(s[i], s[p]));
                    assert forall|j: int| 1 <= j < t.len() && j != p
                        implies !c.precedes(t[j], t[parent_index(j)]) by {
                        let pj = parent_index(j);
                        assert(0 <= pj < j);
                        if j == i {
                            c.asymmetry(s[i], s[p]);
                        } else if pj == i {
                            assert(s[j] == t[j]);
                            assert(!c.precedes(s[j], s[parent_index(i)]));
                        } else if pj == p {
                            assert(s[j] == t[j]);
                            assert(!c.precedes(s[j], s[p]));
                            if c.precedes(s[j], s[i]) {
                                lemma_precedes_transitive(c, s[j], s[i], s[p]);
                            }
                        } else {
                            assert(t[j] == s[j]);
                            assert(t[pj] == s[pj]);
                        }
                    }
                    if p >= 1 {
                        let gp = parent_index(p);
                        assert(0 <= gp < p);
                        assert forall|j: int| 1 <= j < t.len() && parent_index(j) == p
                            implies !c.precedes(t[j], t[gp]) by {
                            assert(t[gp] == s[gp]);
                            if j == i {
                                assert(!c.precedes(s[p], s[gp]));
                            } else {
                                assert(t[j] == s[j]);
                                assert(!c.precedes(s[j], s[p]));
                                assert(!c.precedes(s[p], s[gp]));
                                c.negative_transitivity(s[j], s[p], s[gp]);
                            }
                        }
                    }
                }
                index = parent;
            } else {
                proof {
                    let c = self.order();
                    let s = self@;
                    assert forall|j: int| 1 <= j < s.len()
                        implies !c.precedes(s[j], s[parent_index(j)]) by {
                        if j != index as int {
                            assert(!c.precedes(s[j], s[parent_index(j)]));
                        }
                    }
                }
                break;
            }
        }
    }

    /// Restores the heap invariant by repeatedly swapping the element at
    /// `index` with whichever child the comparator ranks first, until no
    /// child should precede it.
    #[verifier::rlimit(100)]
    fn bubble_down(&mut self, index: usize)
        requires
            old(self)@.len() == 0 || index < old(self)@.len(),
            heap_ordered_except_below(old(self).order(), old(self)@, index as int),
            hole_bridged(old(self).order(), old(self)@, index as int),
        ensures
            final(self).wf(),
            final(self).order() == old(self).order(),
            final(self)@.len() == old(self)@.len(),
            final(self)@.to_multiset() == old(self)@.to_multiset(),
    {
        let len = self.data.len();
        let mut index = index;
        loop
            invariant
                len == self@.len(),
                len == 0 || index < len,
                self.order() == old(self).order(),
                self@.len() == old(self)@.len(),
                self@.to_multiset() == old(self)@.to_multiset(),
                heap_ordered_except_below(self.order(), self@, index as int),
                hole_bridged(self.order(), self@, index as int),
            ensures
                self.order() == old(self).order(),
                self@.len() == old(self)@.len(),
                self@.to_multiset() == old(self)@.to_multiset(),
                heap_ordered(self.order(), self@),
            decreases len - index,
        {
            let left_child_index = match index.checked_mul(2) {
                Some(d) => match d.checked_add(1) {
                    Some(l) => l,
                    None => len,
                },
                None => len,
            };
            let mut smallest_index = index;
            if left_child_index < len
                && self.comparator.lt(&self.data[left_child_index], &self.data[smallest_index]) {
                smallest_index = left_child_index;
            }
            let ghost first_pick = smallest_index as int;
            if left_child_index < len && left_child_index + 1 < len
                && self.comparator.lt(&self.data[left_child_index + 1], &self.data[smallest_index]) {
                smallest_index = left_child_index + 1;
            }
            if smallest_index != index {
                let ghost c = self.order();
                let ghost s = self@;
                let ghost i = index as int;
                let ghost m = smallest_index as int;
                proof {
                    assert(parent_index(m) == i);
                    assert(c.precedes(s[m], s[i])) by {
                        if m != first_pick && first_pick != i {
                            lemma_precedes_transitive(c, s[m], s[first_pick], s[i]);
                        }
                    }
                }
                swap_at(&mut self.data, index, smallest_index);
                proof {
                    let t = self@;
                    assert(t == s.update(i, s[m]).update(m, s[i]));
                    lemma_swap_preserves_multiset(s, i, m);
                    assert forall|j: int| 1 <= j < t.len() && parent_index(j) != m
                        implies !c.precedes(t[j], t[parent_index(j)]) by {
                        let pj = parent_index(j);
                        assert(0 <= pj < j);
                        if j == m {
                            c.asymmetry(s[m], s[i]);
                        } else if j == i {
                            assert(pj == parent_index(i));
                            assert(i >= 1);
                            assert(t[j] == s[m]);
                            assert(t[pj] == s[pj]);
                            assert(!c.precedes(s[m], s[parent_index(i)]));
                        } else if pj == i {
                            assert(t[j] == s[j]);
                            assert(t[pj] == s[m]);
                            assert(j == 2 * i + 1 || j == 2 * i + 2);
                            assert(m == 2 * i + 1 || m == 2 * i + 2);
                            if m == 2 * i + 1 {
                                assert(j == 2 * i + 2);
                                assert(!c.precedes(s[j], s[m]));
                            } else {
                                assert(j == 2 * i + 1);
                                if c.precedes(s[j], s[i]) {
                                    if c.precedes(s[j], s[m]) {
                                        c.asymmetry(s[m], s[j]);
                                    }
                                    assert(!c.precedes(s[j], s[m]));
                                } else {
                                    if c.precedes(s[j], s[m]) {
                                        lemma_precedes_transitive(c, s[j], s[m], s[i]);
                                    }
                                    assert(!c.precedes(s[j], s[m]));
                                }
                            }
                        } else {
                            assert(t[j] == s[j]);
                            assert(t[pj] == s[pj]);
                        }
                    }
                    if m >= 1 {
                        assert forall|j: int| 1 <= j < t.len() && parent_index(j) == m
                            implies !c.precedes(t[j], t[parent_index(m)]) by {
                            assert(parent_index(m) == i);
                            assert(t[parent_index(m)] == s[m]);
                            assert(t[j] == s[j]);
                            assert(!c.precedes(s[j], s[m]));
                        }
                    }
                }
                index = smallest_index;
            } else {
                proof {
                    let c = self.order();
                    let s = self@;
                    assert forall|j: int| 1 <= j < s.len()
                        implies !c.precedes(s[j], s[parent_index(j)]) by {
                        if parent_index(j) == index as int {
                            assert(j == 2 * (index as int) + 1 || j == 2 * (index as int) + 2);
                        }
                    }
                }
                break;
            }
        }
    }
}

impl Default for Heap<i32, MinComparator> {
    /// Creates a min-heap: the comparator is `a < b`.
    fn default() -> (h: Self)
        ensures
            h@ == Seq::<i32>::empty(),
            h.order() == (MinComparator {  }),
            h.wf(),
    {
        Heap::new(MinComparator {  })
    }
}

/// Orders `i32` values ascending: `a` precedes `b` when `a < b`, so the heap
/// surfaces its smallest element first.
pub struct MinComparator {}

impl Comparator<i32> for MinComparator {
    open spec fn precedes(self, a: i32, b: i32) -> bool {
        a < b
    }

    proof fn asymmetry(self, a: i32, b: i32) {
    }

    proof fn negative_transitivity(self, a: i32, b: i32, c: i32) {
    }

    fn lt(&self, a: &i32, b: &i32) -> (r: bool) {
        *a < *b
    }
}

/// Orders `i32` values descending: `a` precedes `b` when `a > b`, so the
/// heap surfaces its largest element first.
pub struct MaxComparator {}

impl Comparator<i32> for MaxComparator {
    open spec fn precedes(self, a: i32, b: i32) -> bool {
        a > b
    }

    proof fn asymmetry(self, a: i32, b: i32) {
    }

    proof fn negative_transitivity(self, a: i32, b: i32, c: i32) {
    }

    fn lt(&self, a: &i32, b: &i32) -> (r: bool) {
        *a > *b
    }
}

/// Orders strings by character count: `a` precedes `b` when `a` is strictly
/// shorter than `b`.
pub struct ShorterComparator {}

impl Comparator<String> for ShorterComparator {
    open spec fn precedes(self, a: String, b: String) -> bool {
        a@.len() < b@.len()
    }

    proof fn asymmetry(self, a: String, b: String) {
    }

    proof fn negative_transitivity(self, a: String, b: String, c: String) {
    }

    fn lt(&self, a: &String, b: &String) -> (r: bool) {
        a.as_str().unicode_len() < b.as_str().unicode_len()
    }
}

/// The root of a well-formed non-empty heap precedes-or-ties every element:
/// no element of the heap precedes the root. Hence `peek` shows, and `pop`
/// removes, an element that the comparator ranks no later than anything
/// still stored, and for any sequence of pushes followed by repeated pops
/// the popped values come out sorted by the comparator: each later pop draws
/// from what remains here, none of which precedes the value popped now.
pub proof fn lemma_root_minimal<T, C: Comparator<T>>(c: C, s: Seq<T>)
    requires
        heap_ordered(c, s),
        s.len() > 0,
    ensures
        forall|j: int| 0 <= j < s.len() ==> !c.precedes(#[trigger] s[j], s[0]),
{
    assert forall|j: int| 0 <= j < s.len() implies !c.precedes(s[j], s[0]) by {
        lemma_no_ancestor_preceded(c, s, j);
    }
}

/// No element precedes any of its ancestors, in particular the root: proved
/// by walking the parent chain and chaining incomparability.
proof fn lemma_no_ancestor_preceded<T, C: Comparator<T>>(c: C, s: Seq<T>, j: int)
    requires
        heap_ordered(c, s),
        0 <= j < s.len(),
    ensures
        !c.precedes(s[j], s[0]),
    decreases j,
{
    if j == 0 {
        lemma_precedes_irreflexive(c, s[0]);
    } else {
        let p = parent_index(j);
        assert(0 <= p < j);
        lemma_no_ancestor_preceded(c, s, p);
        c.negative_transitivity(s[j], s[p], s[0]);
    }
}

/// Successive pops come out in comparator order: a value `y` still present
/// after `x` was popped from the front of a well-formed heap never precedes
/// `x`.
pub proof fn lemma_pop_sequence_sorted<T, C: Comparator<T>>(c: C, s: Seq<T>, rest: Seq<T>, y: T)
    requires
        heap_ordered(c, s),
        s.len() > 0,
        rest.to_multiset() == s.to_multiset().remove(s[0]),
        rest.contains(y),
    ensures
        !c.precedes(y, s[0]),
{
    assert(rest.to_multiset().count(y) > 0);
    assert(s.to_multiset().count(y) > 0);
    assert(s.contains(y));
    let j = choose|j: int| 0 <= j < s.len() && s[j] == y;
    lemma_root_minimal(c, s);
    assert(!c.precedes(s[j], s[0]));
}

} // verus!
