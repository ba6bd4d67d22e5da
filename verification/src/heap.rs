//! A binary heap that keeps either its greatest or its least element first.
//!
//! The heap lies in a vector: node `0` is the root and has the one child `1`,
//! and every other node `i` has the children `2 * i` and `2 * i + 1`.
//! [`sift`] holds the order of such a heap and what sifting does to it.
pub mod sift;
pub mod swap;

use crate::heap::sift::{
    before, below_grandparent, heap_ordered, heapified, hole_above, hole_below, in_order,
    lemma_before_chain, lemma_heapify_step, lemma_not_before_chain, lemma_root_first,
    lemma_sifted_down_elements, lemma_sifted_down_heap, lemma_sifted_down_ordered,
    lemma_sifted_down_outside, lemma_sifted_up_elements, lemma_sifted_up_ordered,
    lemma_sifted_up_outside, lemma_sifted_up_to_root, lemma_swapped_elements, ordered_below,
    ordered_from, sifted_down, sifted_up, swapped, top_of_three, within,
};
use crate::order::{faithful_clone, order_specified, strict_weak_order};
use vstd::multiset::Multiset;
use vstd::pervasive::cloned;
use vstd::prelude::*;
use vstd::seq_lib::{to_multiset_remove, to_multiset_update};

verus! {

/// A binary heap over `T`.
pub struct Heap<T: PartialOrd + Clone> {
    nodes: Vec<T>,
    greatest_first: bool,
}

impl<T: PartialOrd + Clone> View for Heap<T> {
    type V = Seq<T>;

    /// The nodes in their layout, the root first.
    closed spec fn view(&self) -> Seq<T> {
        self.nodes@
    }
}

impl<T: PartialOrd + Clone> Heap<T> {
    /// Whether the greatest element is kept first, and not the least.
    pub closed spec fn greatest_first(&self) -> bool {
        self.greatest_first
    }

    /// The elements, however they lie.
    pub open spec fn elements(&self) -> Multiset<T> {
        self@.to_multiset()
    }

    /// The order of `T` is a strict weak order, and no node has to stand
    /// above its parent.
    pub open spec fn wf(&self) -> bool {
        &&& strict_weak_order::<T>()
        &&& heap_ordered(self@, self.greatest_first())
    }

    /// An empty heap that keeps its greatest element first.
    pub fn max() -> (heap: Self)
        requires
            strict_weak_order::<T>(),
        ensures
            heap.wf(),
            heap.greatest_first(),
            heap@ == Seq::<T>::empty(),
    {
        Self { nodes: Vec::new(), greatest_first: true }
    }

    /// An empty heap that keeps its least element first.
    pub fn min() -> (heap: Self)
        requires
            strict_weak_order::<T>(),
        ensures
            heap.wf(),
            !heap.greatest_first(),
            heap@ == Seq::<T>::empty(),
    {
        Self { nodes: Vec::new(), greatest_first: false }
    }

    /// The index of the parent of node `i`.
    pub fn parent_index(i: usize) -> (parent: usize)
        ensures
            parent == i / 2,
    {
        i / 2
    }

    /// The index of the left child of node `i`.
    pub fn left_index(i: usize) -> (left: usize)
        requires
            2 * i <= usize::MAX,
        ensures
            left == 2 * i,
    {
        2 * i
    }

    /// The index of the right child of node `i`.
    pub fn right_index(i: usize) -> (right: usize)
        requires
            2 * i + 1 <= usize::MAX,
        ensures
            right == 2 * i + 1,
    {
        2 * i + 1
    }

    /// The element at node `i`.
    pub fn get(&self, i: usize) -> (element: &T)
        requires
            i < self@.len(),
        ensures
            *element == self@[i as int],
    {
        &self.nodes[i]
    }

    /// The number of elements.
    pub fn len(&self) -> (n: usize)
        ensures
            n == self@.len(),
    {
        self.nodes.len()
    }

    /// Whether the element at node `a` has to stand above the one at `b`.
    fn stands_above(&self, a: usize, b: usize) -> (above: bool)
        requires
            order_specified::<T>(),
            a < self@.len(),
            b < self@.len(),
        ensures
            above == before(self.greatest_first(), self@[a as int], self@[b as int]),
    {
        if self.greatest_first {
            self.nodes[a] > self.nodes[b]
        } else {
            self.nodes[a] < self.nodes[b]
        }
    }

    /// Sifts node `i` up, whatever the order of the other nodes.
    fn sift_up(&mut self, i: usize)
        requires
            order_specified::<T>(),
            i == 0 || i < old(self)@.len(),
        ensures
            final(self).greatest_first() == old(self).greatest_first(),
            final(self)@ == sifted_up(old(self)@, i as int, old(self).greatest_first()),
    {
        let mut i: usize = i;
        let ghost goal = sifted_up(self@, i as int, self.greatest_first());
        while i > 0 && !self.stands_above(Self::parent_index(i), i)
            invariant
                order_specified::<T>(),
                self.greatest_first() == old(self).greatest_first(),
                i == 0 || i < self@.len(),
                sifted_up(self@, i as int, self.greatest_first()) == goal,
            decreases i,
        {
            self.nodes.swap(Self::parent_index(i), i);
            i = Self::parent_index(i);
        }
    }

    /// Sifts node `i` down, whatever the order of the other nodes.
    fn sift_down(&mut self, i: usize)
        requires
            order_specified::<T>(),
        ensures
            final(self).greatest_first() == old(self).greatest_first(),
            final(self)@ == sifted_down(old(self)@, i as int, old(self).greatest_first()),
    {
        let mut i: usize = i;
        let len: usize = self.nodes.len();
        let ghost goal = sifted_down(self@, i as int, self.greatest_first());
        loop
            invariant
                order_specified::<T>(),
                self.greatest_first() == old(self).greatest_first(),
                len == self@.len(),
                sifted_down(self@, i as int, self.greatest_first()) == goal,
            ensures
                self.greatest_first() == old(self).greatest_first(),
                self@ == goal,
            decreases
                    if i < len {
                        len - i
                    } else {
                        0
                    },
        {
            if i >= len {
                break;
            }
            let mut top: usize = i;
            if i <= (usize::MAX - 1) / 2 {
                let left: usize = Self::left_index(i);
                if left < len && self.stands_above(left, top) {
                    top = left;
                }
                let right: usize = Self::right_index(i);
                if right < len && self.stands_above(right, top) {
                    top = right;
                }
            }
            assert(top == top_of_three(self@, i as int, self.greatest_first()));
            if i == top {
                break;
            }
            self.nodes.swap(i, top);
            i = top;
        }
    }

    /// In a heap, any one node may be taken for the node that is out of
    /// order with its parent.
    pub proof fn lemma_any_hole_above(s: Seq<T>, greatest_first: bool, i: int)
        requires
            strict_weak_order::<T>(),
            heap_ordered(s, greatest_first),
        ensures
            hole_above(s, greatest_first, i),
    {
        assert forall|c: int|
            1 <= c < s.len() && c / 2 == i && i >= 1
                implies #[trigger] below_grandparent(s, greatest_first, c) by {
            assert(in_order(s, greatest_first, c));
            assert(in_order(s, greatest_first, i));
            lemma_not_before_chain(greatest_first, s[c], s[i], s[i / 2]);
        }
        assert forall|c: int| 1 <= c < s.len() && c != i implies #[trigger] in_order(
            s,
            greatest_first,
            c,
        ) by {}
    }

    /// In a heap, the children of any one node may be taken for the nodes
    /// that are out of order with their parent.
    pub proof fn lemma_any_hole_below(s: Seq<T>, greatest_first: bool, i: int)
        requires
            strict_weak_order::<T>(),
            heap_ordered(s, greatest_first),
        ensures
            hole_below(s, greatest_first, i, 0),
    {
        assert forall|c: int|
            1 <= c < s.len() && c / 2 == i && i != 0
                implies #[trigger] below_grandparent(s, greatest_first, c) by {
            assert(in_order(s, greatest_first, c));
            assert(in_order(s, greatest_first, i));
            lemma_not_before_chain(greatest_first, s[c], s[i], s[i / 2]);
        }
        assert forall|c: int|
            1 <= c < s.len() && c != 0 && within(c, 0) && c / 2 != i implies #[trigger] in_order(
            s,
            greatest_first,
            c,
        ) by {}
    }

    /// Sifts node `i` up: while it is not the root and its parent need not
    /// stand above it, the two change places. Only `i` and the nodes above it
    /// can change. Where `i` was the one node out of order with its parent,
    /// the heap order is restored.
    pub fn swift_up(&mut self, i: usize)
        requires
            strict_weak_order::<T>(),
            i == 0 || i < old(self)@.len(),
        ensures
            final(self).greatest_first() == old(self).greatest_first(),
            final(self)@ == sifted_up(old(self)@, i as int, old(self).greatest_first()),
            final(self).elements() == old(self).elements(),
            forall|k: int|
                0 <= k < old(self)@.len() && !within(i as int, k) ==> #[trigger] final(self)@[k]
                    == old(self)@[k],
            hole_above(old(self)@, old(self).greatest_first(), i as int) ==> final(self).wf(),
    {
        proof {
            let s = self@;
            let gf = self.greatest_first();
            if hole_above(s, gf, i as int) {
                lemma_sifted_up_ordered(s, gf, i as int);
            }
            lemma_sifted_up_elements(s, i as int, gf);
            assert forall|k: int| 0 <= k < s.len() && !within(i as int, k) implies #[trigger] sifted_up(
                s,
                i as int,
                gf,
            )[k] == s[k] by {
                lemma_sifted_up_outside(s, i as int, gf, k);
            }
        }
        self.sift_up(i);
    }

    /// Sifts node `i` down: while one of its children has to stand above it,
    /// it changes places with the child that has to stand on top. Only `i` and
    /// the nodes below it can change. Where the children of `i` were the only
    /// nodes below `i` out of order with their parent, the order below `i` is
    /// restored; where they were the only ones in the heap, so is the heap
    /// order.
    pub fn swift_down(&mut self, i: usize)
        requires
            strict_weak_order::<T>(),
        ensures
            final(self).greatest_first() == old(self).greatest_first(),
            final(self)@ == sifted_down(old(self)@, i as int, old(self).greatest_first()),
            final(self).elements() == old(self).elements(),
            forall|k: int|
                0 <= k < old(self)@.len() && !within(k, i as int) ==> #[trigger] final(self)@[k]
                    == old(self)@[k],
            hole_below(old(self)@, old(self).greatest_first(), i as int, i as int) ==> ordered_below(
                final(self)@,
                old(self).greatest_first(),
                i as int,
            ),
            hole_below(old(self)@, old(self).greatest_first(), i as int, 0) ==> final(self).wf(),
    {
        proof {
            let s = self@;
            let gf = self.greatest_first();
            if hole_below(s, gf, i as int, i as int) {
                lemma_sifted_down_ordered(s, gf, i as int, i as int);
            }
            if hole_below(s, gf, i as int, 0) {
                lemma_sifted_down_heap(s, gf, i as int);
            }
            lemma_sifted_down_elements(s, i as int, gf);
            assert forall|k: int|
                0 <= k < s.len() && !within(k, i as int) implies #[trigger] sifted_down(
                s,
                i as int,
                gf,
            )[k] == s[k] by {
                lemma_sifted_down_outside(s, i as int, gf, k);
            }
        }
        self.sift_down(i);
    }

    /// Adds `value` to the heap.
    pub fn insert(&mut self, value: T)
        requires
            old(self).wf(),
        ensures
            final(self).wf(),
            final(self).greatest_first() == old(self).greatest_first(),
            final(self)@ == sifted_up(
                old(self)@.push(value),
                old(self)@.len() as int,
                old(self).greatest_first(),
            ),
            final(self).elements() == old(self).elements().insert(value),
    {
        self.nodes.push(value);
        proof {
            let s = self@;
            let last = s.len() - 1;
            assert forall|c: int| 1 <= c < s.len() && c != last implies #[trigger] in_order(
                s,
                self.greatest_first(),
                c,
            ) by {
                assert(in_order(old(self)@, self.greatest_first(), c));
            }
            lemma_sifted_up_ordered(s, self.greatest_first(), last);
            lemma_sifted_up_elements(s, last, self.greatest_first());
            old(self)@.to_multiset_ensures();
        }
        let last: usize = self.nodes.len() - 1;
        self.sift_up(last);
    }

    /// Takes the root out of the heap: the greatest element of a heap that
    /// keeps its greatest element first, the least of one that keeps its least
    /// first.
    pub fn extract_root(&mut self) -> (root: T)
        requires
            old(self).wf(),
            old(self)@.len() > 0,
        ensures
            final(self).wf(),
            final(self).greatest_first() == old(self).greatest_first(),
            root == old(self)@[0],
            forall|j: int|
                0 <= j < old(self)@.len() ==> !before(
                    old(self).greatest_first(),
                    #[trigger] old(self)@[j],
                    root,
                ),
            final(self)@ == sifted_down(
                swapped(old(self)@, 0, old(self)@.len() - 1).drop_last(),
                0,
                old(self).greatest_first(),
            ),
            final(self).elements() == old(self).elements().remove(root),
    {
        let len: usize = self.nodes.len() - 1;
        self.nodes.swap(0, len);
        let value = self.nodes.pop().unwrap();
        proof {
            let s = old(self)@;
            let t = swapped(s, 0, len as int);
            let rest = t.drop_last();
            let gf = self.greatest_first();
            assert(self@ =~= rest);
            lemma_swapped_elements(s, 0, len as int);
            assert(rest =~= t.remove(len as int));
            to_multiset_remove(t, len as int);
            assert forall|c: int|
                1 <= c < rest.len() && c != 0 && within(c, 0) && c / 2 != 0 implies #[trigger] in_order(
                rest,
                gf,
                c,
            ) by {
                assert(in_order(s, gf, c));
            }
            lemma_sifted_down_heap(rest, gf, 0);
            lemma_sifted_down_elements(rest, 0, gf);
            assert forall|j: int| 0 <= j < s.len() implies !before(gf, #[trigger] s[j], s[0]) by {
                lemma_root_first(s, gf, j);
            }
        }
        self.sift_down(0);
        value
    }

    /// Puts `value` in the place of the element at node `i` and moves it to
    /// where the heap order wants it: down, if the element replaced had to
    /// stand above it, and up otherwise.
    pub fn insert_at(&mut self, i: usize, value: T)
        requires
            old(self).wf(),
            i < old(self)@.len(),
        ensures
            final(self).wf(),
            final(self).greatest_first() == old(self).greatest_first(),
            final(self)@ == if before(old(self).greatest_first(), old(self)@[i as int], value) {
                sifted_down(old(self)@.update(i as int, value), i as int, old(self).greatest_first())
            } else {
                sifted_up(old(self)@.update(i as int, value), i as int, old(self).greatest_first())
            },
            final(self).elements() == old(self).elements().insert(value).remove(old(self)@[i as int]),
    {
        let down: bool = if self.greatest_first {
            self.nodes[i] > value
        } else {
            self.nodes[i] < value
        };
        proof {
            let s = old(self)@;
            let gf = self.greatest_first();
            let t = s.update(i as int, value);
            let k = i as int;
            to_multiset_update(s, k, value);
            assert(down == before(gf, s[k], value));
            if down {
                assert forall|c: int|
                    1 <= c < t.len() && c != 0 && within(c, 0) && c / 2 != k
                        implies #[trigger] in_order(t, gf, c) by {
                    assert(in_order(s, gf, c));
                    if c == k {
                        if before(gf, value, s[k / 2]) {
                            lemma_before_chain(gf, s[k], value, s[k / 2]);
                        }
                    }
                }
                assert forall|c: int|
                    1 <= c < t.len() && c / 2 == k && k != 0
                        implies #[trigger] below_grandparent(t, gf, c) by {
                    assert(in_order(s, gf, c));
                    assert(in_order(s, gf, k));
                    lemma_not_before_chain(gf, s[c], s[k], s[k / 2]);
                }
                lemma_sifted_down_heap(t, gf, k);
                lemma_sifted_down_elements(t, k, gf);
            } else {
                assert forall|c: int| 1 <= c < t.len() && c != k implies #[trigger] in_order(
                    t,
                    gf,
                    c,
                ) by {
                    assert(in_order(s, gf, c));
                    if c / 2 == k {
                        lemma_not_before_chain(gf, s[c], s[k], value);
                    }
                }
                assert forall|c: int|
                    1 <= c < t.len() && c / 2 == k && k >= 1
                        implies #[trigger] below_grandparent(t, gf, c) by {
                    assert(in_order(s, gf, c));
                    assert(in_order(s, gf, k));
                    lemma_not_before_chain(gf, s[c], s[k], s[k / 2]);
                }
                lemma_sifted_up_ordered(t, gf, k);
                lemma_sifted_up_elements(t, k, gf);
            }
        }
        self.nodes.set(i, value);
        if down {
            self.sift_down(i);
        } else {
            self.sift_up(i);
        }
    }

    /// Takes the element at node `i` out of the heap: a copy of the root is
    /// put in its place and sifted up to the root, and the root is taken out.
    pub fn remove(&mut self, i: usize)
        requires
            old(self).wf(),
            faithful_clone::<T>(),
            i < old(self)@.len(),
        ensures
            final(self).wf(),
            final(self).greatest_first() == old(self).greatest_first(),
            final(self)@ == sifted_down(
                swapped(
                    sifted_up(
                        old(self)@.update(i as int, old(self)@[0]),
                        i as int,
                        old(self).greatest_first(),
                    ),
                    0,
                    old(self)@.len() - 1,
                ).drop_last(),
                0,
                old(self).greatest_first(),
            ),
            final(self).elements() == old(self).elements().remove(old(self)@[i as int]),
    {
        let root = self.nodes[0].clone();
        proof {
            assert(cloned(self.nodes@[0], root));
            let s = old(self)@;
            let gf = self.greatest_first();
            let k = i as int;
            let t = s.update(k, s[0]);
            to_multiset_update(s, k, s[0]);
            assert forall|c: int| 1 <= c < t.len() && c != k implies #[trigger] in_order(t, gf, c) by {
                assert(in_order(s, gf, c));
                if c / 2 == k {
                    lemma_root_first(s, gf, c);
                }
            }
            assert forall|c: int|
                    1 <= c < t.len() && c / 2 == k && k >= 1
                        implies #[trigger] below_grandparent(t, gf, c) by {
                assert(in_order(s, gf, c));
                assert(in_order(s, gf, k));
                lemma_not_before_chain(gf, s[c], s[k], s[k / 2]);
            }
            assert forall|j: int| 0 <= j < t.len() implies !before(gf, #[trigger] t[j], t[k]) by {
                lemma_root_first(s, gf, j);
                lemma_root_first(s, gf, 0);
            }
            lemma_sifted_up_ordered(t, gf, k);
            lemma_sifted_up_elements(t, k, gf);
            lemma_sifted_up_to_root(t, gf, k);
        }
        self.nodes.set(i, root);
        self.sift_up(i);
        let taken = self.extract_root();
        proof {
            let s = old(self)@;
            s.to_multiset_ensures();
            assert(s.contains(s[i as int]));
            assert(self.elements() =~= old(self).elements().remove(s[i as int]));
        }
    }

    /// The heap of the elements of `slice` that keeps its greatest element
    /// first if `max` is set, and its least element first otherwise.
    pub fn from_slice(slice: &[T], max: bool) -> (heap: Self)
        requires
            strict_weak_order::<T>(),
            faithful_clone::<T>(),
        ensures
            heap.wf(),
            heap.greatest_first() == max,
            heap@ == heapified(slice@, (slice@.len() / 2 + 1) as int, max),
            heap@.len() == slice@.len(),
            heap.elements() == slice@.to_multiset(),
    {
        let mut nodes: Vec<T> = Vec::new();
        let mut k: usize = 0;
        while k < slice.len()
            invariant
                k <= slice.len(),
                faithful_clone::<T>(),
                nodes@ == slice@.take(k as int),
            decreases slice.len() - k,
        {
            let copy = slice[k].clone();
            assert(cloned(slice@[k as int], copy));
            nodes.push(copy);
            assert(nodes@ =~= slice@.take(k + 1));
            k += 1;
        }
        assert(nodes@ =~= slice@);
        let mut ret = Self { nodes, greatest_first: max };
        let mut i: usize = slice.len() / 2 + 1;
        while i > 0
            invariant
                strict_weak_order::<T>(),
                ret.greatest_first() == max,
                ret@.len() == slice@.len(),
                ret.elements() == slice@.to_multiset(),
                ordered_from(ret@, max, i as int),
                heapified(ret@, i as int, max) == heapified(slice@, (slice@.len() / 2 + 1) as int, max),
            decreases i,
        {
            i -= 1;
            proof {
                lemma_heapify_step(ret@, max, i as int);
                lemma_sifted_down_elements(ret@, i as int, max);
            }
            ret.sift_down(i);
        }
        ret
    }
}

} // verus!
