//! The order of a binary heap laid out in a sequence, and what sifting an
//! element up or down does to it.
//!
//! Node `0` is the root and has the one child `1`; every other node `i` has
//! the children `2 * i` and `2 * i + 1`. The parent of node `c` is `c / 2`.
use crate::order::{exceeds, falls_below, strict_weak_order};
use vstd::prelude::*;
use vstd::seq_lib::to_multiset_update;

verus! {

/// Whether `a` has to stand above `b`: it is greater in a heap that has its
/// greatest element first, and less in one that has its least element first.
pub open spec fn before<T: PartialOrd>(greatest_first: bool, a: T, b: T) -> bool {
    if greatest_first {
        exceeds(a, b)
    } else {
        falls_below(a, b)
    }
}

/// The sequence with the elements at `i` and `j` exchanged.
pub open spec fn swapped<T>(s: Seq<T>, i: int, j: int) -> Seq<T> {
    s.update(i, s[j]).update(j, s[i])
}

/// Node `c` need not stand above its parent.
pub open spec fn in_order<T: PartialOrd>(s: Seq<T>, greatest_first: bool, c: int) -> bool {
    !before(greatest_first, s[c], s[c / 2])
}

/// Node `c` need not stand above the parent of its parent.
pub open spec fn below_grandparent<T: PartialOrd>(s: Seq<T>, greatest_first: bool, c: int) -> bool {
    !before(greatest_first, s[c], s[(c / 2) / 2])
}

/// Every node whose parent is `lo` or later is in order with its parent.
pub open spec fn ordered_from<T: PartialOrd>(s: Seq<T>, greatest_first: bool, lo: int) -> bool {
    forall|c: int| 1 <= c < s.len() && c / 2 >= lo ==> #[trigger] in_order(s, greatest_first, c)
}

/// The heap order: no node has to stand above its parent.
pub open spec fn heap_ordered<T: PartialOrd>(s: Seq<T>, greatest_first: bool) -> bool {
    ordered_from(s, greatest_first, 0)
}

/// The heap order but for node `i`, which may have to stand above its
/// parent; the children of `i` are in order with the parent of `i`.
pub open spec fn hole_above<T: PartialOrd>(s: Seq<T>, greatest_first: bool, i: int) -> bool {
    &&& forall|c: int| 1 <= c < s.len() && c != i ==> #[trigger] in_order(s, greatest_first, c)
    &&& forall|c: int|
        1 <= c < s.len() && c / 2 == i && i >= 1 ==> #[trigger] below_grandparent(
            s,
            greatest_first,
            c,
        )
}

/// Node `k` is node `r` or lies below it: it is reached from `r` by going to
/// a child any number of times.
pub open spec fn within(k: int, r: int) -> bool
    decreases k,
{
    k == r || (k > r && k >= 1 && within(k / 2, r))
}

/// Every node below `r` is in order with its parent.
pub open spec fn ordered_below<T: PartialOrd>(s: Seq<T>, greatest_first: bool, r: int) -> bool {
    forall|c: int|
        1 <= c < s.len() && c != r && within(c, r) ==> #[trigger] in_order(s, greatest_first, c)
}

/// The order below node `r` but for the children of node `i`, which may have
/// to stand above `i`; unless `i` is `r` itself, they are in order with the
/// parent of `i`.
pub open spec fn hole_below<T: PartialOrd>(s: Seq<T>, greatest_first: bool, i: int, r: int) -> bool {
    &&& forall|c: int|
        1 <= c < s.len() && c != r && within(c, r) && c / 2 != i ==> #[trigger] in_order(
            s,
            greatest_first,
            c,
        )
    &&& forall|c: int|
        1 <= c < s.len() && c / 2 == i && i != r ==> #[trigger] below_grandparent(
            s,
            greatest_first,
            c,
        )
}

/// The result of sifting node `i` up: while it is not the root and its parent
/// need not stand above it, the two are exchanged.
pub open spec fn sifted_up<T: PartialOrd>(s: Seq<T>, i: int, greatest_first: bool) -> Seq<T>
    decreases i,
{
    if 0 < i < s.len() && !before(greatest_first, s[i / 2], s[i]) {
        sifted_up(swapped(s, i / 2, i), i / 2, greatest_first)
    } else {
        s
    }
}

/// Which of node `i` and its children has to stand on top: `i` itself unless
/// the left child has to stand above it, and then the right child if it has
/// to stand above that one.
pub open spec fn top_of_three<T: PartialOrd>(s: Seq<T>, i: int, greatest_first: bool) -> int {
    let left = 2 * i;
    let right = 2 * i + 1;
    let first = if left < s.len() && before(greatest_first, s[left], s[i]) {
        left
    } else {
        i
    };
    if right < s.len() && before(greatest_first, s[right], s[first]) {
        right
    } else {
        first
    }
}

/// The result of sifting node `i` down: while one of its children has to
/// stand above it, it is exchanged with the one that has to stand on top.
pub open spec fn sifted_down<T: PartialOrd>(s: Seq<T>, i: int, greatest_first: bool) -> Seq<T>
    decreases s.len() - i,
{
    if 0 <= i < s.len() && top_of_three(s, i, greatest_first) != i {
        sifted_down(
            swapped(s, i, top_of_three(s, i, greatest_first)),
            top_of_three(s, i, greatest_first),
            greatest_first,
        )
    } else {
        s
    }
}

/// The result of sifting down the nodes `k - 1`, `k - 2` and so on to the
/// root, in this order. From `k` beyond the last node that has a child, it
/// makes a heap of any sequence.
pub open spec fn heapified<T: PartialOrd>(s: Seq<T>, k: int, greatest_first: bool) -> Seq<T>
    decreases k,
{
    if k <= 0 {
        s
    } else {
        heapified(sifted_down(s, k - 1, greatest_first), k - 1, greatest_first)
    }
}

/// In a strict weak order nothing has to stand above itself or above what has
/// to stand above it.
pub proof fn lemma_before_asymmetric<T: PartialOrd>(greatest_first: bool, a: T, b: T)
    requires
        strict_weak_order::<T>(),
        before(greatest_first, a, b),
    ensures
        !before(greatest_first, b, a),
        a != b,
{
    assert(exceeds(a, b) ==> !exceeds(b, a));
    assert(exceeds(b, a) ==> !exceeds(a, b));
    assert(falls_below(a, b) <==> exceeds(b, a));
    assert(falls_below(b, a) <==> exceeds(a, b));
}

/// In a strict weak order, "need not stand above" is transitive.
pub proof fn lemma_not_before_chain<T: PartialOrd>(greatest_first: bool, a: T, b: T, c: T)
    requires
        strict_weak_order::<T>(),
        !before(greatest_first, a, b),
        !before(greatest_first, b, c),
    ensures
        !before(greatest_first, a, c),
{
    assert(falls_below(a, b) <==> exceeds(b, a));
    assert(falls_below(b, c) <==> exceeds(c, b));
    assert(falls_below(a, c) <==> exceeds(c, a));
    if greatest_first {
        assert(!exceeds(a, b) && !exceeds(b, c) ==> !exceeds(a, c));
    } else {
        assert(!exceeds(c, b) && !exceeds(b, a) ==> !exceeds(c, a));
    }
}

/// In a strict weak order, "has to stand above" is transitive.
pub proof fn lemma_before_chain<T: PartialOrd>(greatest_first: bool, a: T, b: T, c: T)
    requires
        strict_weak_order::<T>(),
        before(greatest_first, a, b),
        before(greatest_first, b, c),
    ensures
        before(greatest_first, a, c),
{
    lemma_before_asymmetric(greatest_first, a, b);
    if !before(greatest_first, a, c) {
        lemma_not_before_chain(greatest_first, b, a, c);
    }
}

/// An exchange keeps the length and the elements.
pub proof fn lemma_swapped_elements<T>(s: Seq<T>, i: int, j: int)
    requires
        0 <= i < s.len(),
        0 <= j < s.len(),
    ensures
        swapped(s, i, j).len() == s.len(),
        swapped(s, i, j).to_multiset() == s.to_multiset(),
{
    broadcast use vstd::multiset::group_multiset_axioms;

    if i == j {
        assert(swapped(s, i, j) =~= s);
    } else {
        to_multiset_update(s, i, s[j]);
        to_multiset_update(s.update(i, s[j]), j, s[i]);
        assert(s.update(i, s[j])[j] == s[j]);
        assert(s.to_multiset().count(s[i]) > 0) by {
            s.to_multiset_ensures();
            assert(s.contains(s[i]));
        }
        assert(s.to_multiset().count(s[j]) > 0) by {
            s.to_multiset_ensures();
            assert(s.contains(s[j]));
        }
        assert(swapped(s, i, j).to_multiset() =~= s.to_multiset());
    }
}

/// Sifting up keeps the length and the elements.
pub proof fn lemma_sifted_up_elements<T: PartialOrd>(s: Seq<T>, i: int, greatest_first: bool)
    ensures
        sifted_up(s, i, greatest_first).len() == s.len(),
        sifted_up(s, i, greatest_first).to_multiset() == s.to_multiset(),
    decreases i,
{
    if 0 < i < s.len() && !before(greatest_first, s[i / 2], s[i]) {
        lemma_swapped_elements(s, i / 2, i);
        lemma_sifted_up_elements(swapped(s, i / 2, i), i / 2, greatest_first);
    }
}

/// Sifting down keeps the length and the elements.
pub proof fn lemma_sifted_down_elements<T: PartialOrd>(s: Seq<T>, i: int, greatest_first: bool)
    ensures
        sifted_down(s, i, greatest_first).len() == s.len(),
        sifted_down(s, i, greatest_first).to_multiset() == s.to_multiset(),
    decreases s.len() - i,
{
    let m = top_of_three(s, i, greatest_first);
    if 0 <= i < s.len() && m != i {
        lemma_swapped_elements(s, i, m);
        lemma_sifted_down_elements(swapped(s, i, m), m, greatest_first);
    }
}

/// One exchange on the way up moves the hole to the parent.
pub proof fn lemma_sift_up_step<T: PartialOrd>(s: Seq<T>, greatest_first: bool, i: int)
    requires
        strict_weak_order::<T>(),
        hole_above(s, greatest_first, i),
        0 < i < s.len(),
        !before(greatest_first, s[i / 2], s[i]),
    ensures
        hole_above(swapped(s, i / 2, i), greatest_first, i / 2),
{
    let p = i / 2;
    let t = swapped(s, p, i);
    assert forall|c: int| 1 <= c < t.len() && c != p implies #[trigger] in_order(
        t,
        greatest_first,
        c,
    ) by {
        if c == i {
        } else if c / 2 == i {
            assert(below_grandparent(s, greatest_first, c));
        } else if c / 2 == p {
            assert(in_order(s, greatest_first, c));
            lemma_not_before_chain(greatest_first, s[c], s[p], s[i]);
        } else {
            assert(in_order(s, greatest_first, c));
        }
    }
    assert forall|c: int| 1 <= c < t.len() && c / 2 == p && p >= 1 implies #[trigger] below_grandparent(
        t,
        greatest_first,
        c,
    ) by {
        assert(in_order(s, greatest_first, p));
        if c != i {
            assert(in_order(s, greatest_first, c));
            lemma_not_before_chain(greatest_first, s[c], s[p], s[p / 2]);
        }
    }
}

/// Sifting up the one node that may be out of order restores the heap order.
pub proof fn lemma_sifted_up_ordered<T: PartialOrd>(s: Seq<T>, greatest_first: bool, i: int)
    requires
        strict_weak_order::<T>(),
        hole_above(s, greatest_first, i),
        0 <= i,
        i == 0 || i < s.len(),
    ensures
        heap_ordered(sifted_up(s, i, greatest_first), greatest_first),
    decreases i,
{
    if 0 < i < s.len() && !before(greatest_first, s[i / 2], s[i]) {
        lemma_sift_up_step(s, greatest_first, i);
        lemma_sifted_up_ordered(swapped(s, i / 2, i), greatest_first, i / 2);
    } else {
        assert forall|c: int| 1 <= c < s.len() && c / 2 >= 0 implies #[trigger] in_order(
            s,
            greatest_first,
            c,
        ) by {
            if c == i {
                lemma_before_asymmetric(greatest_first, s[i / 2], s[i]);
            }
        }
    }
}

/// The node that `top_of_three` picks is `i` or a child of `i` that has to
/// stand above it, and neither `i` nor any child of `i` has to stand above the
/// node picked.
pub proof fn lemma_top_of_three<T: PartialOrd>(s: Seq<T>, greatest_first: bool, i: int)
    requires
        strict_weak_order::<T>(),
        0 <= i < s.len(),
    ensures
        top_of_three(s, i, greatest_first) == i || {
            &&& i < top_of_three(s, i, greatest_first) < s.len()
            &&& top_of_three(s, i, greatest_first) / 2 == i
            &&& before(greatest_first, s[top_of_three(s, i, greatest_first)], s[i])
        },
        !before(greatest_first, s[i], s[top_of_three(s, i, greatest_first)]),
        forall|c: int|
            0 <= c < s.len() && c / 2 == i ==> !before(
                greatest_first,
                #[trigger] s[c],
                s[top_of_three(s, i, greatest_first)],
            ),
{
    let left = 2 * i;
    let right = 2 * i + 1;
    let m = top_of_three(s, i, greatest_first);
    let first = if left < s.len() && before(greatest_first, s[left], s[i]) {
        left
    } else {
        i
    };
    if before(greatest_first, s[i], s[i]) {
        lemma_before_asymmetric(greatest_first, s[i], s[i]);
    }
    if before(greatest_first, s[m], s[m]) {
        lemma_before_asymmetric(greatest_first, s[m], s[m]);
    }
    if first == left && left != i {
        lemma_before_asymmetric(greatest_first, s[left], s[i]);
    }
    if m == right && m != first {
        lemma_before_asymmetric(greatest_first, s[right], s[first]);
        if first == left && left != i {
            lemma_before_chain(greatest_first, s[right], s[left], s[i]);
            lemma_before_asymmetric(greatest_first, s[right], s[i]);
        } else {
            lemma_before_asymmetric(greatest_first, s[right], s[i]);
            if left < s.len() && before(greatest_first, s[left], s[right]) {
                lemma_before_chain(greatest_first, s[left], s[right], s[i]);
            }
        }
    }
    assert forall|c: int| 0 <= c < s.len() && c / 2 == i implies !before(
        greatest_first,
        #[trigger] s[c],
        s[m],
    ) by {
        assert(c == left || c == right);
    }
}

/// Every node lies below the root.
pub proof fn lemma_within_root(k: int)
    requires
        0 <= k,
    ensures
        within(k, 0),
    decreases k,
{
    if k > 0 {
        lemma_within_root(k / 2);
    }
}

/// What lies below a node that lies below `r`, lies below `r`.
pub proof fn lemma_within_chain(k: int, m: int, r: int)
    requires
        within(k, m),
        within(m, r),
    ensures
        within(k, r),
    decreases k,
{
    if k != m {
        lemma_within_chain(k / 2, m, r);
    }
}

/// One exchange on the way down moves the hole to the child picked.
pub proof fn lemma_sift_down_step<T: PartialOrd>(s: Seq<T>, greatest_first: bool, i: int, r: int)
    requires
        strict_weak_order::<T>(),
        hole_below(s, greatest_first, i, r),
        within(i, r),
        0 <= i < s.len(),
        top_of_three(s, i, greatest_first) != i,
    ensures
        within(top_of_three(s, i, greatest_first), r),
        top_of_three(s, i, greatest_first) != r,
        hole_below(
            swapped(s, i, top_of_three(s, i, greatest_first)),
            greatest_first,
            top_of_three(s, i, greatest_first),
            r,
        ),
{
    let m = top_of_three(s, i, greatest_first);
    let t = swapped(s, i, m);
    lemma_top_of_three(s, greatest_first, i);
    assert(within(m, r));
    assert forall|c: int|
        1 <= c < t.len() && c != r && within(c, r) && c / 2 != m implies #[trigger] in_order(
        t,
        greatest_first,
        c,
    ) by {
        if c == m {
        } else if c / 2 == i {
            assert(!before(greatest_first, s[c], s[m]));
        } else if c == i {
            assert(below_grandparent(s, greatest_first, m));
        } else {
            assert(in_order(s, greatest_first, c));
        }
    }
    assert forall|c: int| 1 <= c < t.len() && c / 2 == m && m != r implies #[trigger] below_grandparent(
        t,
        greatest_first,
        c,
    ) by {
        assert(within(c, r));
        assert(in_order(s, greatest_first, c));
    }
}

/// Sifting down the one node below `r` whose children may be out of order
/// restores the order below `r`.
pub proof fn lemma_sifted_down_ordered<T: PartialOrd>(
    s: Seq<T>,
    greatest_first: bool,
    i: int,
    r: int,
)
    requires
        strict_weak_order::<T>(),
        hole_below(s, greatest_first, i, r),
        within(i, r),
        0 <= i,
    ensures
        ordered_below(sifted_down(s, i, greatest_first), greatest_first, r),
    decreases s.len() - i,
{
    let m = top_of_three(s, i, greatest_first);
    if 0 <= i < s.len() && m != i {
        lemma_top_of_three(s, greatest_first, i);
        lemma_sift_down_step(s, greatest_first, i, r);
        lemma_sifted_down_ordered(swapped(s, i, m), greatest_first, m, r);
    } else {
        assert forall|c: int| 1 <= c < s.len() && c != r && within(c, r) implies #[trigger] in_order(
            s,
            greatest_first,
            c,
        ) by {
            if c / 2 == i {
                lemma_top_of_three(s, greatest_first, i);
                assert(!before(greatest_first, s[c], s[m]));
            }
        }
    }
}

/// Sifting down the one node of a heap whose children may be out of order
/// restores the heap order.
pub proof fn lemma_sifted_down_heap<T: PartialOrd>(s: Seq<T>, greatest_first: bool, i: int)
    requires
        strict_weak_order::<T>(),
        hole_below(s, greatest_first, i, 0),
        0 <= i,
    ensures
        heap_ordered(sifted_down(s, i, greatest_first), greatest_first),
{
    let t = sifted_down(s, i, greatest_first);
    lemma_within_root(i);
    lemma_sifted_down_ordered(s, greatest_first, i, 0);
    assert forall|c: int| 1 <= c < t.len() && c / 2 >= 0 implies #[trigger] in_order(
        t,
        greatest_first,
        c,
    ) by {
        lemma_within_root(c);
    }
}

/// Sifting node `i` down leaves every node alone that does not lie below `i`.
pub proof fn lemma_sifted_down_outside<T: PartialOrd>(
    s: Seq<T>,
    i: int,
    greatest_first: bool,
    k: int,
)
    requires
        0 <= k < s.len(),
        !within(k, i),
    ensures
        sifted_down(s, i, greatest_first).len() == s.len(),
        sifted_down(s, i, greatest_first)[k] == s[k],
    decreases s.len() - i,
{
    let m = top_of_three(s, i, greatest_first);
    lemma_sifted_down_elements(s, i, greatest_first);
    if 0 <= i < s.len() && m != i {
        assert(m == 2 * i || m == 2 * i + 1);
        assert(within(i, i));
        assert(within(m, i));
        if within(k, m) {
            lemma_within_chain(k, m, i);
        }
        lemma_sifted_down_outside(swapped(s, i, m), m, greatest_first, k);
    }
}

/// Sifting node `i` up leaves every node alone that is neither `i` nor above
/// it.
pub proof fn lemma_sifted_up_outside<T: PartialOrd>(
    s: Seq<T>,
    i: int,
    greatest_first: bool,
    k: int,
)
    requires
        0 <= k < s.len(),
        !within(i, k),
    ensures
        sifted_up(s, i, greatest_first).len() == s.len(),
        sifted_up(s, i, greatest_first)[k] == s[k],
    decreases i,
{
    lemma_sifted_up_elements(s, i, greatest_first);
    if 0 < i < s.len() && !before(greatest_first, s[i / 2], s[i]) {
        assert(within(i / 2, k) ==> within(i, k));
        lemma_sifted_up_outside(swapped(s, i / 2, i), i / 2, greatest_first, k);
    }
}

/// Where every node whose parent comes after `i` is in order, sifting node
/// `i` down puts every node in order whose parent is `i` or later.
pub proof fn lemma_heapify_step<T: PartialOrd>(s: Seq<T>, greatest_first: bool, i: int)
    requires
        strict_weak_order::<T>(),
        0 <= i,
        ordered_from(s, greatest_first, i + 1),
    ensures
        ordered_from(sifted_down(s, i, greatest_first), greatest_first, i),
{
    let t = sifted_down(s, i, greatest_first);
    lemma_sifted_down_elements(s, i, greatest_first);
    assert forall|c: int|
        1 <= c < s.len() && c != i && within(c, i) && c / 2 != i implies #[trigger] in_order(
        s,
        greatest_first,
        c,
    ) by {
        assert(within(c / 2, i));
    }
    lemma_sifted_down_ordered(s, greatest_first, i, i);
    assert forall|c: int| 1 <= c < t.len() && c / 2 >= i implies #[trigger] in_order(
        t,
        greatest_first,
        c,
    ) by {
        if !within(c, i) {
            assert(!within(c / 2, i));
            lemma_sifted_down_outside(s, i, greatest_first, c);
            lemma_sifted_down_outside(s, i, greatest_first, c / 2);
            assert(in_order(s, greatest_first, c));
        }
    }
}

/// In a heap no element has to stand above the root.
pub proof fn lemma_root_first<T: PartialOrd>(s: Seq<T>, greatest_first: bool, j: int)
    requires
        strict_weak_order::<T>(),
        heap_ordered(s, greatest_first),
        0 <= j < s.len(),
    ensures
        !before(greatest_first, s[j], s[0]),
    decreases j,
{
    if j == 0 {
        if before(greatest_first, s[0], s[0]) {
            lemma_before_asymmetric(greatest_first, s[0], s[0]);
        }
    } else {
        assert(in_order(s, greatest_first, j));
        lemma_root_first(s, greatest_first, j / 2);
        lemma_not_before_chain(greatest_first, s[j], s[j / 2], s[0]);
    }
}

/// An element that nothing has to stand above is sifted up to the root.
pub proof fn lemma_sifted_up_to_root<T: PartialOrd>(s: Seq<T>, greatest_first: bool, i: int)
    requires
        0 <= i < s.len(),
        forall|j: int| 0 <= j < s.len() ==> !before(greatest_first, #[trigger] s[j], s[i]),
    ensures
        sifted_up(s, i, greatest_first)[0] == s[i],
    decreases i,
{
    if i > 0 {
        let p = i / 2;
        let t = swapped(s, p, i);
        assert(!before(greatest_first, s[p], s[i]));
        assert forall|j: int| 0 <= j < t.len() implies !before(
            greatest_first,
            #[trigger] t[j],
            t[p],
        ) by {
            if j == p {
                assert(!before(greatest_first, s[i], s[i]));
            } else if j == i {
                assert(!before(greatest_first, s[p], s[i]));
            } else {
                assert(!before(greatest_first, s[j], s[i]));
            }
        }
        lemma_sifted_up_to_root(t, greatest_first, p);
    }
}

} // verus!
