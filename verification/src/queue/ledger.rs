//! The admitted arrivals in order, and how the model's counts follow from
//! where the line between departed and present entries runs through them.
use crate::queue::model::{
    lemma_fifo_start_order, lemma_start_bounds, occupancy, server_free, start_time,
};
use vstd::prelude::*;

verus! {

/// The admitted arrivals among the first `k`, in input order.
pub open spec fn admitted_before(capacity: nat, arrivals: Seq<(usize, usize)>, k: int) -> Seq<int>
    decreases k,
{
    if k <= 0 {
        Seq::empty()
    } else if start_time(capacity, arrivals, k - 1) is Some {
        admitted_before(capacity, arrivals, k - 1).push(k - 1)
    } else {
        admitted_before(capacity, arrivals, k - 1)
    }
}

/// The start tick of an admitted arrival; `-1` for any other index.
pub open spec fn begins(capacity: nat, arrivals: Seq<(usize, usize)>, j: int) -> int {
    match start_time(capacity, arrivals, j) {
        Some(s) => s as int,
        None => -1,
    }
}

/// The completion tick of an admitted arrival; `-1` for any other index.
pub open spec fn ends(capacity: nat, arrivals: Seq<(usize, usize)>, j: int) -> int {
    match start_time(capacity, arrivals, j) {
        Some(s) => s + arrivals[j].1,
        None => -1,
    }
}

/// The list for fewer arrivals is a prefix of the list for more.
pub proof fn lemma_admitted_prefix(capacity: nat, arrivals: Seq<(usize, usize)>, j: int, k: int)
    requires
        j <= k,
    ensures
        admitted_before(capacity, arrivals, j).len() <= admitted_before(capacity, arrivals, k).len(),
        forall|p: int|
            0 <= p < admitted_before(capacity, arrivals, j).len() ==> admitted_before(
                capacity,
                arrivals,
                j,
            )[p] == #[trigger] admitted_before(capacity, arrivals, k)[p],
    decreases k - j,
{
    if j < k {
        lemma_admitted_prefix(capacity, arrivals, j, k - 1);
    }
}

/// An admitted arrival `j` stands in the list at the position that counts the
/// admitted arrivals before it.
pub proof fn lemma_position_of(capacity: nat, arrivals: Seq<(usize, usize)>, k: int, j: int)
    requires
        0 <= j < k,
        start_time(capacity, arrivals, j) is Some,
    ensures
        admitted_before(capacity, arrivals, j).len() < admitted_before(capacity, arrivals, k).len(),
        admitted_before(capacity, arrivals, k)[admitted_before(capacity, arrivals, j).len() as int]
            == j,
{
    lemma_admitted_prefix(capacity, arrivals, j + 1, k);
    let p = admitted_before(capacity, arrivals, j).len() as int;
    assert(admitted_before(capacity, arrivals, j + 1)[p] == j);
}

/// The entry at position `p` has exactly `p` admitted arrivals before it.
pub proof fn lemma_admitted_position(capacity: nat, arrivals: Seq<(usize, usize)>, k: int, p: int)
    requires
        0 <= p < admitted_before(capacity, arrivals, k).len(),
    ensures
        0 <= admitted_before(capacity, arrivals, k)[p] < k,
        start_time(capacity, arrivals, admitted_before(capacity, arrivals, k)[p]) is Some,
        admitted_before(capacity, arrivals, admitted_before(capacity, arrivals, k)[p]).len() == p,
    decreases k,
{
    if k > 0 {
        if start_time(capacity, arrivals, k - 1) is Some && p == admitted_before(
            capacity,
            arrivals,
            k - 1,
        ).len() {
        } else {
            lemma_admitted_position(capacity, arrivals, k - 1, p);
        }
    }
}

/// The list is strictly increasing.
pub proof fn lemma_admitted_increasing(
    capacity: nat,
    arrivals: Seq<(usize, usize)>,
    k: int,
    p: int,
    q: int,
)
    requires
        0 <= p < q < admitted_before(capacity, arrivals, k).len(),
    ensures
        admitted_before(capacity, arrivals, k)[p] < admitted_before(capacity, arrivals, k)[q],
{
    let i = admitted_before(capacity, arrivals, k)[p];
    let j = admitted_before(capacity, arrivals, k)[q];
    lemma_admitted_position(capacity, arrivals, k, p);
    lemma_admitted_position(capacity, arrivals, k, q);
    if j <= i {
        lemma_admitted_prefix(capacity, arrivals, j, i);
    }
}

/// Along the list, an entry is complete before the next one starts.
pub proof fn lemma_ends_sorted(capacity: nat, arrivals: Seq<(usize, usize)>, k: int, p: int, q: int)
    requires
        0 <= p < q < admitted_before(capacity, arrivals, k).len(),
    ensures
        ends(capacity, arrivals, admitted_before(capacity, arrivals, k)[p]) <= begins(
            capacity,
            arrivals,
            admitted_before(capacity, arrivals, k)[q],
        ),
        begins(capacity, arrivals, admitted_before(capacity, arrivals, k)[q]) <= ends(
            capacity,
            arrivals,
            admitted_before(capacity, arrivals, k)[q],
        ),
{
    lemma_admitted_increasing(capacity, arrivals, k, p, q);
    lemma_admitted_position(capacity, arrivals, k, p);
    lemma_admitted_position(capacity, arrivals, k, q);
    lemma_fifo_start_order(
        capacity,
        arrivals,
        admitted_before(capacity, arrivals, k)[p],
        admitted_before(capacity, arrivals, k)[q],
    );
}

/// The server is free when the last admitted arrival is complete.
pub proof fn lemma_free_is_last(capacity: nat, arrivals: Seq<(usize, usize)>, k: int)
    ensures
        server_free(capacity, arrivals, k) == if admitted_before(capacity, arrivals, k).len() == 0 {
            0
        } else {
            ends(capacity, arrivals, admitted_before(capacity, arrivals, k).last())
        },
    decreases k,
{
    if k > 0 {
        lemma_free_is_last(capacity, arrivals, k - 1);
    }
}

/// The entry at position `p` starts when it has arrived and its predecessor in
/// the list is complete, whichever is later.
pub proof fn lemma_predecessor(capacity: nat, arrivals: Seq<(usize, usize)>, k: int, p: int)
    requires
        0 <= p < admitted_before(capacity, arrivals, k).len(),
    ensures
        0 <= admitted_before(capacity, arrivals, k)[p] < k,
        admitted_before(capacity, arrivals, k)[p] < arrivals.len(),
        begins(capacity, arrivals, admitted_before(capacity, arrivals, k)[p]) >= 0,
        p == 0 ==> begins(capacity, arrivals, admitted_before(capacity, arrivals, k)[p])
            == arrivals[admitted_before(capacity, arrivals, k)[p]].0,
        p > 0 ==> begins(capacity, arrivals, admitted_before(capacity, arrivals, k)[p]) == if ends(
            capacity,
            arrivals,
            admitted_before(capacity, arrivals, k)[p - 1],
        ) > arrivals[admitted_before(capacity, arrivals, k)[p]].0 {
            ends(capacity, arrivals, admitted_before(capacity, arrivals, k)[p - 1])
        } else {
            arrivals[admitted_before(capacity, arrivals, k)[p]].0 as int
        },
{
    let j = admitted_before(capacity, arrivals, k)[p];
    lemma_admitted_position(capacity, arrivals, k, p);
    lemma_admitted_prefix(capacity, arrivals, j, k);
    lemma_free_is_last(capacity, arrivals, j);
    lemma_start_bounds(capacity, arrivals, j);
    if p > 0 {
        assert(admitted_before(capacity, arrivals, j).last() == admitted_before(
            capacity,
            arrivals,
            k,
        )[p - 1]);
    }
}

/// If the first `g` entries of the list are complete by tick `t` and the
/// others are not, then `occupancy` counts the others.
pub proof fn lemma_occupancy_by_boundary(
    capacity: nat,
    arrivals: Seq<(usize, usize)>,
    k: int,
    t: int,
    g: int,
)
    requires
        0 <= g <= admitted_before(capacity, arrivals, k).len(),
        forall|p: int|
            0 <= p < g ==> ends(capacity, arrivals, #[trigger] admitted_before(capacity, arrivals, k)[p])
                <= t,
        forall|p: int|
            g <= p < admitted_before(capacity, arrivals, k).len() ==> ends(
                capacity,
                arrivals,
                #[trigger] admitted_before(capacity, arrivals, k)[p],
            ) > t,
    ensures
        occupancy(capacity, arrivals, k, t) == admitted_before(capacity, arrivals, k).len() - g,
    decreases k,
{
    if k > 0 {
        let now = admitted_before(capacity, arrivals, k);
        let before = admitted_before(capacity, arrivals, k - 1);
        if start_time(capacity, arrivals, k - 1) is Some {
            assert(now == before.push(k - 1));
            assert(now[before.len() as int] == k - 1);
            assert forall|p: int| 0 <= p < before.len() implies before[p] == now[p] by {}
            if ends(capacity, arrivals, k - 1) <= t {
                assert(g == now.len());
                lemma_occupancy_by_boundary(capacity, arrivals, k - 1, t, g - 1);
            } else {
                lemma_occupancy_by_boundary(capacity, arrivals, k - 1, t, g);
            }
        } else {
            lemma_occupancy_by_boundary(capacity, arrivals, k - 1, t, g);
        }
    }
}

} // verus!
