//! The mathematical model of the buffer: what happens to each arrival.
//!
//! An arrival is a pair `(arrival_time, cost)`. Arrivals are numbered in input
//! order. Every admitted arrival holds a buffer slot from its arrival until its
//! service has finished; an arrival that finds the buffer empty and costs
//! nothing is served on the spot and never holds a slot.
use vstd::prelude::*;

verus! {

/// Arrival times never go down along the input.
pub open spec fn arrivals_sorted(arrivals: Seq<(usize, usize)>) -> bool {
    forall|i: int, j: int| 0 <= i <= j < arrivals.len() ==> arrivals[i].0 <= arrivals[j].0
}

/// The tick at which arrival `i` begins service, or `None` if it is rejected.
///
/// The arrival looks at the buffer at its own arrival time. With nobody in the
/// buffer and no cost it is served instantly. With `capacity` or more entries
/// in the buffer it is rejected. Otherwise it is admitted and starts as soon as
/// both it has arrived and the server has finished everything admitted before.
pub open spec fn start_time(capacity: nat, arrivals: Seq<(usize, usize)>, i: int) -> Option<nat>
    decreases i, 1int,
{
    if 0 <= i < arrivals.len() {
        let t = arrivals[i].0 as nat;
        let n = occupancy(capacity, arrivals, i, t as int);
        if n == 0 && arrivals[i].1 == 0 {
            Some(t)
        } else if n >= capacity {
            None
        } else {
            let free = server_free(capacity, arrivals, i);
            Some(if free > t { free } else { t })
        }
    } else {
        None
    }
}

/// How many of the first `k` arrivals hold a buffer slot after tick `t`:
/// those admitted whose service finishes later than `t`.
pub open spec fn occupancy(capacity: nat, arrivals: Seq<(usize, usize)>, k: int, t: int) -> nat
    decreases k, 0int,
{
    if k <= 0 {
        0
    } else {
        let earlier = occupancy(capacity, arrivals, k - 1, t);
        match start_time(capacity, arrivals, k - 1) {
            Some(s) => if s + arrivals[k - 1].1 > t { earlier + 1 } else { earlier },
            None => earlier,
        }
    }
}

/// The tick at which the server has finished every admitted arrival among the
/// first `k`; zero while nothing has been admitted.
pub open spec fn server_free(capacity: nat, arrivals: Seq<(usize, usize)>, k: int) -> nat
    decreases k, 0int,
{
    if k <= 0 {
        0
    } else {
        match start_time(capacity, arrivals, k - 1) {
            Some(s) => s + arrivals[k - 1].1 as nat,
            None => server_free(capacity, arrivals, k - 1),
        }
    }
}

/// The tick at which the service of arrival `i` is complete, if it was admitted.
pub open spec fn finish_time(capacity: nat, arrivals: Seq<(usize, usize)>, i: int) -> Option<nat> {
    match start_time(capacity, arrivals, i) {
        Some(s) => Some(s + arrivals[i].1 as nat),
        None => None,
    }
}

/// The number of ticks a replay of `arrivals` takes: one more than the last
/// tick on which an arrival comes in or a service completes.
pub open spec fn horizon(capacity: nat, arrivals: Seq<(usize, usize)>) -> nat {
    if arrivals.len() == 0 {
        0
    } else {
        let last = arrivals.last().0 as nat;
        let free = server_free(capacity, arrivals, arrivals.len() as int);
        (if free > last { free } else { last }) + 1
    }
}

/// The sum of the costs of the first `k` arrivals.
pub open spec fn total_cost(arrivals: Seq<(usize, usize)>, k: int) -> nat
    decreases k,
{
    if k <= 0 || k > arrivals.len() {
        0
    } else {
        total_cost(arrivals, k - 1) + arrivals[k - 1].1 as nat
    }
}

/// The result slot of one arrival as callers see it: the start tick, or `-1`
/// for a rejection.
pub open spec fn reported(outcome: Option<nat>) -> int {
    match outcome {
        Some(s) => s as int,
        None => -1,
    }
}

/// Every start tick can be reported: none is beyond `isize::MAX`.
pub open spec fn reportable(capacity: nat, arrivals: Seq<(usize, usize)>) -> bool {
    forall|i: int|
        0 <= i < arrivals.len() ==> #[trigger] reported(start_time(capacity, arrivals, i))
            <= isize::MAX
}

/// A replay of `arrivals` can be run and reported on this machine: the clock
/// stays within `usize` until the replay ends, and every start tick can be
/// reported.
pub open spec fn replayable(capacity: nat, arrivals: Seq<(usize, usize)>) -> bool {
    horizon(capacity, arrivals) <= usize::MAX && reportable(capacity, arrivals)
}

/// An admitted arrival starts no earlier than it arrives and no earlier than
/// the server is free, and exactly at the later of the two; the server is then
/// busy until its service is complete.
pub proof fn lemma_start_bounds(capacity: nat, arrivals: Seq<(usize, usize)>, i: int)
    requires
        start_time(capacity, arrivals, i) is Some,
    ensures
        0 <= i < arrivals.len(),
        start_time(capacity, arrivals, i)->0 >= arrivals[i].0,
        start_time(capacity, arrivals, i)->0 >= server_free(capacity, arrivals, i),
        start_time(capacity, arrivals, i)->0 == arrivals[i].0 || start_time(capacity, arrivals, i)->0
            == server_free(capacity, arrivals, i),
        server_free(capacity, arrivals, i + 1) == start_time(capacity, arrivals, i)->0
            + arrivals[i].1,
{
    if occupancy(capacity, arrivals, i, arrivals[i].0 as int) == 0 {
        lemma_idle_when_empty(capacity, arrivals, i, arrivals[i].0 as int);
    }
}

/// With nobody holding a slot after tick `t`, the server is free by `t`.
pub proof fn lemma_idle_when_empty(capacity: nat, arrivals: Seq<(usize, usize)>, k: int, t: int)
    requires
        0 <= t,
        occupancy(capacity, arrivals, k, t) == 0,
    ensures
        server_free(capacity, arrivals, k) <= t,
    decreases k,
{
    if k > 0 {
        lemma_idle_when_empty(capacity, arrivals, k - 1, t);
    }
}

/// The server's schedule only grows as more arrivals are taken into account.
pub proof fn lemma_server_free_monotone(
    capacity: nat,
    arrivals: Seq<(usize, usize)>,
    j: int,
    k: int,
)
    requires
        j <= k,
    ensures
        server_free(capacity, arrivals, j) <= server_free(capacity, arrivals, k),
    decreases k - j,
{
    if j < k {
        lemma_server_free_monotone(capacity, arrivals, j, k - 1);
        if k > 0 && start_time(capacity, arrivals, k - 1) is Some {
            lemma_start_bounds(capacity, arrivals, k - 1);
        }
    }
}

/// First in, first out: of two admitted arrivals, the one that came first in
/// the input starts no later than the other. Indeed the later one does not
/// start before the earlier one is complete.
pub proof fn lemma_fifo_start_order(capacity: nat, arrivals: Seq<(usize, usize)>, i: int, j: int)
    requires
        i < j,
        start_time(capacity, arrivals, i) is Some,
        start_time(capacity, arrivals, j) is Some,
    ensures
        start_time(capacity, arrivals, i)->0 <= finish_time(capacity, arrivals, i)->0,
        finish_time(capacity, arrivals, i)->0 <= start_time(capacity, arrivals, j)->0,
        start_time(capacity, arrivals, i)->0 <= start_time(capacity, arrivals, j)->0,
{
    lemma_start_bounds(capacity, arrivals, i);
    lemma_start_bounds(capacity, arrivals, j);
    lemma_server_free_monotone(capacity, arrivals, i + 1, j);
}

/// The later one looks, the fewer of the first `k` arrivals still hold a slot.
pub proof fn lemma_occupancy_wanes(
    capacity: nat,
    arrivals: Seq<(usize, usize)>,
    k: int,
    t: int,
    u: int,
)
    requires
        t <= u,
    ensures
        occupancy(capacity, arrivals, k, u) <= occupancy(capacity, arrivals, k, t),
    decreases k,
{
    if k > 0 {
        lemma_occupancy_wanes(capacity, arrivals, k - 1, t, u);
    }
}

/// The buffer never holds more than `capacity` entries: on sorted input, at
/// any tick `t` from the arrival of the `k`-th arrival on, at most `capacity`
/// of the first `k` arrivals hold a slot.
pub proof fn lemma_capacity_bound(capacity: nat, arrivals: Seq<(usize, usize)>, k: int, t: int)
    requires
        arrivals_sorted(arrivals),
        0 <= k <= arrivals.len(),
        k > 0 ==> arrivals[k - 1].0 <= t,
    ensures
        occupancy(capacity, arrivals, k, t) <= capacity,
    decreases k,
{
    if k > 0 {
        lemma_capacity_bound(capacity, arrivals, k - 1, t);
        lemma_occupancy_wanes(capacity, arrivals, k - 1, arrivals[k - 1].0 as int, t);
        let n = occupancy(capacity, arrivals, k - 1, arrivals[k - 1].0 as int);
        assert(start_time(capacity, arrivals, k - 1) == if n == 0 && arrivals[k - 1].1 == 0 {
            Some(arrivals[k - 1].0 as nat)
        } else if n >= capacity {
            None
        } else {
            start_time(capacity, arrivals, k - 1)
        });
    }
}

/// A buffer without capacity never holds anything: on sorted input, none of
/// the first `k` arrivals holds a slot after a tick `t` that is not before the
/// last of them.
pub proof fn lemma_zero_capacity_stays_empty(arrivals: Seq<(usize, usize)>, k: int, t: int)
    requires
        arrivals_sorted(arrivals),
        0 <= k <= arrivals.len(),
        k > 0 ==> arrivals[k - 1].0 <= t,
    ensures
        occupancy(0, arrivals, k, t) == 0,
    decreases k,
{
    if k > 0 {
        lemma_zero_capacity_stays_empty(arrivals, k - 1, t);
        lemma_zero_capacity_stays_empty(arrivals, k - 1, arrivals[k - 1].0 as int);
        assert(occupancy(0, arrivals, k - 1, arrivals[k - 1].0 as int) == 0);
        assert(start_time(0, arrivals, k - 1) == if arrivals[k - 1].1 == 0 {
            Some(arrivals[k - 1].0 as nat)
        } else {
            None
        });
    }
}

/// A buffer without capacity rejects, on sorted input, every arrival that
/// costs something, and serves every arrival that costs nothing at its own
/// arrival time.
pub proof fn lemma_zero_capacity(arrivals: Seq<(usize, usize)>, i: int)
    requires
        arrivals_sorted(arrivals),
        0 <= i < arrivals.len(),
    ensures
        arrivals[i].1 > 0 ==> start_time(0, arrivals, i) is None,
        arrivals[i].1 == 0 ==> start_time(0, arrivals, i) == Some(arrivals[i].0 as nat),
{
    lemma_zero_capacity_stays_empty(arrivals, i, arrivals[i].0 as int);
}

/// The server is never busy beyond the last arrival time seen plus all the
/// service asked for so far.
pub proof fn lemma_server_free_bound(capacity: nat, arrivals: Seq<(usize, usize)>, k: int)
    requires
        arrivals_sorted(arrivals),
        0 < k <= arrivals.len(),
    ensures
        server_free(capacity, arrivals, k) <= arrivals[k - 1].0 + total_cost(arrivals, k),
    decreases k,
{
    if k > 1 {
        lemma_server_free_bound(capacity, arrivals, k - 1);
    }
    if start_time(capacity, arrivals, k - 1) is Some {
        lemma_start_bounds(capacity, arrivals, k - 1);
    }
}

/// A replay ends within the last arrival time plus the total cost plus one
/// ticks.
pub proof fn lemma_horizon_bound(capacity: nat, arrivals: Seq<(usize, usize)>)
    requires
        arrivals_sorted(arrivals),
        arrivals.len() > 0,
    ensures
        horizon(capacity, arrivals) <= arrivals.last().0 + total_cost(
            arrivals,
            arrivals.len() as int,
        ) + 1,
{
    lemma_server_free_bound(capacity, arrivals, arrivals.len() as int);
}

/// Sorted arrivals whose last arrival time plus total cost is at most
/// `isize::MAX` can be replayed and reported.
pub proof fn lemma_replayable_by_cost(capacity: nat, arrivals: Seq<(usize, usize)>)
    requires
        arrivals_sorted(arrivals),
        arrivals.len() > 0 ==> arrivals.last().0 + total_cost(arrivals, arrivals.len() as int)
            <= isize::MAX,
    ensures
        replayable(capacity, arrivals),
{
    let n = arrivals.len() as int;
    if n > 0 {
        lemma_horizon_bound(capacity, arrivals);
        lemma_server_free_bound(capacity, arrivals, n);
        assert forall|i: int| 0 <= i < n implies #[trigger] reported(
            start_time(capacity, arrivals, i),
        ) <= isize::MAX by {
            if start_time(capacity, arrivals, i) is Some {
                lemma_start_bounds(capacity, arrivals, i);
                lemma_server_free_monotone(capacity, arrivals, i + 1, n);
            }
        }
    }
}

/// Without capacity the server is never busy beyond the last arrival seen.
pub proof fn lemma_zero_capacity_free(arrivals: Seq<(usize, usize)>, k: int)
    requires
        arrivals_sorted(arrivals),
        0 < k <= arrivals.len(),
    ensures
        server_free(0, arrivals, k) <= arrivals[k - 1].0,
    decreases k,
{
    lemma_zero_capacity(arrivals, k - 1);
    if k > 1 {
        lemma_zero_capacity_free(arrivals, k - 1);
    }
}

/// Without capacity, sorted arrivals can be replayed and reported if the last
/// comes before tick `usize::MAX` and none that costs nothing comes after
/// tick `isize::MAX`.
pub proof fn lemma_replayable_without_capacity(arrivals: Seq<(usize, usize)>)
    requires
        arrivals_sorted(arrivals),
        arrivals.len() > 0 ==> arrivals.last().0 < usize::MAX,
        forall|i: int|
            0 <= i < arrivals.len() && arrivals[i].1 == 0 ==> (#[trigger] arrivals[i]).0
                <= isize::MAX,
    ensures
        replayable(0, arrivals),
{
    let n = arrivals.len() as int;
    if n > 0 {
        lemma_zero_capacity_free(arrivals, n);
        assert forall|i: int| 0 <= i < n implies #[trigger] reported(start_time(0, arrivals, i))
            <= isize::MAX by {
            lemma_zero_capacity(arrivals, i);
        }
    }
}

} // verus!
