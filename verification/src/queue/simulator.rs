//! The buffer as a machine that is driven one tick at a time.
//!
//! Each tick retires what is complete, lets in what arrives now, and gives the
//! head of the line one unit of service. The machine never holds more entries
//! than its capacity and never writes a result slot twice; what it has recorded
//! by any tick is exactly what the model in [`crate::queue::model`] says.
use crate::queue::ledger::{
    admitted_before, ends, lemma_admitted_position, lemma_ends_sorted, lemma_free_is_last,
    lemma_occupancy_by_boundary, lemma_position_of, lemma_predecessor,
};
use crate::queue::model::{
    arrivals_sorted, horizon, lemma_server_free_monotone, lemma_start_bounds, occupancy,
    reportable, reported, start_time,
};
use std::collections::VecDeque;
use vstd::pervasive::unreached;
use vstd::prelude::*;

verus! {

/// What has been recorded for one arrival.
#[derive(Clone, Copy, Debug, PartialEq, Eq)]
pub enum Outcome {
    /// Nothing yet: the arrival has not come in, or waits in the buffer.
    Unset,
    /// Turned away on arrival because the buffer was full.
    Rejected,
    /// Service began at this tick.
    Started(usize),
}

/// An admitted arrival that waits in the buffer or is being served.
#[derive(Clone, Copy, Debug, PartialEq, Eq)]
pub struct QueueEntry {
    /// Position of the arrival in the input.
    pub origin_index: usize,
    /// Ticks of service still owed.
    pub remaining_cost: usize,
    /// Ticks of service asked for.
    pub original_cost: usize,
}

/// The state of a simulation as plain mathematical data.
pub struct SimulationState {
    pub capacity: nat,
    pub arrivals: Seq<(usize, usize)>,
    pub clock: nat,
    pub next_arrival_cursor: nat,
    pub buffer: Seq<QueueEntry>,
    pub results: Seq<Outcome>,
}

/// What the model says is on record for arrival `i` when tick `t` begins:
/// the start tick if service began before `t`, a rejection if the arrival came
/// in before `t` and was turned away, and nothing otherwise.
pub open spec fn known_by(capacity: nat, arrivals: Seq<(usize, usize)>, i: int, t: int) -> Outcome {
    match start_time(capacity, arrivals, i) {
        Some(s) => if s < t {
            Outcome::Started(s as usize)
        } else {
            Outcome::Unset
        },
        None => if 0 <= i < arrivals.len() && arrivals[i].0 < t {
            Outcome::Rejected
        } else {
            Outcome::Unset
        },
    }
}

/// The final word of the model on arrival `i`.
pub open spec fn settled(capacity: nat, arrivals: Seq<(usize, usize)>, i: int) -> Outcome {
    match start_time(capacity, arrivals, i) {
        Some(s) => Outcome::Started(s as usize),
        None => Outcome::Rejected,
    }
}

/// The buffer entry of the admitted arrival `j` when tick `t` begins: it owes
/// its whole cost until it has started, and after that what is left until its
/// completion.
pub open spec fn waiting_entry(
    capacity: nat,
    arrivals: Seq<(usize, usize)>,
    j: int,
    t: int,
) -> QueueEntry {
    QueueEntry {
        origin_index: j as usize,
        remaining_cost: if ends(capacity, arrivals, j) - t < arrivals[j].1 {
            (ends(capacity, arrivals, j) - t) as usize
        } else {
            arrivals[j].1
        },
        original_cost: arrivals[j].1,
    }
}

impl SimulationState {
    /// The state is the one that the model prescribes for the beginning of
    /// tick `clock`: the arrivals that came before that tick are exactly those
    /// before the cursor, each result slot holds what the model knows by then,
    /// and the buffer holds, in input order and within its capacity, the
    /// admitted arrivals that are not complete before that tick.
    pub open spec fn agrees_with_model(self) -> bool {
        let line = admitted_before(self.capacity, self.arrivals, self.next_arrival_cursor as int);
        &&& arrivals_sorted(self.arrivals)
        &&& self.clock <= horizon(self.capacity, self.arrivals) <= usize::MAX
        &&& self.next_arrival_cursor <= self.arrivals.len()
        &&& forall|j: int|
            0 <= j < self.next_arrival_cursor ==> (#[trigger] self.arrivals[j]).0 < self.clock
        &&& forall|j: int|
            self.next_arrival_cursor <= j < self.arrivals.len() ==> (#[trigger] self.arrivals[j]).0
                >= self.clock
        &&& self.results.len() == self.arrivals.len()
        &&& forall|i: int|
            0 <= i < self.results.len() ==> #[trigger] self.results[i] == known_by(
                self.capacity,
                self.arrivals,
                i,
                self.clock as int,
            )
        &&& self.buffer.len() <= self.capacity
        &&& self.buffer.len() == occupancy(
            self.capacity,
            self.arrivals,
            self.next_arrival_cursor as int,
            self.clock - 1,
        )
        &&& self.buffer.len() <= line.len()
        &&& forall|q: int|
            0 <= q < self.buffer.len() ==> #[trigger] self.buffer[q] == waiting_entry(
                self.capacity,
                self.arrivals,
                line[line.len() - self.buffer.len() + q],
                self.clock as int,
            )
    }
}

/// A bounded FIFO buffer with one server, replaying a fixed list of arrivals.
pub struct BufferSimulator<'a> {
    capacity: usize,
    arrivals: &'a [(usize, usize)],
    clock: usize,
    cursor: usize,
    buffer: VecDeque<QueueEntry>,
    results: Vec<Outcome>,
}

impl<'a> View for BufferSimulator<'a> {
    type V = SimulationState;

    closed spec fn view(&self) -> SimulationState {
        SimulationState {
            capacity: self.capacity as nat,
            arrivals: self.arrivals@,
            clock: self.clock as nat,
            next_arrival_cursor: self.cursor as nat,
            buffer: self.buffer@,
            results: self.results@,
        }
    }
}

/// What is on record for arrival `j` in the middle of tick `t`, when the
/// cursor stands at `k` and the first `g` admitted arrivals have left.
spec fn on_record(
    capacity: nat,
    arrivals: Seq<(usize, usize)>,
    k: int,
    g: int,
    t: int,
    j: int,
) -> Outcome {
    if j >= k {
        Outcome::Unset
    } else {
        match start_time(capacity, arrivals, j) {
            Some(s) => if admitted_before(capacity, arrivals, j).len() < g || s < t {
                Outcome::Started(s as usize)
            } else {
                Outcome::Unset
            },
            None => Outcome::Rejected,
        }
    }
}

/// The buffer entry that stands for arrival `j` at tick `t`.
spec fn entry_matches(
    entry: QueueEntry,
    capacity: nat,
    arrivals: Seq<(usize, usize)>,
    j: int,
    t: int,
) -> bool {
    &&& entry.origin_index == j
    &&& 0 <= j < arrivals.len()
    &&& entry.original_cost == arrivals[j].1
    &&& entry.remaining_cost == if ends(capacity, arrivals, j) - t < arrivals[j].1 {
        ends(capacity, arrivals, j) - t
    } else {
        arrivals[j].1 as int
    }
}

impl<'a> BufferSimulator<'a> {
    /// The number of admitted arrivals that have left the buffer.
    spec fn departed(&self) -> int {
        admitted_before(self.capacity as nat, self.arrivals@, self.cursor as int).len()
            - self.buffer@.len()
    }

    /// The state agrees with the model in the middle of a tick: every arrival
    /// before the cursor came in by `hi`, the departed entries were complete by
    /// `hi`, and the entries in the buffer are complete only after `lo`.
    spec fn inv(&self, lo: int, hi: int) -> bool {
        let cap = self.capacity as nat;
        let a = self.arrivals@;
        let t = self.clock as int;
        let k = self.cursor as int;
        let adm = admitted_before(cap, a, k);
        let g = self.departed();
        &&& arrivals_sorted(a)
        &&& horizon(cap, a) <= usize::MAX
        &&& t <= horizon(cap, a)
        &&& t - 1 <= lo <= hi <= t
        &&& 0 <= k <= a.len()
        &&& self.results@.len() == a.len()
        &&& self.buffer@.len() <= self.capacity
        &&& 0 <= g
        &&& forall|j: int| 0 <= j < k ==> (#[trigger] a[j]).0 <= hi
        &&& k < a.len() ==> a[k].0 >= t
        &&& forall|q: int|
            0 <= q < self.buffer@.len() ==> entry_matches(
                #[trigger] self.buffer@[q],
                cap,
                a,
                adm[g + q],
                t,
            )
        &&& forall|p: int| 0 <= p < g ==> ends(cap, a, #[trigger] adm[p]) <= hi
        &&& forall|p: int| g <= p < adm.len() ==> ends(cap, a, #[trigger] adm[p]) > lo
        &&& forall|j: int|
            0 <= j < a.len() ==> #[trigger] self.results@[j] == on_record(cap, a, k, g, t, j)
    }

    /// The state is the one that the model prescribes for the beginning of the
    /// tick that the clock shows.
    pub closed spec fn wf(&self) -> bool {
        self.inv(self.clock as int - 1, self.clock as int - 1)
    }

    /// Nothing is left to do: every arrival has come in and the buffer is
    /// empty.
    pub open spec fn finished(&self) -> bool {
        self@.buffer.len() == 0 && self@.next_arrival_cursor >= self@.arrivals.len()
    }

    /// A simulator at tick zero, with nothing admitted and nothing recorded.
    /// The arrivals must be sorted by arrival time, and the clock must stay
    /// within `usize` until the replay ends.
    pub fn new(capacity: usize, arrivals: &'a [(usize, usize)]) -> (sim: Self)
        requires
            arrivals_sorted(arrivals@),
            horizon(capacity as nat, arrivals@) <= usize::MAX,
        ensures
            sim.wf(),
            sim@.capacity == capacity,
            sim@.arrivals == arrivals@,
            sim@.clock == 0,
            sim@.next_arrival_cursor == 0,
            sim@.buffer == Seq::<QueueEntry>::empty(),
            sim@.results == Seq::new(arrivals@.len(), |i: int| Outcome::Unset),
            sim@.agrees_with_model(),
            !sim.finished() ==> sim@.clock < horizon(sim@.capacity, sim@.arrivals),
    {
        let mut results: Vec<Outcome> = Vec::new();
        let n: usize = arrivals.len();
        let mut i: usize = 0;
        while i < n
            invariant
                i <= n,
                results@.len() == i,
                forall|j: int| 0 <= j < i ==> results@[j] == Outcome::Unset,
            decreases n - i,
        {
            results.push(Outcome::Unset);
            i += 1;
        }
        let sim = BufferSimulator {
            capacity,
            arrivals,
            clock: 0,
            cursor: 0,
            buffer: VecDeque::new(),
            results,
        };
        proof {
            if !sim.finished() {
                sim.lemma_unfinished_before_horizon();
            }
            sim.lemma_state_by_model();
            assert(sim@.buffer =~= Seq::<QueueEntry>::empty());
            assert(sim@.results =~= Seq::new(arrivals@.len(), |i: int| Outcome::Unset));
        }
        sim
    }

    /// Whether nothing is left to do.
    pub fn is_done(&self) -> (done: bool)
        ensures
            done == self.finished(),
    {
        self.buffer.len() == 0 && self.cursor >= self.arrivals.len()
    }

    /// Same run: capacity, arrivals and clock are those of `other`.
    spec fn same_tick(&self, other: &Self) -> bool {
        &&& self.capacity == other.capacity
        &&& self.arrivals@ == other.arrivals@
        &&& self.clock == other.clock
        &&& self.results@.len() == other.results@.len()
    }

    /// Every arrival that has not come in yet is due only after this tick.
    spec fn nothing_due(&self) -> bool {
        self.cursor < self.arrivals@.len() ==> self.arrivals@[self.cursor as int].0 > self.clock
    }

    /// No slot that `other` had written differs in `self`.
    spec fn keeps_records_of(&self, other: &Self) -> bool {
        forall|i: int|
            0 <= i < other.results@.len() && other.results@[i] != Outcome::Unset
                ==> #[trigger] self.results@[i] == other.results@[i]
    }

    /// First part of a tick: entries at the head of the line that owe no more
    /// service leave. One that never owed any gets its start recorded now.
    fn retire_completed(&mut self)
        requires
            old(self).inv(old(self).clock as int - 1, old(self).clock as int - 1),
        ensures
            final(self).inv(final(self).clock as int, final(self).clock as int),
            final(self).same_tick(old(self)),
            final(self).keeps_records_of(old(self)),
            final(self).cursor == old(self).cursor,
    {
        loop
            invariant
                self.inv(self.clock as int - 1, self.clock as int),
                self.same_tick(old(self)),
                self.keeps_records_of(old(self)),
                self.cursor == old(self).cursor,
            ensures
                self.inv(self.clock as int, self.clock as int),
                self.same_tick(old(self)),
                self.keeps_records_of(old(self)),
                self.cursor == old(self).cursor,
            decreases self.buffer@.len(),
        {
            let ghost cap = self.capacity as nat;
            let ghost a = self.arrivals@;
            let ghost t = self.clock as int;
            let ghost k = self.cursor as int;
            let ghost adm = admitted_before(cap, a, k);
            let ghost g = self.departed();
            if self.buffer.len() == 0 {
                break;
            }
            let head: QueueEntry = self.buffer[0];
            proof {
                assert(entry_matches(self.buffer@[0], cap, a, adm[g + 0], t));
                lemma_predecessor(cap, a, k, g);
                lemma_admitted_position(cap, a, k, g);
            }
            if head.remaining_cost != 0 {
                proof {
                    assert forall|p: int| g <= p < adm.len() implies ends(cap, a, #[trigger] adm[p])
                        > t by {
                        if p > g {
                            lemma_ends_sorted(cap, a, k, g, p);
                        }
                    }
                }
                break;
            }
            let idx: usize = head.origin_index;
            proof {
                assert(ends(cap, a, adm[g]) <= t);
            }
            match self.results[idx] {
                Outcome::Unset => {
                    self.results.set(idx, Outcome::Started(self.clock));
                },
                _ => {},
            }
            self.buffer.pop_front();
            proof {
                assert forall|j: int| 0 <= j < a.len() implies #[trigger] self.results@[j]
                    == on_record(cap, a, k, g + 1, t, j) by {
                    if j < k && start_time(cap, a, j) is Some {
                        lemma_position_of(cap, a, k, j);
                    }
                }
                assert forall|q: int| 0 <= q < self.buffer@.len() implies entry_matches(
                    #[trigger] self.buffer@[q],
                    cap,
                    a,
                    adm[g + 1 + q],
                    t,
                ) by {}
            }
        }
    }

    /// Second part of a tick: every arrival that is due comes in, in input
    /// order. It is served on the spot, turned away, or put at the back of the
    /// line.
    fn admit_arrivals(&mut self)
        requires
            old(self).inv(old(self).clock as int, old(self).clock as int),
        ensures
            final(self).inv(final(self).clock as int, final(self).clock as int),
            final(self).same_tick(old(self)),
            final(self).keeps_records_of(old(self)),
            final(self).cursor >= old(self).cursor,
            final(self).nothing_due(),
    {
        while self.cursor < self.arrivals.len() && self.arrivals[self.cursor].0 <= self.clock
            invariant
                self.inv(self.clock as int, self.clock as int),
                self.same_tick(old(self)),
                self.keeps_records_of(old(self)),
                self.cursor >= old(self).cursor,
                forall|i: int|
                    old(self).cursor <= i < old(self).results@.len() ==> old(self).results@[i]
                        == Outcome::Unset,
            decreases self.arrivals@.len() - self.cursor,
        {
            let ghost cap = self.capacity as nat;
            let ghost a = self.arrivals@;
            let ghost t = self.clock as int;
            let ghost k = self.cursor as int;
            let ghost adm = admitted_before(cap, a, k);
            let ghost g = self.departed();
            let ghost before = *self;
            let cost: usize = self.arrivals[self.cursor].1;
            proof {
                lemma_occupancy_by_boundary(cap, a, k, t, g);
                lemma_free_is_last(cap, a, k);
                if start_time(cap, a, k) is Some {
                    lemma_start_bounds(cap, a, k);
                }
                assert(a[k].0 == t);
                assert(occupancy(cap, a, k, t) == self.buffer@.len());
                assert forall|p: int| 0 <= p < adm.len() implies adm[p] == #[trigger] admitted_before(
                    cap,
                    a,
                    k + 1,
                )[p] by {}
            }
            if self.buffer.len() == 0 && cost == 0 {
                self.results.set(self.cursor, Outcome::Started(self.clock));
                proof {
                    assert(start_time(cap, a, k) == Some(t as nat));
                }
            } else if self.buffer.len() >= self.capacity {
                self.results.set(self.cursor, Outcome::Rejected);
                proof {
                    assert(start_time(cap, a, k) is None);
                }
            } else {
                self.buffer.push_back(
                    QueueEntry { origin_index: self.cursor, remaining_cost: cost, original_cost: cost },
                );
                proof {
                    assert(start_time(cap, a, k) is Some);
                    assert(ends(cap, a, k) > t) by {
                        if cost == 0 {
                            assert(ends(cap, a, adm[adm.len() - 1]) > t);
                        }
                    }
                }
            }
            self.cursor += 1;
            proof {
                let g2 = self.departed();
                let adm2 = admitted_before(cap, a, k + 1);
                assert forall|j: int| 0 <= j < a.len() implies #[trigger] self.results@[j]
                    == on_record(cap, a, k + 1, g2, t, j) by {
                    if j < k && start_time(cap, a, j) is Some {
                        lemma_position_of(cap, a, k, j);
                    }
                }
                assert forall|q: int| 0 <= q < self.buffer@.len() implies entry_matches(
                    #[trigger] self.buffer@[q],
                    cap,
                    a,
                    adm2[g2 + q],
                    t,
                ) by {
                    if q < before.buffer@.len() {
                        assert(entry_matches(before.buffer@[q], cap, a, adm[g + q], t));
                    }
                }
            }
        }
    }

    /// Last part of a tick: the head of the line, if it has not started yet,
    /// starts now; it gets one unit of service, and the clock moves on.
    fn serve_head(&mut self)
        requires
            old(self).inv(old(self).clock as int, old(self).clock as int),
            old(self).nothing_due(),
            old(self).clock < horizon(old(self).capacity as nat, old(self).arrivals@),
        ensures
            final(self).wf(),
            final(self).capacity == old(self).capacity,
            final(self).arrivals@ == old(self).arrivals@,
            final(self).clock == old(self).clock + 1,
            final(self).cursor == old(self).cursor,
            final(self).keeps_records_of(old(self)),
    {
        let ghost cap = self.capacity as nat;
        let ghost a = self.arrivals@;
        let ghost t = self.clock as int;
        let ghost k = self.cursor as int;
        let ghost adm = admitted_before(cap, a, k);
        let ghost g = self.departed();
        if self.buffer.len() > 0 {
            let head: QueueEntry = self.buffer[0];
            proof {
                assert(entry_matches(self.buffer@[0], cap, a, adm[g + 0], t));
                lemma_predecessor(cap, a, k, g);
                lemma_admitted_position(cap, a, k, g);
            }
            match self.results[head.origin_index] {
                Outcome::Unset => {
                    self.results.set(head.origin_index, Outcome::Started(self.clock));
                },
                _ => {},
            }
            self.buffer.pop_front();
            self.buffer.push_front(
                QueueEntry {
                    origin_index: head.origin_index,
                    remaining_cost: head.remaining_cost - 1,
                    original_cost: head.original_cost,
                },
            );
        }
        self.clock += 1;
        proof {
            assert forall|j: int| 0 <= j < a.len() implies #[trigger] self.results@[j]
                == on_record(cap, a, k, g, t + 1, j) by {
                if j < k && start_time(cap, a, j) is Some {
                    lemma_position_of(cap, a, k, j);
                    let p = admitted_before(cap, a, j).len() as int;
                    if p > g {
                        lemma_ends_sorted(cap, a, k, g, p);
                    }
                }
            }
            assert forall|q: int| 0 <= q < self.buffer@.len() implies entry_matches(
                #[trigger] self.buffer@[q],
                cap,
                a,
                adm[g + q],
                t + 1,
            ) by {
                assert(entry_matches(old(self).buffer@[q], cap, a, adm[g + q], t));
                if q > 0 {
                    lemma_ends_sorted(cap, a, k, g, g + q);
                }
            }
        }
    }

    /// One tick. While work is left, the clock advances by exactly one; once
    /// the simulation is finished, nothing changes any more. The result says
    /// whether work is left after the tick.
    pub fn tick(&mut self) -> (more: bool)
        requires
            old(self).wf(),
        ensures
            final(self).wf(),
            final(self)@.agrees_with_model(),
            final(self)@.capacity == old(self)@.capacity,
            final(self)@.arrivals == old(self)@.arrivals,
            final(self)@.results.len() == old(self)@.results.len(),
            old(self).finished() ==> final(self)@ == old(self)@,
            !old(self).finished() ==> final(self)@.clock == old(self)@.clock + 1,
            final(self)@.next_arrival_cursor >= old(self)@.next_arrival_cursor,
            final(self)@.buffer.len() <= final(self)@.capacity,
            forall|i: int|
                0 <= i < old(self)@.results.len() && old(self)@.results[i] != Outcome::Unset
                    ==> #[trigger] final(self)@.results[i] == old(self)@.results[i],
            more == !final(self).finished(),
            more ==> final(self)@.clock < horizon(final(self)@.capacity, final(self)@.arrivals),
    {
        if self.is_done() {
            proof {
                self.lemma_state_by_model();
            }
            return false;
        }
        proof {
            self.lemma_unfinished_before_horizon();
        }
        self.retire_completed();
        self.admit_arrivals();
        self.serve_head();
        let done = self.is_done();
        proof {
            if !done {
                self.lemma_unfinished_before_horizon();
            }
            self.lemma_state_by_model();
        }
        !done
    }

    /// The tick that comes next.
    pub fn clock(&self) -> (t: usize)
        ensures
            t == self@.clock,
    {
        self.clock
    }

    /// The most entries that the buffer may hold.
    pub fn capacity(&self) -> (k: usize)
        ensures
            k == self@.capacity,
    {
        self.capacity
    }

    /// The number of entries in the buffer, the one in service included.
    pub fn buffer_len(&self) -> (n: usize)
        ensures
            n == self@.buffer.len(),
    {
        self.buffer.len()
    }

    /// The number of arrivals that have come in so far.
    pub fn next_arrival_cursor(&self) -> (k: usize)
        ensures
            k == self@.next_arrival_cursor,
    {
        self.cursor
    }

    /// What is on record for arrival `i`.
    pub fn outcome(&self, i: usize) -> (o: Outcome)
        requires
            i < self@.results.len(),
        ensures
            o == self@.results[i as int],
    {
        self.results[i]
    }

    /// The result vector of a finished simulation: for each arrival its start
    /// tick, or `-1` if it was rejected. No service may have started after
    /// tick `isize::MAX`.
    pub fn report(&self) -> (results: Vec<isize>)
        requires
            self.wf(),
            self.finished(),
            reportable(self@.capacity, self@.arrivals),
        ensures
            results@.len() == self@.arrivals.len(),
            forall|i: int|
                0 <= i < results@.len() ==> results@[i] == reported(
                    start_time(self@.capacity, self@.arrivals, i),
                ),
    {
        proof {
            self.lemma_finished_is_complete();
            self.lemma_state_by_model();
        }
        let mut out: Vec<isize> = Vec::new();
        let n: usize = self.results.len();
        let mut i: usize = 0;
        while i < n
            invariant
                i <= n,
                n == self.results@.len(),
                n == self.arrivals@.len(),
                out@.len() == i,
                reportable(self.capacity as nat, self.arrivals@),
                forall|j: int|
                    0 <= j < n ==> #[trigger] self.results@[j] == settled(
                        self.capacity as nat,
                        self.arrivals@,
                        j,
                    ),
                forall|j: int|
                    0 <= j < n ==> #[trigger] self.results@[j] == known_by(
                        self.capacity as nat,
                        self.arrivals@,
                        j,
                        self.clock as int,
                    ),
                forall|j: int|
                    0 <= j < i ==> #[trigger] out@[j] == reported(
                        start_time(self.capacity as nat, self.arrivals@, j),
                    ),
            decreases n - i,
        {
            let slot: isize = match self.results[i] {
                Outcome::Started(t) => t as isize,
                Outcome::Rejected => -1,
                Outcome::Unset => unreached(),
            };
            out.push(slot);
            i += 1;
        }
        out
    }

    /// A well-formed machine is in the state that the model prescribes.
    pub proof fn lemma_state_by_model(&self)
        requires
            self.wf(),
        ensures
            self@.agrees_with_model(),
    {
        let cap = self.capacity as nat;
        let a = self.arrivals@;
        let t = self.clock as int;
        let k = self.cursor as int;
        let adm = admitted_before(cap, a, k);
        let g = self.departed();
        lemma_occupancy_by_boundary(cap, a, k, t - 1, g);
        assert forall|i: int| 0 <= i < self@.results.len() implies #[trigger] self@.results[i]
            == known_by(cap, a, i, t) by {
            assert(self.results@[i] == on_record(cap, a, k, g, t, i));
            if start_time(cap, a, i) is Some {
                lemma_start_bounds(cap, a, i);
                if i < k {
                    lemma_position_of(cap, a, k, i);
                }
            }
        }
        assert forall|q: int| 0 <= q < self@.buffer.len() implies #[trigger] self@.buffer[q]
            == waiting_entry(cap, a, adm[adm.len() - self@.buffer.len() + q], t) by {
            assert(entry_matches(self.buffer@[q], cap, a, adm[g + q], t));
            assert(ends(cap, a, adm[g + q]) > t - 1);
        }
    }

    /// Once the simulation is finished, every result slot is written and holds
    /// the model's final word on its arrival.
    pub proof fn lemma_finished_is_complete(&self)
        requires
            self.wf(),
            self.finished(),
        ensures
            forall|i: int|
                0 <= i < self@.results.len() ==> #[trigger] self@.results[i] == settled(
                    self@.capacity,
                    self@.arrivals,
                    i,
                ),
            forall|i: int|
                0 <= i < self@.results.len() ==> #[trigger] self@.results[i] != Outcome::Unset,
    {
        let cap = self.capacity as nat;
        let a = self.arrivals@;
        let k = self.cursor as int;
        let g = self.departed();
        assert forall|i: int| 0 <= i < self@.results.len() implies #[trigger] self@.results[i]
            == settled(cap, a, i) by {
            assert(self.results@[i] == on_record(cap, a, k, g, self.clock as int, i));
            if start_time(cap, a, i) is Some {
                lemma_position_of(cap, a, k, i);
            }
        }
    }

    /// While work is left, the clock has not reached the horizon.
    proof fn lemma_unfinished_before_horizon(&self)
        requires
            self.wf(),
            !self.finished(),
        ensures
            self.clock < horizon(self.capacity as nat, self.arrivals@),
    {
        let cap = self.capacity as nat;
        let a = self.arrivals@;
        let k = self.cursor as int;
        let adm = admitted_before(cap, a, k);
        if self.buffer@.len() > 0 {
            assert(ends(cap, a, adm[adm.len() - 1]) > self.clock - 1);
            lemma_free_is_last(cap, a, k);
            lemma_server_free_monotone(cap, a, k, a.len() as int);
        }
    }

    /// A replay is finished exactly when the clock has reached the horizon.
    pub proof fn lemma_finished_at_horizon(&self)
        requires
            self.wf(),
        ensures
            self.finished() <==> self@.clock == horizon(self@.capacity, self@.arrivals),
    {
        let cap = self.capacity as nat;
        let a = self.arrivals@;
        let k = self.cursor as int;
        let adm = admitted_before(cap, a, k);
        if !self.finished() {
            self.lemma_unfinished_before_horizon();
        } else if a.len() > 0 {
            assert(a[a.len() - 1].0 < self.clock);
            lemma_free_is_last(cap, a, k);
            if adm.len() > 0 {
                assert(ends(cap, a, adm[adm.len() - 1]) <= self.clock - 1);
            }
        }
    }
}

} // verus!
