//! Admission control for a bounded FIFO buffer in front of a single server.
//!
//! [`model`] states, arrival by arrival, when service starts or that the
//! arrival is turned away. [`simulator`] is the machine that replays a list of
//! arrivals tick by tick and is proved to agree with the model.
pub mod ledger;
pub mod model;
pub mod simulator;

use crate::queue::model::{arrivals_sorted, horizon, replayable, reported, start_time};
use crate::queue::simulator::BufferSimulator;
use vstd::prelude::*;

verus! {

/// Replays `packages`, each an `(arrival_time, cost)` pair, against a buffer
/// that holds at most `buffer_size` entries, and returns for each package the
/// tick at which its service began, or `-1` if it was rejected on arrival.
///
/// The packages must come in non-decreasing order of arrival time. The clock
/// must stay within `usize` until the replay ends, and no service may start
/// after tick `isize::MAX`, so that every start can be reported.
pub fn simulate_package_processing(buffer_size: usize, packages: &[(usize, usize)]) -> (results:
    Vec<isize>)
    requires
        arrivals_sorted(packages@),
        replayable(buffer_size as nat, packages@),
    ensures
        results@.len() == packages@.len(),
        forall|i: int|
            0 <= i < packages@.len() ==> results@[i] == reported(
                start_time(buffer_size as nat, packages@, i),
            ),
{
    let mut sim = BufferSimulator::new(buffer_size, packages);
    loop
        invariant
            sim.wf(),
            sim@.capacity == buffer_size,
            sim@.arrivals == packages@,
            !sim.finished() ==> sim@.clock < horizon(sim@.capacity, sim@.arrivals),
        ensures
            sim.wf(),
            sim@.capacity == buffer_size,
            sim@.arrivals == packages@,
            sim.finished(),
        decreases horizon(buffer_size as nat, packages@) - sim@.clock,
    {
        let more = sim.tick();
        if !more {
            break;
        }
    }
    sim.report()
}

} // verus!
