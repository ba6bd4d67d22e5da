use data_structures::queue::simulate_package_processing;
use data_structures::queue::simulator::{BufferSimulator, Outcome};

#[test]
fn test_package_simulation_examples() {
    assert_eq!(simulate_package_processing(1, &[]), vec![]);
    assert_eq!(simulate_package_processing(1, &[(0, 0)]), vec![0]);
    assert_eq!(
        simulate_package_processing(1, &[(0, 1), (0, 1)]),
        vec![0, -1]
    );
    assert_eq!(
        simulate_package_processing(1, &[(0, 1), (1, 1)]),
        vec![0, 1]
    );
    assert_eq!(
        simulate_package_processing(1, &[(0, 0), (0, 0)]),
        vec![0, 0]
    );
    assert_eq!(
        simulate_package_processing(1, &[(0, 1), (0, 0)]),
        vec![0, -1]
    );
    assert_eq!(
        simulate_package_processing(2, &[(0, 1), (0, 1)]),
        vec![0, 1]
    );
    assert_eq!(
        simulate_package_processing(1, &[(0, 2), (1, 4), (5, 3)]),
        vec![0, -1, 5]
    );
}

#[test]
fn empty_input_gives_empty_result() {
    let empty: &[(usize, usize)] = &[];
    assert_eq!(simulate_package_processing(0, empty), Vec::<isize>::new());
    assert_eq!(simulate_package_processing(7, empty), Vec::<isize>::new());
}

#[test]
fn result_has_one_slot_per_arrival() {
    let arrivals = [(0, 3), (1, 0), (1, 2), (2, 1), (5, 0)];
    for capacity in 0..4 {
        let results = simulate_package_processing(capacity, &arrivals);
        assert_eq!(results.len(), arrivals.len());
        for (slot, arrival) in results.iter().zip(arrivals.iter()) {
            assert!(*slot == -1 || *slot >= arrival.0 as isize);
        }
    }
}

#[test]
fn queued_arrivals_start_when_the_server_is_free() {
    assert_eq!(
        simulate_package_processing(2, &[(0, 3), (1, 0), (1, 2), (2, 1), (5, 0)]),
        vec![0, 3, -1, -1, 5]
    );
    assert_eq!(
        simulate_package_processing(3, &[(0, 2), (0, 2), (0, 2), (0, 2), (2, 1)]),
        vec![0, 2, 4, -1, 6]
    );
}

#[test]
fn zero_cost_behind_a_busy_server_waits_in_line() {
    assert_eq!(
        simulate_package_processing(2, &[(0, 2), (1, 0), (2, 0)]),
        vec![0, 2, 2]
    );
}

#[test]
fn a_slot_freed_at_a_tick_is_seen_by_arrivals_of_that_tick() {
    assert_eq!(
        simulate_package_processing(1, &[(0, 3), (3, 2), (4, 1), (5, 1)]),
        vec![0, 3, -1, 5]
    );
}

#[test]
fn late_first_arrival_starts_at_its_own_time() {
    assert_eq!(simulate_package_processing(1, &[(4, 2)]), vec![4]);
    assert_eq!(simulate_package_processing(1, &[(4, 0)]), vec![4]);
}

#[test]
fn zero_capacity_admits_only_instant_arrivals() {
    assert_eq!(
        simulate_package_processing(0, &[(0, 0), (0, 1), (1, 0), (2, 5), (2, 0)]),
        vec![0, -1, 1, -1, 2]
    );
}

#[test]
fn admitted_arrivals_start_in_input_order() {
    let arrivals = [(0, 2), (0, 1), (1, 3), (1, 0), (2, 2), (4, 1), (9, 0), (9, 2)];
    for capacity in 0..5 {
        let results = simulate_package_processing(capacity, &arrivals);
        let mut last: isize = 0;
        for slot in results.iter() {
            if *slot != -1 {
                assert!(last <= *slot);
                last = *slot;
            }
        }
    }
}

#[test]
fn buffer_stays_within_capacity_at_every_tick() {
    let arrivals = [(0, 2), (0, 1), (1, 3), (1, 0), (2, 2), (4, 1), (9, 0), (9, 2)];
    for capacity in 0..5 {
        let mut sim = BufferSimulator::new(capacity, &arrivals);
        assert_eq!(sim.capacity(), capacity);
        assert!(sim.buffer_len() <= capacity);
        let mut more = !sim.is_done();
        while more {
            more = sim.tick();
            assert!(sim.buffer_len() <= capacity);
        }
        assert!(sim.is_done());
        assert_eq!(sim.buffer_len(), 0);
    }
}

#[test]
fn every_slot_is_written_once_and_none_is_left_unset() {
    let arrivals = [(0, 2), (0, 1), (1, 3), (1, 0), (2, 2), (4, 1), (9, 0), (9, 2)];
    let mut sim = BufferSimulator::new(2, &arrivals);
    let mut seen: Vec<Outcome> = (0..arrivals.len()).map(|i| sim.outcome(i)).collect();
    assert!(seen.iter().all(|o| *o == Outcome::Unset));
    while sim.tick() {
        for i in 0..arrivals.len() {
            let now = sim.outcome(i);
            if seen[i] != Outcome::Unset {
                assert_eq!(now, seen[i]);
            }
            seen[i] = now;
        }
    }
    for i in 0..arrivals.len() {
        let now = sim.outcome(i);
        if seen[i] != Outcome::Unset {
            assert_eq!(now, seen[i]);
        }
        assert_ne!(now, Outcome::Unset);
    }
    let expected = simulate_package_processing(2, &arrivals);
    assert_eq!(sim.report(), expected);
}

#[test]
fn ticks_follow_the_prescribed_order() {
    let arrivals = [(0, 2), (1, 4), (5, 3)];
    let mut sim = BufferSimulator::new(1, &arrivals);
    assert_eq!(sim.clock(), 0);
    assert_eq!(sim.next_arrival_cursor(), 0);
    assert!(!sim.is_done());

    assert!(sim.tick());
    assert_eq!(sim.clock(), 1);
    assert_eq!(sim.next_arrival_cursor(), 1);
    assert_eq!(sim.buffer_len(), 1);
    assert_eq!(sim.outcome(0), Outcome::Started(0));
    assert_eq!(sim.outcome(1), Outcome::Unset);

    assert!(sim.tick());
    assert_eq!(sim.clock(), 2);
    assert_eq!(sim.next_arrival_cursor(), 2);
    assert_eq!(sim.buffer_len(), 1);
    assert_eq!(sim.outcome(1), Outcome::Rejected);

    assert!(sim.tick());
    assert_eq!(sim.clock(), 3);
    assert_eq!(sim.buffer_len(), 0);
    assert_eq!(sim.outcome(2), Outcome::Unset);

    assert!(sim.tick());
    assert!(sim.tick());
    assert_eq!(sim.clock(), 5);
    assert_eq!(sim.next_arrival_cursor(), 2);

    assert!(sim.tick());
    assert_eq!(sim.clock(), 6);
    assert_eq!(sim.next_arrival_cursor(), 3);
    assert_eq!(sim.buffer_len(), 1);
    assert_eq!(sim.outcome(2), Outcome::Started(5));

    assert!(sim.tick());
    assert!(sim.tick());
    assert_eq!(sim.clock(), 8);
    assert_eq!(sim.buffer_len(), 1);
    assert!(!sim.tick());
    assert_eq!(sim.clock(), 9);
    assert_eq!(sim.buffer_len(), 0);
    assert!(sim.is_done());

    assert!(!sim.tick());
    assert_eq!(sim.clock(), 9);
    assert_eq!(sim.report(), vec![0, -1, 5]);
}

#[test]
fn replay_ends_within_last_arrival_plus_total_cost_plus_one() {
    let arrivals = [(0, 2), (0, 1), (1, 3), (1, 0), (2, 2), (4, 1), (9, 0), (9, 2)];
    let bound: usize = 9 + (2 + 1 + 3 + 0 + 2 + 1 + 0 + 2) + 1;
    for capacity in 0..5 {
        let mut sim = BufferSimulator::new(capacity, &arrivals);
        while sim.tick() {}
        assert!(sim.clock() <= bound);
    }
}
