use chameleon_schedule::schedule::{PyBooking, PyTruckData, Schedule, ScheduleError, ScheduleGenerator};

fn s(x: &str) -> String {
    x.to_string()
}

/// Terminals `A`, `B` and the depot `C`, all open in [0, 1000); a truck `T`
/// at `start`; one booking `c1` from A to B; every drive takes 100.
fn generator(start: &str, weight: usize, pickup: (u64, u64), a_open: (u64, u64)) -> ScheduleGenerator {
    let terminals = vec![(s("A"), a_open.0, a_open.1), (s("B"), 0, 1000), (s("C"), 0, 1000)];
    let trucks = vec![(s("T"), PyTruckData::new(s(start), 100, 10))];
    let bookings = vec![PyBooking::new(s("c1"), weight, 1, s("A"), s("B"), pickup.0, pickup.1, 500, 900)];
    let mut g = ScheduleGenerator::new(&terminals, &trucks, &bookings, (0, 1000)).unwrap();
    let ids = g.get_terminal_ids();
    let rows: Vec<(String, Vec<u64>)> = ids
        .iter()
        .map(|from| (from.clone(), ids.iter().map(|to| if from == to { 0 } else { 100 }).collect()))
        .collect();
    g.set_driving_times(&ids, &rows);
    assert!(g.driving_times_complete());
    g.seed(0);
    g
}

fn neighbour(g: &mut ScheduleGenerator, schedule: &Schedule) -> Option<Schedule> {
    for _ in 0..50 {
        if let Some(n) = g.try_schedule_neighbour(schedule, 3) {
            return Some(n);
        }
    }
    None
}

fn legs_sum(schedule: &Schedule, start: usize) -> u64 {
    let mut total = 0;
    let mut prev = start;
    for cp in &schedule.get_truck_checkpoints()[0] {
        if cp.terminal.0 != prev {
            total += 100;
        }
        prev = cp.terminal.0;
    }
    total
}

#[test]
fn truck_at_pickup_terminal_first_goes_to_dropoff() {
    // The truck starts at A: the first checkpoint can only be at B.
    let mut g = generator("A", 10, (100, 300), (0, 1000));
    let empty = g.empty_schedule();
    let parts = g.scores(&empty);
    assert_eq!((parts.num_deliveries, parts.num_cargo, parts.num_free_trucks, parts.num_trucks), (0, 1, 1, 1));
    assert_eq!((parts.min_driving_time, parts.total_driving_time), (0, 1));
    let first = neighbour(&mut g, &empty).unwrap();
    let cps = &first.get_truck_checkpoints()[0];
    assert_eq!(cps.len(), 1);
    assert_eq!(cps[0].terminal.0, 1);
    assert!(cps[0].time >= 100 && cps[0].time < 1000);
    assert_eq!((cps[0].available_teu, cps[0].available_weight_kg), (10, 100));
    assert!(cps[0].pickup_cargo.is_empty() && cps[0].dropoff_cargo.is_empty());
    assert_eq!(first.get_truck_driving_times()[0], 100);
}

#[test]
fn truck_at_pickup_terminal_delivers() {
    let mut g = generator("A", 10, (100, 300), (0, 1000));
    let mut schedule = g.empty_schedule();
    let mut delivered = false;
    for _ in 0..5000 {
        schedule = match neighbour(&mut g, &schedule) {
            Some(n) => n,
            None => g.empty_schedule(),
        };
        if g.scores(&schedule).num_deliveries == 1 {
            delivered = true;
            break;
        }
    }
    assert!(delivered);
    let parts = g.scores(&schedule);
    assert_eq!((parts.num_deliveries, parts.num_cargo, parts.num_free_trucks), (1, 1, 0));
    assert_eq!(parts.min_driving_time, 100);
    assert!(parts.total_driving_time >= 100);
    assert_eq!(parts.total_driving_time, legs_sum(&schedule, 0) as u128);
}

#[test]
fn delivery_from_depot() {
    let mut g = generator("C", 10, (100, 300), (0, 1000));
    let mut schedule = g.empty_schedule();
    let mut delivered = false;
    for _ in 0..5000 {
        schedule = match neighbour(&mut g, &schedule) {
            Some(n) => n,
            None => g.empty_schedule(),
        };
        if g.scores(&schedule).num_deliveries == 1 {
            delivered = true;
            break;
        }
    }
    assert!(delivered);
    let parts = g.scores(&schedule);
    assert_eq!(parts.num_free_trucks, 0);
    assert_eq!(parts.min_driving_time, 100);
    assert!(parts.total_driving_time >= 200);
    assert_eq!(parts.total_driving_time, legs_sum(&schedule, 2) as u128);
    let tuples = schedule.to_list_of_tuples(&g);
    assert!(tuples.contains(&(s("T"), tuples[0].1, s("A"), s("c1"), true)));
    assert!(tuples.iter().any(|t| t.2 == "B" && t.3 == "c1" && !t.4));
    let pickup = tuples.iter().find(|t| t.4).unwrap().1;
    let dropoff = tuples.iter().find(|t| !t.4).unwrap().1;
    assert!((100..300).contains(&pickup));
    assert!((500..900).contains(&dropoff));
    assert!(dropoff >= pickup + 100);
}

#[test]
fn overweight_cargo_never_delivered() {
    let mut g = generator("C", 200, (100, 300), (0, 1000));
    let mut schedule = g.empty_schedule();
    for _ in 0..2000 {
        schedule = match neighbour(&mut g, &schedule) {
            Some(n) => n,
            None => g.empty_schedule(),
        };
        assert_eq!(g.scores(&schedule).num_deliveries, 0);
    }
}

#[test]
fn booking_outside_hours_dropped() {
    let g = generator("C", 10, (800, 900), (0, 500));
    assert_eq!(g.get_terminal_ids(), vec![s("C")]);
    let parts = g.scores(&g.empty_schedule());
    assert_eq!(parts.num_cargo, 0);
}

#[test]
fn remove_delivery_restores_capacity() {
    let mut g = generator("C", 10, (100, 300), (0, 1000));
    let mut schedule = g.empty_schedule();
    for _ in 0..5000 {
        schedule = match neighbour(&mut g, &schedule) {
            Some(n) => n,
            None => g.empty_schedule(),
        };
        if g.scores(&schedule).num_deliveries == 1 {
            break;
        }
    }
    assert_eq!(g.scores(&schedule).num_deliveries, 1);
    let before = &schedule.get_truck_checkpoints()[0];
    let pickup = before.iter().position(|c| !c.pickup_cargo.is_empty()).unwrap();
    let dropoff = before.iter().position(|c| !c.dropoff_cargo.is_empty()).unwrap();
    let mut found = false;
    for _ in 0..5000 {
        let n = match g.try_schedule_neighbour(&schedule, 1) {
            Some(n) => n,
            None => continue,
        };
        let after = &n.get_truck_checkpoints()[0];
        let same_stops = after.len() == before.len()
            && after.iter().zip(before.iter()).all(|(x, y)| x.time == y.time && x.terminal == y.terminal);
        if g.scores(&n).num_deliveries == 0 && same_stops {
            for (k, (x, y)) in after.iter().zip(before.iter()).enumerate() {
                let carried = if pickup <= k && k < dropoff { 1 } else { 0 };
                assert_eq!(x.available_teu, y.available_teu + carried);
                assert_eq!(x.available_weight_kg, y.available_weight_kg + 10 * carried);
                assert!(x.pickup_cargo.is_empty() && x.dropoff_cargo.is_empty());
            }
            found = true;
            break;
        }
    }
    assert!(found);
}

#[test]
fn cached_driving_times_match_legs() {
    let mut g = generator("C", 10, (100, 300), (0, 1000));
    let mut schedule = g.empty_schedule();
    for _ in 0..1000 {
        schedule = match neighbour(&mut g, &schedule) {
            Some(n) => n,
            None => g.empty_schedule(),
        };
        assert_eq!(schedule.get_truck_driving_times()[0], legs_sum(&schedule, 2));
        let cps = &schedule.get_truck_checkpoints()[0];
        for w in cps.windows(2) {
            assert!(w[0].time < w[1].time);
            assert!(w[0].terminal != w[1].terminal);
            assert!(w[1].time - w[0].time >= 100);
        }
        for cp in cps.iter() {
            assert!(cp.available_teu <= 10 && cp.available_weight_kg <= 100);
            assert!(cp.time < 1000);
        }
    }
}

#[test]
fn same_seed_same_sequence() {
    let run = || {
        let mut g = generator("C", 10, (100, 300), (0, 1000));
        g.seed(42);
        let mut schedule = g.empty_schedule();
        let mut seen = Vec::new();
        for _ in 0..300 {
            schedule = match neighbour(&mut g, &schedule) {
                Some(n) => n,
                None => g.empty_schedule(),
            };
            seen.push((schedule.to_list_of_tuples(&g), schedule.get_truck_driving_times().clone(), schedule.get_truck_checkpoints()[0].len()));
        }
        seen
    };
    assert_eq!(run(), run());
}

#[test]
fn around_gap_at_checkpoint_time() {
    let mut g = generator("C", 10, (100, 300), (0, 1000));
    let mut schedule = g.empty_schedule();
    for _ in 0..5000 {
        schedule = match neighbour(&mut g, &schedule) {
            Some(n) => n,
            None => g.empty_schedule(),
        };
        if schedule.get_truck_checkpoints()[0].len() >= 2 {
            break;
        }
    }
    let cps = &schedule.get_truck_checkpoints()[0];
    assert!(cps.len() >= 2);
    let truck = chameleon_schedule::common_types::Truck(0);
    assert_eq!(schedule.get_checkpoints_around_gap(truck, cps[0].time), (Some(0), Some(1)));
    assert_eq!(schedule.get_checkpoints_around_gap(truck, cps[1].time - 1), (Some(0), Some(1)));
    assert_eq!(schedule.get_checkpoints_around_gap(truck, 0), (None, Some(0)));
    assert_eq!(schedule.get_prev_and_next_checkpoints(truck, &cps[1]), (Some(0), if cps.len() > 2 { Some(2) } else { None }));
}

#[test]
fn invalid_interval_rejected() {
    let terminals = vec![(s("A"), 0, 1000)];
    let trucks = vec![(s("T"), PyTruckData::new(s("A"), 100, 10))];
    let bookings: Vec<PyBooking> = Vec::new();
    let r = ScheduleGenerator::new(&terminals, &trucks, &bookings, (10, 10));
    assert_eq!(r.err(), Some(ScheduleError::InvalidPlanningPeriod { start_time: 10, end_time: 10 }));
    let bad_terminal = vec![(s("A"), 50, 20)];
    let r = ScheduleGenerator::new(&bad_terminal, &trucks, &bookings, (0, 100));
    assert_eq!(r.err(), Some(ScheduleError::InvalidTerminalHours { terminal: 0, start_time: 50, end_time: 20 }));
    let bad_booking = vec![PyBooking::new(s("c"), 1, 1, s("A"), s("A"), 9, 3, 0, 10)];
    let r = ScheduleGenerator::new(&terminals, &trucks, &bad_booking, (0, 100));
    assert_eq!(r.err(), Some(ScheduleError::InvalidPickupWindow { booking: 0, start_time: 9, end_time: 3 }));
    let bad_dropoff = vec![PyBooking::new(s("c"), 1, 1, s("A"), s("A"), 0, 10, 7, 7)];
    let r = ScheduleGenerator::new(&terminals, &trucks, &bad_dropoff, (0, 100));
    assert_eq!(r.err(), Some(ScheduleError::InvalidDropoffWindow { booking: 0, start_time: 7, end_time: 7 }));
}

#[test]
fn reseeding_changes_and_repeats_the_draws() {
    let run = |seed: u64| {
        let mut g = generator("C", 10, (100, 300), (0, 1000));
        g.seed(seed);
        let mut schedule = g.empty_schedule();
        let mut seen = Vec::new();
        for _ in 0..100 {
            schedule = match neighbour(&mut g, &schedule) {
                Some(n) => n,
                None => g.empty_schedule(),
            };
            seen.push(schedule.to_list_of_tuples(&g).len() + 1000 * schedule.get_truck_checkpoints()[0].len());
            seen.push(schedule.get_truck_checkpoints()[0].iter().map(|c| c.time as usize).sum());
        }
        seen
    };
    assert_eq!(run(1), run(1));
    assert_ne!(run(1), run(2));
}
