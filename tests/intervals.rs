use rand::SeedableRng;
use chameleon_schedule::intervals::{intersect_all, Interval, IntervalChain, IntervalWithData, IntervalWithDataChain};

fn iv(start: u64, end: u64) -> Interval {
    Interval::new(start, end, ()).unwrap()
}

fn chain(parts: &[(u64, u64)]) -> IntervalChain {
    let mut c = IntervalChain::new();
    for (s, e) in parts {
        assert!(c.try_add(iv(*s, *e)));
    }
    c
}

fn bounds<T: Copy>(c: &IntervalWithDataChain<T>) -> Vec<(u64, u64)> {
    c.get_intervals().iter().map(|i| (i.get_start_time(), i.get_end_time())).collect()
}

#[test]
fn interval_of_zero_length_is_none() {
    assert!(Interval::new(5, 5, ()).is_none());
    assert!(Interval::new(6, 5, ()).is_none());
    let i = Interval::new(5, 6, ()).unwrap();
    assert_eq!(i.get_duration(), 1);
}

#[test]
fn intersect_of_disjoint_chains_is_empty() {
    let a = chain(&[(0, 10), (20, 30)]);
    let b = chain(&[(10, 20), (30, 40)]);
    assert!(a.intersect(&b).is_empty());
}

#[test]
fn intersect_merges_all_overlaps() {
    let a = chain(&[(0, 10), (20, 30)]);
    let b = chain(&[(5, 25)]);
    assert_eq!(bounds(&a.intersect(&b)), vec![(5, 10), (20, 25)]);
    let c = chain(&[(0, 3), (4, 8), (9, 12)]);
    let d = chain(&[(2, 10)]);
    assert_eq!(bounds(&d.intersect(&c)), vec![(2, 3), (4, 8), (9, 10)]);
}

#[test]
fn intersect_keeps_payload_of_self() {
    let mut a: IntervalWithDataChain<u32> = IntervalWithDataChain::new();
    assert!(a.try_add(IntervalWithData::new(0, 10, 7).unwrap()));
    let b = chain(&[(5, 20)]);
    let r = a.intersect(&b);
    assert_eq!(r.get_intervals().len(), 1);
    assert_eq!(*r.get_intervals()[0].get_additional_data(), 7);
}

#[test]
fn gaps_of_covering_chain_are_empty() {
    let c = chain(&[(0, 100)]);
    assert!(c.gaps(&iv(10, 50)).is_empty());
}

#[test]
fn gaps_inside_bounds_with_neighbours() {
    let mut c: IntervalWithDataChain<u32> = IntervalWithDataChain::new();
    assert!(c.try_add(IntervalWithData::new(10, 20, 1).unwrap()));
    assert!(c.try_add(IntervalWithData::new(30, 40, 2).unwrap()));
    let g = c.gaps(&iv(0, 50));
    assert_eq!(bounds(&g), vec![(0, 10), (20, 30), (40, 50)]);
    assert_eq!(*g.get_intervals()[0].get_additional_data(), (None, Some(1)));
    assert_eq!(*g.get_intervals()[1].get_additional_data(), (Some(1), Some(2)));
    assert_eq!(*g.get_intervals()[2].get_additional_data(), (Some(2), None));
    // A chain interval that starts before the bounds still covers its part.
    let h = c.gaps(&iv(15, 35));
    assert_eq!(bounds(&h), vec![(20, 30)]);
}

#[test]
fn try_add_refuses_overlap_and_touching() {
    let mut c = chain(&[(0, 10), (20, 30)]);
    assert!(!c.try_add(iv(5, 8)));
    assert!(!c.try_add(iv(25, 35)));
    assert!(!c.try_add(iv(10, 20)));
    assert!(!c.try_add(iv(30, 31)));
    assert!(c.try_add(iv(12, 18)));
    assert!(c.try_add(iv(31, 35)));
    assert_eq!(bounds(&c), vec![(0, 10), (12, 18), (20, 30), (31, 35)]);
    assert_eq!(c.total_length(), 30);
    let removed = c.remove(1);
    assert_eq!(removed.get_start_time(), 12);
    assert_eq!(c.total_length(), 24);
}

#[test]
fn contained_in_checks_every_interval() {
    let c = chain(&[(5, 10), (20, 30)]);
    assert!(c.contained_in(&iv(0, 30)));
    assert!(!c.contained_in(&iv(0, 25)));
    assert!(!c.contained_in(&iv(6, 30)));
    assert!(IntervalChain::new().contained_in(&iv(0, 1)));
}

#[test]
fn intersect_all_of_nothing_is_universal() {
    let none: Vec<IntervalChain> = Vec::new();
    assert_eq!(bounds(&intersect_all(&none)), vec![(0, u64::MAX)]);
    let chains = vec![chain(&[(0, 10), (20, 30)]), chain(&[(5, 25)]), chain(&[(0, 100)])];
    assert_eq!(bounds(&intersect_all(&chains)), vec![(5, 10), (20, 25)]);
}

#[test]
fn map_data_keeps_bounds() {
    let i = IntervalWithData::new(3, 9, 1u8).unwrap();
    let j = i.map_data('x');
    assert_eq!((j.get_start_time(), j.get_end_time(), *j.get_additional_data()), (3, 9, 'x'));
    let k = i.remove_additional_data();
    assert_eq!((k.get_start_time(), k.get_end_time()), (3, 9));
    let mut m = i;
    *m.get_additional_data_mut() = 4;
    assert_eq!(*m.get_additional_data(), 4);
}

#[test]
fn random_time_stays_inside_and_varies() {
    let mut rng = rand_xoshiro::Xoshiro256PlusPlus::seed_from_u64(7);
    let i = iv(100, 1000);
    let times: Vec<u64> = (0..200).map(|_| i.random_time(&mut rng)).collect();
    assert!(times.iter().all(|t| (100..1000).contains(t)));
    assert!(times.iter().any(|t| *t != 100));
    assert!(times.iter().any(|t| *t != times[0]));
    let single = iv(5, 6);
    assert_eq!(single.random_time(&mut rng), 5);
}
