use chameleon_schedule::common_types::{Cargo, IsID, Terminal, Truck};
use chameleon_schedule::counter_mapper::CounterMapper;
use chameleon_schedule::driving_times_cache::DrivingTimesCache;

#[test]
fn counter_mapper_assigns_dense_indices() {
    let mut m = CounterMapper::new();
    let a: Terminal = m.add_or_find(&"A".to_string());
    let b: Terminal = m.add_or_find(&"B".to_string());
    let a2: Terminal = m.add_or_find(&"A".to_string());
    assert_eq!((a.get_id(), b.get_id(), a2.get_id()), (0, 1, 0));
    assert_eq!(m.len(), 2);
    assert_eq!(m.map(&b), Some("B".to_string()));
    assert_eq!(m.map(&Terminal::from_id(2)), None);
    let r: Option<Cargo> = m.reverse_map(&"B".to_string());
    assert_eq!(r, Some(Cargo(1)));
    let missing: Option<Truck> = m.reverse_map(&"C".to_string());
    assert_eq!(missing, None);
}

#[test]
fn driving_times_cache_lookups() {
    let cache = DrivingTimesCache::from_map(vec![vec![None, Some(7)], vec![Some(9), None]]);
    assert_eq!(cache.get_driving_time(Terminal(0), Terminal(1)), 7);
    assert_eq!(cache.get_driving_time(Terminal(1), Terminal(0)), 9);
    assert_eq!(cache.get_driving_time(Terminal(1), Terminal(1)), 0);
    assert!(cache.is_known(0, 1));
    assert!(!cache.is_known(0, 2));
    assert!(!DrivingTimesCache::new().is_known(0, 1));
}
