use grpc_benchmark::ledger::UnitLedger;

#[test]
fn test_duplicate_rejected() {
    let mut ledger = UnitLedger::new(100);
    assert!(ledger.record_arrival(42, 0, 1000));
    assert!(!ledger.record_arrival(42, 0, 2000));
    assert_eq!(ledger.arrivals_for(42).len(), 1);
    assert_eq!(ledger.arrivals_for(42)[0].timestamp, 1000);
}

#[test]
fn test_second_source_accepted() {
    let mut ledger = UnitLedger::new(100);
    assert!(ledger.record_arrival(42, 0, 1000));
    assert!(ledger.record_arrival(42, 1, 1005));
    let arrivals = ledger.arrivals_for(42);
    assert_eq!(arrivals.len(), 2);
    assert_eq!(arrivals[0].source, 0);
    assert_eq!(arrivals[1].source, 1);
}

#[test]
fn test_eviction_below_window() {
    let mut ledger = UnitLedger::new(100);
    assert!(ledger.record_arrival(1, 0, 10));
    assert!(ledger.record_arrival(101, 0, 20));
    // unit 1 is exactly 100 below unit 101: still retained
    assert_eq!(ledger.arrivals_for(1).len(), 1);
    assert!(ledger.record_arrival(102, 0, 30));
    // now unit 1 is 101 below the high-water mark: evicted
    assert_eq!(ledger.arrivals_for(1).len(), 0);
    assert_eq!(ledger.arrivals_for(101).len(), 1);
}

#[test]
fn test_stale_arrival_evicted_immediately() {
    let mut ledger = UnitLedger::new(100);
    assert!(ledger.record_arrival(300, 0, 10));
    // a unit far behind the high-water mark is accepted, then evicted by
    // the very insertion
    assert!(ledger.record_arrival(150, 0, 20));
    assert_eq!(ledger.arrivals_for(150).len(), 0);
    assert_eq!(ledger.arrivals_for(300).len(), 1);
}

#[test]
fn test_arrivals_for_is_a_snapshot() {
    let mut ledger = UnitLedger::new(100);
    assert!(ledger.record_arrival(7, 3, 111));
    let snapshot = ledger.arrivals_for(7);
    assert!(ledger.record_arrival(7, 4, 222));
    assert_eq!(snapshot.len(), 1);
    assert_eq!(ledger.arrivals_for(7).len(), 2);
}

#[test]
fn test_unknown_unit_is_empty() {
    let ledger = UnitLedger::new(100);
    assert_eq!(ledger.arrivals_for(9).len(), 0);
}
