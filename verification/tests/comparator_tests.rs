use grpc_benchmark::comparator::{
    ComparatorConfig, IngestOutcome, QuorumRule, RaceComparator, RunState, UnitRaceResult,
};

fn names(list: &[&str]) -> Vec<String> {
    list.iter().map(|s| s.to_string()).collect()
}

fn all_active_config() -> ComparatorConfig {
    ComparatorConfig { quorum: QuorumRule::AllActive, ..ComparatorConfig::standard() }
}

fn expect_went_live(out: IngestOutcome) -> Vec<UnitRaceResult> {
    match out {
        IngestOutcome::WentLive(results) => results,
        other => panic!("expected the run to go live, got {:?}", other),
    }
}

#[test]
fn test_race_order_and_latencies() {
    // arrivals for unit 42: A at 1000.0 ms, B at 1000.3 ms, C at 1000.05 ms
    // (in microseconds); race order is A, C, B; A wins; C's latency is
    // 0.05 ms and B's 0.3 ms, both at or above the 0.01 ms noise floor
    let mut c = RaceComparator::new(names(&["A", "B", "C"]), all_active_config());
    assert!(matches!(c.ingest(0, 42, 1_000_000), IngestOutcome::Recorded));
    assert!(matches!(c.ingest(1, 42, 1_000_300), IngestOutcome::Recorded));
    let results = expect_went_live(c.ingest(2, 42, 1_000_050));

    assert_eq!(results.len(), 1);
    let r = &results[0];
    assert_eq!(r.unit, 42);
    assert_eq!(r.winner, 0);
    assert_eq!(r.winner_timestamp, 1_000_000);
    let order: Vec<usize> = r.rankings.iter().map(|e| e.source).collect();
    assert_eq!(order, vec![0, 2, 1]);
    assert_eq!(r.rankings[1].latency, 50);
    assert!(r.rankings[1].recorded);
    assert_eq!(r.rankings[2].latency, 300);
    assert!(r.rankings[2].recorded);
    assert!(!r.rankings[0].recorded);

    // the winner credit plus the recorded samples account for all three
    let recorded = r.rankings.iter().filter(|e| e.recorded).count();
    assert_eq!(1 + recorded, 3);

    let rep = c.snapshot();
    assert_eq!(rep[0].first_received, 1);
    assert_eq!(rep[0].total_received, 1);
    assert_eq!(rep[1].latency.latencies, vec![300]);
    assert_eq!(rep[2].latency.latencies, vec![50]);
}

#[test]
fn test_duplicate_ingest_is_noop() {
    let mut c = RaceComparator::new(names(&["A", "B"]), ComparatorConfig::standard());
    assert!(matches!(c.ingest(0, 7, 100), IngestOutcome::Recorded));
    assert!(matches!(c.ingest(0, 7, 200), IngestOutcome::Duplicate));
    assert!(matches!(c.ingest(0, 7, 300), IngestOutcome::Duplicate));
}

#[test]
fn test_noise_floor_drops_tiny_latency() {
    // B trails A by 5 µs, below the 10 µs floor: compared, but no sample
    let mut c = RaceComparator::new(names(&["A", "B"]), ComparatorConfig::standard());
    assert!(matches!(c.ingest(0, 10, 1000), IngestOutcome::Recorded));
    let results = expect_went_live(c.ingest(1, 10, 1005));
    assert_eq!(results.len(), 1);
    assert_eq!(results[0].winner, 0);
    assert!(!results[0].rankings[1].recorded);

    let rep = c.snapshot();
    assert_eq!(rep[1].total_received, 1);
    assert_eq!(rep[1].first_received, 0);
    assert_eq!(rep[1].latency.count, 0);
}

#[test]
fn test_live_flow_and_processed_guard() {
    let mut c = RaceComparator::new(names(&["A", "B"]), ComparatorConfig::standard());
    c.ingest(0, 10, 1000);
    expect_went_live(c.ingest(1, 10, 1020));
    assert!(matches!(c.state(), RunState::Live));

    assert!(matches!(c.ingest(0, 11, 2000), IngestOutcome::AwaitCompare));
    assert!(matches!(c.ingest(1, 11, 2020), IngestOutcome::AwaitCompare));
    let r = c.compare_unit(11).expect("two active arrivals must compare");
    assert_eq!(r.winner, 0);
    assert_eq!(r.rankings[1].latency, 20);
    assert!(r.rankings[1].recorded);
    // a unit is compared at most once
    assert!(c.compare_unit(11).is_none());

    // a single arrival is not enough to compare
    assert!(matches!(c.ingest(0, 12, 3000), IngestOutcome::AwaitCompare));
    assert!(c.compare_unit(12).is_none());
}

#[test]
fn test_tie_breaks_on_source_id() {
    let mut c = RaceComparator::new(names(&["A", "B"]), ComparatorConfig::standard());
    c.ingest(1, 5, 900);
    let results = expect_went_live(c.ingest(0, 5, 900));
    assert_eq!(results[0].winner, 0);
    assert_eq!(results[0].rankings[1].source, 1);
    assert_eq!(results[0].rankings[1].latency, 0);
    assert!(!results[0].rankings[1].recorded);
}

#[test]
fn test_exclusion_during_live() {
    let mut c = RaceComparator::new(names(&["A", "B", "C"]), all_active_config());
    c.ingest(0, 1, 100);
    c.ingest(1, 1, 110);
    let results = expect_went_live(c.ingest(2, 1, 120));
    assert_eq!(results.len(), 1);

    // C fails; it is excluded at once, but its statistics remain
    c.report_failure(2);
    assert!(!c.is_active(2));

    assert!(matches!(c.ingest(0, 2, 200), IngestOutcome::AwaitCompare));
    assert!(matches!(c.ingest(1, 2, 205), IngestOutcome::AwaitCompare));
    assert!(matches!(c.ingest(2, 2, 201), IngestOutcome::AwaitCompare));
    let r = c.compare_unit(2).expect("A and B are still active");
    assert_eq!(r.rankings.len(), 2);
    assert_eq!(r.winner, 0);
    assert!(r.rankings.iter().all(|e| e.source != 2));

    let rep = c.snapshot();
    assert!(!rep[2].is_available);
    assert_eq!(rep[2].latency.latencies, vec![20]);
    assert_eq!(rep[2].total_received, 1);
}

#[test]
fn test_gate_excludes_laggard_at_transition() {
    // first units A:100, B:105, C:80: C is too far behind the edge and is
    // excluded before any statistics are attributed to it
    let mut c = RaceComparator::new(names(&["A", "B", "C"]), all_active_config());
    c.ingest(0, 100, 10);
    c.ingest(1, 105, 20);
    let results = expect_went_live(c.ingest(2, 80, 30));
    // each warm-up unit has a single arrival, so nothing compares yet
    assert!(results.is_empty());
    assert!(!c.is_active(2));
    assert!(c.is_active(0));
    assert!(c.is_active(1));
    assert!(matches!(c.state(), RunState::Live));
    // no statistics were attributed to the excluded source
    let rep = c.snapshot();
    assert_eq!(rep[2].total_received, 0);
    assert_eq!(rep[2].first_received, 0);
    assert_eq!(rep[2].latency.count, 0);
}

#[test]
fn test_gate_aborts_without_two_aligned_sources() {
    let mut c = RaceComparator::new(names(&["A", "B"]), ComparatorConfig::standard());
    assert!(matches!(c.ingest(0, 100, 10), IngestOutcome::Recorded));
    assert!(matches!(c.ingest(1, 300, 20), IngestOutcome::GateAborted));
    assert!(matches!(c.state(), RunState::Warmup));
    assert!(!c.is_active(0));
    assert!(c.is_active(1));
    // the run never leaves warm-up: later events are ledger-only
    assert!(matches!(c.ingest(1, 301, 30), IngestOutcome::Recorded));
    assert!(c.compare_unit(301).is_none());
    let rep = c.snapshot();
    assert_eq!(rep[0].total_received, 0);
    assert_eq!(rep[1].total_received, 0);
}

#[test]
fn test_stopped_run_ignores_events() {
    let mut c = RaceComparator::new(names(&["A", "B"]), ComparatorConfig::standard());
    c.ingest(0, 1, 10);
    c.stop();
    assert!(matches!(c.ingest(1, 1, 20), IngestOutcome::Stopped));
    assert!(c.compare_unit(1).is_none());
    assert!(matches!(c.state(), RunState::Stopped));
}

#[test]
fn test_snapshot_mid_run() {
    let mut c = RaceComparator::new(names(&["A", "B"]), ComparatorConfig::standard());
    c.ingest(0, 1, 10);
    let rep = c.snapshot();
    assert_eq!(rep.len(), 2);
    assert_eq!(rep[0].name, "A");
    assert!(rep[0].has_received_data);
    assert_eq!(rep[0].first_unit, Some(1));
    assert!(!rep[1].has_received_data);
    assert_eq!(rep[1].first_unit, None);
}

#[test]
fn test_quorum_at_least_two_ignores_silent_source() {
    // with the two-reporter quorum, a third source that has not reported
    // does not hold up the transition
    let mut c = RaceComparator::new(names(&["A", "B", "C"]), ComparatorConfig::standard());
    c.ingest(0, 10, 100);
    expect_went_live(c.ingest(1, 10, 130));
    assert!(matches!(c.state(), RunState::Live));
    assert!(c.is_active(2));
}

#[test]
fn test_evicted_unit_is_not_compared() {
    let mut c = RaceComparator::new(names(&["A", "B"]), ComparatorConfig::standard());
    c.ingest(0, 10, 1000);
    expect_went_live(c.ingest(1, 10, 1010));
    // unit 11 arrives from A, but the stream rushes far ahead before B's
    // copy lands: the retention window evicts unit 11
    assert!(matches!(c.ingest(0, 11, 2000), IngestOutcome::AwaitCompare));
    assert!(matches!(c.ingest(0, 500, 3000), IngestOutcome::AwaitCompare));
    assert!(matches!(c.ingest(1, 11, 2050), IngestOutcome::AwaitCompare));
    // only B's late copy of unit 11 is retained, so nothing compares
    assert!(c.compare_unit(11).is_none());
}

#[test]
fn test_quorum_all_active_waits() {
    let mut c = RaceComparator::new(names(&["A", "B", "C"]), all_active_config());
    assert!(matches!(c.ingest(0, 10, 100), IngestOutcome::Recorded));
    assert!(matches!(c.ingest(1, 10, 130), IngestOutcome::Recorded));
    assert!(matches!(c.state(), RunState::Warmup));
}
