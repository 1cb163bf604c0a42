use grpc_benchmark::alignment::{AlignmentGate, GateDecision};

#[test]
fn test_gate_excludes_laggard_and_proceeds() {
    // first units A:100, B:105, C:80 with threshold 10: the edge is 105;
    // C lags by 25 and is excluded; A and B remain, so the run proceeds
    let gate = AlignmentGate::new(10);
    let firsts = vec![(0, 100), (1, 105), (2, 80)];
    let outcome = gate.evaluate(&firsts);
    assert_eq!(outcome.excluded, vec![2]);
    assert!(matches!(outcome.decision, GateDecision::Proceed));
}

#[test]
fn test_gate_aborts_when_one_remains() {
    let gate = AlignmentGate::new(10);
    let firsts = vec![(0, 100), (1, 80)];
    let outcome = gate.evaluate(&firsts);
    assert_eq!(outcome.excluded, vec![1]);
    assert!(matches!(outcome.decision, GateDecision::Abort));
}

#[test]
fn test_gate_keeps_all_when_aligned() {
    let gate = AlignmentGate::new(10);
    let firsts = vec![(0, 100), (1, 101), (2, 109)];
    let outcome = gate.evaluate(&firsts);
    assert!(outcome.excluded.is_empty());
    assert!(matches!(outcome.decision, GateDecision::Proceed));
}

#[test]
fn test_gate_boundary_is_inclusive() {
    // a first unit exactly the threshold below the edge is kept
    let gate = AlignmentGate::new(10);
    let firsts = vec![(0, 100), (1, 90)];
    let outcome = gate.evaluate(&firsts);
    assert!(outcome.excluded.is_empty());
    assert!(matches!(outcome.decision, GateDecision::Proceed));
}
