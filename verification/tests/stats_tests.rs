use grpc_benchmark::stats::{
    calculate_stats, percentile, saturating_increment, EndpointStats, LatencyStats,
};

#[test]
fn test_latency_stats() {
    let latencies = vec![10, 20, 15, 25, 30];
    let stats = calculate_stats(&latencies);

    assert_eq!(stats.count, 5);
    assert_eq!(stats.min as f64, 10.0);
    assert_eq!(stats.max as f64, 30.0);
    assert_eq!(stats.mean as f64, 20.0);
    assert_eq!(stats.median as f64, 20.0);
}

#[test]
fn test_percentile() {
    let data = vec![1, 2, 3, 4, 5, 6, 7, 8, 9, 10];
    assert_eq!(percentile(&data, 90) as f64, 9.0);
    assert_eq!(percentile(&data, 50) as f64, 5.0);
}

#[test]
fn test_percentile_edges() {
    let data = vec![7];
    assert_eq!(percentile(&data, 0), 7);
    assert_eq!(percentile(&data, 50), 7);
    assert_eq!(percentile(&data, 100), 7);
    let empty: Vec<u64> = Vec::new();
    assert_eq!(percentile(&empty, 50), 0);
    let data = vec![1, 2, 3, 4, 5, 6, 7, 8, 9, 10];
    assert_eq!(percentile(&data, 0), 1);
    assert_eq!(percentile(&data, 100), 10);
    assert_eq!(percentile(&data, 99), 10);
}

#[test]
fn test_snapshot_percentiles_and_stddev() {
    // sorted samples: [10, 15, 20, 25, 30]; population variance is 50,
    // so the flooring standard deviation is 7
    let stats = calculate_stats(&vec![10, 20, 15, 25, 30]);
    assert_eq!(stats.latencies, vec![10, 15, 20, 25, 30]);
    assert_eq!(stats.p90, 30);
    assert_eq!(stats.p99, 30);
    assert_eq!(stats.std_dev, 7);
    assert_eq!(stats.sum, 100);
}

#[test]
fn test_snapshot_zero_samples() {
    let stats = calculate_stats(&Vec::new());
    assert_eq!(stats.count, 0);
    assert_eq!(stats.mean, 0);
    assert_eq!(stats.median, 0);
    assert_eq!(stats.min, 0);
    assert_eq!(stats.max, 0);
    assert_eq!(stats.std_dev, 0);
    assert_eq!(stats.p90, 0);
    assert_eq!(stats.p99, 0);

    let mut empty = LatencyStats::new();
    empty.calculate();
    assert_eq!(empty.count, 0);
}

#[test]
fn test_add_latency_tracks_min_max() {
    let mut stats = LatencyStats::new();
    stats.add_latency(20);
    assert_eq!((stats.min, stats.max, stats.count), (20, 20, 1));
    stats.add_latency(5);
    assert_eq!((stats.min, stats.max, stats.count), (5, 20, 2));
    stats.add_latency(40);
    assert_eq!((stats.min, stats.max, stats.count), (5, 40, 3));
    assert_eq!(stats.sum, 65);
}

#[test]
fn test_mean_floors() {
    let stats = calculate_stats(&vec![1, 2, 2]);
    // exact mean 5/3; the integer mean floors
    assert_eq!(stats.mean, 1);
    assert_eq!(stats.sum, 5);
    assert_eq!(stats.count, 3);
}

#[test]
fn test_saturating_increment() {
    assert_eq!(saturating_increment(0), 1);
    assert_eq!(saturating_increment(41), 42);
    assert_eq!(saturating_increment(u64::MAX), u64::MAX);
}

#[test]
fn test_endpoint_stats_average() {
    let mut es = EndpointStats::new();
    assert_eq!(es.get_average_latency(), 0);
    es.add_latency(10);
    es.add_latency(21);
    assert_eq!(es.total_latency, 31);
    assert_eq!(es.get_average_latency(), 15);
    assert_eq!(es.get_stats().count, 2);
}

#[test]
fn test_endpoint_stats_percentage() {
    let mut es = EndpointStats::new();
    assert_eq!(es.get_first_received_percentage(), 0);
    es.increment_first_received();
    es.increment_total_received();
    es.increment_total_received();
    es.increment_total_received();
    assert_eq!(es.first_received, 1);
    assert_eq!(es.total_received, 3);
    assert_eq!(es.get_first_received_percentage(), 33);
}
