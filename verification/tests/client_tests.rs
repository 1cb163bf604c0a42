use grpc_benchmark::counters::{classify_status, ResponseClass, Statistics};
use grpc_benchmark::{Config, FzsClient, GrpcClient};

#[test]
fn test_statistics_counts_and_resets() {
    let mut stats = Statistics::new();
    stats.increment_total();
    stats.increment_total();
    stats.increment_success();
    stats.increment_429();
    let (total, success, limited) = stats.reset();
    assert_eq!((total, success, limited), (2, 1, 1));
    let (total, success, limited) = stats.reset();
    assert_eq!((total, success, limited), (0, 0, 0));
}

#[test]
fn test_record_response() {
    let mut stats = Statistics::new();
    stats.increment_total();
    stats.record_response(200);
    stats.record_response(429);
    stats.record_response(500);
    let (total, success, limited) = stats.reset();
    assert_eq!((total, success, limited), (1, 1, 1));
}

#[test]
fn test_classify_status() {
    assert!(matches!(classify_status(200), ResponseClass::Success));
    assert!(matches!(classify_status(429), ResponseClass::RateLimited));
    assert!(matches!(classify_status(404), ResponseClass::Other));
    assert!(matches!(classify_status(500), ResponseClass::Other));
}

#[test]
fn test_config_url_default() {
    let config = Config {
        grpc_url: None,
        grpc_token: None,
        total_rounds: 50,
        concurrency: 10,
        test_duration_sec: 30,
        jito_url: "https://amsterdam.mainnet.block-engine.jito.wtf".to_string(),
        jito_concurrency: 10,
        verbose: false,
    };
    assert_eq!(config.get_grpc_url(), "https://solana-yellowstone-grpc.publicnode.com:443");

    let config = Config { grpc_url: Some("https://example.invalid:443".to_string()), ..config };
    assert_eq!(config.get_grpc_url(), "https://example.invalid:443");
}

#[test]
fn test_fzs_client_getters() {
    let client = FzsClient::new("64.130.37.195:2222", Some("token"), "FzStream".to_string());
    assert_eq!(client.get_endpoint_name(), "FzStream");
    assert_eq!(client.get_endpoint(), "64.130.37.195:2222");
    assert_eq!(client.get_auth_token(), Some("token"));

    let bare = FzsClient::new("localhost:1", None, "bare".to_string());
    assert_eq!(bare.get_auth_token(), None);
}

#[test]
fn test_grpc_client_getters() {
    let client = GrpcClient::new(
        "https://solana-yellowstone-grpc.publicnode.com:443",
        None,
        "PublicNode".to_string(),
    );
    assert_eq!(client.get_endpoint_name(), "PublicNode");
    assert_eq!(client.get_url(), "https://solana-yellowstone-grpc.publicnode.com:443");
    assert_eq!(client.get_token(), None);
}
