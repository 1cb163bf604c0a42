//! Run configuration as plain values.  Loading it from the command line or
//! the environment is a collaborator concern; the library only holds and
//! serves the values.

use vstd::prelude::*;

verus! {

/// The benchmark's settings.
#[derive(Debug, Clone)]
pub struct Config {
    /// Primary gRPC service URL.
    pub grpc_url: Option<String>,
    /// Authentication token for the primary URL.
    pub grpc_token: Option<String>,
    /// Total number of ping rounds to send.
    pub total_rounds: usize,
    /// Simultaneous requests.
    pub concurrency: usize,
    /// Comparison test duration in seconds.
    pub test_duration_sec: u64,
    /// Block-engine URL for the request-rate benchmark.
    pub jito_url: String,
    /// Request-rate benchmark concurrency.
    pub jito_concurrency: usize,
    /// Verbose logging.
    pub verbose: bool,
}

impl Config {
    /// The gRPC URL to use: the configured one, or the public default.
    pub fn get_grpc_url(&self) -> (r: String)
        ensures
            self.grpc_url is Some ==> r == self.grpc_url->0,
            self.grpc_url is None ==> r@ == "https://solana-yellowstone-grpc.publicnode.com:443"@,
    {
        match &self.grpc_url {
            Some(u) => u.clone(),
            None => "https://solana-yellowstone-grpc.publicnode.com:443".to_owned(),
        }
    }
}

/// One configured gRPC endpoint.
#[derive(Debug, Clone)]
pub struct GrpcEndpoint {
    pub name: String,
    pub url: String,
    pub token: Option<String>,
}

} // verus!
