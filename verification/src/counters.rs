//! Rolling request counters for periodic throughput reports.

use vstd::prelude::*;

verus! {

/// Classification of one HTTP response of a request-rate benchmark.
#[derive(PartialEq, Eq, Structural, Debug, Clone, Copy)]
pub enum ResponseClass {
    /// Status 200: the request succeeded.
    Success,
    /// Status 429: the service asked the sender to slow down.
    RateLimited,
    /// Any other status.
    Other,
}

/// Says how a status code is classified.
pub open spec fn classification_of(status: u16) -> ResponseClass {
    if status == 200 {
        ResponseClass::Success
    } else if status == 429 {
        ResponseClass::RateLimited
    } else {
        ResponseClass::Other
    }
}

/// Classifies an HTTP status code for the counters below.
pub fn classify_status(status: u16) -> (c: ResponseClass)
    ensures
        c == classification_of(status),
{
    if status == 200 {
        ResponseClass::Success
    } else if status == 429 {
        ResponseClass::RateLimited
    } else {
        ResponseClass::Other
    }
}

/// Counters for one reporting interval: requests sent, successes, and
/// rate-limit rejections.  Increments wrap on overflow, as a shared
/// fetch-and-add counter would.
pub struct Statistics {
    pub total_requests: u64,
    pub successful_requests: u64,
    pub error_429_count: u64,
}

impl Statistics {
    /// All counters start at zero.
    pub fn new() -> (s: Self)
        ensures
            s.total_requests == 0,
            s.successful_requests == 0,
            s.error_429_count == 0,
    {
        Statistics { total_requests: 0, successful_requests: 0, error_429_count: 0 }
    }

    /// Counts one request sent.
    pub fn increment_total(&mut self)
        ensures
            final(self).total_requests == old(self).total_requests.wrapping_add(1),
            final(self).successful_requests == old(self).successful_requests,
            final(self).error_429_count == old(self).error_429_count,
    {
        self.total_requests = self.total_requests.wrapping_add(1);
    }

    /// Counts one successful response.
    pub fn increment_success(&mut self)
        ensures
            final(self).successful_requests == old(self).successful_requests.wrapping_add(1),
            final(self).total_requests == old(self).total_requests,
            final(self).error_429_count == old(self).error_429_count,
    {
        self.successful_requests = self.successful_requests.wrapping_add(1);
    }

    /// Counts one rate-limited response.
    pub fn increment_429(&mut self)
        ensures
            final(self).error_429_count == old(self).error_429_count.wrapping_add(1),
            final(self).total_requests == old(self).total_requests,
            final(self).successful_requests == old(self).successful_requests,
    {
        self.error_429_count = self.error_429_count.wrapping_add(1);
    }

    /// Counts a response according to its classification.
    pub fn record_response(&mut self, status: u16)
        ensures
            final(self).total_requests == old(self).total_requests,
            classification_of(status) == ResponseClass::Success ==> {
                &&& final(self).successful_requests
                    == old(self).successful_requests.wrapping_add(1)
                &&& final(self).error_429_count == old(self).error_429_count
            },
            classification_of(status) == ResponseClass::RateLimited ==> {
                &&& final(self).error_429_count == old(self).error_429_count.wrapping_add(1)
                &&& final(self).successful_requests == old(self).successful_requests
            },
            classification_of(status) == ResponseClass::Other ==> {
                &&& final(self).successful_requests == old(self).successful_requests
                &&& final(self).error_429_count == old(self).error_429_count
            },
    {
        match classify_status(status) {
            ResponseClass::Success => self.increment_success(),
            ResponseClass::RateLimited => self.increment_429(),
            ResponseClass::Other => {},
        }
    }

    /// Returns `(total, successes, rate-limited)` for the interval that just
    /// ended and starts the next interval at zero.
    pub fn reset(&mut self) -> (r: (u64, u64, u64))
        ensures
            r.0 == old(self).total_requests,
            r.1 == old(self).successful_requests,
            r.2 == old(self).error_429_count,
            final(self).total_requests == 0,
            final(self).successful_requests == 0,
            final(self).error_429_count == 0,
    {
        let r = (self.total_requests, self.successful_requests, self.error_429_count);
        self.total_requests = 0;
        self.successful_requests = 0;
        self.error_429_count = 0;
        r
    }
}

} // verus!
