//! Latency statistics over integer microsecond samples: running min/max/sum,
//! and exact percentiles, mean and flooring standard deviation over the full
//! sorted sample set.

use vstd::prelude::*;
use vstd::seq_lib::to_multiset_insert;
use vstd::seq_lib::group_to_multiset_ensures;

use crate::math::{
    sum_of, sum_sq_of, min_of, max_of, sorted_asc, is_floor_sqrt,
    lemma_sum_push, lemma_sum_bounds, lemma_minmax_push, lemma_sorted_ends,
    lemma_sq_sum_le_len_times_sum_sq, lemma_avg_le_max, floor_sqrt_u128,
};

verus! {

/// The index the nearest-rank rule picks in a sorted sample set of length
/// `n`: `p/100 * (n - 1)` rounded to the nearest integer, with exact halves
/// rounded down, clamped to `[0, n - 1]`.
pub open spec fn percentile_index(p: int, n: int) -> int
    recommends
        0 <= p,
        1 <= n,
{
    let i = (p * (n - 1) + 49) / 100;
    if i > n - 1 {
        n - 1
    } else {
        i
    }
}

/// Sample at the `p`-th percentile of `data`, which the caller has sorted
/// ascending; 0 when there are no samples.
pub fn percentile(data: &Vec<u64>, p: u64) -> (r: u64)
    ensures
        data@.len() == 0 ==> r == 0,
        data@.len() > 0 ==> r == data@[percentile_index(p as int, data@.len() as int)],
{
    let n = data.len();
    if n == 0 {
        return 0;
    }
    proof {
        assert((p as int) * ((n - 1) as int) + 49 < u128::MAX) by (nonlinear_arith)
            requires
                0 <= p <= u64::MAX,
                0 <= n - 1 <= u64::MAX;
    }
    let num: u128 = (p as u128) * ((n - 1) as u128);
    let i: u128 = (num + 49) / 100;
    let idx: usize = if i > (n - 1) as u128 {
        n - 1
    } else {
        i as usize
    };
    assert(idx == percentile_index(p as int, n as int));
    data[idx]
}

/// Sorts samples ascending; the result holds exactly the samples of `data`.
pub fn sort_samples(data: &Vec<u64>) -> (out: Vec<u64>)
    ensures
        sorted_asc(out@),
        out@.to_multiset() == data@.to_multiset(),
        out@.len() == data@.len(),
{
    let mut out: Vec<u64> = Vec::new();
    assert(out@.to_multiset() =~= data@.take(0).to_multiset()) by {
        broadcast use group_to_multiset_ensures;
        assert(out@ =~= data@.take(0));
    }
    let n = data.len();
    let mut i: usize = 0;
    while i < n
        invariant
            i <= n,
            n == data@.len(),
            out@.len() == i,
            sorted_asc(out@),
            out@.to_multiset() == data@.take(i as int).to_multiset(),
        decreases n - i,
    {
        let x = data[i];
        let mut pos: usize = 0;
        while pos < out.len() && out[pos] <= x
            invariant
                pos <= out@.len(),
                forall|k: int| 0 <= k < pos ==> out@[k] <= x,
                sorted_asc(out@),
            decreases out@.len() - pos,
        {
            pos = pos + 1;
        }
        let ghost old_out = out@;
        out.insert(pos, x);
        proof {
            assert forall|a: int, b: int| 0 <= a < b < out@.len() implies out@[a] <= out@[b] by {
                if b < pos {
                    assert(out@[a] == old_out[a] && out@[b] == old_out[b]);
                } else if a > pos {
                    assert(out@[a] == old_out[a - 1] && out@[b] == old_out[b - 1]);
                } else if a == pos {
                    // the element right of the insertion point was the first
                    // one greater than x
                    assert(out@[a] == x && out@[b] == old_out[b - 1]);
                    assert(old_out[pos as int] > x);
                    assert(old_out[pos as int] <= old_out[b - 1]);
                } else if b == pos {
                    assert(out@[a] == old_out[a] && out@[b] == x);
                } else {
                    // a < pos < b
                    assert(out@[a] == old_out[a] && out@[b] == old_out[b - 1]);
                    if pos < old_out.len() {
                        assert(old_out[pos as int] > x);
                    }
                    assert(old_out[a] <= x || b - 1 >= pos);
                }
            }
            broadcast use to_multiset_insert;
            broadcast use group_to_multiset_ensures;
            assert(data@.take(i + 1) =~= data@.take(i as int).push(x));
            assert(out@.to_multiset() =~= data@.take(i + 1).to_multiset());
        }
        i = i + 1;
    }
    proof {
        assert(data@.take(n as int) =~= data@);
    }
    out
}

/// Whether the exact variance numerator `n * sum_sq` fits the 128-bit
/// arithmetic the standard deviation is computed with.
pub open spec fn variance_fits(s: Seq<u64>) -> bool {
    s.len() * sum_sq_of(s) <= u128::MAX
}

/// Population variance of the samples, floored:
/// `(n * sum_sq - sum^2) / n^2`.
pub open spec fn variance_floor(s: Seq<u64>) -> int
    recommends
        s.len() > 0,
{
    (s.len() * sum_sq_of(s) - sum_of(s) * sum_of(s)) / ((s.len() * s.len()) as int)
}

/// Flooring square root of the floored population variance of the samples;
/// `u64::MAX` marks the (astronomically large) sample sets whose variance
/// numerator exceeds 128 bits.
fn sample_std_dev(data: &Vec<u64>, sum: u128) -> (r: u64)
    requires
        data@.len() > 0,
        sum == sum_of(data@),
    ensures
        variance_fits(data@) ==> is_floor_sqrt(variance_floor(data@), r as int),
        !variance_fits(data@) ==> r == u64::MAX,
{
    let n = data.len();
    let mut sumsq: u128 = 0;
    let mut overflowed = false;
    let mut i: usize = 0;
    while i < n
        invariant
            i <= n,
            n == data@.len(),
            !overflowed ==> sumsq == sum_sq_of(data@.take(i as int)),
            overflowed ==> sum_sq_of(data@.take(i as int)) > u128::MAX,
        decreases n - i,
    {
        let x = data[i];
        proof {
            assert((x as int) * (x as int) <= u64::MAX * u64::MAX) by (nonlinear_arith)
                requires 0 <= x <= u64::MAX;
            assert(data@.take(i + 1) =~= data@.take(i as int).push(x));
            lemma_sum_push(data@.take(i as int), x);
        }
        let sq: u128 = (x as u128) * (x as u128);
        if !overflowed {
            if sumsq > u128::MAX - sq {
                overflowed = true;
            } else {
                sumsq = sumsq + sq;
            }
        }
        i = i + 1;
    }
    proof {
        assert(data@.take(n as int) =~= data@);
    }
    if overflowed {
        proof {
            assert(data@.len() * sum_sq_of(data@) > u128::MAX) by (nonlinear_arith)
                requires
                    sum_sq_of(data@) > u128::MAX,
                    data@.len() >= 1;
        }
        return u64::MAX;
    }
    let n128: u128 = n as u128;
    match n128.checked_mul(sumsq) {
        None => {
            u64::MAX
        },
        Some(nq) => {
            proof {
                lemma_sq_sum_le_len_times_sum_sq(data@);
                lemma_sum_bounds(data@);
                assert(n128 * n128 <= u128::MAX) by (nonlinear_arith)
                    requires 0 < n128 <= u64::MAX;
                assert(n128 * n128 >= 1) by (nonlinear_arith)
                    requires n128 >= 1;
            }
            let num: u128 = nq - sum * sum;
            let denom: u128 = n128 * n128;
            let var: u128 = num / denom;
            floor_sqrt_u128(var)
        },
    }
}

/// Running statistics over one series of latency samples, in microseconds.
/// `add_latency` keeps `count`, `sum`, `min` and `max` current;
/// `calculate` sorts the samples and fills in the derived fields.
#[derive(Debug, Clone)]
pub struct LatencyStats {
    pub count: usize,
    pub sum: u128,
    pub mean: u64,
    pub median: u64,
    pub min: u64,
    pub max: u64,
    pub std_dev: u64,
    pub p90: u64,
    pub p99: u64,
    pub latencies: Vec<u64>,
}

impl LatencyStats {
    /// The running fields agree with the retained samples.
    pub open spec fn inv(&self) -> bool {
        &&& self.count == self.latencies@.len()
        &&& self.sum == sum_of(self.latencies@)
        &&& self.count > 0 ==> self.min == min_of(self.latencies@)
            && self.max == max_of(self.latencies@)
    }

    /// The derived fields a `calculate` call fills in, as they relate to the
    /// sorted sample sequence.
    pub open spec fn derived_fields_hold(&self) -> bool {
        &&& sorted_asc(self.latencies@)
        &&& self.mean == sum_of(self.latencies@) / (self.latencies@.len() as int)
        &&& self.median == self.latencies@[percentile_index(50, self.latencies@.len() as int)]
        &&& self.p90 == self.latencies@[percentile_index(90, self.latencies@.len() as int)]
        &&& self.p99 == self.latencies@[percentile_index(99, self.latencies@.len() as int)]
        &&& variance_fits(self.latencies@) ==> is_floor_sqrt(
            variance_floor(self.latencies@),
            self.std_dev as int,
        )
        &&& !variance_fits(self.latencies@) ==> self.std_dev == u64::MAX
    }

    /// An empty series: every field zero, no samples.
    pub fn new() -> (s: Self)
        ensures
            s.inv(),
            s.count == 0,
            s.sum == 0,
            s.mean == 0,
            s.median == 0,
            s.min == 0,
            s.max == 0,
            s.std_dev == 0,
            s.p90 == 0,
            s.p99 == 0,
            s.latencies@ == Seq::<u64>::empty(),
    {
        LatencyStats {
            count: 0,
            sum: 0,
            mean: 0,
            median: 0,
            min: 0,
            max: 0,
            std_dev: 0,
            p90: 0,
            p99: 0,
            latencies: Vec::new(),
        }
    }

    /// Records one sample and keeps count, sum, min and max current.
    pub fn add_latency(&mut self, latency: u64)
        requires
            old(self).inv(),
        ensures
            final(self).inv(),
            final(self).latencies@ == old(self).latencies@.push(latency),
            final(self).count == old(self).latencies@.len() + 1,
            final(self).sum == old(self).sum + latency,
            final(self).min == if old(self).count == 0 || latency < old(self).min {
                latency
            } else {
                old(self).min
            },
            final(self).max == if old(self).count == 0 || latency > old(self).max {
                latency
            } else {
                old(self).max
            },
            final(self).mean == old(self).mean,
            final(self).median == old(self).median,
            final(self).std_dev == old(self).std_dev,
            final(self).p90 == old(self).p90,
            final(self).p99 == old(self).p99,
    {
        proof {
            lemma_sum_bounds(self.latencies@);
            lemma_sum_push(self.latencies@, latency);
            lemma_minmax_push(self.latencies@, latency);
            assert(self.latencies@.len() * u64::MAX + u64::MAX <= u128::MAX) by (nonlinear_arith)
                requires self.latencies@.len() <= u64::MAX;
        }
        self.latencies.push(latency);
        self.count = self.latencies.len();
        self.sum = self.sum + (latency as u128);
        if self.count == 1 {
            self.min = latency;
            self.max = latency;
        } else {
            if latency < self.min {
                self.min = latency;
            }
            if latency > self.max {
                self.max = latency;
            }
        }
    }

    /// Sorts the samples ascending and computes the derived statistics:
    /// flooring mean, nearest-rank percentiles, and the flooring standard
    /// deviation.  With no samples, nothing changes and nothing fails.
    pub fn calculate(&mut self)
        requires
            old(self).inv(),
        ensures
            final(self).inv(),
            old(self).count == 0 ==> *final(self) == *old(self),
            old(self).count > 0 ==> {
                &&& final(self).latencies@.to_multiset() == old(self).latencies@.to_multiset()
                &&& final(self).count == old(self).count
                &&& final(self).min == final(self).latencies@[0]
                &&& final(self).max == final(self).latencies@[final(self).latencies@.len() - 1]
                &&& final(self).sum == sum_of(final(self).latencies@)
                &&& final(self).derived_fields_hold()
            },
    {
        let n = self.latencies.len();
        if n == 0 {
            return;
        }
        let sorted = sort_samples(&self.latencies);
        self.latencies = sorted;
        // recompute the running fields over the sorted samples
        let ghost s = self.latencies@;
        let mut total: u128 = 0;
        let mut i: usize = 0;
        while i < n
            invariant
                i <= n,
                n == s.len(),
                self.latencies@ == s,
                total == sum_of(s.take(i as int)),
            decreases n - i,
        {
            let x = self.latencies[i];
            proof {
                lemma_sum_bounds(s.take(i as int));
                lemma_sum_push(s.take(i as int), x);
                assert(s.take(i + 1) =~= s.take(i as int).push(x));
                assert(i * u64::MAX + u64::MAX <= u128::MAX) by (nonlinear_arith)
                    requires 0 <= i <= u64::MAX;
            }
            total = total + (x as u128);
            i = i + 1;
        }
        proof {
            assert(s.take(n as int) =~= s);
            lemma_sorted_ends(s);
        }
        self.sum = total;
        self.count = n;
        self.min = self.latencies[0];
        self.max = self.latencies[n - 1];
        proof {
            lemma_sum_bounds(s);
            lemma_avg_le_max(self.sum as int, n as int, u64::MAX as int);
        }
        let mean128: u128 = self.sum / (n as u128);
        self.mean = mean128 as u64;
        self.median = percentile(&self.latencies, 50);
        self.p90 = percentile(&self.latencies, 90);
        self.p99 = percentile(&self.latencies, 99);
        self.std_dev = sample_std_dev(&self.latencies, self.sum);
    }
}

/// Builds the full statistics of a sample series in one call.
pub fn calculate_stats(latencies: &Vec<u64>) -> (stats: LatencyStats)
    ensures
        stats.inv(),
        stats.count == latencies@.len(),
        stats.latencies@.to_multiset() == latencies@.to_multiset(),
        latencies@.len() > 0 ==> {
            &&& stats.min == stats.latencies@[0]
            &&& stats.max == stats.latencies@[stats.latencies@.len() - 1]
            &&& stats.sum == sum_of(stats.latencies@)
            &&& stats.derived_fields_hold()
        },
{
    let mut stats = LatencyStats::new();
    let n = latencies.len();
    let mut i: usize = 0;
    proof {
        broadcast use group_to_multiset_ensures;
    }
    while i < n
        invariant
            i <= n,
            n == latencies@.len(),
            stats.inv(),
            stats.latencies@ == latencies@.take(i as int),
            stats.mean == 0,
            stats.median == 0,
            stats.std_dev == 0,
            stats.p90 == 0,
            stats.p99 == 0,
        decreases n - i,
    {
        proof {
            assert(latencies@.take(i + 1) =~= latencies@.take(i as int).push(latencies@[i as int]));
        }
        stats.add_latency(latencies[i]);
        i = i + 1;
    }
    proof {
        assert(latencies@.take(n as int) =~= latencies@);
        broadcast use group_to_multiset_ensures;
    }
    stats.calculate();
    stats
}

/// Adds one to a tally, stopping at the top of the range instead of wrapping.
pub fn saturating_increment(c: u64) -> (r: u64)
    ensures
        c < u64::MAX ==> r == c + 1,
        c == u64::MAX ==> r == u64::MAX,
{
    if c < u64::MAX {
        c + 1
    } else {
        c
    }
}

/// Per-source bookkeeping for the race: every latency sample recorded
/// against the winner, how often the source was first, how often it took
/// part in a comparison, and its availability state.
#[derive(Debug, Clone)]
pub struct EndpointStats {
    pub total_latency: u128,
    pub latencies: Vec<u64>,
    pub first_received: u64,
    pub total_received: u64,
    pub is_available: bool,
    pub has_received_data: bool,
    pub first_slot: Option<u64>,
}

impl EndpointStats {
    /// The running total agrees with the recorded samples.
    pub open spec fn inv(&self) -> bool {
        self.total_latency == sum_of(self.latencies@)
    }

    /// A fresh source: available, nothing received, no samples.
    pub fn new() -> (s: Self)
        ensures
            s.inv(),
            s.total_latency == 0,
            s.latencies@ == Seq::<u64>::empty(),
            s.first_received == 0,
            s.total_received == 0,
            s.is_available,
            !s.has_received_data,
            s.first_slot is None,
    {
        EndpointStats {
            total_latency: 0,
            latencies: Vec::new(),
            first_received: 0,
            total_received: 0,
            is_available: true,
            has_received_data: false,
            first_slot: None,
        }
    }

    /// Records one latency sample and adds it to the running total.
    pub fn add_latency(&mut self, latency: u64)
        requires
            old(self).inv(),
        ensures
            final(self).inv(),
            final(self).latencies@ == old(self).latencies@.push(latency),
            final(self).total_latency == old(self).total_latency + latency,
            final(self).first_received == old(self).first_received,
            final(self).total_received == old(self).total_received,
            final(self).is_available == old(self).is_available,
            final(self).has_received_data == old(self).has_received_data,
            final(self).first_slot == old(self).first_slot,
    {
        let n = self.latencies.len();
        proof {
            assert(self.latencies@.len() == n <= usize::MAX);
            lemma_sum_bounds(self.latencies@);
            lemma_sum_push(self.latencies@, latency);
            assert(self.latencies@.len() * u64::MAX + u64::MAX <= u128::MAX) by (nonlinear_arith)
                requires self.latencies@.len() <= u64::MAX;
        }
        self.latencies.push(latency);
        self.total_latency = self.total_latency + (latency as u128);
    }

    /// Counts one unit this source delivered first.  The tally saturates at
    /// the top of its range instead of wrapping.
    pub fn increment_first_received(&mut self)
        ensures
            old(self).first_received < u64::MAX ==> final(self).first_received == old(
                self,
            ).first_received + 1,
            old(self).first_received == u64::MAX ==> final(self).first_received == u64::MAX,
            final(self).total_latency == old(self).total_latency,
            final(self).latencies@ == old(self).latencies@,
            final(self).total_received == old(self).total_received,
            final(self).is_available == old(self).is_available,
            final(self).has_received_data == old(self).has_received_data,
            final(self).first_slot == old(self).first_slot,
    {
        self.first_received = saturating_increment(self.first_received);
    }

    /// Counts one unit this source took part in comparing.  The tally
    /// saturates at the top of its range instead of wrapping.
    pub fn increment_total_received(&mut self)
        ensures
            old(self).total_received < u64::MAX ==> final(self).total_received == old(
                self,
            ).total_received + 1,
            old(self).total_received == u64::MAX ==> final(self).total_received == u64::MAX,
            final(self).total_latency == old(self).total_latency,
            final(self).latencies@ == old(self).latencies@,
            final(self).first_received == old(self).first_received,
            final(self).is_available == old(self).is_available,
            final(self).has_received_data == old(self).has_received_data,
            final(self).first_slot == old(self).first_slot,
    {
        self.total_received = saturating_increment(self.total_received);
    }

    /// Flooring mean of the recorded latency samples; 0 with no samples.
    pub fn get_average_latency(&self) -> (r: u64)
        requires
            self.inv(),
        ensures
            self.latencies@.len() == 0 ==> r == 0,
            self.latencies@.len() > 0 ==> r == sum_of(self.latencies@) / (
            self.latencies@.len() as int),
    {
        let n = self.latencies.len();
        if n == 0 {
            0
        } else {
            proof {
                lemma_sum_bounds(self.latencies@);
                lemma_avg_le_max(self.total_latency as int, n as int, u64::MAX as int);
            }
            (self.total_latency / (n as u128)) as u64
        }
    }

    /// Share of compared units this source delivered first, in whole
    /// percent, floored; 0 before anything was compared.  (The share can
    /// only exceed the range of the result if the first-delivery tally
    /// outruns the comparison tally; it is then clamped.)
    pub fn get_first_received_percentage(&self) -> (r: u64)
        ensures
            self.total_received == 0 ==> r == 0,
            self.total_received > 0 ==> {
                let pct = self.first_received * 100 / (self.total_received as int);
                r as int == if pct <= u64::MAX { pct } else { u64::MAX as int }
            },
    {
        if self.total_received == 0 {
            0
        } else {
            let pct: u128 = (self.first_received as u128) * 100 / (self.total_received as u128);
            if pct > u64::MAX as u128 {
                u64::MAX
            } else {
                pct as u64
            }
        }
    }

    /// Full statistics over the recorded latency samples.
    pub fn get_stats(&self) -> (stats: LatencyStats)
        ensures
            stats.inv(),
            stats.count == self.latencies@.len(),
            stats.latencies@.to_multiset() == self.latencies@.to_multiset(),
            self.latencies@.len() > 0 ==> {
                &&& stats.min == stats.latencies@[0]
                &&& stats.max == stats.latencies@[stats.latencies@.len() - 1]
                &&& stats.sum == sum_of(stats.latencies@)
                &&& stats.derived_fields_hold()
            },
    {
        calculate_stats(&self.latencies)
    }
}

/// One observed arrival, named by the source that delivered it.
#[derive(Debug, Clone)]
pub struct BlockData {
    pub endpoint: String,
    pub slot: u64,
    pub timestamp: u64,
}

} // verus!
