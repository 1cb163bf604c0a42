//! Integer arithmetic underpinning the latency statistics: sums of samples,
//! sums of squares, bounds that rule out overflow, and a flooring integer
//! square root for the standard deviation.

use vstd::prelude::*;

verus! {

/// Sum of a sequence of samples, as a mathematical integer.
pub open spec fn sum_of(s: Seq<u64>) -> int
    decreases s.len(),
{
    if s.len() == 0 {
        0
    } else {
        sum_of(s.drop_last()) + s.last()
    }
}

/// Sum of the squares of a sequence of samples.
pub open spec fn sum_sq_of(s: Seq<u64>) -> int
    decreases s.len(),
{
    if s.len() == 0 {
        0
    } else {
        sum_sq_of(s.drop_last()) + s.last() * s.last()
    }
}

pub proof fn lemma_sum_push(s: Seq<u64>, x: u64)
    ensures
        sum_of(s.push(x)) == sum_of(s) + x,
        sum_sq_of(s.push(x)) == sum_sq_of(s) + x * x,
{
    assert(s.push(x).drop_last() =~= s);
}

pub proof fn lemma_sum_bounds(s: Seq<u64>)
    ensures
        0 <= sum_of(s) <= s.len() * u64::MAX,
        0 <= sum_sq_of(s) <= s.len() * (u64::MAX * u64::MAX),
    decreases s.len(),
{
    if s.len() == 0 {
    } else {
        lemma_sum_bounds(s.drop_last());
        let x = s.last();
        assert(x * x <= u64::MAX * u64::MAX) by (nonlinear_arith)
            requires 0 <= x <= u64::MAX;
        assert((s.len() - 1) * u64::MAX + u64::MAX == s.len() * u64::MAX) by (nonlinear_arith);
        assert((s.len() - 1) * (u64::MAX * u64::MAX) + u64::MAX * u64::MAX
            == s.len() * (u64::MAX * u64::MAX)) by (nonlinear_arith);
    }
}

/// For every sample `x`: twice the cross term against a sum is bounded by the
/// sum of squares plus one square per summand, because `(y - x)^2 >= 0`
/// termwise.
proof fn lemma_cross_term(t: Seq<u64>, x: u64)
    ensures
        2 * sum_of(t) * x <= sum_sq_of(t) + t.len() * (x * x),
    decreases t.len(),
{
    if t.len() == 0 {
        assert(2 * sum_of(t) * x == 0 && t.len() * (x * x) == 0) by (nonlinear_arith)
            requires
                sum_of(t) == 0,
                t.len() == 0;
    } else {
        lemma_cross_term(t.drop_last(), x);
        let y = t.last();
        let s = sum_of(t.drop_last());
        let q = sum_sq_of(t.drop_last());
        let n = t.len() - 1;
        assert(2 * sum_of(t) * x <= sum_sq_of(t) + t.len() * (x * x)) by (nonlinear_arith)
            requires
                sum_of(t) == s + y,
                sum_sq_of(t) == q + y * y,
                t.len() == n + 1,
                2 * s * x <= q + n * (x * x),
                0 <= y,
                0 <= x;
    }
}

/// The Cauchy-Schwarz bound for samples: the squared sum never exceeds the
/// length times the sum of squares.  It makes the variance numerator
/// `len * sum_sq - sum^2` nonnegative, and bounds `sum^2` wherever
/// `len * sum_sq` is known to fit.
pub proof fn lemma_sq_sum_le_len_times_sum_sq(s: Seq<u64>)
    ensures
        sum_of(s) * sum_of(s) <= s.len() * sum_sq_of(s),
    decreases s.len(),
{
    if s.len() == 0 {
        assert(sum_of(s) * sum_of(s) == 0 && s.len() * sum_sq_of(s) == 0) by (nonlinear_arith)
            requires
                sum_of(s) == 0,
                sum_sq_of(s) == 0,
                s.len() == 0;
    } else {
        lemma_sq_sum_le_len_times_sum_sq(s.drop_last());
        lemma_cross_term(s.drop_last(), s.last());
        let t = sum_of(s.drop_last());
        let q = sum_sq_of(s.drop_last());
        let n = s.len() - 1;
        let x = s.last();
        lemma_sum_bounds(s.drop_last());
        assert(sum_of(s) * sum_of(s) <= s.len() * sum_sq_of(s)) by (nonlinear_arith)
            requires
                sum_of(s) == t + x,
                sum_sq_of(s) == q + x * x,
                s.len() == n + 1,
                t * t <= n * q,
                2 * t * x <= q + n * (x * x),
                0 <= q,
                0 <= n;
    }
}

/// Ascending order over samples.
pub open spec fn sorted_asc(s: Seq<u64>) -> bool {
    forall|i: int, j: int| 0 <= i < j < s.len() ==> s[i] <= s[j]
}

/// Smallest sample of a nonempty sequence (0 for an empty one).
pub open spec fn min_of(s: Seq<u64>) -> int
    decreases s.len(),
{
    if s.len() == 0 {
        0
    } else if s.len() == 1 {
        s[0] as int
    } else if s.last() < min_of(s.drop_last()) {
        s.last() as int
    } else {
        min_of(s.drop_last())
    }
}

/// Largest sample of a nonempty sequence (0 for an empty one).
pub open spec fn max_of(s: Seq<u64>) -> int
    decreases s.len(),
{
    if s.len() == 0 {
        0
    } else if s.len() == 1 {
        s[0] as int
    } else if s.last() > max_of(s.drop_last()) {
        s.last() as int
    } else {
        max_of(s.drop_last())
    }
}

pub proof fn lemma_minmax_push(s: Seq<u64>, x: u64)
    ensures
        min_of(s.push(x)) == if s.len() == 0 || x < min_of(s) { x as int } else { min_of(s) },
        max_of(s.push(x)) == if s.len() == 0 || x > max_of(s) { x as int } else { max_of(s) },
{
    assert(s.push(x).drop_last() =~= s);
}

/// In a sorted sequence the smallest sample sits first and the largest last.
pub proof fn lemma_sorted_ends(s: Seq<u64>)
    requires
        sorted_asc(s),
        s.len() > 0,
    ensures
        min_of(s) == s[0],
        max_of(s) == s[s.len() - 1],
    decreases s.len(),
{
    if s.len() > 1 {
        lemma_sorted_ends(s.drop_last());
    }
}

/// `r` is the flooring square root of `v`.
pub open spec fn is_floor_sqrt(v: int, r: int) -> bool {
    &&& 0 <= r
    &&& r * r <= v
    &&& v < (r + 1) * (r + 1)
}

/// Flooring integer square root, by binary search on the root.
pub fn floor_sqrt_u128(v: u128) -> (r: u64)
    ensures
        is_floor_sqrt(v as int, r as int),
{
    let mut lo: u128 = 0;
    let mut hi: u128 = 0x1_0000_0000_0000_0000;
    while hi - lo > 1
        invariant
            0 <= lo < hi <= 0x1_0000_0000_0000_0000,
            lo * lo <= v,
            v < hi * hi,
        decreases hi - lo,
    {
        let mid: u128 = lo + (hi - lo) / 2;
        assert(lo < mid < hi);
        assert(mid * mid <= u128::MAX) by (nonlinear_arith)
            requires 0 <= mid < 0x1_0000_0000_0000_0000;
        if mid * mid <= v {
            lo = mid;
        } else {
            hi = mid;
        }
    }
    assert(hi == lo + 1);
    let r: u64 = lo as u64;
    assert(r == lo);
    r
}

/// Dividing a sum of `n` terms, each at most `m`, by `n` stays at most `m`.
pub proof fn lemma_avg_le_max(total: int, n: int, m: int)
    requires
        0 < n,
        0 <= m,
        0 <= total <= n * m,
    ensures
        0 <= total / n <= m,
{
    assert(total / n <= m && 0 <= total / n) by (nonlinear_arith)
        requires
            0 < n,
            0 <= m,
            0 <= total <= n * m;
}

} // verus!
