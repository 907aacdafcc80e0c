//! Statistics primitives for the results engine: exact integer sums,
//! an integer square root, and fixed-point (milli-unit) mean and
//! population standard deviation.

use vstd::prelude::*;

verus! {

/// Largest number of samples the statistics functions accept; a keystroke
/// log beyond this could not be held in memory anyway.
pub const MAX_SAMPLES: usize = 1_000_000_000;

/// Largest total the samples may sum to; keystroke counts in one session
/// stay far below this.
pub const MAX_TOTAL: u64 = 1_000_000_000;

/// Sum of a sequence of counts, as a mathematical integer.
pub open spec fn sum_u64(s: Seq<u64>) -> int
    decreases s.len(),
{
    if s.len() == 0 {
        0
    } else {
        sum_u64(s.drop_last()) + s.last()
    }
}

/// Sum of the squares of a sequence of counts.
pub open spec fn sum_sq_u64(s: Seq<u64>) -> int
    decreases s.len(),
{
    if s.len() == 0 {
        0
    } else {
        sum_sq_u64(s.drop_last()) + s.last() * s.last()
    }
}

/// The integer square root: the largest r with r * r <= x.
pub open spec fn isqrt_spec(x: nat) -> nat
    decreases x,
{
    if x == 0 {
        0
    } else {
        let r = isqrt_spec((x - 1) as nat);
        if (r + 1) * (r + 1) <= x {
            (r + 1) as nat
        } else {
            r
        }
    }
}

pub proof fn lemma_isqrt_bounds(x: nat)
    ensures
        isqrt_spec(x) * isqrt_spec(x) <= x,
        x < (isqrt_spec(x) + 1) * (isqrt_spec(x) + 1),
    decreases x,
{
    if x == 0 {
        assert(isqrt_spec(0) == 0);
        assert(x < (isqrt_spec(x) + 1) * (isqrt_spec(x) + 1)) by (nonlinear_arith)
            requires
                x == 0,
                isqrt_spec(x) == 0,
        ;
    } else {
        lemma_isqrt_bounds((x - 1) as nat);
        let r = isqrt_spec((x - 1) as nat);
        if (r + 1) * (r + 1) <= x {
            assert(isqrt_spec(x) == r + 1);
            assert(x < (r + 2) * (r + 2)) by (nonlinear_arith)
                requires
                    x <= (r + 1) * (r + 1) + 1,
                    r >= 0,
            ;
        } else {
            assert(isqrt_spec(x) == r);
        }
    }
}

/// Two integers that both satisfy the square-root bounds are equal.
pub proof fn lemma_isqrt_unique(x: nat, r: nat)
    requires
        r * r <= x,
        x < (r + 1) * (r + 1),
    ensures
        r == isqrt_spec(x),
{
    lemma_isqrt_bounds(x);
    let s = isqrt_spec(x);
    if r < s {
        assert((r + 1) * (r + 1) <= s * s) by (nonlinear_arith)
            requires
                r + 1 <= s,
        ;
    }
    if s < r {
        assert((s + 1) * (s + 1) <= r * r) by (nonlinear_arith)
            requires
                s + 1 <= r,
        ;
    }
}

/// Executable integer square root by bisection.
pub fn isqrt(x: u128) -> (r: u128)
    ensures
        r * r <= x,
        x < (r + 1) * (r + 1),
        r == isqrt_spec(x as nat),
{
    let mut lo: u128 = 0;
    let mut hi: u128 = 0x1_0000_0000_0000_0000;
    while lo + 1 < hi
        invariant
            lo < hi,
            hi <= 0x1_0000_0000_0000_0000,
            lo * lo <= x,
            x < hi * hi,
        decreases hi - lo,
    {
        let mid = lo + (hi - lo) / 2;
        assert(mid * mid < 0x1_0000_0000_0000_0000 * 0x1_0000_0000_0000_0000) by (nonlinear_arith)
            requires
                mid < 0x1_0000_0000_0000_0000,
        ;
        if mid * mid <= x {
            lo = mid;
        } else {
            hi = mid;
        }
    }
    proof {
        lemma_isqrt_unique(x as nat, lo as nat);
    }
    lo
}

/// Appending one element adds it to the sum.
pub proof fn lemma_sum_take_succ(s: Seq<u64>, i: int)
    requires
        0 <= i < s.len(),
    ensures
        sum_u64(s.take(i + 1)) == sum_u64(s.take(i)) + s[i],
        sum_sq_u64(s.take(i + 1)) == sum_sq_u64(s.take(i)) + s[i] * s[i],
{
    assert(s.take(i + 1).drop_last() =~= s.take(i));
    assert(s.take(i + 1).last() == s[i]);
}

pub proof fn lemma_sum_nonneg(s: Seq<u64>)
    ensures
        sum_u64(s) >= 0,
        sum_sq_u64(s) >= 0,
    decreases s.len(),
{
    if s.len() > 0 {
        lemma_sum_nonneg(s.drop_last());
    }
}

/// A prefix never sums to more than the whole sequence.
pub proof fn lemma_sum_prefix_le(s: Seq<u64>, i: int)
    requires
        0 <= i <= s.len(),
    ensures
        sum_u64(s.take(i)) <= sum_u64(s),
    decreases s.len() - i,
{
    if i == s.len() {
        assert(s.take(i) =~= s);
    } else {
        lemma_sum_take_succ(s, i);
        lemma_sum_prefix_le(s, i + 1);
    }
}

/// Replacing one element changes the sum by the difference.
pub proof fn lemma_sum_update(s: Seq<u64>, j: int, v: u64)
    requires
        0 <= j < s.len(),
    ensures
        sum_u64(s.update(j, v)) == sum_u64(s) - s[j] + v,
    decreases s.len(),
{
    if j == s.len() - 1 {
        assert(s.update(j, v).drop_last() =~= s.drop_last());
        assert(s.update(j, v).last() == v);
    } else {
        assert(s.update(j, v).drop_last() =~= s.drop_last().update(j, v));
        assert(s.update(j, v).last() == s.last());
        lemma_sum_update(s.drop_last(), j, v);
    }
}

/// Inserting one element adds it to the sum.
pub proof fn lemma_sum_insert(s: Seq<u64>, j: int, v: u64)
    requires
        0 <= j <= s.len(),
    ensures
        sum_u64(s.insert(j, v)) == sum_u64(s) + v,
    decreases s.len(),
{
    if j == s.len() {
        assert(s.insert(j, v).drop_last() =~= s);
        assert(s.insert(j, v).last() == v);
    } else {
        assert(s.insert(j, v).drop_last() =~= s.drop_last().insert(j, v));
        assert(s.insert(j, v).last() == s.last());
        lemma_sum_insert(s.drop_last(), j, v);
    }
}

/// The sum of squares of counts is at most the square of the sum.
pub proof fn lemma_sum_sq_le_sq(s: Seq<u64>)
    ensures
        sum_sq_u64(s) <= sum_u64(s) * sum_u64(s),
    decreases s.len(),
{
    if s.len() > 0 {
        let t = s.drop_last();
        let y = s.last();
        lemma_sum_sq_le_sq(t);
        lemma_sum_nonneg(t);
        assert(sum_u64(t) * sum_u64(t) + y * y <= (sum_u64(t) + y) * (sum_u64(t) + y))
            by (nonlinear_arith)
            requires
                sum_u64(t) >= 0,
                y >= 0,
        ;
    }
}

/// For any x, the sum of the squared distances of the samples from x is
/// nonnegative, expanded: len * x^2 - 2 * x * sum + sum of squares >= 0.
proof fn lemma_spread_nonneg(s: Seq<u64>, x: int)
    ensures
        s.len() * (x * x) - 2 * x * sum_u64(s) + sum_sq_u64(s) >= 0,
    decreases s.len(),
{
    if s.len() > 0 {
        let t = s.drop_last();
        let y = s.last();
        lemma_spread_nonneg(t, x);
        assert((s.len()) * (x * x) - 2 * x * (sum_u64(t) + y) + (sum_sq_u64(t) + y * y) >= 0)
            by (nonlinear_arith)
            requires
                t.len() * (x * x) - 2 * x * sum_u64(t) + sum_sq_u64(t) >= 0,
                s.len() == t.len() + 1,
        ;
    }
}

/// The population-variance numerator n * sum_sq - sum^2 is never negative.
pub proof fn lemma_var_numer_nonneg(s: Seq<u64>)
    ensures
        s.len() * sum_sq_u64(s) - sum_u64(s) * sum_u64(s) >= 0,
    decreases s.len(),
{
    if s.len() > 0 {
        let t = s.drop_last();
        let y = s.last();
        lemma_var_numer_nonneg(t);
        lemma_spread_nonneg(t, y as int);
        assert(s.len() * sum_sq_u64(s) - sum_u64(s) * sum_u64(s) >= 0) by (nonlinear_arith)
            requires
                t.len() * sum_sq_u64(t) - sum_u64(t) * sum_u64(t) >= 0,
                t.len() * (y * y) - 2 * y * sum_u64(t) + sum_sq_u64(t) >= 0,
                s.len() == t.len() + 1,
                sum_u64(s) == sum_u64(t) + y,
                sum_sq_u64(s) == sum_sq_u64(t) + y * y,
        ;
    }
}

/// The arithmetic mean scaled by 1000, rounded half-up.
pub open spec fn mean_milli_spec(s: Seq<u64>) -> int {
    (2000 * sum_u64(s) + s.len()) / (2 * s.len() as int)
}

/// The population standard deviation scaled by 1000, rounded half-up:
/// round(1000 * sqrt((n * sum_sq - sum^2) / n^2)).
pub open spec fn std_dev_milli_spec(s: Seq<u64>) -> int {
    let n = s.len() as int;
    let d = n * sum_sq_u64(s) - sum_u64(s) * sum_u64(s);
    (isqrt_spec((4_000_000 * d) as nat) + n) / (2 * n)
}

/// The arithmetic mean of the samples in milli-units (half-up); `None` for
/// an empty slice of samples.
pub fn mean(data: &Vec<u64>) -> (r: Option<u64>)
    requires
        data@.len() <= MAX_SAMPLES,
        sum_u64(data@) <= MAX_TOTAL,
    ensures
        r is Some <==> data@.len() > 0,
        r matches Some(m) ==> m == mean_milli_spec(data@),
{
    let n = data.len();
    if n == 0 {
        return None;
    }
    let total = sum_samples(data);
    let num: u128 = 2000u128 * (total as u128) + (n as u128);
    proof {
        lemma_sum_nonneg(data@);
        vstd::arithmetic::div_mod::lemma_div_nonincreasing(num as int, 2 * (n as int));
    }
    let m: u128 = num / (2 * (n as u128));
    Some(m as u64)
}

/// The population standard deviation of the samples in milli-units
/// (half-up); `None` for an empty slice of samples.
pub fn std_dev(data: &Vec<u64>) -> (r: Option<u64>)
    requires
        data@.len() <= MAX_SAMPLES,
        sum_u64(data@) <= MAX_TOTAL,
    ensures
        r is Some <==> data@.len() > 0,
        r matches Some(sd) ==> sd == std_dev_milli_spec(data@),
{
    let n = data.len();
    if n == 0 {
        return None;
    }
    let total = sum_samples(data);
    let total_sq = sum_sq_samples(data);
    proof {
        lemma_var_numer_nonneg(data@);
        lemma_sum_nonneg(data@);
        lemma_sum_sq_le_sq(data@);
        assert(sum_u64(data@) * sum_u64(data@) <= (MAX_TOTAL as int) * (MAX_TOTAL as int))
            by (nonlinear_arith)
            requires
                0 <= sum_u64(data@),
                sum_u64(data@) <= MAX_TOTAL as int,
        ;
        assert((n as int) * sum_sq_u64(data@) <= (MAX_SAMPLES as int) * ((MAX_TOTAL as int)
            * (MAX_TOTAL as int))) by (nonlinear_arith)
            requires
                0 <= sum_sq_u64(data@),
                sum_sq_u64(data@) <= (MAX_TOTAL as int) * (MAX_TOTAL as int),
                0 <= n as int <= MAX_SAMPLES as int,
        ;
    }
    let d: u128 = (n as u128) * total_sq - (total as u128) * (total as u128);
    let scaled: u128 = 4_000_000u128 * d;
    let q = isqrt(scaled);
    proof {
        assert(q <= 0x1_0000_0000_0000_0000) by (nonlinear_arith)
            requires
                q * q <= scaled,
                scaled <= 4_000_000_000_000_000_000_000_000_000_000_000,
        ;
        vstd::arithmetic::div_mod::lemma_div_is_ordered_by_denominator(
            (q + n) as int,
            2,
            2 * (n as int),
        );
    }
    let sd: u128 = (q + n as u128) / (2 * (n as u128));
    Some(sd as u64)
}

/// Sums the samples, staying within the stated total.
fn sum_samples(data: &Vec<u64>) -> (total: u64)
    requires
        sum_u64(data@) <= MAX_TOTAL,
    ensures
        total == sum_u64(data@),
{
    let mut total: u64 = 0;
    let n = data.len();
    for i in 0..n
        invariant
            n == data@.len(),
            total == sum_u64(data@.take(i as int)),
            sum_u64(data@) <= MAX_TOTAL,
    {
        proof {
            lemma_sum_take_succ(data@, i as int);
            lemma_sum_prefix_le(data@, i + 1);
            lemma_sum_nonneg(data@.take(i as int));
        }
        total = total + data[i];
    }
    proof {
        assert(data@.take(n as int) =~= data@);
    }
    total
}

/// Sums the squares of the samples.
fn sum_sq_samples(data: &Vec<u64>) -> (total_sq: u128)
    requires
        sum_u64(data@) <= MAX_TOTAL,
    ensures
        total_sq == sum_sq_u64(data@),
{
    let mut total_sq: u128 = 0;
    let n = data.len();
    for i in 0..n
        invariant
            n == data@.len(),
            total_sq == sum_sq_u64(data@.take(i as int)),
            sum_u64(data@) <= MAX_TOTAL,
    {
        proof {
            lemma_sum_take_succ(data@, i as int);
            lemma_sum_sq_le_sq(data@.take(i + 1));
            lemma_sum_prefix_le(data@, i + 1);
            lemma_sum_nonneg(data@.take(i + 1));
            lemma_sum_nonneg(data@.take(i as int));
            assert(sum_u64(data@.take(i + 1)) * sum_u64(data@.take(i + 1)) <= MAX_TOTAL * MAX_TOTAL)
                by (nonlinear_arith)
                requires
                    0 <= sum_u64(data@.take(i + 1)),
                    sum_u64(data@.take(i + 1)) <= MAX_TOTAL,
            ;
            assert(data[i as int] * data[i as int] >= 0) by (nonlinear_arith);
        }
        let x = data[i] as u128;
        total_sq = total_sq + x * x;
    }
    proof {
        assert(data@.take(n as int) =~= data@);
    }
    total_sq
}

} // verus!
