//! Integer helpers: interval sums and base-two logarithms.

use vstd::prelude::*;
use vstd::arithmetic::power2::{pow2, lemma_pow2_unfold, lemma_pow2_pos, lemma_pow2_strictly_increases};

verus! {

/// The sum of the integers in the interval `(l, r]`.
pub open spec fn interval_sum(l: int, r: int) -> int
    decreases r - l,
{
    if r <= l {
        0
    } else {
        r + interval_sum(l, r - 1)
    }
}

/// Closed form of the interval sum: `(r - l) * (r + l + 1) / 2`.
pub proof fn lemma_interval_sum_closed(l: int, r: int)
    requires
        l <= r,
    ensures
        2 * interval_sum(l, r) == (r - l) * (r + l + 1),
    decreases r - l,
{
    if l == r {
        assert((r - l) * (r + l + 1) == 0) by (nonlinear_arith) requires r == l;
    } else {
        lemma_interval_sum_closed(l, r - 1);
        assert((r - l) * (r + l + 1) == (r - 1 - l) * (r - 1 + l + 1) + 2 * r) by (nonlinear_arith);
    }
}

/// Lowering the left end of the interval adds its old left end to the sum.
pub proof fn lemma_interval_sum_extend_left(l: int, r: int)
    requires
        l <= r,
    ensures
        interval_sum(l - 1, r) == interval_sum(l, r) + l,
    decreases r - l,
{
    reveal_with_fuel(interval_sum, 2);
    if l < r {
        lemma_interval_sum_extend_left(l, r - 1);
    }
}

/// The interval sum of non-negative bounds shrinks as the left end grows.
pub proof fn lemma_interval_sum_monotone(a: int, b: int, r: int)
    requires
        0 <= a <= b <= r,
    ensures
        0 <= interval_sum(b, r) <= interval_sum(a, r),
    decreases b - a,
{
    if a < b {
        lemma_interval_sum_monotone(a + 1, b, r);
        lemma_interval_sum_extend_left(a + 1, r);
    } else {
        lemma_interval_sum_closed(a, r);
        assert((r - a) * (r + a + 1) >= 0) by (nonlinear_arith) requires a <= r, a >= 0;
    }
}

/// Sum of the integers `l + 1, ..., r`: the number of entries of a
/// triangular table whose rows have lengths `l + 1` to `r`.
pub fn gauss_summation_interval(l: usize, r: usize) -> (result: usize)
    requires
        l <= r,
        interval_sum(l as int, r as int) <= usize::MAX,
    ensures
        result == interval_sum(l as int, r as int),
{
    proof { lemma_interval_sum_closed(l as int, r as int); }
    let n: usize = r - l;
    let ghost total: int = interval_sum(l as int, r as int);
    assert(2 * total == n * (n + 2 * l + 1)) by (nonlinear_arith)
        requires 2 * total == (r - l) * (r + l + 1), n == r - l;
    assert(n * (n + 1) <= 2 * total && l * n <= total) by (nonlinear_arith)
        requires 2 * total == n * (n + 2 * l + 1), n >= 0, l >= 0;
    assert(n < usize::MAX) by (nonlinear_arith)
        requires n * (n + 1) <= 2 * total, total <= usize::MAX, n >= 0;
    let half: usize = n / 2;
    assert(half * (n + 1) <= total) by (nonlinear_arith)
        requires half == n / 2, n * (n + 1) <= 2 * total, n >= 0;
    let odd: bool = n & 0b1 == 1;
    assert(odd == (n % 2 == 1)) by (bit_vector)
        requires odd == (n & 0b1 == 1);
    let np1: usize = n + 1;
    let shifted: usize = np1 >> 1;
    assert(shifted == np1 / 2) by (bit_vector)
        requires shifted == np1 >> 1;
    let adjust: usize = if odd { shifted } else { 0 };
    assert(2 * (half * (n + 1) + adjust) == n * (n + 1)) by (nonlinear_arith)
        requires half == n / 2, adjust == (if n % 2 == 1 { (n + 1) / 2 } else { 0int }), n >= 0;
    assert(total == (half * (n + 1) + adjust) + l * n) by (nonlinear_arith)
        requires
            2 * (half * (n + 1) + adjust) == n * (n + 1),
            2 * total == n * (n + 2 * l + 1);
    let mut result: usize = half * np1 + adjust;
    result += l * n;
    result
}


/// `k` is the base-two logarithm of `n`, rounded down.
pub open spec fn is_floor_log2(n: int, k: int) -> bool {
    &&& 0 <= k
    &&& pow2(k as nat) <= n < pow2((k + 1) as nat)
}

/// The base-two logarithm of `n`, rounded down (0 for `n < 2`).
pub open spec fn floor_log2_spec(n: int) -> int
    decreases n,
{
    if n < 2 { 0 } else { 1 + floor_log2_spec(n / 2) }
}

/// The floor logarithm is never negative.
pub proof fn lemma_floor_log2_spec_nonneg(n: int)
    ensures
        floor_log2_spec(n) >= 0,
    decreases n,
{
    if n >= 2 {
        lemma_floor_log2_spec_nonneg(n / 2);
    }
}

/// `floor_log2_spec` is the floor logarithm of every positive number.
pub proof fn lemma_floor_log2_spec(n: int, k: int)
    requires
        n >= 1,
        is_floor_log2(n, k),
    ensures
        floor_log2_spec(n) == k,
    decreases n,
{
    if n < 2 {
        assert(pow2(0) == 1 && pow2(1) == 2) by { vstd::arithmetic::power2::lemma2_to64(); }
        if k > 0 { lemma_pow2_le(1, k as nat); }
    } else {
        assert(pow2(0) == 1 && pow2(1) == 2) by { vstd::arithmetic::power2::lemma2_to64(); }
        if k == 0 { assert(false); }
        lemma_pow2_unfold(k as nat);
        lemma_pow2_unfold((k + 1) as nat);
        let p = pow2((k - 1) as nat);
        assert(p <= n / 2 < 2 * p) by (nonlinear_arith)
            requires 2 * p <= n < 4 * p, p > 0;
        lemma_pow2_pos((k - 1) as nat);
        lemma_floor_log2_spec(n / 2, k - 1);
    }
}

/// Powers of two grow with the exponent.
pub proof fn lemma_pow2_le(a: nat, b: nat)
    requires
        a <= b,
    ensures
        pow2(a) <= pow2(b),
{
    if a < b {
        lemma_pow2_strictly_increases(a, b);
    }
}

/// A power of two exceeds its exponent.
pub proof fn lemma_pow2_exceeds(k: nat)
    ensures
        k < pow2(k),
    decreases k,
{
    if k == 0 {
        lemma_pow2_pos(0);
    } else {
        lemma_pow2_exceeds((k - 1) as nat);
        lemma_pow2_unfold(k);
        lemma_pow2_pos((k - 1) as nat);
    }
}

/// The floor logarithm is unique.
pub proof fn lemma_floor_log2_unique(n: int, k1: int, k2: int)
    requires
        is_floor_log2(n, k1),
        is_floor_log2(n, k2),
    ensures
        k1 == k2,
{
    if k1 < k2 {
        lemma_pow2_le((k1 + 1) as nat, k2 as nat);
    } else if k2 < k1 {
        lemma_pow2_le((k2 + 1) as nat, k1 as nat);
    }
}

/// The base-two logarithm of a positive `n`, rounded down (what
/// `usize::ilog2` returns).
pub fn floor_log2(n: usize) -> (k: usize)
    requires
        n > 0,
    ensures
        is_floor_log2(n as int, k as int),
        k < usize::BITS,
{
    let mut k: usize = 0;
    let mut m: usize = n;
    proof {
        assert(pow2(0) == 1) by { lemma_pow2_unfold(1); lemma_pow2_pos(0); vstd::arithmetic::power2::lemma2_to64(); }
    }
    while m > 1
        invariant
            1 <= m <= n,
            k <= 64,
            pow2(k as nat) * m <= n < pow2(k as nat) * (m + 1),
        decreases m,
    {
        let ghost p = pow2(k as nat);
        proof { lemma_pow2_unfold((k + 1) as nat); lemma_pow2_pos(k as nat); }
        let half: usize = m / 2;
        assert(2 * p * half <= p * m && p * (m + 1) <= 2 * p * (half + 1)) by (nonlinear_arith)
            requires half == m / 2, p > 0, m >= 1;
        proof {
            assert(pow2((k + 1) as nat) == 2 * p);
            if k >= 63 {
                lemma_pow2_le(63, k as nat);
                vstd::arithmetic::power2::lemma2_to64();
                vstd::arithmetic::power2::lemma2_to64_rest();
                assert(p * m >= 2 * p) by (nonlinear_arith) requires m >= 2, p > 0;
                assert(false);
            }
        }
        m = half;
        k = k + 1;
    }
    proof {
        assert(pow2(k as nat) * 2 == pow2((k + 1) as nat)) by { lemma_pow2_unfold((k + 1) as nat); }
        if k >= usize::BITS {
            lemma_pow2_le(usize::BITS as nat, k as nat);
            vstd::arithmetic::power2::lemma2_to64();
            vstd::arithmetic::power2::lemma2_to64_rest();
        }
    }
    k
}

} // verus!
