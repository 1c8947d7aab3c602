//! Address-range utilities: rounding an address up or down to a multiple of
//! an alignment, and the power-of-two arithmetic the buddy allocator's size
//! classes are built on.

use vstd::prelude::*;
use vstd::arithmetic::div_mod::{
    lemma_fundamental_div_mod, lemma_mod_division_less_than_divisor, lemma_mod_multiples_basic,
};
use vstd::arithmetic::mul::lemma_mul_inequality;
use vstd::arithmetic::power2::{
    is_pow2, is_pow2_equiv, lemma_pow2, lemma_pow2_adds, lemma_pow2_pos, lemma_pow2_unfold,
    lemma_pow2_strictly_increases, pow2,
};

verus! {

/// The least multiple of `n` that is greater than or equal to `x`
/// (meaningful for `x >= 1` and `n >= 1`).
pub open spec fn spec_ceil_to_multiple(x: int, n: int) -> int {
    ((x - 1) / n + 1) * n
}

/// The greatest multiple of `n` that is less than or equal to `x`.
pub open spec fn spec_floor_to_multiple(x: int, n: int) -> int {
    (x / n) * n
}

pub proof fn lemma_ceil_to_multiple(x: int, n: int)
    requires
        1 <= x,
        1 <= n,
    ensures
        spec_ceil_to_multiple(x, n) % n == 0,
        x <= spec_ceil_to_multiple(x, n) < x + n,
{
    let q = (x - 1) / n;
    lemma_fundamental_div_mod(x - 1, n);
    lemma_mod_division_less_than_divisor(x - 1, n);
    assert((q + 1) * n == n * q + n) by (nonlinear_arith);
    lemma_mod_multiples_basic(q + 1, n);
}

pub proof fn lemma_floor_to_multiple(x: int, n: int)
    requires
        0 <= x,
        1 <= n,
    ensures
        spec_floor_to_multiple(x, n) % n == 0,
        x - n < spec_floor_to_multiple(x, n) <= x,
{
    let q = x / n;
    lemma_fundamental_div_mod(x, n);
    lemma_mod_division_less_than_divisor(x, n);
    assert(q * n == n * q) by (nonlinear_arith);
    lemma_mod_multiples_basic(q, n);
}

/// Two distinct multiples of `n` lie at least `n` apart.
pub proof fn lemma_multiples_apart(a: int, b: int, n: int)
    requires
        1 <= n,
        a % n == 0,
        b % n == 0,
        a != b,
    ensures
        a <= b - n || a >= b + n,
{
    lemma_fundamental_div_mod(a, n);
    lemma_fundamental_div_mod(b, n);
    let qa = a / n;
    let qb = b / n;
    if qa < qb {
        lemma_mul_inequality(qa + 1, qb, n);
        assert((qa + 1) * n == n * qa + n) by (nonlinear_arith);
        assert(qb * n == n * qb) by (nonlinear_arith);
    } else {
        assert(qa != qb);
        lemma_mul_inequality(qb + 1, qa, n);
        assert((qb + 1) * n == n * qb + n) by (nonlinear_arith);
        assert(qa * n == n * qa) by (nonlinear_arith);
    }
}

/// If `n` divides both summands, it divides the sum.
pub proof fn lemma_mod_sum_zero(x: int, y: int, n: int)
    requires
        1 <= n,
        x % n == 0,
        y % n == 0,
    ensures
        (x + y) % n == 0,
{
    lemma_fundamental_div_mod(x, n);
    lemma_fundamental_div_mod(y, n);
    assert(n * (x / n) + n * (y / n) == (x / n + y / n) * n) by (nonlinear_arith);
    lemma_mod_multiples_basic(x / n + y / n, n);
}

/// Divisibility is transitive: if `a` divides `b` and `b` divides `x`,
/// then `a` divides `x`.
pub proof fn lemma_mod_transitive(x: int, b: int, a: int)
    requires
        1 <= a,
        1 <= b,
        x % b == 0,
        b % a == 0,
    ensures
        x % a == 0,
{
    lemma_fundamental_div_mod(x, b);
    lemma_fundamental_div_mod(b, a);
    let q = x / b;
    let p = b / a;
    assert(b * q == (q * p) * a) by (nonlinear_arith)
        requires
            b == a * p,
    ;
    lemma_mod_multiples_basic(q * p, a);
}

/// A smaller power of two divides a larger one.
pub proof fn lemma_pow2_divides(e1: nat, e2: nat)
    requires
        e1 <= e2,
    ensures
        pow2(e2) as int % pow2(e1) as int == 0,
{
    lemma_pow2_adds(e1, (e2 - e1) as nat);
    lemma_pow2_pos(e1);
    lemma_pow2_pos((e2 - e1) as nat);
    lemma_mod_multiples_basic(pow2((e2 - e1) as nat) as int, pow2(e1) as int);
    assert(pow2(e1) * pow2((e2 - e1) as nat) == pow2((e2 - e1) as nat) * pow2(e1))
        by (nonlinear_arith);
}

/// A power of two is at least one.
pub proof fn lemma_is_pow2_pos(x: int)
    requires
        is_pow2(x),
    ensures
        x >= 1,
{
    reveal(is_pow2);
}

/// Dividing a quantity by a divisor no larger than it gives at least one.
pub proof fn lemma_div_at_least_one(x: int, d: int)
    requires
        1 <= d <= x,
    ensures
        1 <= x / d,
        d * (x / d) <= x,
{
    lemma_fundamental_div_mod(x, d);
    lemma_mod_division_less_than_divisor(x, d);
    if x / d < 1 {
        assert(d * (x / d) <= 0) by (nonlinear_arith)
            requires
                x / d <= 0,
                d >= 1,
        ;
    }
}

/// Among powers of two, the smaller divides the larger.
pub proof fn lemma_pow2_le_divides(a: int, b: int)
    requires
        is_pow2(a),
        is_pow2(b),
        a <= b,
    ensures
        b % a == 0,
{
    is_pow2_equiv(a);
    is_pow2_equiv(b);
    let ea = choose|i: nat| vstd::arithmetic::power::pow(2, i) == a;
    let eb = choose|i: nat| vstd::arithmetic::power::pow(2, i) == b;
    lemma_pow2(ea);
    lemma_pow2(eb);
    if eb < ea {
        lemma_pow2_strictly_increases(eb, ea);
    }
    lemma_pow2_divides(ea, eb);
}

/// Every power of two is `pow2` of some exponent.
pub proof fn lemma_pow2_exponent(a: int) -> (e: nat)
    requires
        is_pow2(a),
    ensures
        pow2(e) == a,
{
    is_pow2_equiv(a);
    let e = choose|i: nat| vstd::arithmetic::power::pow(2, i) == a;
    lemma_pow2(e);
    e
}

/// The largest exponent `e` with `pow2(e) <= n`, i.e. the floor of the
/// base-two logarithm.
pub open spec fn log2(n: nat) -> nat
    decreases n,
{
    if n <= 1 {
        0
    } else {
        1 + log2(n / 2)
    }
}

pub proof fn lemma_log2_bounds(n: nat)
    requires
        1 <= n,
    ensures
        pow2(log2(n)) <= n < pow2(log2(n) + 1),
        log2(n) <= n,
        n >= 2 ==> log2(n) < n,
    decreases n,
{
    if n <= 1 {
        assert(pow2(0) == 1 && pow2(1) == 2) by {
            lemma_pow2_unfold(1);
            vstd::arithmetic::power2::lemma2_to64();
        }
    } else {
        lemma_log2_bounds(n / 2);
        let e = log2(n / 2);
        lemma_pow2_unfold((e + 1) as nat);
        lemma_pow2_unfold((e + 2) as nat);
    }
}

/// A power of two is recovered exactly from its logarithm.
pub proof fn lemma_log2_pow2(n: nat)
    requires
        is_pow2(n as int),
    ensures
        pow2(log2(n)) == n,
{
    let e = lemma_pow2_exponent(n as int);
    lemma_pow2_pos(e);
    lemma_log2_bounds(n);
    if log2(n) < e {
        lemma_pow2_strictly_increases(log2(n), e);
        if log2(n) + 1 < e {
            lemma_pow2_strictly_increases(log2(n) + 1, e);
        }
    }
    if e < log2(n) {
        lemma_pow2_strictly_increases(e, log2(n));
    }
}

/// Rounds `x` up to the multiple of `n` that is greater than or equal to,
/// and closest to, `x`.
pub fn ceilToMultiple(x: usize, n: usize) -> (r: usize)
    requires
        1 <= x,
        1 <= n,
        spec_ceil_to_multiple(x as int, n as int) <= usize::MAX,
    ensures
        r == spec_ceil_to_multiple(x as int, n as int),
        r % n == 0,
        x <= r < x + n,
{
    proof {
        lemma_ceil_to_multiple(x as int, n as int);
        lemma_fundamental_div_mod(x as int - 1, n as int);
        lemma_mod_division_less_than_divisor(x as int - 1, n as int);
        let q = (x as int - 1) / (n as int);
        assert(q + 1 <= (q + 1) * n) by (nonlinear_arith)
            requires
                q >= 0,
                n >= 1,
        ;
    }
    (((x - 1) / n) + 1) * n
}

/// Rounds `x` down to the multiple of `n` that is less than or equal to,
/// and closest to, `x`.
pub fn floorToMultiple(x: usize, n: usize) -> (r: usize)
    requires
        1 <= n,
    ensures
        r == spec_floor_to_multiple(x as int, n as int),
        r % n == 0,
        r <= x < r + n,
{
    proof {
        lemma_floor_to_multiple(x as int, n as int);
        let q = (x as int) / (n as int);
        assert(q <= q * n) by (nonlinear_arith)
            requires
                q >= 0,
                n >= 1,
        ;
    }
    (x / n) * n
}

/// Reports whether `x` is a power of two.
pub fn isPowerOfTwo(x: usize) -> (b: bool)
    ensures
        b == is_pow2(x as int),
{
    if x == 0 {
        proof {
            reveal(is_pow2);
        }
        return false;
    }
    let mut m: usize = x;
    while m % 2 == 0
        invariant
            1 <= m <= x,
            is_pow2(x as int) == is_pow2(m as int),
        decreases m,
    {
        proof {
            reveal(is_pow2);
        }
        m = m / 2;
    }
    proof {
        reveal(is_pow2);
    }
    m == 1
}

/// Computes `pow2(e)`.
pub fn pow2Exec(e: usize) -> (r: usize)
    requires
        pow2(e as nat) <= usize::MAX,
    ensures
        r == pow2(e as nat),
{
    let mut r: usize = 1;
    let mut i: usize = 0;
    proof {
        vstd::arithmetic::power2::lemma2_to64();
    }
    while i < e
        invariant
            0 <= i <= e,
            r == pow2(i as nat),
            pow2(e as nat) <= usize::MAX,
        decreases e - i,
    {
        proof {
            lemma_pow2_unfold((i + 1) as nat);
            if ((i + 1) as nat) < (e as nat) {
                lemma_pow2_strictly_increases((i + 1) as nat, e as nat);
            }
        }
        r = r * 2;
        i = i + 1;
    }
    r
}

/// Computes the floor of the base-two logarithm of `n`.
pub fn log2Floor(n: usize) -> (r: usize)
    requires
        1 <= n,
    ensures
        r == log2(n as nat),
{
    proof {
        lemma_log2_bounds(n as nat);
    }
    let mut m: usize = n;
    let mut c: usize = 0;
    while m > 1
        invariant
            1 <= m <= n,
            c + log2(m as nat) == log2(n as nat),
            log2(n as nat) <= n,
        decreases m,
    {
        m = m / 2;
        c = c + 1;
    }
    c
}

} // verus!
