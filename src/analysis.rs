//! Estimates of how many sets of tiles the search examines in the worst case.
use vstd::prelude::*;
use vstd::arithmetic::power::pow;
use vstd::arithmetic::power2::pow2;
use vstd::bits::{lemma_u64_shl_is_mul, lemma_u64_pow2_no_overflow};

verus! {

/// `n!`, with `0! = 1`.
pub open spec fn factorial_spec(n: nat) -> nat
    decreases n,
{
    if n <= 1 {
        1
    } else {
        n * factorial_spec((n - 1) as nat)
    }
}

/// The worst-case estimate `4^(n-1) * n! / 2^(n-1)` of the sets examined for
/// `n` tiles, `n` being at least one.
pub open spec fn theoretical_complexity(n: nat) -> int {
    pow(4, (n - 1) as nat) * factorial_spec(n) / pow(2, (n - 1) as nat)
}

/// The simpler estimate `n² × 2^n`.
pub open spec fn simplified_estimate(n: nat) -> nat {
    n * n * pow2(n)
}

proof fn lemma_factorial_grows(n: nat)
    ensures
        1 <= factorial_spec(n),
        n >= 1 ==> factorial_spec((n - 1) as nat) <= factorial_spec(n),
    decreases n,
{
    if n > 1 {
        lemma_factorial_grows((n - 1) as nat);
        assert(factorial_spec((n - 1) as nat) <= n * factorial_spec((n - 1) as nat)) by (nonlinear_arith)
            requires
                n > 1,
        ;
    }
}

proof fn lemma_pow_bounds(e: nat)
    ensures
        1 <= pow(2, e) <= pow(4, e),
    decreases e,
{
    reveal(pow);
    if e > 0 {
        lemma_pow_bounds((e - 1) as nat);
        let a = pow(2, (e - 1) as nat);
        let b = pow(4, (e - 1) as nat);
        assert(1 <= 2 * a <= 4 * b) by (nonlinear_arith)
            requires
                1 <= a <= b,
        ;
    }
}

proof fn lemma_pow_monotone(base: int, i: nat, e: nat)
    requires
        base >= 1,
        i <= e,
    ensures
        1 <= pow(base, i) <= pow(base, e),
    decreases e,
{
    reveal(pow);
    if e > i {
        lemma_pow_monotone(base, i, (e - 1) as nat);
        let c = pow(base, (e - 1) as nat);
        assert(c <= base * c) by (nonlinear_arith)
            requires
                base >= 1,
                c >= 1,
        ;
    } else if i > 0 {
        lemma_pow_monotone(base, (i - 1) as nat, (i - 1) as nat);
        let c = pow(base, (i - 1) as nat);
        assert(1 <= base * c) by (nonlinear_arith)
            requires
                base >= 1,
                c >= 1,
        ;
    }
}

/// `base` raised to `e`.
fn power(base: u64, e: u32) -> (r: u64)
    requires
        base >= 1,
        pow(base as int, e as nat) <= u64::MAX,
    ensures
        r == pow(base as int, e as nat),
{
    let mut r: u64 = 1;
    let mut i: u32 = 0;
    proof {
        reveal(pow);
    }
    while i < e
        invariant
            base >= 1,
            i <= e,
            pow(base as int, e as nat) <= u64::MAX,
            r == pow(base as int, i as nat),
        decreases e - i,
    {
        proof {
            reveal(pow);
            lemma_pow_monotone(base as int, (i + 1) as nat, e as nat);
            assert(pow(base as int, (i + 1) as nat) == base * pow(base as int, i as nat));
        }
        r = base * r;
        i = i + 1;
    }
    r
}

/// `n!`.
fn factorial(n: u32) -> (r: u64)
    requires
        factorial_spec(n as nat) <= u64::MAX,
    ensures
        r == factorial_spec(n as nat),
    decreases n,
{
    if n <= 1 {
        1
    } else {
        proof {
            lemma_factorial_grows(n as nat);
        }
        n as u64 * factorial(n - 1)
    }
}

/// The worst-case estimate `4^(n-1) × n! / 2^(n-1)` of the sets of tiles
/// that the search examines for `n` tiles.
pub fn calculate_theoretical_complexity(n: u32) -> (r: u64)
    requires
        n >= 1,
        pow(4, (n - 1) as nat) * factorial_spec(n as nat) <= u64::MAX,
    ensures
        r == theoretical_complexity(n as nat),
{
    let ghost e = (n - 1) as nat;
    proof {
        lemma_pow_bounds(e);
        lemma_factorial_grows(n as nat);
        let a = pow(4, e);
        let b = factorial_spec(n as nat) as int;
        assert(a <= a * b && b <= a * b) by (nonlinear_arith)
            requires
                a >= 1,
                b >= 1,
        ;
    }
    let four_power = power(4, n - 1);
    let fact = factorial(n);
    let two_power = power(2, n - 1);
    four_power * fact / two_power
}

/// The worst-case number of sets of tiles examined for `n` tiles: the same
/// estimate as `calculate_theoretical_complexity`.
pub fn calculate_sets_examined(n: u32) -> (r: u64)
    requires
        n >= 1,
        pow(4, (n - 1) as nat) * factorial_spec(n as nat) <= u64::MAX,
    ensures
        r == theoretical_complexity(n as nat),
{
    calculate_theoretical_complexity(n)
}

/// The binomial coefficient `C(n, k)`, by Pascal's rule.
pub open spec fn binom(n: nat, k: nat) -> nat
    decreases n,
{
    if k == 0 {
        1
    } else if n == 0 {
        0
    } else {
        binom((n - 1) as nat, (k - 1) as nat) + binom((n - 1) as nat, k)
    }
}

proof fn lemma_binom_above(n: nat, k: nat)
    requires
        k > n,
    ensures
        binom(n, k) == 0,
    decreases n,
{
    if n > 0 {
        lemma_binom_above((n - 1) as nat, (k - 1) as nat);
        lemma_binom_above((n - 1) as nat, k);
    }
}

/// `C(n, k+1) × (k+1) == C(n, k) × (n-k)`: the step by which the coefficients
/// of one row follow each other.
proof fn lemma_binom_step(n: nat, k: nat)
    requires
        k <= n,
    ensures
        binom(n, k + 1) * (k + 1) == binom(n, k) * (n - k),
    decreases n,
{
    if n == 0 {
        lemma_binom_above(0, 1);
        assert(binom(n, k + 1) * (k + 1) == binom(n, k) * (n - k));
    } else {
        let m = (n - 1) as nat;
        if k < n {
            lemma_binom_step(m, k);
        } else {
            lemma_binom_above(m, k);
            lemma_binom_above(m, k + 1);
        }
        if k == 0 {
            assert(binom(m, 0) == 1);
            let x = binom(m, k + 1) as int;
            assert(x * (k + 1) == binom(m, k) * (m - k));
            assert(x == m) by (nonlinear_arith)
                requires
                    x * (k + 1) == 1 * (m - k),
                    k == 0,
            ;
            assert(binom(m, 1) == m);
            assert(binom(n, 1) == binom(m, 0) + binom(m, 1));
            assert(binom(n, 1) == n);
            assert(binom(n, 0) == 1);
        } else {
            lemma_binom_step(m, (k - 1) as nat);
            let a = binom(m, (k - 1) as nat) as int;
            let b = binom(m, k) as int;
            let c = binom(m, k + 1) as int;
            assert(binom(n, k + 1) == b + c);
            assert(binom(n, k) == a + b);
            assert(c * (k + 1) == b * (m - k)) by (nonlinear_arith)
                requires
                    k < n ==> c * (k + 1) == b * (m - k),
                    k >= n ==> b == 0 && c == 0,
            ;
            assert((b + c) * (k + 1) == (a + b) * (n - k)) by (nonlinear_arith)
                requires
                    c * (k + 1) == b * (m - k),
                    b * k == a * (m - (k - 1)),
                    m == n - 1,
            ;
            assert(binom(n, k + 1) * (k + 1) == binom(n, k) * (n - k));
        }
    }
}

proof fn lemma_binom_symmetric(n: nat, k: nat)
    requires
        k <= n,
    ensures
        binom(n, k) == binom(n, (n - k) as nat),
    decreases n,
{
    if n > 0 {
        let m = (n - 1) as nat;
        if k == 0 {
            lemma_binom_above(m, n);
            assert(binom(n, n) == binom(m, m) + binom(m, n));
            lemma_binom_symmetric(m, 0);
        } else if k == n {
            lemma_binom_above(m, n);
            lemma_binom_symmetric(m, m);
        } else {
            lemma_binom_symmetric(m, (k - 1) as nat);
            lemma_binom_symmetric(m, k);
            assert(binom(n, (n - k) as nat) == binom(m, (n - k - 1) as nat) + binom(m, (n - k) as nat));
        }
    }
}

/// The binomial coefficient `C(n, k)`, computed along the row from the smaller
/// of `k` and `n - k`.
pub fn binomial(n: u32, k: u32) -> (r: u64)
    requires
        forall|i: nat|
            i < k && i < n - k ==> #[trigger] binom(n as nat, i + 1) * (i + 1) <= u64::MAX,
    ensures
        r == binom(n as nat, k as nat),
{
    if k > n {
        proof {
            lemma_binom_above(n as nat, k as nat);
        }
        return 0;
    }
    let k2 = if k < n - k { k } else { n - k };
    proof {
        lemma_binom_symmetric(n as nat, k as nat);
    }
    let mut result: u64 = 1;
    let mut i: u32 = 0;
    while i < k2
        invariant
            k <= n,
            k2 == k || k2 == n - k,
            k2 <= k && k2 <= n - k,
            i <= k2,
            result == binom(n as nat, i as nat),
            forall|j: nat|
                j < k && j < n - k ==> #[trigger] binom(n as nat, j + 1) * (j + 1) <= u64::MAX,
        decreases k2 - i,
    {
        proof {
            lemma_binom_step(n as nat, i as nat);
            assert(binom(n as nat, (i as nat) + 1) * ((i as nat) + 1) <= u64::MAX);
        }
        let next = result * ((n - i) as u64);
        proof {
            let b = binom(n as nat, (i + 1) as nat) as int;
            assert(next as int == b * (i + 1));
            assert((b * (i + 1)) / (i + 1) as int == b) by (nonlinear_arith)
                requires
                    i + 1 > 0,
            ;
        }
        result = next / ((i + 1) as u64);
        i = i + 1;
    }
    result
}

/// The simpler worst-case estimate `n² × 2^n`.
pub fn simplified_complexity(n: u32) -> (r: u64)
    requires
        n < 64,
        simplified_estimate(n as nat) <= u64::MAX,
    ensures
        r == simplified_estimate(n as nat),
{
    assert(n * n < 4096) by (nonlinear_arith)
        requires
            n < 64,
    ;
    let n_squared = (n * n) as u64;
    proof {
        lemma_u64_pow2_no_overflow(n as nat);
        lemma_u64_shl_is_mul(1, n as u64);
    }
    let two_power_n = 1u64 << (n as u64);
    proof {
        let s = n_squared as int;
        let q = pow2(n as nat) as int;
        assert(s * q <= u64::MAX);
    }
    n_squared * two_power_n
}

} // verus!
