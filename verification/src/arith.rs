//! Divisibility, primality, powers and geometric sums: the arithmetic facts
//! behind the prime cache and the factorisation algebra.

use vstd::prelude::*;
use vstd::arithmetic::div_mod::lemma_fundamental_div_mod;
use vstd::arithmetic::div_mod::lemma_mod_multiples_basic;
use vstd::arithmetic::div_mod::lemma_mod_self_0;
use vstd::arithmetic::mul::lemma_mul_inequality;
use vstd::arithmetic::power::pow;
use vstd::arithmetic::power::lemma_pow_increases;
use vstd::arithmetic::power::lemma_pow_positive;

verus! {

/// `d` divides `n` evenly.
pub open spec fn divides(d: nat, n: nat) -> bool {
    d != 0 && n % d == 0
}

/// A natural number is prime when it is at least two and nothing strictly
/// between one and itself divides it.
pub open spec fn is_prime(n: nat) -> bool {
    n >= 2 && forall|d: nat| 2 <= d < n ==> !divides(d, n)
}

/// Divisibility is transitive.
pub proof fn lemma_divides_transitive(a: nat, b: nat, c: nat)
    requires
        divides(a, b),
        divides(b, c),
    ensures
        divides(a, c),
{
    let qb = b as int / a as int;
    let qc = c as int / b as int;
    lemma_fundamental_div_mod(b as int, a as int);
    lemma_fundamental_div_mod(c as int, b as int);
    assert(c as int == (qb * qc) * a as int) by (nonlinear_arith)
        requires
            b as int == a as int * qb,
            c as int == b as int * qc,
    ;
    lemma_mod_multiples_basic(qb * qc, a as int);
}

/// The smallest divisor of `n` that is at least `k`, or `n` itself when no
/// smaller one exists.
pub open spec fn least_divisor_from(n: nat, k: nat) -> nat
    decreases n - k,
{
    if k >= n {
        n
    } else if n % k == 0 {
        k
    } else {
        least_divisor_from(n, k + 1)
    }
}

/// The smallest divisor of `n` above one.
pub open spec fn least_divisor(n: nat) -> nat {
    least_divisor_from(n, 2)
}

pub proof fn lemma_least_divisor_from(n: nat, k: nat)
    requires
        2 <= k <= n,
    ensures
        k <= least_divisor_from(n, k) <= n,
        divides(least_divisor_from(n, k), n),
        forall|e: nat| k <= e < least_divisor_from(n, k) ==> !divides(e, n),
    decreases n - k,
{
    if k >= n {
        lemma_mod_self_0(n as int);
    } else if n % k == 0 {
    } else {
        lemma_least_divisor_from(n, k + 1);
    }
}

/// The least divisor above one of any `n >= 2` is a prime that divides `n`.
pub proof fn lemma_prime_factor(n: nat)
    requires
        n >= 2,
    ensures
        is_prime(least_divisor(n)),
        divides(least_divisor(n), n),
        2 <= least_divisor(n) <= n,
{
    let d = least_divisor(n);
    lemma_least_divisor_from(n, 2);
    if !is_prime(d) {
        let e = choose|e: nat| 2 <= e < d && divides(e, d);
        lemma_divides_transitive(e, d, n);
        assert(false);
    }
}

/// A composite number has a prime divisor whose square does not exceed it.
pub proof fn lemma_composite_small_factor(n: nat)
    requires
        n >= 2,
        !is_prime(n),
    ensures
        is_prime(least_divisor(n)),
        divides(least_divisor(n), n),
        least_divisor(n) * least_divisor(n) <= n,
{
    let d = least_divisor(n);
    lemma_prime_factor(n);
    lemma_least_divisor_from(n, 2);
    assert(!(forall|dd: nat| 2 <= dd < n ==> !divides(dd, n)));
    let e = choose|e: nat| 2 <= e < n && divides(e, n);
    if e < d {
        assert(!divides(e, n));
        assert(false);
    }
    assert(d < n);
    let q = n as int / d as int;
    lemma_fundamental_div_mod(n as int, d as int);
    assert(n as int == d as int * q);
    assert(q >= 2) by (nonlinear_arith)
        requires
            n as int == d as int * q,
            2 <= d < n,
    ;
    lemma_mod_multiples_basic(d as int, q);
    assert(q * (d as int) == n as int) by (nonlinear_arith)
        requires
            n as int == d as int * q,
    ;
    assert(divides(q as nat, n));
    if q < d {
        assert(!divides(q as nat, n));
        assert(false);
    }
    lemma_mul_inequality(d as int, q, d as int);
}

/// The sum of the powers of `p` from `p^0` up to `p^e`.
pub open spec fn geo_sum(p: nat, e: nat) -> int
    decreases e,
{
    if e == 0 {
        1
    } else {
        geo_sum(p, (e - 1) as nat) + pow(p as int, e)
    }
}

pub proof fn lemma_geo_sum_pos(p: nat, e: nat)
    requires
        p >= 1,
    ensures
        geo_sum(p, e) >= 1,
    decreases e,
{
    lemma_pow_positive(p as int, e);
    if e > 0 {
        lemma_geo_sum_pos(p, (e - 1) as nat);
    }
}

/// The closed form of the geometric sum: `(p - 1) * (1 + p + .. + p^e)`
/// telescopes to `p^(e+1) - 1`.
pub proof fn lemma_geo_sum_closed_form(p: nat, e: nat)
    requires
        p >= 1,
    ensures
        (p - 1) * geo_sum(p, e) == pow(p as int, (e + 1) as nat) - 1,
    decreases e,
{
    reveal(pow);
    if e == 0 {
        assert(pow(p as int, 1) == p * pow(p as int, 0));
    } else {
        lemma_geo_sum_closed_form(p, (e - 1) as nat);
        assert(pow(p as int, (e + 1) as nat) == p as int * pow(p as int, e));
        assert((p - 1) * (geo_sum(p, (e - 1) as nat) + pow(p as int, e)) == (p - 1) * geo_sum(
            p,
            (e - 1) as nat,
        ) + (p - 1) * pow(p as int, e)) by (nonlinear_arith);
        assert((pow(p as int, e) - 1) + (p - 1) * pow(p as int, e) == p as int * pow(p as int, e)
            - 1) by (nonlinear_arith);
    }
}

pub proof fn lemma_pow_nonneg(b: nat, e: nat)
    ensures
        pow(b as int, e) >= 0,
    decreases e,
{
    reveal(pow);
    if e > 0 {
        lemma_pow_nonneg(b, (e - 1) as nat);
        assert(b as int * pow(b as int, (e - 1) as nat) >= 0) by (nonlinear_arith)
            requires
                b as int >= 0,
                pow(b as int, (e - 1) as nat) >= 0,
        ;
    }
}

/// Powers grow with the base.
pub proof fn lemma_pow_base_mono(a: nat, b: nat, e: nat)
    requires
        a <= b,
    ensures
        pow(a as int, e) <= pow(b as int, e),
    decreases e,
{
    reveal(pow);
    if e > 0 {
        lemma_pow_base_mono(a, b, (e - 1) as nat);
        lemma_pow_nonneg(a, (e - 1) as nat);
        lemma_pow_nonneg(b, (e - 1) as nat);
        assert(a as int * pow(a as int, (e - 1) as nat) <= b as int * pow(b as int, (e - 1) as nat))
            by (nonlinear_arith)
            requires
                0 <= a as int <= b as int,
                0 <= pow(a as int, (e - 1) as nat) <= pow(b as int, (e - 1) as nat),
        ;
    }
}

/// A power of a base of at least two that fits in sixty-four bits has an
/// exponent of at most sixty-three.
pub proof fn lemma_u64_pow_exp_bound(b: nat, e: nat)
    requires
        b >= 2,
        pow(b as int, e) <= u64::MAX,
    ensures
        e <= 63,
{
    if e > 63 {
        lemma_pow_base_mono(2, b, e);
        lemma_pow_increases(2, 64, e);
        vstd::arithmetic::power2::lemma2_to64_rest();
        lemma_pow_nonneg(2, 64);
        assert(pow(2, 64) == vstd::arithmetic::power2::pow2(64));
        assert(false);
    }
}

/// Raise a base to a power, as `u64::pow` does on inputs where the result
/// fits.
pub fn pow_u64(base: u64, exp: u32) -> (r: u64)
    requires
        base >= 1,
        pow(base as int, exp as nat) <= u64::MAX,
    ensures
        r as int == pow(base as int, exp as nat),
{
    let mut acc: u64 = 1;
    let mut k: u32 = 0;
    proof {
        reveal(pow);
    }
    while k < exp
        invariant
            k <= exp,
            base >= 1,
            pow(base as int, exp as nat) <= u64::MAX,
            acc as int == pow(base as int, k as nat),
        decreases exp - k,
    {
        proof {
            reveal(pow);
            lemma_pow_increases(base as nat, (k + 1) as nat, exp as nat);
            assert(pow(base as int, (k + 1) as nat) == base as int * pow(base as int, k as nat));
            lemma_pow_positive(base as int, k as nat);
        }
        acc = acc * base;
        k = k + 1;
    }
    acc
}

} // verus!
