//! Prime-power factorisations and their algebra: divisor counting and
//! summation, perfection classification, and greatest-common-factor,
//! smallest-common-multiple and product computed by a merge-join over two
//! sorted prime-power vectors.

use vstd::prelude::*;
use vstd::arithmetic::power::pow;
use vstd::arithmetic::power::lemma_pow_positive;
use vstd::arithmetic::div_mod::lemma_div_multiples_vanish;
use crate::arith::geo_sum;
use crate::arith::is_prime;
use crate::arith::lemma_geo_sum_closed_form;
use crate::arith::lemma_geo_sum_pos;
use crate::arith::lemma_u64_pow_exp_bound;
use crate::arith::pow_u64;

verus! {

/// A single prime raised to a positive power.
#[derive(Clone, Copy, Debug, PartialEq, Eq, Structural)]
pub struct Factor {
    pub prime: u64,
    pub power: u32,
}

/// The error returned when an argument lies outside a function's domain,
/// such as asking for the factorisation of zero.
#[derive(Clone, Copy, Debug, PartialEq, Eq, Structural)]
pub struct InvalidInput;

/// An ordered vector of prime powers with strictly ascending primes.
#[derive(Debug)]
pub struct Factors(Vec<Factor>);

impl View for Factors {
    type V = Seq<Factor>;

    closed spec fn view(&self) -> Seq<Factor> {
        self.0@
    }
}

impl Factors {
    pub(crate) fn from_vec(v: Vec<Factor>) -> (r: Factors)
        ensures
            r@ == v@,
    {
        Factors(v)
    }
}

/// A number carried together with its prime-power factorisation, so that
/// consumers of the factors can still refer to the number without
/// re-multiplying them.
#[derive(Debug)]
pub struct Factorisation {
    pub n: u64,
    pub factors: Factors,
}

impl Factorisation {
    /// The factors are well formed and their product reconstructs `n`.
    pub open spec fn wf(&self) -> bool {
        factors_wf(self.factors@) && prod_factors(self.factors@) == self.n as int
    }
}

/// How the sum of a number's proper divisors compares to the number itself.
#[derive(Clone, Copy, Debug, PartialEq, Eq, Structural)]
pub enum Perfection {
    Deficient,
    Perfect,
    Abundant,
}

/// Well-formedness of a prime-power vector: every entry holds a prime and a
/// positive power, and the primes strictly ascend.
pub open spec fn factors_wf(s: Seq<Factor>) -> bool {
    &&& forall|i: int| 0 <= i < s.len() ==> is_prime(#[trigger] s[i].prime as nat)
    &&& forall|i: int| 0 <= i < s.len() ==> (#[trigger] s[i].power) >= 1
    &&& forall|i: int, j: int| 0 <= i < j < s.len() ==> s[i].prime < s[j].prime
}

/// The number a prime-power vector stands for: the product of its
/// `prime^power` entries.
pub open spec fn prod_factors(s: Seq<Factor>) -> int
    decreases s.len(),
{
    if s.len() == 0 {
        1
    } else {
        pow(s[0].prime as int, s[0].power as nat) * prod_factors(s.drop_first())
    }
}

pub proof fn lemma_prod_factors_pos(s: Seq<Factor>)
    requires
        forall|i: int| 0 <= i < s.len() ==> (#[trigger] s[i].prime) >= 1,
    ensures
        prod_factors(s) >= 1,
    decreases s.len(),
{
    if s.len() > 0 {
        lemma_pow_positive(s[0].prime as int, s[0].power as nat);
        lemma_prod_factors_pos(s.drop_first());
        let h = pow(s[0].prime as int, s[0].power as nat);
        let t = prod_factors(s.drop_first());
        assert(h * t >= 1) by (nonlinear_arith)
            requires
                h >= 1,
                t >= 1,
        ;
    }
}

/// How many divisors the factored number has: each prime with power `e`
/// contributes a choice among `e + 1` exponents, so the count is the product
/// of `power + 1` over the factors.
pub open spec fn count_divisors_spec(s: Seq<Factor>) -> int
    decreases s.len(),
{
    if s.len() == 0 {
        1
    } else {
        (s[0].power + 1) * count_divisors_spec(s.drop_first())
    }
}

/// The sum of all divisors of the factored number: the product over the
/// factors of the geometric sums `1 + p + .. + p^e`.
pub open spec fn sigma_spec(s: Seq<Factor>) -> int
    decreases s.len(),
{
    if s.len() == 0 {
        1
    } else {
        geo_sum(s[0].prime as nat, s[0].power as nat) * sigma_spec(s.drop_first())
    }
}

/// The power to which `p` occurs in a prime-power vector, zero when absent.
pub open spec fn exp_in(s: Seq<Factor>, p: u64) -> u32
    decreases s.len(),
{
    if s.len() == 0 {
        0u32
    } else if s[0].prime == p {
        s[0].power
    } else {
        exp_in(s.drop_first(), p)
    }
}

pub proof fn lemma_count_divisors_pos(s: Seq<Factor>)
    ensures
        count_divisors_spec(s) >= 1,
    decreases s.len(),
{
    if s.len() > 0 {
        lemma_count_divisors_pos(s.drop_first());
        let h = s[0].power + 1;
        let t = count_divisors_spec(s.drop_first());
        assert(h * t >= 1) by (nonlinear_arith)
            requires
                h >= 1,
                t >= 1,
        ;
    }
}

pub proof fn lemma_sigma_pos(s: Seq<Factor>)
    requires
        forall|i: int| 0 <= i < s.len() ==> (#[trigger] s[i].prime) >= 1,
    ensures
        sigma_spec(s) >= 1,
    decreases s.len(),
{
    if s.len() > 0 {
        lemma_geo_sum_pos(s[0].prime as nat, s[0].power as nat);
        lemma_sigma_pos(s.drop_first());
        let h = geo_sum(s[0].prime as nat, s[0].power as nat);
        let t = sigma_spec(s.drop_first());
        assert(h * t >= 1) by (nonlinear_arith)
            requires
                h >= 1,
                t >= 1,
        ;
    }
}

/// The divisor sum of a number is at least the number itself: each geometric
/// sum dominates its own highest prime power.
pub proof fn lemma_sigma_ge_prod(s: Seq<Factor>)
    requires
        forall|i: int| 0 <= i < s.len() ==> (#[trigger] s[i].prime) >= 1,
    ensures
        sigma_spec(s) >= prod_factors(s),
    decreases s.len(),
{
    if s.len() > 0 {
        lemma_sigma_ge_prod(s.drop_first());
        lemma_geo_sum_ge_pow(s[0].prime as nat, s[0].power as nat);
        lemma_prod_factors_pos(s.drop_first());
        lemma_pow_positive(s[0].prime as int, s[0].power as nat);
        let g = geo_sum(s[0].prime as nat, s[0].power as nat);
        let w = pow(s[0].prime as int, s[0].power as nat);
        let ts = sigma_spec(s.drop_first());
        let tp = prod_factors(s.drop_first());
        assert(g * ts >= w * tp) by (nonlinear_arith)
            requires
                g >= w >= 1,
                ts >= tp >= 1,
        ;
    }
}

proof fn lemma_geo_sum_ge_pow(p: nat, e: nat)
    requires
        p >= 1,
    ensures
        geo_sum(p, e) >= pow(p as int, e) >= 1,
{
    lemma_pow_positive(p as int, e);
    if e > 0 {
        lemma_geo_sum_pos(p, (e - 1) as nat);
    } else {
        vstd::arithmetic::power::lemma_pow0(p as int);
    }
}

/// A key other than the appended one keeps its power.
pub proof fn lemma_exp_in_push_other(s: Seq<Factor>, f: Factor, p: u64)
    requires
        f.prime != p,
    ensures
        exp_in(s.push(f), p) == exp_in(s, p),
    decreases s.len(),
{
    if s.len() == 0 {
        assert(s.push(f)[0] == f);
        assert(s.push(f).drop_first() =~= Seq::<Factor>::empty());
        assert(exp_in(Seq::<Factor>::empty(), p) == 0);
    } else {
        assert(s.push(f)[0] == s[0]);
        assert(s.push(f).drop_first() =~= s.drop_first().push(f));
        lemma_exp_in_push_other(s.drop_first(), f, p);
    }
}

/// Appending a fresh key gives it its own power.
pub proof fn lemma_exp_in_push_new(s: Seq<Factor>, f: Factor)
    requires
        forall|k: int| 0 <= k < s.len() ==> (#[trigger] s[k].prime) != f.prime,
    ensures
        exp_in(s.push(f), f.prime) == f.power,
    decreases s.len(),
{
    if s.len() == 0 {
        assert(s.push(f)[0] == f);
    } else {
        assert(s.push(f)[0] == s[0]);
        assert(s[0].prime != f.prime);
        assert(s.push(f).drop_first() =~= s.drop_first().push(f));
        assert forall|k: int| 0 <= k < s.drop_first().len() implies (#[trigger] s.drop_first()[k].prime)
            != f.prime by {
            assert(s.drop_first()[k] == s[k + 1]);
        }
        lemma_exp_in_push_new(s.drop_first(), f);
    }
}

/// A key held by no entry has power zero.
pub proof fn lemma_exp_in_absent(s: Seq<Factor>, p: u64)
    requires
        forall|k: int| 0 <= k < s.len() ==> (#[trigger] s[k].prime) != p,
    ensures
        exp_in(s, p) == 0,
    decreases s.len(),
{
    if s.len() > 0 {
        assert forall|k: int| 0 <= k < s.drop_first().len() implies (#[trigger] s.drop_first()[k].prime)
            != p by {
            assert(s.drop_first()[k] == s[k + 1]);
        }
        lemma_exp_in_absent(s.drop_first(), p);
    }
}

/// In a vector with pairwise distinct primes, the power of the prime at any
/// index is that entry's power.
pub proof fn lemma_exp_in_at(s: Seq<Factor>, k: int)
    requires
        forall|i: int, j: int| 0 <= i < j < s.len() ==> s[i].prime != s[j].prime,
        0 <= k < s.len(),
    ensures
        exp_in(s, s[k].prime) == s[k].power,
    decreases s.len(),
{
    if k == 0 {
    } else {
        assert(s[0].prime != s[k].prime);
        assert forall|i: int, j: int| 0 <= i < j < s.drop_first().len() implies s.drop_first()[i].prime
            != s.drop_first()[j].prime by {
            assert(s.drop_first()[i] == s[i + 1]);
            assert(s.drop_first()[j] == s[j + 1]);
        }
        assert(s.drop_first()[k - 1] == s[k]);
        lemma_exp_in_at(s.drop_first(), k - 1);
    }
}

/// A positive power means the prime occurs, and in a well-formed vector an
/// occurring prime is prime.
pub proof fn lemma_exp_in_pos_occurs(s: Seq<Factor>, p: u64)
    requires
        exp_in(s, p) > 0,
    ensures
        exists|k: int| 0 <= k < s.len() && (#[trigger] s[k].prime) == p,
{
    if forall|k: int| 0 <= k < s.len() ==> (#[trigger] s[k].prime) != p {
        lemma_exp_in_absent(s, p);
        assert(false);
    }
}

/// Appending one factor multiplies the product by its prime power.
pub proof fn lemma_prod_factors_push(s: Seq<Factor>, f: Factor)
    ensures
        prod_factors(s.push(f)) == prod_factors(s) * pow(f.prime as int, f.power as nat),
    decreases s.len(),
{
    if s.len() == 0 {
        assert(s.push(f)[0] == f);
        assert(s.push(f).drop_first() =~= Seq::<Factor>::empty());
        assert(prod_factors(Seq::<Factor>::empty()) == 1);
        assert(prod_factors(s.push(f)) == pow(f.prime as int, f.power as nat) * 1);
    } else {
        assert(s.push(f).drop_first() =~= s.drop_first().push(f));
        lemma_prod_factors_push(s.drop_first(), f);
        let h = pow(s[0].prime as int, s[0].power as nat);
        let t = prod_factors(s.drop_first());
        let g = pow(f.prime as int, f.power as nat);
        assert(h * (t * g) == (h * t) * g) by (nonlinear_arith);
    }
}

impl Factor {
    /// `prime` raised to `power`.
    pub fn calculate(&self) -> (r: u64)
        requires
            self.prime >= 1,
            pow(self.prime as int, self.power as nat) <= u64::MAX,
        ensures
            r as int == pow(self.prime as int, self.power as nat),
    {
        pow_u64(self.prime, self.power)
    }

    /// The sum of the powers of `prime` from exponent zero up to `power`,
    /// computed with the closed geometric-sum formula rather than a loop.
    pub fn power_sum(&self) -> (r: u64)
        requires
            self.prime >= 2,
            pow(self.prime as int, (self.power + 1) as nat) <= u64::MAX,
        ensures
            r as int == geo_sum(self.prime as nat, self.power as nat),
    {
        let po = self.power;
        let pr = self.prime;
        proof {
            lemma_u64_pow_exp_bound(pr as nat, (po + 1) as nat);
            lemma_pow_positive(pr as int, (po + 1) as nat);
        }
        let num = pow_u64(pr, po + 1) - 1;
        let den = pr - 1;
        proof {
            lemma_geo_sum_closed_form(pr as nat, po as nat);
            lemma_geo_sum_pos(pr as nat, po as nat);
            lemma_div_multiples_vanish(geo_sum(pr as nat, po as nat), pr as int - 1);
        }
        num / den
    }
}

impl Factors {
    /// The factors, in ascending prime order.
    pub fn iter(&self) -> (r: &Vec<Factor>)
        ensures
            r@ == self@,
    {
        &self.0
    }

    /// Rebuild the factored number by multiplying out the prime powers, and
    /// carry it alongside the factors.
    pub fn factorisation(self) -> (r: Factorisation)
        requires
            factors_wf(self@),
            prod_factors(self@) <= u64::MAX,
        ensures
            r.factors@ == self@,
            r.n as int == prod_factors(self@),
            r.wf(),
    {
        let ghost s = self@;
        let mut acc: u64 = 1;
        let mut k: usize = 0;
        proof {
            assert(s.skip(0) =~= s);
        }
        while k < self.0.len()
            invariant
                factors_wf(s),
                s == self@,
                k <= s.len(),
                prod_factors(s) <= u64::MAX,
                acc as int * prod_factors(s.skip(k as int)) == prod_factors(s),
                acc >= 1,
            decreases s.len() - k,
        {
            let ghost tail = s.skip(k as int);
            let ghost rest = s.skip(k as int + 1);
            let ghost w = pow(s[k as int].prime as int, s[k as int].power as nat);
            proof {
                assert(tail[0] == s[k as int]);
                assert(tail.drop_first() =~= rest);
                assert(prod_factors(tail) == w * prod_factors(rest));
                assert forall|i: int| 0 <= i < rest.len() implies (#[trigger] rest[i].prime)
                    >= 1 by {
                    assert(rest[i] == s[k + 1 + i]);
                    assert(is_prime(s[k + 1 + i].prime as nat));
                }
                lemma_prod_factors_pos(rest);
                lemma_pow_positive(s[k as int].prime as int, s[k as int].power as nat);
                assert(is_prime(s[k as int].prime as nat));
                assert(acc as int * w <= prod_factors(s) && w <= prod_factors(s))
                    by (nonlinear_arith)
                    requires
                        acc as int * (w * prod_factors(rest)) == prod_factors(s),
                        prod_factors(rest) >= 1,
                        acc >= 1,
                        w >= 1,
                ;
            }
            let f = self.0[k];
            let c = f.calculate();
            let ghost acc0 = acc;
            acc = acc * c;
            k = k + 1;
            proof {
                assert(acc as int * prod_factors(s.skip(k as int)) == prod_factors(s) && acc >= 1)
                    by (nonlinear_arith)
                    requires
                        acc as int == acc0 as int * w,
                        acc0 >= 1,
                        w >= 1,
                        acc0 as int * (w * prod_factors(s.skip(k as int))) == prod_factors(s),
                ;
            }
        }
        proof {
            assert(s.skip(s.len() as int) =~= Seq::<Factor>::empty());
            assert(prod_factors(Seq::<Factor>::empty()) == 1);
        }
        Factorisation { n: acc, factors: self }
    }

    /// The number of divisors, as the product of `power + 1` over the
    /// factors, without expanding any divisor list.
    pub fn count_divisors(&self) -> (r: u32)
        requires
            count_divisors_spec(self@) <= u32::MAX,
        ensures
            r as int == count_divisors_spec(self@),
    {
        let ghost s = self@;
        let mut acc: u32 = 1;
        let mut k: usize = 0;
        proof {
            assert(s.skip(0) =~= s);
        }
        while k < self.0.len()
            invariant
                s == self@,
                k <= s.len(),
                count_divisors_spec(s) <= u32::MAX,
                acc as int * count_divisors_spec(s.skip(k as int)) == count_divisors_spec(s),
                acc >= 1,
            decreases s.len() - k,
        {
            let ghost tail = s.skip(k as int);
            let ghost rest = s.skip(k as int + 1);
            let ghost w = s[k as int].power + 1;
            proof {
                assert(tail[0] == s[k as int]);
                assert(tail.drop_first() =~= rest);
                assert(count_divisors_spec(tail) == w * count_divisors_spec(rest));
                lemma_count_divisors_pos(rest);
                assert(acc as int * w <= count_divisors_spec(s) && w <= count_divisors_spec(s))
                    by (nonlinear_arith)
                    requires
                        acc as int * (w * count_divisors_spec(rest)) == count_divisors_spec(s),
                        count_divisors_spec(rest) >= 1,
                        acc >= 1,
                        w >= 1,
                ;
            }
            let f = self.0[k];
            let ghost acc0 = acc;
            acc = acc * (f.power + 1);
            k = k + 1;
            proof {
                assert(acc as int * count_divisors_spec(s.skip(k as int)) == count_divisors_spec(s)
                    && acc >= 1) by (nonlinear_arith)
                    requires
                        acc as int == acc0 as int * w,
                        acc0 >= 1,
                        w >= 1,
                        acc0 as int * (w * count_divisors_spec(s.skip(k as int)))
                            == count_divisors_spec(s),
                ;
            }
        }
        proof {
            assert(s.skip(s.len() as int) =~= Seq::<Factor>::empty());
            assert(count_divisors_spec(Seq::<Factor>::empty()) == 1);
        }
        acc
    }

    /// The sum of all divisors, as the product of the per-prime geometric
    /// sums, each taken in closed form.
    pub fn sum_divisors(&self) -> (r: u64)
        requires
            factors_wf(self@),
            forall|k: int|
                0 <= k < self@.len() ==> pow(
                    #[trigger] self@[k].prime as int,
                    (self@[k].power + 1) as nat,
                ) <= u64::MAX,
            sigma_spec(self@) <= u64::MAX,
        ensures
            r as int == sigma_spec(self@),
    {
        let ghost s = self@;
        let mut acc: u64 = 1;
        let mut k: usize = 0;
        proof {
            assert(s.skip(0) =~= s);
        }
        while k < self.0.len()
            invariant
                factors_wf(s),
                s == self@,
                k <= s.len(),
                forall|j: int|
                    0 <= j < s.len() ==> pow(
                        #[trigger] s[j].prime as int,
                        (s[j].power + 1) as nat,
                    ) <= u64::MAX,
                sigma_spec(s) <= u64::MAX,
                acc as int * sigma_spec(s.skip(k as int)) == sigma_spec(s),
                acc >= 1,
            decreases s.len() - k,
        {
            let ghost tail = s.skip(k as int);
            let ghost rest = s.skip(k as int + 1);
            let ghost w = geo_sum(s[k as int].prime as nat, s[k as int].power as nat);
            proof {
                assert(tail[0] == s[k as int]);
                assert(tail.drop_first() =~= rest);
                assert(sigma_spec(tail) == w * sigma_spec(rest));
                assert forall|i: int| 0 <= i < rest.len() implies (#[trigger] rest[i].prime)
                    >= 1 by {
                    assert(rest[i] == s[k + 1 + i]);
                    assert(is_prime(s[k + 1 + i].prime as nat));
                }
                lemma_sigma_pos(rest);
                assert(is_prime(s[k as int].prime as nat));
                lemma_geo_sum_pos(s[k as int].prime as nat, s[k as int].power as nat);
                assert(acc as int * w <= sigma_spec(s) && w <= sigma_spec(s)) by (nonlinear_arith)
                    requires
                        acc as int * (w * sigma_spec(rest)) == sigma_spec(s),
                        sigma_spec(rest) >= 1,
                        acc >= 1,
                        w >= 1,
                ;
            }
            let f = self.0[k];
            let c = f.power_sum();
            let ghost acc0 = acc;
            acc = acc * c;
            k = k + 1;
            proof {
                assert(acc as int * sigma_spec(s.skip(k as int)) == sigma_spec(s) && acc >= 1)
                    by (nonlinear_arith)
                    requires
                        acc as int == acc0 as int * w,
                        acc0 >= 1,
                        w >= 1,
                        acc0 as int * (w * sigma_spec(s.skip(k as int))) == sigma_spec(s),
                ;
            }
        }
        proof {
            assert(s.skip(s.len() as int) =~= Seq::<Factor>::empty());
            assert(sigma_spec(Seq::<Factor>::empty()) == 1);
        }
        acc
    }
}

/// The empty vector is the only well-formed factorisation of one: any
/// factor would contribute a prime power of at least two to the product.
pub proof fn lemma_unit_factorisation(s: Seq<Factor>)
    requires
        factors_wf(s),
        prod_factors(s) == 1,
    ensures
        s =~= Seq::<Factor>::empty(),
{
    if s.len() > 0 {
        assert(is_prime(s[0].prime as nat));
        assert(s[0].power >= 1);
        vstd::arithmetic::power::lemma_pow_increases(s[0].prime as nat, 1, s[0].power as nat);
        vstd::arithmetic::power::lemma_pow1(s[0].prime as int);
        assert(pow(s[0].prime as int, s[0].power as nat) >= s[0].prime);
        assert forall|i: int| 0 <= i < s.drop_first().len() implies (#[trigger] s.drop_first()[i].prime)
            >= 1 by {
            assert(s.drop_first()[i] == s[i + 1]);
            assert(is_prime(s[i + 1].prime as nat));
        }
        lemma_prod_factors_pos(s.drop_first());
        let h = pow(s[0].prime as int, s[0].power as nat);
        let t = prod_factors(s.drop_first());
        assert(h * t >= 2) by (nonlinear_arith)
            requires
                h >= 2,
                t >= 1,
        ;
        assert(false);
    }
}

/// The smaller of two powers.
pub open spec fn min_u32(a: u32, b: u32) -> u32 {
    if a <= b {
        a
    } else {
        b
    }
}

/// The larger of two powers.
pub open spec fn max_u32(a: u32, b: u32) -> u32 {
    if a <= b {
        b
    } else {
        a
    }
}

/// Appending a factor whose prime lies above every present one keeps a
/// prime-power vector well formed, gives the new prime its power, and leaves
/// every other prime's power unchanged.
pub proof fn lemma_factors_push_wf(s: Seq<Factor>, f: Factor)
    requires
        factors_wf(s),
        is_prime(f.prime as nat),
        f.power >= 1,
        forall|i: int| 0 <= i < s.len() ==> (#[trigger] s[i].prime) < f.prime,
    ensures
        factors_wf(s.push(f)),
        forall|p: u64|
            p != f.prime ==> #[trigger] exp_in(s.push(f), p) == exp_in(s, p),
        exp_in(s.push(f), f.prime) == f.power,
{
    let t = s.push(f);
    assert forall|i: int, j: int| 0 <= i < j < t.len() implies t[i].prime < t[j].prime by {
        if j < t.len() - 1 {
            assert(s[i].prime < s[j].prime);
        } else {
            assert(t[j] == f);
            assert(s[i].prime < f.prime);
        }
    }
    assert forall|i: int| 0 <= i < t.len() implies is_prime(#[trigger] t[i].prime as nat) by {
        if i < t.len() - 1 {
            assert(is_prime(s[i].prime as nat));
        }
    }
    assert forall|i: int| 0 <= i < t.len() implies (#[trigger] t[i].power) >= 1 by {
        if i < t.len() - 1 {
            assert(s[i].power >= 1);
        }
    }
    assert forall|p: u64| p != f.prime implies #[trigger] exp_in(t, p) == exp_in(s, p) by {
        lemma_exp_in_push_other(s, f, p);
    }
    lemma_exp_in_push_new(s, f);
}

/// The sum of two powers.
pub open spec fn add_u32(a: u32, b: u32) -> u32 {
    (a + b) as u32
}

/// The key (the prime) of one row of a merge-join result.
pub open spec fn merged_key(r: Seq<(u64, (u32, u32))>, k: int) -> u64 {
    r[k].0
}

/// Row-by-row correctness of a merge-join of two prime-power vectors: keys
/// strictly ascend, each row reports the exponent of its prime in each input
/// (zero where absent), and every row's prime occurs in at least one input.
pub open spec fn merged_wf(sa: Seq<Factor>, sb: Seq<Factor>, r: Seq<(u64, (u32, u32))>) -> bool {
    &&& forall|i: int, j: int| 0 <= i < j < r.len() ==> merged_key(r, i) < merged_key(r, j)
    &&& forall|k: int| 0 <= k < r.len() ==> #[trigger] exp_in(sa, r[k].0) == r[k].1.0
    &&& forall|k: int| 0 <= k < r.len() ==> #[trigger] exp_in(sb, r[k].0) == r[k].1.1
    &&& forall|k: int|
        0 <= k < r.len() ==> (#[trigger] exp_in(sa, r[k].0) > 0 || exp_in(sb, r[k].0) > 0)
}

impl Factors {
    /// Walk two sorted prime-power vectors together, yielding, for every
    /// prime occurring in either, that prime with its exponent in each input
    /// (zero where it is absent), in ascending prime order.
    pub fn factors_iterator(&self, other: &Factors) -> (r: Vec<(u64, (u32, u32))>)
        requires
            factors_wf(self@),
            factors_wf(other@),
        ensures
            merged_wf(self@, other@, r@),
            forall|p: u64|
                #![trigger exp_in(self@, p)]
                #![trigger exp_in(other@, p)]
                (exp_in(self@, p) > 0 || exp_in(other@, p) > 0) ==> exists|k: int|
                    0 <= k < r@.len() && merged_key(r@, k) == p,
    {
        let ghost sa = self@;
        let ghost sb = other@;
        proof {
            assert forall|i: int, j: int| 0 <= i < j < sa.len() implies sa[i].prime
                != sa[j].prime by {}
            assert forall|i: int, j: int| 0 <= i < j < sb.len() implies sb[i].prime
                != sb[j].prime by {}
        }
        let mut li: usize = 0;
        let mut ri: usize = 0;
        let mut out: Vec<(u64, (u32, u32))> = Vec::new();
        while li < self.0.len() || ri < other.0.len()
            invariant
                sa == self@,
                sb == other@,
                factors_wf(sa),
                factors_wf(sb),
                li <= sa.len(),
                ri <= sb.len(),
                merged_wf(sa, sb, out@),
                forall|j: int|
                    #![trigger sa[j].prime]
                    0 <= j < li ==> exists|k: int|
                        0 <= k < out@.len() && merged_key(out@, k) == sa[j].prime,
                forall|j: int|
                    #![trigger sb[j].prime]
                    0 <= j < ri ==> exists|k: int|
                        0 <= k < out@.len() && merged_key(out@, k) == sb[j].prime,
                out@.len() > 0 && li < sa.len() ==> out@.last().0 < sa[li as int].prime,
                out@.len() > 0 && ri < sb.len() ==> out@.last().0 < sb[ri as int].prime,
                forall|j: int|
                    0 <= j < li ==> out@.len() > 0 && (#[trigger] sa[j].prime) <= out@.last().0,
                forall|j: int|
                    0 <= j < ri ==> out@.len() > 0 && (#[trigger] sb[j].prime) <= out@.last().0,
            decreases (sa.len() - li) + (sb.len() - ri),
        {
            let ghost out0 = out@;
            if li < self.0.len() && (ri >= other.0.len() || self.0[li].prime < other.0[ri].prime) {
                let fa = self.0[li];
                let e = (fa.prime, (fa.power, 0u32));
                proof {
                    lemma_exp_in_at(sa, li as int);
                    assert forall|k: int| 0 <= k < sb.len() implies (#[trigger] sb[k].prime)
                        != fa.prime by {
                        if k < ri {
                            assert(sb[k].prime <= out0.last().0);
                        } else {
                            assert(sb[ri as int].prime <= sb[k].prime) by {
                                if (ri as int) < k {
                                    assert(sb[ri as int].prime < sb[k].prime);
                                }
                            }
                        }
                    }
                    lemma_exp_in_absent(sb, fa.prime);
                }
                out.push(e);
                li = li + 1;
                proof {
                    assert(out@ == out0.push(e));
                    assert(merged_key(out@, out@.len() - 1) == fa.prime);
                    assert(fa.power >= 1);
                    assert forall|i: int, j: int|
                        0 <= i < j < out@.len() implies merged_key(out@, i) < merged_key(
                        out@,
                        j,
                    ) by {
                        if j < out@.len() - 1 {
                            assert(merged_key(out0, i) < merged_key(out0, j));
                        } else {
                            assert(merged_key(out0, i) <= merged_key(out0, out0.len() - 1)) by {
                                if i < out0.len() - 1 {
                                    assert(merged_key(out0, i) < merged_key(out0, out0.len() - 1));
                                }
                            }
                        }
                    }
                    assert forall|k: int| 0 <= k < out@.len() implies #[trigger] exp_in(
                        sa,
                        out@[k].0,
                    ) == out@[k].1.0 by {
                        if k < out@.len() - 1 {
                            assert(exp_in(sa, out0[k].0) == out0[k].1.0);
                        }
                    }
                    assert forall|k: int| 0 <= k < out@.len() implies #[trigger] exp_in(
                        sb,
                        out@[k].0,
                    ) == out@[k].1.1 by {
                        if k < out@.len() - 1 {
                            assert(exp_in(sb, out0[k].0) == out0[k].1.1);
                        }
                    }
                    assert forall|k: int|
                        0 <= k < out@.len() implies (#[trigger] exp_in(sa, out@[k].0) > 0 || exp_in(
                        sb,
                        out@[k].0,
                    ) > 0) by {
                        if k < out@.len() - 1 {
                            assert(exp_in(sa, out0[k].0) > 0 || exp_in(sb, out0[k].0) > 0);
                        }
                    }
                    assert forall|j: int|
                        #![trigger sa[j].prime]
                        0 <= j < li implies exists|k: int|
                        0 <= k < out@.len() && merged_key(out@, k) == sa[j].prime by {
                        if j < li - 1 {
                            let k = choose|k: int|
                                0 <= k < out0.len() && merged_key(out0, k) == sa[j].prime;
                            assert(merged_key(out@, k) == sa[j].prime);
                        } else {
                            assert(merged_key(out@, out@.len() - 1) == sa[j].prime);
                        }
                    }
                    assert forall|j: int|
                        #![trigger sb[j].prime]
                        0 <= j < ri implies exists|k: int|
                        0 <= k < out@.len() && merged_key(out@, k) == sb[j].prime by {
                        let k = choose|k: int|
                            0 <= k < out0.len() && merged_key(out0, k) == sb[j].prime;
                        assert(merged_key(out@, k) == sb[j].prime);
                    }
                }
            } else if ri < other.0.len() && (li >= self.0.len() || other.0[ri].prime < self.0[li].prime) {
                let fb = other.0[ri];
                let e = (fb.prime, (0u32, fb.power));
                proof {
                    lemma_exp_in_at(sb, ri as int);
                    assert forall|k: int| 0 <= k < sa.len() implies (#[trigger] sa[k].prime)
                        != fb.prime by {
                        if k < li {
                            assert(sa[k].prime <= out0.last().0);
                        } else {
                            assert(sa[li as int].prime <= sa[k].prime) by {
                                if (li as int) < k {
                                    assert(sa[li as int].prime < sa[k].prime);
                                }
                            }
                        }
                    }
                    lemma_exp_in_absent(sa, fb.prime);
                }
                out.push(e);
                ri = ri + 1;
                proof {
                    assert(out@ == out0.push(e));
                    assert(merged_key(out@, out@.len() - 1) == fb.prime);
                    assert(fb.power >= 1);
                    assert forall|i: int, j: int|
                        0 <= i < j < out@.len() implies merged_key(out@, i) < merged_key(
                        out@,
                        j,
                    ) by {
                        if j < out@.len() - 1 {
                            assert(merged_key(out0, i) < merged_key(out0, j));
                        } else {
                            assert(merged_key(out0, i) <= merged_key(out0, out0.len() - 1)) by {
                                if i < out0.len() - 1 {
                                    assert(merged_key(out0, i) < merged_key(out0, out0.len() - 1));
                                }
                            }
                        }
                    }
                    assert forall|k: int| 0 <= k < out@.len() implies #[trigger] exp_in(
                        sa,
                        out@[k].0,
                    ) == out@[k].1.0 by {
                        if k < out@.len() - 1 {
                            assert(exp_in(sa, out0[k].0) == out0[k].1.0);
                        }
                    }
                    assert forall|k: int| 0 <= k < out@.len() implies #[trigger] exp_in(
                        sb,
                        out@[k].0,
                    ) == out@[k].1.1 by {
                        if k < out@.len() - 1 {
                            assert(exp_in(sb, out0[k].0) == out0[k].1.1);
                        }
                    }
                    assert forall|k: int|
                        0 <= k < out@.len() implies (#[trigger] exp_in(sa, out@[k].0) > 0 || exp_in(
                        sb,
                        out@[k].0,
                    ) > 0) by {
                        if k < out@.len() - 1 {
                            assert(exp_in(sa, out0[k].0) > 0 || exp_in(sb, out0[k].0) > 0);
                        }
                    }
                    assert forall|j: int|
                        #![trigger sb[j].prime]
                        0 <= j < ri implies exists|k: int|
                        0 <= k < out@.len() && merged_key(out@, k) == sb[j].prime by {
                        if j < ri - 1 {
                            let k = choose|k: int|
                                0 <= k < out0.len() && merged_key(out0, k) == sb[j].prime;
                            assert(merged_key(out@, k) == sb[j].prime);
                        } else {
                            assert(merged_key(out@, out@.len() - 1) == sb[j].prime);
                        }
                    }
                    assert forall|j: int|
                        #![trigger sa[j].prime]
                        0 <= j < li implies exists|k: int|
                        0 <= k < out@.len() && merged_key(out@, k) == sa[j].prime by {
                        let k = choose|k: int|
                            0 <= k < out0.len() && merged_key(out0, k) == sa[j].prime;
                        assert(merged_key(out@, k) == sa[j].prime);
                    }
                }
            } else {
                let fa = self.0[li];
                let fb = other.0[ri];
                let e = (fa.prime, (fa.power, fb.power));
                proof {
                    assert(fa.prime == fb.prime);
                    lemma_exp_in_at(sa, li as int);
                    lemma_exp_in_at(sb, ri as int);
                }
                out.push(e);
                li = li + 1;
                ri = ri + 1;
                proof {
                    assert(out@ == out0.push(e));
                    assert(merged_key(out@, out@.len() - 1) == fa.prime);
                    assert(fa.power >= 1);
                    assert forall|i: int, j: int|
                        0 <= i < j < out@.len() implies merged_key(out@, i) < merged_key(
                        out@,
                        j,
                    ) by {
                        if j < out@.len() - 1 {
                            assert(merged_key(out0, i) < merged_key(out0, j));
                        } else {
                            assert(merged_key(out0, i) <= merged_key(out0, out0.len() - 1)) by {
                                if i < out0.len() - 1 {
                                    assert(merged_key(out0, i) < merged_key(out0, out0.len() - 1));
                                }
                            }
                        }
                    }
                    assert forall|k: int| 0 <= k < out@.len() implies #[trigger] exp_in(
                        sa,
                        out@[k].0,
                    ) == out@[k].1.0 by {
                        if k < out@.len() - 1 {
                            assert(exp_in(sa, out0[k].0) == out0[k].1.0);
                        }
                    }
                    assert forall|k: int| 0 <= k < out@.len() implies #[trigger] exp_in(
                        sb,
                        out@[k].0,
                    ) == out@[k].1.1 by {
                        if k < out@.len() - 1 {
                            assert(exp_in(sb, out0[k].0) == out0[k].1.1);
                        }
                    }
                    assert forall|k: int|
                        0 <= k < out@.len() implies (#[trigger] exp_in(sa, out@[k].0) > 0 || exp_in(
                        sb,
                        out@[k].0,
                    ) > 0) by {
                        if k < out@.len() - 1 {
                            assert(exp_in(sa, out0[k].0) > 0 || exp_in(sb, out0[k].0) > 0);
                        }
                    }
                    assert forall|j: int|
                        #![trigger sa[j].prime]
                        0 <= j < li implies exists|k: int|
                        0 <= k < out@.len() && merged_key(out@, k) == sa[j].prime by {
                        if j < li - 1 {
                            let k = choose|k: int|
                                0 <= k < out0.len() && merged_key(out0, k) == sa[j].prime;
                            assert(merged_key(out@, k) == sa[j].prime);
                        } else {
                            assert(merged_key(out@, out@.len() - 1) == sa[j].prime);
                        }
                    }
                    assert forall|j: int|
                        #![trigger sb[j].prime]
                        0 <= j < ri implies exists|k: int|
                        0 <= k < out@.len() && merged_key(out@, k) == sb[j].prime by {
                        if j < ri - 1 {
                            let k = choose|k: int|
                                0 <= k < out0.len() && merged_key(out0, k) == sb[j].prime;
                            assert(merged_key(out@, k) == sb[j].prime);
                        } else {
                            assert(merged_key(out@, out@.len() - 1) == sb[j].prime);
                        }
                    }
                }
            }
        }
        proof {
            assert forall|p: u64|
                #![trigger exp_in(sa, p)]
                #![trigger exp_in(sb, p)]
                (exp_in(sa, p) > 0 || exp_in(sb, p) > 0) implies exists|k: int|
                0 <= k < out@.len() && merged_key(out@, k) == p by {
                if exp_in(sa, p) > 0 {
                    lemma_exp_in_pos_occurs(sa, p);
                    let j = choose|j: int| 0 <= j < sa.len() && (#[trigger] sa[j].prime) == p;
                } else {
                    lemma_exp_in_pos_occurs(sb, p);
                    let j = choose|j: int| 0 <= j < sb.len() && (#[trigger] sb[j].prime) == p;
                }
            }
        }
        out
    }
}

impl Factors {
    /// The largest common factor of two factored numbers: for each prime
    /// the smaller of its two exponents, dropping primes where that is zero.
    pub fn largest_common_factor(&self, other: &Factors) -> (r: Factors)
        requires
            factors_wf(self@),
            factors_wf(other@),
        ensures
            factors_wf(r@),
            forall|p: u64|
                #[trigger] exp_in(r@, p) == min_u32(exp_in(self@, p), exp_in(other@, p)),
    {
        let ghost sa = self@;
        let ghost sb = other@;
        let merged = self.factors_iterator(other);
        let ghost ms = merged@;
        let mut out: Vec<Factor> = Vec::new();
        let mut k: usize = 0;
        while k < merged.len()
            invariant
                sa == self@,
                sb == other@,
                ms == merged@,
                factors_wf(sa),
                factors_wf(sb),
                merged_wf(sa, sb, ms),
                forall|p: u64|
                    #![trigger exp_in(sa, p)]
                    #![trigger exp_in(sb, p)]
                    (exp_in(sa, p) > 0 || exp_in(sb, p) > 0) ==> exists|j: int|
                        0 <= j < ms.len() && merged_key(ms, j) == p,
                k <= ms.len(),
                factors_wf(out@),
                forall|j: int|
                    #![trigger merged_key(ms, j)]
                    0 <= j < k ==> exp_in(out@, merged_key(ms, j)) == min_u32(
                        exp_in(sa, merged_key(ms, j)),
                        exp_in(sb, merged_key(ms, j)),
                    ),
                forall|i: int|
                    0 <= i < out@.len() ==> exists|j: int|
                        0 <= j < k && merged_key(ms, j) == (#[trigger] out@[i].prime),
                out@.len() > 0 && k < ms.len() ==> out@.last().prime < merged_key(ms, k as int),
            decreases ms.len() - k,
        {
            let row = merged[k];
            let p = row.0;
            let l = row.1.0;
            let rr = row.1.1;
            let ghost out0 = out@;
            proof {
                assert(row == ms[k as int]);
                assert(exp_in(sa, p) == l);
                assert(exp_in(sb, p) == rr);
                assert(l > 0 || rr > 0);
                assert forall|i: int| 0 <= i < out0.len() implies (#[trigger] out0[i].prime)
                    < p by {
                    assert(out0[i].prime <= out0.last().prime) by {
                        if i < out0.len() - 1 {
                            assert(out0[i].prime < out0[out0.len() - 1].prime);
                        }
                    }
                }
                if l > 0 {
                    lemma_exp_in_pos_occurs(sa, p);
                    let idx = choose|idx: int|
                        0 <= idx < sa.len() && (#[trigger] sa[idx].prime) == p;
                    assert(is_prime(p as nat));
                } else {
                    lemma_exp_in_pos_occurs(sb, p);
                    let idx = choose|idx: int|
                        0 <= idx < sb.len() && (#[trigger] sb[idx].prime) == p;
                    assert(is_prime(p as nat));
                }
            }
            let w = if l < rr {
                l
            } else {
                rr
            };
            if w > 0 {
                proof {
                    lemma_factors_push_wf(out0, Factor { prime: p, power: w });
                }
                out.push(Factor { prime: p, power: w });
            } else {
                proof {
                    assert forall|i: int| 0 <= i < out0.len() implies (#[trigger] out0[i].prime)
                        != p by {}
                    lemma_exp_in_absent(out0, p);
                }
            }
            k = k + 1;
            proof {
                assert forall|j: int|
                    #![trigger merged_key(ms, j)]
                    0 <= j < k implies exp_in(out@, merged_key(ms, j)) == min_u32(
                    exp_in(sa, merged_key(ms, j)),
                    exp_in(sb, merged_key(ms, j)),
                ) by {
                    if j < k - 1 {
                        assert(merged_key(ms, j) < merged_key(ms, k - 1));
                        assert(exp_in(out0, merged_key(ms, j)) == min_u32(
                            exp_in(sa, merged_key(ms, j)),
                            exp_in(sb, merged_key(ms, j)),
                        ));
                    }
                }
                assert forall|i: int|
                    0 <= i < out@.len() implies exists|j: int|
                    0 <= j < k && merged_key(ms, j) == (#[trigger] out@[i].prime) by {
                    if i < out0.len() {
                        let j = choose|j: int|
                            0 <= j < k - 1 && merged_key(ms, j) == (#[trigger] out0[i].prime);
                        assert(merged_key(ms, j) == out@[i].prime);
                    } else {
                        assert(out@[i].prime == p);
                        assert(merged_key(ms, k - 1) == p);
                    }
                }
                if k < ms.len() {
                    assert(merged_key(ms, k - 1) < merged_key(ms, k as int));
                }
            }
        }
        proof {
            assert forall|p: u64|
                #[trigger] exp_in(out@, p) == min_u32(exp_in(sa, p), exp_in(sb, p)) by {
                if exp_in(sa, p) > 0 || exp_in(sb, p) > 0 {
                    let j = choose|j: int| 0 <= j < ms.len() && merged_key(ms, j) == p;
                    assert(exp_in(out@, merged_key(ms, j)) == min_u32(
                        exp_in(sa, merged_key(ms, j)),
                        exp_in(sb, merged_key(ms, j)),
                    ));
                } else {
                    assert forall|i: int| 0 <= i < out@.len() implies (#[trigger] out@[i].prime)
                        != p by {
                        let j = choose|j: int|
                            0 <= j < ms.len() && merged_key(ms, j) == (#[trigger] out@[i].prime);
                        assert(exp_in(sa, ms[j].0) > 0 || exp_in(sb, ms[j].0) > 0);
                    }
                    lemma_exp_in_absent(out@, p);
                }
            }
        }
        Factors(out)
    }

    /// The smallest common multiple of two factored numbers: each prime of
    /// either, raised to the larger of its two exponents.
    pub fn smallest_common_multiple(&self, other: &Factors) -> (r: Factors)
        requires
            factors_wf(self@),
            factors_wf(other@),
        ensures
            factors_wf(r@),
            forall|p: u64|
                #[trigger] exp_in(r@, p) == max_u32(exp_in(self@, p), exp_in(other@, p)),
    {
        let ghost sa = self@;
        let ghost sb = other@;
        let merged = self.factors_iterator(other);
        let ghost ms = merged@;
        let mut out: Vec<Factor> = Vec::new();
        let mut k: usize = 0;
        while k < merged.len()
            invariant
                sa == self@,
                sb == other@,
                ms == merged@,
                factors_wf(sa),
                factors_wf(sb),
                merged_wf(sa, sb, ms),
                forall|p: u64|
                    #![trigger exp_in(sa, p)]
                    #![trigger exp_in(sb, p)]
                    (exp_in(sa, p) > 0 || exp_in(sb, p) > 0) ==> exists|j: int|
                        0 <= j < ms.len() && merged_key(ms, j) == p,
                k <= ms.len(),
                factors_wf(out@),
                forall|j: int|
                    #![trigger merged_key(ms, j)]
                    0 <= j < k ==> exp_in(out@, merged_key(ms, j)) == max_u32(
                        exp_in(sa, merged_key(ms, j)),
                        exp_in(sb, merged_key(ms, j)),
                    ),
                forall|i: int|
                    0 <= i < out@.len() ==> exists|j: int|
                        0 <= j < k && merged_key(ms, j) == (#[trigger] out@[i].prime),
                out@.len() > 0 && k < ms.len() ==> out@.last().prime < merged_key(ms, k as int),
            decreases ms.len() - k,
        {
            let row = merged[k];
            let p = row.0;
            let l = row.1.0;
            let rr = row.1.1;
            let ghost out0 = out@;
            proof {
                assert(row == ms[k as int]);
                assert(exp_in(sa, p) == l);
                assert(exp_in(sb, p) == rr);
                assert(l > 0 || rr > 0);
                assert forall|i: int| 0 <= i < out0.len() implies (#[trigger] out0[i].prime)
                    < p by {
                    assert(out0[i].prime <= out0.last().prime) by {
                        if i < out0.len() - 1 {
                            assert(out0[i].prime < out0[out0.len() - 1].prime);
                        }
                    }
                }
                if l > 0 {
                    lemma_exp_in_pos_occurs(sa, p);
                    let idx = choose|idx: int|
                        0 <= idx < sa.len() && (#[trigger] sa[idx].prime) == p;
                    assert(is_prime(p as nat));
                } else {
                    lemma_exp_in_pos_occurs(sb, p);
                    let idx = choose|idx: int|
                        0 <= idx < sb.len() && (#[trigger] sb[idx].prime) == p;
                    assert(is_prime(p as nat));
                }
            }
            let w = if l < rr {
                rr
            } else {
                l
            };
            proof {
                lemma_factors_push_wf(out0, Factor { prime: p, power: w });
            }
            out.push(Factor { prime: p, power: w });
            k = k + 1;
            proof {
                assert forall|j: int|
                    #![trigger merged_key(ms, j)]
                    0 <= j < k implies exp_in(out@, merged_key(ms, j)) == max_u32(
                    exp_in(sa, merged_key(ms, j)),
                    exp_in(sb, merged_key(ms, j)),
                ) by {
                    if j < k - 1 {
                        assert(merged_key(ms, j) < merged_key(ms, k - 1));
                        assert(exp_in(out0, merged_key(ms, j)) == max_u32(
                            exp_in(sa, merged_key(ms, j)),
                            exp_in(sb, merged_key(ms, j)),
                        ));
                    }
                }
                assert forall|i: int|
                    0 <= i < out@.len() implies exists|j: int|
                    0 <= j < k && merged_key(ms, j) == (#[trigger] out@[i].prime) by {
                    if i < out0.len() {
                        let j = choose|j: int|
                            0 <= j < k - 1 && merged_key(ms, j) == (#[trigger] out0[i].prime);
                        assert(merged_key(ms, j) == out@[i].prime);
                    } else {
                        assert(out@[i].prime == p);
                        assert(merged_key(ms, k - 1) == p);
                    }
                }
                if k < ms.len() {
                    assert(merged_key(ms, k - 1) < merged_key(ms, k as int));
                }
            }
        }
        proof {
            assert forall|p: u64|
                #[trigger] exp_in(out@, p) == max_u32(exp_in(sa, p), exp_in(sb, p)) by {
                if exp_in(sa, p) > 0 || exp_in(sb, p) > 0 {
                    let j = choose|j: int| 0 <= j < ms.len() && merged_key(ms, j) == p;
                    assert(exp_in(out@, merged_key(ms, j)) == max_u32(
                        exp_in(sa, merged_key(ms, j)),
                        exp_in(sb, merged_key(ms, j)),
                    ));
                } else {
                    assert forall|i: int| 0 <= i < out@.len() implies (#[trigger] out@[i].prime)
                        != p by {
                        let j = choose|j: int|
                            0 <= j < ms.len() && merged_key(ms, j) == (#[trigger] out@[i].prime);
                        assert(exp_in(sa, ms[j].0) > 0 || exp_in(sb, ms[j].0) > 0);
                    }
                    lemma_exp_in_absent(out@, p);
                }
            }
        }
        Factors(out)
    }

    /// The product of two factored numbers, found by summing the exponents
    /// of each prime without reconstructing either number.
    pub fn multiply(&self, other: &Factors) -> (r: Factors)
        requires
            factors_wf(self@),
            factors_wf(other@),
            forall|p: u64|
                #![trigger exp_in(self@, p), exp_in(other@, p)]
                exp_in(self@, p) + exp_in(other@, p) <= u32::MAX,
        ensures
            factors_wf(r@),
            forall|p: u64|
                #[trigger] exp_in(r@, p) == add_u32(exp_in(self@, p), exp_in(other@, p)),
    {
        let ghost sa = self@;
        let ghost sb = other@;
        let merged = self.factors_iterator(other);
        let ghost ms = merged@;
        let mut out: Vec<Factor> = Vec::new();
        let mut k: usize = 0;
        while k < merged.len()
            invariant
                sa == self@,
                sb == other@,
                ms == merged@,
                factors_wf(sa),
                factors_wf(sb),
                forall|p: u64|
                    #![trigger exp_in(sa, p), exp_in(sb, p)]
                    exp_in(sa, p) + exp_in(sb, p) <= u32::MAX,
                merged_wf(sa, sb, ms),
                forall|p: u64|
                    #![trigger exp_in(sa, p)]
                    #![trigger exp_in(sb, p)]
                    (exp_in(sa, p) > 0 || exp_in(sb, p) > 0) ==> exists|j: int|
                        0 <= j < ms.len() && merged_key(ms, j) == p,
                k <= ms.len(),
                factors_wf(out@),
                forall|j: int|
                    #![trigger merged_key(ms, j)]
                    0 <= j < k ==> exp_in(out@, merged_key(ms, j)) == add_u32(
                        exp_in(sa, merged_key(ms, j)),
                        exp_in(sb, merged_key(ms, j)),
                    ),
                forall|i: int|
                    0 <= i < out@.len() ==> exists|j: int|
                        0 <= j < k && merged_key(ms, j) == (#[trigger] out@[i].prime),
                out@.len() > 0 && k < ms.len() ==> out@.last().prime < merged_key(ms, k as int),
            decreases ms.len() - k,
        {
            let row = merged[k];
            let p = row.0;
            let l = row.1.0;
            let rr = row.1.1;
            let ghost out0 = out@;
            proof {
                assert(row == ms[k as int]);
                assert(exp_in(sa, p) == l);
                assert(exp_in(sb, p) == rr);
                assert(l > 0 || rr > 0);
                assert forall|i: int| 0 <= i < out0.len() implies (#[trigger] out0[i].prime)
                    < p by {
                    assert(out0[i].prime <= out0.last().prime) by {
                        if i < out0.len() - 1 {
                            assert(out0[i].prime < out0[out0.len() - 1].prime);
                        }
                    }
                }
                if l > 0 {
                    lemma_exp_in_pos_occurs(sa, p);
                    let idx = choose|idx: int|
                        0 <= idx < sa.len() && (#[trigger] sa[idx].prime) == p;
                    assert(is_prime(p as nat));
                } else {
                    lemma_exp_in_pos_occurs(sb, p);
                    let idx = choose|idx: int|
                        0 <= idx < sb.len() && (#[trigger] sb[idx].prime) == p;
                    assert(is_prime(p as nat));
                }
            }
            proof {
                assert(l as int + rr as int <= u32::MAX);
            }
            let w = l + rr;
            proof {
                lemma_factors_push_wf(out0, Factor { prime: p, power: w });
            }
            out.push(Factor { prime: p, power: w });
            k = k + 1;
            proof {
                assert forall|j: int|
                    #![trigger merged_key(ms, j)]
                    0 <= j < k implies exp_in(out@, merged_key(ms, j)) == add_u32(
                    exp_in(sa, merged_key(ms, j)),
                    exp_in(sb, merged_key(ms, j)),
                ) by {
                    if j < k - 1 {
                        assert(merged_key(ms, j) < merged_key(ms, k - 1));
                        assert(exp_in(out0, merged_key(ms, j)) == add_u32(
                            exp_in(sa, merged_key(ms, j)),
                            exp_in(sb, merged_key(ms, j)),
                        ));
                    }
                }
                assert forall|i: int|
                    0 <= i < out@.len() implies exists|j: int|
                    0 <= j < k && merged_key(ms, j) == (#[trigger] out@[i].prime) by {
                    if i < out0.len() {
                        let j = choose|j: int|
                            0 <= j < k - 1 && merged_key(ms, j) == (#[trigger] out0[i].prime);
                        assert(merged_key(ms, j) == out@[i].prime);
                    } else {
                        assert(out@[i].prime == p);
                        assert(merged_key(ms, k - 1) == p);
                    }
                }
                if k < ms.len() {
                    assert(merged_key(ms, k - 1) < merged_key(ms, k as int));
                }
            }
        }
        proof {
            assert forall|p: u64|
                #[trigger] exp_in(out@, p) == add_u32(exp_in(sa, p), exp_in(sb, p)) by {
                if exp_in(sa, p) > 0 || exp_in(sb, p) > 0 {
                    let j = choose|j: int| 0 <= j < ms.len() && merged_key(ms, j) == p;
                    assert(exp_in(out@, merged_key(ms, j)) == add_u32(
                        exp_in(sa, merged_key(ms, j)),
                        exp_in(sb, merged_key(ms, j)),
                    ));
                } else {
                    assert forall|i: int| 0 <= i < out@.len() implies (#[trigger] out@[i].prime)
                        != p by {
                        let j = choose|j: int|
                            0 <= j < ms.len() && merged_key(ms, j) == (#[trigger] out@[i].prime);
                        assert(exp_in(sa, ms[j].0) > 0 || exp_in(sb, ms[j].0) > 0);
                    }
                    lemma_exp_in_absent(out@, p);
                }
            }
        }
        Factors(out)
    }
}

impl Factorisation {
    /// The sum of the divisors of `n` other than `n` itself.
    pub fn sum_proper_divisors(&self) -> (r: u64)
        requires
            self.wf(),
            forall|k: int|
                0 <= k < self.factors@.len() ==> pow(
                    #[trigger] self.factors@[k].prime as int,
                    (self.factors@[k].power + 1) as nat,
                ) <= u64::MAX,
            sigma_spec(self.factors@) <= u64::MAX,
        ensures
            r as int == sigma_spec(self.factors@) - self.n as int,
    {
        proof {
            assert forall|i: int| 0 <= i < self.factors@.len() implies (
            #[trigger] self.factors@[i].prime) >= 1 by {
                assert(is_prime(self.factors@[i].prime as nat));
            }
            lemma_sigma_ge_prod(self.factors@);
        }
        self.factors.sum_divisors() - self.n
    }

    /// Classify the number by comparing its proper-divisor sum with itself:
    /// smaller is deficient, equal is perfect, larger is abundant.
    pub fn perfection(&self) -> (r: Perfection)
        requires
            self.wf(),
            forall|k: int|
                0 <= k < self.factors@.len() ==> pow(
                    #[trigger] self.factors@[k].prime as int,
                    (self.factors@[k].power + 1) as nat,
                ) <= u64::MAX,
            sigma_spec(self.factors@) <= u64::MAX,
        ensures
            ({
                let proper = sigma_spec(self.factors@) - self.n as int;
                &&& (r == Perfection::Deficient <==> proper < self.n as int)
                &&& (r == Perfection::Perfect <==> proper == self.n as int)
                &&& (r == Perfection::Abundant <==> proper > self.n as int)
            }),
    {
        let s = self.sum_proper_divisors();
        if s < self.n {
            Perfection::Deficient
        } else if s == self.n {
            Perfection::Perfect
        } else {
            Perfection::Abundant
        }
    }
}

} // verus!
