//! Helpers behind individual puzzle programs: sums of squares, name scoring,
//! lexicographic permutations and big factorials.

use vstd::prelude::*;
use crate::decimal::Decimal;
use crate::decimal::dec_digits;
use crate::decimal::dec_value;
use crate::decimal::digits_wf;
use crate::decimal::lemma_dec_digits_value;
use crate::decimal::lemma_digits_unique;
use crate::decimal::lemma_nd_bound;
use crate::decimal::lemma_nd_range;
use crate::decimal::lemma_pow10_unfold;
use crate::decimal::nd;
use crate::decimal::pow10;
use crate::numbers::triangular;

verus! {

/// The sum of the squares of one up to `n`.
pub open spec fn sum_squares_spec(n: nat) -> int
    decreases n,
{
    if n == 0 {
        0
    } else {
        sum_squares_spec((n - 1) as nat) + n * n
    }
}

pub proof fn lemma_sum_squares_mono(m: nat, n: nat)
    requires
        m <= n,
    ensures
        0 <= sum_squares_spec(m) <= sum_squares_spec(n),
    decreases n,
{
    if n > 0 {
        assert(n * n >= 0) by (nonlinear_arith);
        if m < n {
            lemma_sum_squares_mono(m, (n - 1) as nat);
        } else {
            lemma_sum_squares_mono((m - 1) as nat, (n - 1) as nat);
        }
    }
}

/// The sum `1^2 + 2^2 + .. + n^2`.
pub fn sum_of_squares(n: u64) -> (r: u64)
    requires
        sum_squares_spec(n as nat) <= u64::MAX,
    ensures
        r as int == sum_squares_spec(n as nat),
{
    let mut acc: u64 = 0;
    let mut i: u64 = 0;
    while i < n
        invariant
            i <= n,
            sum_squares_spec(n as nat) <= u64::MAX,
            acc as int == sum_squares_spec(i as nat),
        decreases n - i,
    {
        proof {
            lemma_sum_squares_mono((i + 1) as nat, n as nat);
            assert(sum_squares_spec((i + 1) as nat) == sum_squares_spec(i as nat) + (i + 1) * (i
                + 1));
            assert((i + 1) * (i + 1) >= 0) by (nonlinear_arith);
        }
        i = i + 1;
        acc = acc + i * i;
    }
    acc
}

/// The square of the sum `(1 + 2 + .. + n)^2`, through the triangular
/// number.
pub fn square_of_sums(n: u64) -> (r: u64)
    requires
        n < 0x1_0000_0000,
        ((n as int * (n as int + 1)) / 2) * ((n as int * (n as int + 1)) / 2) <= u64::MAX,
    ensures
        r as int == ((n as int * (n as int + 1)) / 2) * ((n as int * (n as int + 1)) / 2),
{
    let sum = triangular(n);
    sum * sum
}

/// The alphabetical value of a capital letter: `A` is one, `Z` twenty-six.
pub fn char_value(c: char) -> (r: u64)
    requires
        65 <= c as int <= 90,
    ensures
        r as int == c as int - 64,
{
    ((c as u32) - ('A' as u32) + 1) as u64
}

/// The factorial.
pub open spec fn fact_spec(n: nat) -> int
    decreases n,
{
    if n == 0 {
        1
    } else {
        n * fact_spec((n - 1) as nat)
    }
}

/// Factorials are positive.
pub proof fn lemma_fact_pos(n: nat)
    ensures
        fact_spec(n) >= 1,
    decreases n,
{
    if n > 0 {
        lemma_fact_pos((n - 1) as nat);
        assert(n * fact_spec((n - 1) as nat) >= 1) by (nonlinear_arith)
            requires
                n >= 1,
                fact_spec((n - 1) as nat) >= 1,
        ;
    }
}

/// The factorials up to twenty, which fit in a machine word.
pub proof fn lemma_fact_small(k: nat)
    requires
        k <= 20,
    ensures
        1 <= fact_spec(k) <= 0x21c3677c82b40000,
{
    assert(fact_spec(0) == 1);
    assert(fact_spec(1) == 1);
    assert(fact_spec(2) == 2);
    assert(fact_spec(3) == 6);
    assert(fact_spec(4) == 24);
    assert(fact_spec(5) == 120);
    assert(fact_spec(6) == 720);
    assert(fact_spec(7) == 5040);
    assert(fact_spec(8) == 40320);
    assert(fact_spec(9) == 362880);
    assert(fact_spec(10) == 3628800);
    assert(fact_spec(11) == 39916800);
    assert(fact_spec(12) == 479001600);
    assert(fact_spec(13) == 6227020800);
    assert(fact_spec(14) == 87178291200);
    assert(fact_spec(15) == 1307674368000);
    assert(fact_spec(16) == 20922789888000);
    assert(fact_spec(17) == 355687428096000);
    assert(fact_spec(18) == 6402373705728000);
    assert(fact_spec(19) == 121645100408832000);
    assert(fact_spec(20) == 2432902008176640000);
}

/// The factorial of `n`, as an arbitrary-precision decimal holding exactly
/// the canonical digits of `n!` — no leading zero.
pub fn factorial(n: u32) -> (r: Decimal)
    requires
        n <= 1000000,
    ensures
        digits_wf(r@),
        dec_value(r@) == fact_spec(n as nat),
        r@ == dec_digits(fact_spec(n as nat) as nat),
{
    let mut acc = Decimal::from_u32(1);
    let mut i: u32 = 0;
    proof {
        lemma_dec_digits_value(1);
        assert(dec_digits(0) =~= Seq::<u8>::empty());
        assert(dec_digits(1) == seq![1u8] + dec_digits(0));
        assert(dec_digits(1) =~= seq![1u8]);
    }
    while i < n
        invariant
            i <= n,
            n <= 1000000,
            digits_wf(acc@),
            dec_value(acc@) == fact_spec(i as nat),
            acc@ == dec_digits(fact_spec(i as nat) as nat),
            acc@.len() <= 1 + 10 * i,
        decreases n - i,
    {
        i = i + 1;
        let f = Decimal::from_u32(i);
        proof {
            lemma_pow10_ten();
            lemma_nd_bound(i as nat, 10);
            lemma_dec_digits_value(i as nat);
            assert(f@.len() <= 10);
        }
        let ghost acc0 = acc@;
        acc = acc.multiply(&f);
        proof {
            assert(dec_value(acc@) == dec_value(acc0) * i);
            assert(fact_spec(i as nat) == i * fact_spec((i - 1) as nat));
            assert(dec_value(acc0) * i as int == i as int * dec_value(acc0)) by (nonlinear_arith);
            let va = fact_spec((i - 1) as nat);
            let vp = fact_spec(i as nat);
            lemma_fact_pos((i - 1) as nat);
            assert(vp >= 1 && vp >= va && vp >= i) by (nonlinear_arith)
                requires
                    va >= 1,
                    i >= 1,
                    vp == i * va,
            ;
            let la = acc0.len() as int;
            let lb = f@.len() as int;
            let l = la + lb - 1;
            lemma_nd_range(va as nat);
            lemma_nd_range(i as nat);
            lemma_nd_range(vp as nat);
            assert(la == nd(va as nat) && la >= 1);
            assert(lb == nd(i as nat) && lb >= 1);
            lemma_pow10_unfold((la - 1) as nat);
            lemma_pow10_unfold((lb - 1) as nat);
            vstd::arithmetic::power::lemma_pow_adds(10, (la - 1) as nat, (lb - 1) as nat);
            assert(vp >= pow10((l - 1) as nat)) by (nonlinear_arith)
                requires
                    vp == (i as int) * va,
                    va >= pow10((la - 1) as nat) >= 1,
                    (i as int) >= pow10((lb - 1) as nat) >= 1,
                    pow10((l - 1) as nat) == pow10((la - 1) as nat) * pow10((lb - 1) as nat),
            ;
            vstd::arithmetic::power::lemma_pow_adds(10, la as nat, lb as nat);
            assert(vp < pow10((la + lb) as nat)) by (nonlinear_arith)
                requires
                    vp == (i as int) * va,
                    0 <= va < pow10(la as nat),
                    0 <= (i as int) < pow10(lb as nat),
                    pow10((la + lb) as nat) == pow10(la as nat) * pow10(lb as nat),
            ;
            if vp >= pow10(l as nat) {
                if nd(vp as nat) <= l {
                    vstd::arithmetic::power::lemma_pow_increases(10, nd(vp as nat) as nat, l as nat);
                    assert(false);
                }
                lemma_nd_bound(vp as nat, (l + 1) as nat);
                assert(nd(vp as nat) == l + 1);
            } else {
                lemma_nd_bound(vp as nat, l as nat);
                if nd(vp as nat) < l {
                    vstd::arithmetic::power::lemma_pow_increases(
                        10,
                        nd(vp as nat) as nat,
                        (l - 1) as nat,
                    );
                    assert(false);
                }
                assert(nd(vp as nat) == l);
            }
            assert(acc@.len() == nd(vp as nat));
            lemma_dec_digits_value(vp as nat);
            lemma_digits_unique(acc@, dec_digits(vp as nat));
        }
    }
    acc
}

/// Ten to the tenth bounds every `u32`.
proof fn lemma_pow10_ten()
    ensures
        pow10(10) == 10000000000,
{
    lemma_pow10_unfold(1);
    lemma_pow10_unfold(2);
    lemma_pow10_unfold(3);
    lemma_pow10_unfold(4);
    lemma_pow10_unfold(5);
    lemma_pow10_unfold(6);
    lemma_pow10_unfold(7);
    lemma_pow10_unfold(8);
    lemma_pow10_unfold(9);
    lemma_pow10_unfold(10);
    lemma_pow10_unfold(0);
}

/// The `p`-th permutation, in lexicographic order counted from zero, of the
/// digits zero up to `n - 1`: a vector holding each of them exactly once.
pub fn perm(p: usize, n: usize) -> (r: Vec<usize>)
    requires
        n <= 20,
    ensures
        r@.len() == n,
        forall|i: int| 0 <= i < n ==> (#[trigger] r@[i]) < n,
        forall|i: int, j: int| 0 <= i < j < n ==> r@[i] != r@[j],
        p == 0 ==> forall|i: int| 0 <= i < n ==> (#[trigger] r@[i]) == i,
{
    let mut fact: u64 = 1;
    let mut counter: Vec<u64> = Vec::new();
    let mut i: usize = 0;
    while i < n
        invariant
            n <= 20,
            i <= n,
            counter@.len() == i,
            fact as int == fact_spec(i as nat),
            forall|j: int| 0 <= j < i ==> (#[trigger] counter@[j]) as int <= j,
            p == 0 ==> forall|j: int| 0 <= j < i ==> (#[trigger] counter@[j]) == 0,
        decreases n - i,
    {
        proof {
            lemma_fact_small(i as nat);
            lemma_fact_small((i + 1) as nat);
            if p == 0 {
                vstd::arithmetic::div_mod::lemma_div_of0(fact as int);
                vstd::arithmetic::div_mod::lemma_small_mod(0, (i + 1) as nat);
            }
            assert(fact_spec((i + 1) as nat) == (i + 1) * fact_spec(i as nat));
            assert(fact as int * (i + 1) == fact_spec((i + 1) as nat)) by (nonlinear_arith)
                requires
                    fact as int == fact_spec(i as nat),
                    fact_spec((i + 1) as nat) == (i + 1) * fact_spec(i as nat),
            ;
            vstd::arithmetic::div_mod::lemma_mod_division_less_than_divisor(
                (p as u64 / fact) as int,
                (i + 1) as int,
            );
        }
        let c = (p as u64 / fact) % ((i + 1) as u64);
        counter.push(c);
        fact = fact * ((i + 1) as u64);
        i = i + 1;
    }
    let mut digits: Vec<usize> = Vec::new();
    let mut j: usize = 0;
    while j < n
        invariant
            j <= n,
            digits@.len() == j,
            forall|a: int| 0 <= a < j ==> (#[trigger] digits@[a]) == a,
        decreases n - j,
    {
        digits.push(j);
        j = j + 1;
    }
    let mut out: Vec<usize> = Vec::new();
    let mut k: usize = 0;
    while k < n
        invariant
            n <= 20,
            counter@.len() == n,
            forall|a: int| 0 <= a < n ==> (#[trigger] counter@[a]) as int <= a,
            p == 0 ==> forall|a: int| 0 <= a < n ==> (#[trigger] counter@[a]) == 0,
            k <= n,
            out@.len() == k,
            digits@.len() == n - k,
            forall|a: int, b: int| 0 <= a < b < digits@.len() ==> digits@[a] < digits@[b],
            forall|a: int| 0 <= a < digits@.len() ==> (#[trigger] digits@[a]) < n,
            forall|a: int| 0 <= a < out@.len() ==> (#[trigger] out@[a]) < n,
            forall|a: int, b: int| 0 <= a < b < out@.len() ==> out@[a] != out@[b],
            forall|a: int, b: int|
                0 <= a < out@.len() && 0 <= b < digits@.len() ==> out@[a] != digits@[b],
            p == 0 ==> forall|a: int| 0 <= a < digits@.len() ==> (#[trigger] digits@[a]) == a + k,
            p == 0 ==> forall|a: int| 0 <= a < out@.len() ==> (#[trigger] out@[a]) == a,
        decreases n - k,
    {
        let c = counter[n - 1 - k];
        proof {
            assert(counter@[n - 1 - k] as int <= n - 1 - k);
        }
        let ci = c as usize;
        let ghost d0 = digits@;
        let d = digits.remove(ci);
        out.push(d);
        k = k + 1;
        proof {
            assert(digits@ == d0.remove(ci as int));
            assert(d == d0[ci as int]);
            assert forall|a: int| 0 <= a < digits@.len() implies (#[trigger] digits@[a])
                == (if a < ci {
                d0[a]
            } else {
                d0[a + 1]
            }) by {
                assert(digits@ =~= d0.subrange(0, ci as int) + d0.subrange(
                    ci as int + 1,
                    d0.len() as int,
                ));
            }
            assert forall|a: int, b: int|
                0 <= a < b < digits@.len() implies digits@[a] < digits@[b] by {}
            assert forall|a: int, b: int|
                0 <= a < out@.len() && 0 <= b < digits@.len() implies out@[a] != digits@[b] by {
                if a < out@.len() - 1 {
                } else {
                    assert(out@[a] == d0[ci as int]);
                    if b < ci {
                        assert(d0[b] < d0[ci as int]);
                    } else {
                        assert(d0[ci as int] < d0[b + 1]);
                    }
                }
            }
            if p == 0 {
                assert(ci == 0);
                assert forall|a: int| 0 <= a < digits@.len() implies (#[trigger] digits@[a]) == a
                    + k by {
                    assert(digits@[a] == d0[a + 1]);
                    assert(d0[a + 1] == a + 1 + (k - 1));
                }
                assert forall|a: int| 0 <= a < out@.len() implies (#[trigger] out@[a]) == a by {
                    if a == out@.len() - 1 {
                        assert(out@[a] == d0[0]);
                        assert(d0[0] == k - 1);
                    }
                }
            }
        }
    }
    out
}

} // verus!
