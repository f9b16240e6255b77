//! General-purpose number utilities: triangular numbers, the Fibonacci
//! sequence, prime enumeration, divisor listing, factorisation into prime
//! powers and palindrome testing. The prime cache and the factorisation
//! algebra live in their own modules and are re-exported here, their
//! traditional home.

use vstd::prelude::*;
use crate::arith::divides;
use crate::arith::is_prime;
use crate::decimal::dec_digits;
use crate::prime_cache::cache_wf;

pub use crate::algebra::Factor;
pub use crate::algebra::Factorisation;
pub use crate::algebra::Factors;
pub use crate::algebra::InvalidInput;
pub use crate::algebra::Perfection;
pub use crate::prime_cache::Primes;
pub use crate::prime_cache::PrimesIterator;

verus! {

/// The `n`-th triangular number, `n * (n + 1) / 2`.
pub fn triangular(n: u64) -> (r: u64)
    requires
        n < 0x1_0000_0000,
    ensures
        r as int == (n as int * (n as int + 1)) / 2,
{
    proof {
        assert(n as int * n as int + n as int <= u64::MAX && n as int * n as int == n as int
            * n as int) by (nonlinear_arith)
            requires
                n < 0x1_0000_0000,
        ;
        assert(n as int * (n as int + 1) == n as int * n as int + n as int) by (nonlinear_arith);
    }
    ((n * n) + n) / 2
}

/// The Fibonacci numbers.
pub open spec fn fib_spec(n: nat) -> nat
    decreases n,
{
    if n == 0 {
        0
    } else if n == 1 {
        1
    } else {
        fib_spec((n - 1) as nat) + fib_spec((n - 2) as nat)
    }
}

/// Fibonacci numbers do not decrease.
pub proof fn lemma_fib_mono(m: nat, n: nat)
    requires
        m <= n,
    ensures
        fib_spec(m) <= fib_spec(n),
    decreases n,
{
    if m < n && n >= 2 {
        lemma_fib_mono(m, (n - 1) as nat);
    }
}

/// The largest Fibonacci number a sixty-four bit word can hold is the
/// ninety-third.
pub proof fn lemma_fib_u64_limit()
    ensures
        fib_spec(93) == 12200160415121876738,
{
    assert(fib_spec(0) == 0);
    assert(fib_spec(1) == 1);
    assert(fib_spec(2) == 1);
    assert(fib_spec(3) == 2);
    assert(fib_spec(4) == 3);
    assert(fib_spec(5) == 5);
    assert(fib_spec(6) == 8);
    assert(fib_spec(7) == 13);
    assert(fib_spec(8) == 21);
    assert(fib_spec(9) == 34);
    assert(fib_spec(10) == 55);
    assert(fib_spec(11) == 89);
    assert(fib_spec(12) == 144);
    assert(fib_spec(13) == 233);
    assert(fib_spec(14) == 377);
    assert(fib_spec(15) == 610);
    assert(fib_spec(16) == 987);
    assert(fib_spec(17) == 1597);
    assert(fib_spec(18) == 2584);
    assert(fib_spec(19) == 4181);
    assert(fib_spec(20) == 6765);
    assert(fib_spec(21) == 10946);
    assert(fib_spec(22) == 17711);
    assert(fib_spec(23) == 28657);
    assert(fib_spec(24) == 46368);
    assert(fib_spec(25) == 75025);
    assert(fib_spec(26) == 121393);
    assert(fib_spec(27) == 196418);
    assert(fib_spec(28) == 317811);
    assert(fib_spec(29) == 514229);
    assert(fib_spec(30) == 832040);
    assert(fib_spec(31) == 1346269);
    assert(fib_spec(32) == 2178309);
    assert(fib_spec(33) == 3524578);
    assert(fib_spec(34) == 5702887);
    assert(fib_spec(35) == 9227465);
    assert(fib_spec(36) == 14930352);
    assert(fib_spec(37) == 24157817);
    assert(fib_spec(38) == 39088169);
    assert(fib_spec(39) == 63245986);
    assert(fib_spec(40) == 102334155);
    assert(fib_spec(41) == 165580141);
    assert(fib_spec(42) == 267914296);
    assert(fib_spec(43) == 433494437);
    assert(fib_spec(44) == 701408733);
    assert(fib_spec(45) == 1134903170);
    assert(fib_spec(46) == 1836311903);
    assert(fib_spec(47) == 2971215073);
    assert(fib_spec(48) == 4807526976);
    assert(fib_spec(49) == 7778742049);
    assert(fib_spec(50) == 12586269025);
    assert(fib_spec(51) == 20365011074);
    assert(fib_spec(52) == 32951280099);
    assert(fib_spec(53) == 53316291173);
    assert(fib_spec(54) == 86267571272);
    assert(fib_spec(55) == 139583862445);
    assert(fib_spec(56) == 225851433717);
    assert(fib_spec(57) == 365435296162);
    assert(fib_spec(58) == 591286729879);
    assert(fib_spec(59) == 956722026041);
    assert(fib_spec(60) == 1548008755920);
    assert(fib_spec(61) == 2504730781961);
    assert(fib_spec(62) == 4052739537881);
    assert(fib_spec(63) == 6557470319842);
    assert(fib_spec(64) == 10610209857723);
    assert(fib_spec(65) == 17167680177565);
    assert(fib_spec(66) == 27777890035288);
    assert(fib_spec(67) == 44945570212853);
    assert(fib_spec(68) == 72723460248141);
    assert(fib_spec(69) == 117669030460994);
    assert(fib_spec(70) == 190392490709135);
    assert(fib_spec(71) == 308061521170129);
    assert(fib_spec(72) == 498454011879264);
    assert(fib_spec(73) == 806515533049393);
    assert(fib_spec(74) == 1304969544928657);
    assert(fib_spec(75) == 2111485077978050);
    assert(fib_spec(76) == 3416454622906707);
    assert(fib_spec(77) == 5527939700884757);
    assert(fib_spec(78) == 8944394323791464);
    assert(fib_spec(79) == 14472334024676221);
    assert(fib_spec(80) == 23416728348467685);
    assert(fib_spec(81) == 37889062373143906);
    assert(fib_spec(82) == 61305790721611591);
    assert(fib_spec(83) == 99194853094755497);
    assert(fib_spec(84) == 160500643816367088);
    assert(fib_spec(85) == 259695496911122585);
    assert(fib_spec(86) == 420196140727489673);
    assert(fib_spec(87) == 679891637638612258);
    assert(fib_spec(88) == 1100087778366101931);
    assert(fib_spec(89) == 1779979416004714189);
    assert(fib_spec(90) == 2880067194370816120);
    assert(fib_spec(91) == 4660046610375530309);
    assert(fib_spec(92) == 7540113804746346429);
    assert(fib_spec(93) == 12200160415121876738);
}

/// The first `count` entries of the Fibonacci walk that starts from the pair
/// (0, 1): the sequence 1, 2, 3, 5, 8, and so on.
pub fn fib(count: usize) -> (r: Vec<u64>)
    requires
        count <= 92,
    ensures
        r@.len() == count,
        forall|k: int| 0 <= k < count ==> (#[trigger] r@[k]) as nat == fib_spec((k + 2) as nat),
{
    let mut f0: u64 = 0;
    let mut f1: u64 = 1;
    let mut out: Vec<u64> = Vec::new();
    let mut k: usize = 0;
    while k < count
        invariant
            count <= 92,
            k <= count,
            out@.len() == k,
            f0 as nat == fib_spec(k as nat),
            f1 as nat == fib_spec((k + 1) as nat),
            forall|j: int| 0 <= j < k ==> (#[trigger] out@[j]) as nat == fib_spec((j + 2) as nat),
        decreases count - k,
    {
        proof {
            lemma_fib_mono((k + 2) as nat, 93);
            lemma_fib_u64_limit();
            assert(fib_spec((k + 2) as nat) == fib_spec((k + 1) as nat) + fib_spec(k as nat));
        }
        let f = f0 + f1;
        f0 = f1;
        f1 = f;
        out.push(f);
        k = k + 1;
    }
    out
}

/// The first `count` primes, in ascending order. Fewer are returned only
/// when no further prime fits in a `u64`; what is returned is then every
/// prime a `u64` can hold.
pub fn primes(count: usize) -> (r: Vec<u64>)
    ensures
        r@.len() <= count,
        r@.len() > 0 ==> cache_wf(r@),
        r@.len() > 0 ==> r@[0] == 2,
        count > 0 ==> r@.len() >= 1,
        r@.len() < count ==> r@.len() > 0 && forall|q: u64|
            q > r@.last() ==> !is_prime(q as nat),
{
    let mut cache = Primes::default();
    let mut it = cache.iter();
    let mut out: Vec<u64> = Vec::new();
    let mut k: usize = 0;
    while k < count
        invariant_except_break
            cache.wf(),
            0 <= it.cursor() <= cache@.len(),
            it.cursor() == k,
            k <= count,
            out@.len() == k,
            forall|i: int| 0 <= i < k ==> (#[trigger] out@[i]) == cache@[i],
        ensures
            cache.wf(),
            out@.len() <= count,
            out@.len() == it.cursor(),
            forall|i: int| 0 <= i < out@.len() ==> (#[trigger] out@[i]) == cache@[i],
            out@.len() <= cache@.len(),
            out@.len() < count ==> out@.len() == cache@.len() && forall|q: u64|
                q > cache@.last() ==> !is_prime(q as nat),
        decreases count - k,
    {
        match it.next(&mut cache) {
            Some(p) => {
                out.push(p);
                k = k + 1;
            },
            None => {
                break ;
            },
        }
    }
    proof {
        let s = cache@;
        let t = out@;
        if t.len() > 0 {
            assert(t.len() >= 1);
            assert forall|i: int| 0 <= i < t.len() implies is_prime(#[trigger] t[i] as nat) by {
                assert(t[i] == s[i]);
            }
            assert forall|i: int, j: int| 0 <= i < j < t.len() implies t[i] < t[j] by {
                assert(t[i] == s[i] && t[j] == s[j]);
            }
            assert forall|q: u64| #[trigger]
                is_prime(q as nat) && q <= t.last() implies t.contains(q) by {
                assert(t.last() == s[t.len() - 1]);
                assert(s[t.len() - 1] <= s.last()) by {
                    if t.len() - 1 < s.len() - 1 {
                        assert(s[t.len() - 1] < s[s.len() - 1]);
                    }
                }
                assert(s.contains(q));
                let i = choose|i: int| 0 <= i < s.len() && s[i] == q;
                assert(i < t.len()) by {
                    if i >= t.len() {
                        assert(s[t.len() - 1] < s[i]);
                    }
                }
                assert(t[i] == q);
            }
            crate::prime_cache::lemma_cache_first(t);
        }
    }
    out
}

/// The divisors of `n` that lie strictly between zero and `n`, ascending.
pub fn factors(n: u64) -> (r: Vec<u64>)
    ensures
        forall|i: int, j: int| 0 <= i < j < r@.len() ==> r@[i] < r@[j],
        forall|i: int| 0 <= i < r@.len() ==> 1 <= (#[trigger] r@[i]) < n && divides(
            r@[i] as nat,
            n as nat,
        ),
        forall|d: u64| 1 <= d < n && divides(d as nat, n as nat) ==> r@.contains(d),
{
    let mut out: Vec<u64> = Vec::new();
    let mut i: u64 = 1;
    while i < n
        invariant
            1 <= i,
            n > 0 ==> i <= n,
            n == 0 ==> out@.len() == 0,
            forall|a: int, b: int| 0 <= a < b < out@.len() ==> out@[a] < out@[b],
            forall|a: int| 0 <= a < out@.len() ==> 1 <= (#[trigger] out@[a]) < i && divides(
                out@[a] as nat,
                n as nat,
            ),
            forall|d: u64| 1 <= d < i && divides(d as nat, n as nat) ==> out@.contains(d),
        decreases n - i,
    {
        if n % i == 0 {
            let ghost out0 = out@;
            out.push(i);
            proof {
                assert forall|d: u64|
                    1 <= d < i + 1 && divides(d as nat, n as nat) implies out@.contains(d) by {
                    if d < i {
                        assert(out0.contains(d));
                        let a = choose|a: int| 0 <= a < out0.len() && out0[a] == d;
                        assert(out@[a] == d);
                    } else {
                        assert(out@[out@.len() - 1] == d);
                    }
                }
            }
        } else {
            proof {
                assert forall|d: u64|
                    1 <= d < i + 1 && divides(d as nat, n as nat) implies out@.contains(d) by {
                    assert(d != i);
                }
            }
        }
        i = i + 1;
    }
    out
}

/// The prime-power factors of `n`, found with a fresh prime cache.
pub fn prime_factors(n: u64) -> (r: Result<Factors, InvalidInput>)
    ensures
        match r {
            Ok(f) => n >= 1 && crate::algebra::factors_wf(f@) && crate::algebra::prod_factors(f@)
                == n as int,
            Err(_) => n == 0,
        },
{
    let mut cache = Primes::default();
    match cache.factorise(n) {
        Ok(f) => Ok(f.factors),
        Err(e) => Err(e),
    }
}

/// Whether the decimal representation of `n` reads the same in both
/// directions.
pub open spec fn is_palindrome_spec(n: nat) -> bool {
    let s = dec_digits(n);
    forall|i: int| 0 <= i < s.len() ==> (#[trigger] s[i]) == s[s.len() - 1 - i]
}

pub fn is_palendrome(n: u64) -> (r: bool)
    ensures
        r == is_palindrome_spec(n as nat),
{
    let mut digits: Vec<u64> = Vec::new();
    let mut m: u64 = n;
    while m > 0
        invariant
            dec_digits(n as nat) =~= digits@.map_values(|d: u64| d as u8) + dec_digits(m as nat),
            forall|i: int| 0 <= i < digits@.len() ==> (#[trigger] digits@[i]) < 10,
        decreases m,
    {
        let ghost m0 = m as nat;
        digits.push(m % 10);
        m = m / 10;
        proof {
            assert(dec_digits(m0) == seq![(m0 % 10) as u8] + dec_digits(m0 / 10));
            assert(dec_digits(n as nat) =~= digits@.map_values(|d: u64| d as u8) + dec_digits(
                m as nat,
            ));
        }
    }
    proof {
        assert(dec_digits(0nat) =~= Seq::<u8>::empty());
        assert(dec_digits(n as nat) =~= digits@.map_values(|d: u64| d as u8));
    }
    let ghost s = dec_digits(n as nat);
    let len = digits.len();
    let mut i: usize = 0;
    while i < len
        invariant
            s == dec_digits(n as nat),
            s =~= digits@.map_values(|d: u64| d as u8),
            forall|j: int| 0 <= j < digits@.len() ==> (#[trigger] digits@[j]) < 10,
            len == digits@.len(),
            i <= len,
            forall|j: int| 0 <= j < i ==> (#[trigger] s[j]) == s[s.len() - 1 - j],
        decreases len - i,
    {
        if digits[i] != digits[len - 1 - i] {
            proof {
                assert(s[i as int] == digits@[i as int] as u8);
                assert(s[s.len() - 1 - i] == digits@[len - 1 - i] as u8);
                assert(!is_palindrome_spec(n as nat));
            }
            return false;
        }
        proof {
            assert(s[i as int] == digits@[i as int] as u8);
            assert(s[s.len() - 1 - i] == digits@[len - 1 - i] as u8);
        }
        i = i + 1;
    }
    true
}

} // verus!
