//! An incrementally sieved cache of primes.
//!
//! The cache holds, at every moment, exactly the primes up to its largest
//! element, in ascending order. Enumerations are cursors into the cache:
//! pulling past the cached frontier extends the cache by trial division
//! against the primes already found, so work done by one consumer benefits
//! every later one.

use vstd::prelude::*;
use vstd::arithmetic::power::pow;
use vstd::arithmetic::div_mod::lemma_fundamental_div_mod;
use vstd::arithmetic::div_mod::lemma_mod_multiples_basic;
use vstd::arithmetic::div_mod::lemma_small_mod;
use crate::algebra::Factor;
use crate::algebra::Factorisation;
use crate::algebra::Factors;
use crate::algebra::InvalidInput;
use crate::algebra::factors_wf;
use crate::algebra::prod_factors;
use crate::algebra::lemma_prod_factors_push;
use crate::arith::divides;
use crate::arith::is_prime;
use crate::arith::least_divisor;
use crate::arith::lemma_composite_small_factor;
use crate::arith::lemma_divides_transitive;
use crate::arith::lemma_prime_factor;
use crate::arith::lemma_u64_pow_exp_bound;

verus! {

/// The growable, ascending, complete list of discovered primes.
pub struct Primes(Vec<u64>);

/// A restartable cursor over a `Primes` cache.
pub struct PrimesIterator {
    pos: usize,
}

/// The cache invariant: non-empty, every element prime, strictly ascending,
/// and complete — every prime up to the largest cached one is cached.
pub open spec fn cache_wf(s: Seq<u64>) -> bool {
    &&& s.len() >= 1
    &&& forall|i: int| 0 <= i < s.len() ==> is_prime(#[trigger] s[i] as nat)
    &&& forall|i: int, j: int| 0 <= i < j < s.len() ==> s[i] < s[j]
    &&& forall|q: u64| #[trigger] is_prime(q as nat) && q <= s.last() ==> s.contains(q)
}

impl View for Primes {
    type V = Seq<u64>;

    closed spec fn view(&self) -> Seq<u64> {
        self.0@
    }
}

impl Primes {
    pub open spec fn wf(&self) -> bool {
        cache_wf(self@)
    }
}

/// A well-formed cache starts with two.
pub proof fn lemma_cache_first(s: Seq<u64>)
    requires
        cache_wf(s),
    ensures
        s[0] == 2,
{
    assert(is_prime(2));
    assert(s.last() as nat >= 2);
    assert(s.contains(2u64));
    let i = choose|i: int| 0 <= i < s.len() && s[i] == 2u64;
    if i > 0 {
        assert(s[0] < s[i]);
        assert(is_prime(s[0] as nat));
        assert(false);
    }
}

/// Between two neighbouring cache entries there is no prime.
pub proof fn lemma_cache_consecutive(s: Seq<u64>, k: int)
    requires
        cache_wf(s),
        1 <= k < s.len(),
    ensures
        forall|q: nat| s[k - 1] < q < s[k] ==> !is_prime(q),
{
    assert forall|q: nat| s[k - 1] < q < s[k] implies !is_prime(q) by {
        if is_prime(q) {
            assert(s[k] <= s.last()) by {
                if k < s.len() - 1 {
                    assert(s[k] < s[s.len() - 1]);
                }
            }
            let qu = q as u64;
            assert(is_prime(qu as nat));
            assert(s.contains(qu));
            let i = choose|i: int| 0 <= i < s.len() && s[i] == qu;
            if i <= k - 1 {
                assert(s[i] <= s[k - 1]) by {
                    if i < k - 1 {
                        assert(s[i] < s[k - 1]);
                    }
                }
                assert(false);
            } else {
                assert(s[k] <= s[i]) by {
                    if k < i {
                        assert(s[k] < s[i]);
                    }
                }
                assert(false);
            }
        }
    }
}

/// Whether some cached prime whose square does not exceed `cand` divides
/// `cand`.
pub open spec fn small_divisor_at(s: Seq<u64>, cand: nat, j: int) -> bool {
    s[j] as nat * s[j] as nat <= cand && cand % (s[j] as nat) == 0
}

/// A candidate that passes trial division by every cached prime up to its
/// square root, and follows a gap of composites after the cached frontier,
/// is prime.
proof fn lemma_candidate_is_prime(s: Seq<u64>, cand: nat)
    requires
        cache_wf(s),
        cand > (s.last() as nat),
        forall|m: nat| (s.last() as nat) < m < cand ==> !is_prime(m),
        forall|j: int| 0 <= j < s.len() ==> !small_divisor_at(s, cand, j),
    ensures
        is_prime(cand),
{
    assert(s.last() as nat >= 2);
    if !is_prime(cand) {
        lemma_composite_small_factor(cand);
        let d = least_divisor(cand);
        assert(d * d <= cand);
        assert(d < cand) by (nonlinear_arith)
            requires
                d >= 2,
                d * d <= cand,
        ;
        if d > (s.last() as nat) {
            assert((s.last() as nat) < d < cand);
            assert(!is_prime(d));
            assert(false);
        } else {
            let du = d as u64;
            assert(is_prime(du as nat));
            assert(s.contains(du));
            let j = choose|j: int| 0 <= j < s.len() && s[j] == du;
            assert(cand % (s[j] as nat) == 0);
            assert(small_divisor_at(s, cand, j));
            assert(false);
        }
    }
}

impl Default for Primes {
    /// A fresh cache, seeded with the first prime.
    fn default() -> (r: Primes)
        ensures
            r@ =~= seq![2u64],
            r.wf(),
    {
        let mut ps: Vec<u64> = Vec::new();
        ps.push(2);
        let r = Primes(ps);
        proof {
            assert(is_prime(2));
            assert(r@.last() == 2u64);
            assert forall|q: u64| is_prime(q as nat) && q <= r@.last() implies r@.contains(q) by {
                assert(q as nat >= 2);
                assert(q == 2u64);
                assert(r@[0] == 2u64);
            }
        }
        r
    }
}

impl Primes {
    /// Trial division of `cand` by the cached primes, scanning upward and
    /// stopping once the squares pass `cand`.
    fn has_cached_divisor(&self, cand: u64) -> (r: bool)
        requires
            self.wf(),
        ensures
            r <==> exists|j: int|
                0 <= j < self@.len() && #[trigger] small_divisor_at(self@, cand as nat, j),
    {
        let ghost s = self@;
        let mut j: usize = 0;
        let mut result: bool = false;
        loop
            invariant_except_break
                self.wf(),
                self@ == s,
                j <= s.len(),
                !result,
                forall|jj: int| 0 <= jj < j ==> !(#[trigger] small_divisor_at(s, cand as nat, jj)),
            ensures
                result <==> exists|jj: int|
                    0 <= jj < s.len() && #[trigger] small_divisor_at(s, cand as nat, jj),
            decreases s.len() - j,
        {
            if j >= self.0.len() {
                break ;
            }
            let p = self.0[j];
            proof {
                assert(is_prime(s[j as int] as nat));
                assert(p >= 2);
                assert((p as u128) * (p as u128) <= u128::MAX) by (nonlinear_arith)
                    requires
                        p as u128 <= 0xffff_ffff_ffff_ffffu128,
                ;
            }
            if (p as u128) * (p as u128) > (cand as u128) {
                proof {
                    assert forall|jj: int| 0 <= jj < s.len() implies !small_divisor_at(
                        s,
                        cand as nat,
                        jj,
                    ) by {
                        if jj < j {
                        } else {
                            assert(s[j as int] <= s[jj]) by {
                                if j < jj {
                                    assert(s[j as int] < s[jj]);
                                }
                            }
                            assert(s[jj] as nat * s[jj] as nat >= p as nat * p as nat)
                                by (nonlinear_arith)
                                requires
                                    s[jj] as nat >= p as nat,
                            ;
                        }
                    }
                }
                break ;
            }
            if cand % p == 0 {
                result = true;
                proof {
                    assert(small_divisor_at(s, cand as nat, j as int));
                }
                break ;
            }
            j = j + 1;
        }
        result
    }

    /// Extend the cache by one prime: scan the candidates above the frontier,
    /// confirming each prime by trial division against the cache. Returns the
    /// new prime, or `None` when no prime above the frontier fits in a `u64`.
    fn grow(&mut self) -> (r: Option<u64>)
        requires
            old(self).wf(),
        ensures
            final(self).wf(),
            match r {
                Some(p) => {
                    &&& final(self)@ == old(self)@.push(p)
                    &&& is_prime(p as nat)
                    &&& p > old(self)@.last()
                },
                None => {
                    &&& final(self)@ == old(self)@
                    &&& forall|q: u64| q > old(self)@.last() ==> !is_prime(q as nat)
                },
            },
    {
        let ghost s0 = self@;
        let last = self.0[self.0.len() - 1];
        let mut i: u64 = last;
        loop
            invariant_except_break
                self.wf(),
                self@ == s0,
                s0 == old(self)@,
                last == s0.last(),
                last <= i,
                forall|m: u64| last < m <= i ==> !is_prime(m as nat),
            ensures
                self.wf(),
                self@ == s0,
                s0 == old(self)@,
                i == u64::MAX,
                forall|m: u64| last < m <= i ==> !is_prime(m as nat),
            decreases u64::MAX - i,
        {
            if i == u64::MAX {
                break ;
            }
            i = i + 1;
            if !self.has_cached_divisor(i) {
                proof {
                    assert forall|m: nat| (s0.last() as nat) < m < i as nat implies !is_prime(m) by {
                        assert(!is_prime((m as u64) as nat));
                    }
                    lemma_candidate_is_prime(s0, i as nat);
                }
                self.0.push(i);
                proof {
                    let t = self@;
                    assert(t == s0.push(i));
                    assert(t.last() == i);
                    assert forall|a: int| 0 <= a < t.len() implies is_prime(#[trigger] t[a] as nat) by {
                        if a < t.len() - 1 {
                            assert(t[a] == s0[a]);
                            assert(is_prime(s0[a] as nat));
                        }
                    }
                    assert forall|a: int, b: int| 0 <= a < b < t.len() implies t[a] < t[b] by {
                        if b < t.len() - 1 {
                        } else {
                            assert(t[b] == i);
                            assert(s0[a] <= s0.last()) by {
                                if a < s0.len() - 1 {
                                    assert(s0[a] < s0[s0.len() - 1]);
                                }
                            }
                        }
                    }
                    assert forall|q: u64| is_prime(q as nat) && q <= t.last() implies t.contains(
                        q,
                    ) by {
                        if q <= s0.last() {
                            assert(s0.contains(q));
                            let k = choose|k: int| 0 <= k < s0.len() && s0[k] == q;
                            assert(t[k] == q);
                        } else if q < i {
                            assert(!is_prime(q as nat));
                        } else {
                            assert(q == i);
                            assert(t[t.len() - 1] == q);
                        }
                    }
                }
                return Some(i);
            }
            proof {
                let j = choose|j: int|
                    0 <= j < s0.len() && #[trigger] small_divisor_at(s0, i as nat, j);
                let p = s0[j] as nat;
                assert(is_prime(s0[j] as nat));
                assert(p * p <= i as nat);
                assert(p < i as nat) by (nonlinear_arith)
                    requires
                        p >= 2,
                        p * p <= i as nat,
                ;
                assert(divides(p, i as nat));
                assert(!is_prime(i as nat));
            }
        }
        proof {
            assert forall|q: u64| q > s0.last() implies !is_prime(q as nat) by {
                assert(s0.last() < q <= i);
            }
        }
        None
    }

    /// A fresh enumeration, starting again from the first prime.
    pub fn iter(&self) -> (it: PrimesIterator)
        ensures
            it.cursor() == 0,
    {
        PrimesIterator { pos: 0 }
    }
}

impl PrimesIterator {
    /// How many primes this cursor has already yielded.
    pub closed spec fn cursor(&self) -> int {
        self.pos as int
    }

    /// The next prime: replayed from the cache while the cursor is below the
    /// frontier, and discovered (extending the cache) once it reaches it.
    /// `None` only when the next prime would not fit in a `u64`.
    pub fn next(&mut self, primes: &mut Primes) -> (r: Option<u64>)
        requires
            old(primes).wf(),
            0 <= old(self).cursor() <= old(primes)@.len(),
        ensures
            final(primes).wf(),
            old(primes)@.is_prefix_of(final(primes)@),
            match r {
                Some(p) => {
                    &&& final(self).cursor() == old(self).cursor() + 1
                    &&& final(self).cursor() <= final(primes)@.len()
                    &&& p == final(primes)@[old(self).cursor()]
                    &&& is_prime(p as nat)
                    &&& (old(self).cursor() < old(primes)@.len() ==> final(primes)@ == old(
                        primes,
                    )@)
                    &&& (old(self).cursor() == old(primes)@.len() ==> final(primes)@ == old(
                        primes,
                    )@.push(p))
                },
                None => {
                    &&& final(primes)@ == old(primes)@
                    &&& final(self).cursor() == old(self).cursor()
                    &&& final(self).cursor() == old(primes)@.len()
                    &&& forall|q: u64| q > old(primes)@.last() ==> !is_prime(q as nat)
                },
            },
    {
        if self.pos < primes.0.len() {
            let p = primes.0[self.pos];
            self.pos = self.pos + 1;
            proof {
                assert(primes@.is_prefix_of(primes@)) by {
                    assert(primes@ =~= primes@.subrange(0, primes@.len() as int));
                }
            }
            Some(p)
        } else {
            match primes.grow() {
                Some(p) => {
                    self.pos = primes.0.len();
                    proof {
                        assert(old(primes)@.is_prefix_of(primes@)) by {
                            assert(old(primes)@ =~= primes@.subrange(0, old(primes)@.len() as int));
                        }
                    }
                    Some(p)
                },
                None => {
                    proof {
                        assert(primes@.is_prefix_of(primes@)) by {
                            assert(primes@ =~= primes@.subrange(0, primes@.len() as int));
                        }
                    }
                    None
                },
            }
        }
    }
}

/// Sequence prefixes compose.
proof fn lemma_prefix_transitive(a: Seq<u64>, b: Seq<u64>, c: Seq<u64>)
    requires
        a.is_prefix_of(b),
        b.is_prefix_of(c),
    ensures
        a.is_prefix_of(c),
{
    assert forall|i: int| 0 <= i < a.len() implies a[i] == c.subrange(0, a.len() as int)[i] by {
        assert(a[i] == b.subrange(0, a.len() as int)[i]);
        assert(b[i] == c.subrange(0, b.len() as int)[i]);
    }
    assert(a =~= c.subrange(0, a.len() as int));
}

impl Primes {
    /// Factorise `n` by pulling primes in ascending order and dividing each
    /// out of the remaining quotient while it divides evenly, stopping once
    /// the next prime exceeds the quotient. Factorising zero is undefined and
    /// reports `InvalidInput`; one factorises to the empty vector.
    ///
    /// The cache grows only as far as the trial division needs: when it grows
    /// at all, the old frontier and every newly found prime below the new
    /// frontier are at most `n`, so the new frontier is the least prime above
    /// a number not exceeding `n`.
    pub fn factorise(&mut self, n: u64) -> (r: Result<Factorisation, InvalidInput>)
        requires
            old(self).wf(),
        ensures
            final(self).wf(),
            old(self)@.is_prefix_of(final(self)@),
            final(self)@.len() > old(self)@.len() ==> old(self)@.last() <= n && forall|k: int|
                old(self)@.len() <= k < final(self)@.len() - 1 ==> (#[trigger] final(self)@[k])
                    <= n,
            match r {
                Ok(f) => n >= 1 && f.n == n && f.wf(),
                Err(_) => n == 0,
            },
    {
        if n == 0 {
            return Err(InvalidInput);
        }
        let mut m: u64 = n;
        let mut fs: Vec<Factor> = Vec::new();
        let mut it = self.iter();
        let mut last: u64 = 0;
        loop
            invariant_except_break
                self.wf(),
                old(self)@.is_prefix_of(self@),
                0 <= it.cursor() <= self@.len(),
                1 <= m <= n,
                prod_factors(fs@) * m as int == n as int,
                factors_wf(fs@),
                forall|q: nat| is_prime(q) && q <= last as nat ==> !divides(q, m as nat),
                forall|k: int| 0 <= k < fs@.len() ==> (#[trigger] fs@[k].prime) <= last,
                it.cursor() == 0 ==> last == 0,
                it.cursor() > 0 ==> it.cursor() <= self@.len() && last == self@[it.cursor() - 1],
                last <= n,
                self@.len() == old(self)@.len() || self@.len() == it.cursor(),
                self@.len() > old(self)@.len() ==> old(self)@.last() <= n,
                forall|k: int|
                    old(self)@.len() <= k < it.cursor() - 1 ==> (#[trigger] self@[k]) <= n,
            ensures
                self.wf(),
                old(self)@.is_prefix_of(self@),
                m == 1,
                prod_factors(fs@) * m as int == n as int,
                factors_wf(fs@),
                self@.len() > old(self)@.len() ==> old(self)@.last() <= n && forall|k: int|
                    old(self)@.len() <= k < self@.len() - 1 ==> (#[trigger] self@[k]) <= n,
            decreases (if m >= last {
                m - last
            } else {
                0int
            }),
        {
            let ghost s_before = self@;
            let ghost cursor_before = it.cursor();
            let pr_opt = it.next(self);
            proof {
                lemma_prefix_transitive(old(self)@, s_before, self@);
            }
            let pr = match pr_opt {
                None => {
                    proof {
                        if m >= 2 {
                            lemma_prime_factor(m as nat);
                            let d = least_divisor(m as nat);
                            if d <= last as nat {
                                assert(!divides(d, m as nat));
                                assert(false);
                            } else {
                                assert(last == self@[self@.len() - 1]);
                                assert(d <= m as nat);
                                assert((d as u64) > self@.last());
                                assert(!is_prime((d as u64) as nat));
                                assert(false);
                            }
                        }
                    }
                    break ;
                },
                Some(pr) => pr,
            };
            proof {
                assert(pr == self@[it.cursor() - 1]);
                assert(is_prime(pr as nat));
                assert(pr >= 2);
                if cursor_before == 0 {
                    assert(last == 0);
                } else {
                    assert(last == s_before[cursor_before - 1]);
                    assert(self@[cursor_before - 1] == s_before.subrange(
                        0,
                        s_before.len() as int,
                    )[cursor_before - 1]) by {
                        assert(s_before.is_prefix_of(self@));
                    }
                    assert(self@[cursor_before - 1] == last);
                    assert(self@[cursor_before - 1] < self@[cursor_before]);
                }
                assert(pr > last);
            }
            if pr > m {
                proof {
                    if m >= 2 {
                        lemma_prime_factor(m as nat);
                        let d = least_divisor(m as nat);
                        if d <= last as nat {
                            assert(!divides(d, m as nat));
                            assert(false);
                        } else {
                            assert((last as nat) < d < pr as nat);
                            if cursor_before == 0 {
                                lemma_cache_first(self@);
                                assert(pr == 2);
                                assert(false);
                            } else {
                                lemma_cache_consecutive(self@, it.cursor() - 1);
                                assert(self@[it.cursor() - 2] == last);
                                assert(!is_prime(d));
                                assert(false);
                            }
                        }
                    }
                }
                break ;
            }
            let ghost m_entry = m;
            let mut po: u32 = 0;
            proof {
                assert(pow(pr as int, 0) == 1) by {
                    vstd::arithmetic::power::lemma_pow0(pr as int);
                }
            }
            while m % pr == 0
                invariant
                    pr >= 2,
                    1 <= m,
                    m_entry as int == m as int * pow(pr as int, po as nat),
                    pow(pr as int, po as nat) <= m_entry as int,
                    m_entry <= u64::MAX,
                decreases m,
            {
                proof {
                    if m < pr {
                        lemma_small_mod(m as nat, pr as nat);
                        assert(false);
                    }
                    lemma_fundamental_div_mod(m as int, pr as int);
                    lemma_u64_pow_exp_bound(pr as nat, po as nat);
                    let mn = m as int / pr as int;
                    assert(m as int == pr as int * mn);
                    assert(mn >= 1) by (nonlinear_arith)
                        requires
                            m as int == pr as int * mn,
                            m >= 1,
                            pr >= 2,
                    ;
                    assert(mn < m as int) by (nonlinear_arith)
                        requires
                            m as int == pr as int * mn,
                            mn >= 1,
                            pr >= 2,
                    ;
                    assert(pow(pr as int, (po + 1) as nat) == pr as int * pow(pr as int, po as nat))
                        by {
                        vstd::arithmetic::power::lemma_pow_adds(pr as int, 1, po as nat);
                        vstd::arithmetic::power::lemma_pow1(pr as int);
                    }
                    vstd::arithmetic::power::lemma_pow_positive(pr as int, po as nat);
                    assert(m_entry as int == mn * pow(pr as int, (po + 1) as nat))
                        by (nonlinear_arith)
                        requires
                            m_entry as int == m as int * pow(pr as int, po as nat),
                            m as int == pr as int * mn,
                            pow(pr as int, (po + 1) as nat) == pr as int * pow(pr as int, po as nat),
                    ;
                    assert(pow(pr as int, (po + 1) as nat) <= m_entry as int) by (nonlinear_arith)
                        requires
                            m_entry as int == mn * pow(pr as int, (po + 1) as nat),
                            mn >= 1,
                            pow(pr as int, (po + 1) as nat) >= 0,
                    ;
                }
                m = m / pr;
                po = po + 1;
            }
            proof {
                vstd::arithmetic::power::lemma_pow_positive(pr as int, po as nat);
                assert(m as int <= m_entry as int) by (nonlinear_arith)
                    requires
                        m_entry as int == m as int * pow(pr as int, po as nat),
                        pow(pr as int, po as nat) >= 1,
                        m >= 1,
                ;
            }
            proof {
                assert(!divides(pr as nat, m as nat));
                assert(divides(m as nat, m_entry as nat)) by {
                    lemma_mod_multiples_basic(pow(pr as int, po as nat), m as int);
                    assert(pow(pr as int, po as nat) * m as int == m_entry as int)
                        by (nonlinear_arith)
                        requires
                            m_entry as int == m as int * pow(pr as int, po as nat),
                    ;
                }
                assert forall|q: nat| is_prime(q) && q <= pr as nat implies !divides(
                    q,
                    m as nat,
                ) by {
                    if q <= last as nat {
                        if divides(q, m as nat) {
                            lemma_divides_transitive(q, m as nat, m_entry as nat);
                            assert(false);
                        }
                    } else if q < pr as nat {
                        if cursor_before == 0 {
                            lemma_cache_first(self@);
                            assert(pr == 2);
                            assert(q >= 2);
                            assert(false);
                        } else {
                            lemma_cache_consecutive(self@, it.cursor() - 1);
                            assert(self@[it.cursor() - 2] == last);
                            assert(!is_prime(q));
                            assert(false);
                        }
                    } else {
                        assert(q == pr as nat);
                    }
                }
            }
            if po > 0 {
                let f = Factor { prime: pr, power: po };
                proof {
                    lemma_prod_factors_push(fs@, f);
                    assert(prod_factors(fs@.push(f)) * m as int == n as int) by (nonlinear_arith)
                        requires
                            prod_factors(fs@.push(f)) == prod_factors(fs@) * pow(
                                pr as int,
                                po as nat,
                            ),
                            prod_factors(fs@) * m_entry as int == n as int,
                            m_entry as int == m as int * pow(pr as int, po as nat),
                    ;
                    assert forall|a: int, b: int|
                        0 <= a < b < fs@.push(f).len() implies fs@.push(f)[a].prime < fs@.push(
                        f,
                    )[b].prime by {
                        if b < fs@.len() {
                        } else {
                            assert(fs@.push(f)[b] == f);
                            if a < fs@.len() {
                                assert(fs@[a].prime <= last);
                            }
                        }
                    }
                }
                fs.push(f);
            } else {
                proof {
                    vstd::arithmetic::power::lemma_pow0(pr as int);
                    assert(pow(pr as int, po as nat) == 1);
                    assert(m_entry as int == m as int * pow(pr as int, po as nat));
                    assert(m as int == m_entry as int) by (nonlinear_arith)
                        requires
                            m_entry as int == m as int * pow(pr as int, po as nat),
                            pow(pr as int, po as nat) == 1,
                    ;
                }
            }
            last = pr;
        }
        proof {
            assert(prod_factors(fs@) == n as int);
        }
        Ok(Factorisation { n, factors: Factors::from_vec(fs) })
    }
}

/// The enumeration a well-formed cache replays is exactly the ascending
/// sequence of the primes: it begins at two, strictly increases, and every
/// number skipped between two neighbouring entries is composite.
pub proof fn lemma_enumeration_exact(s: Seq<u64>)
    requires
        cache_wf(s),
    ensures
        s[0] == 2,
        forall|i: int, j: int| 0 <= i < j < s.len() ==> s[i] < s[j],
        forall|k: int, q: nat|
            #![trigger s[k], is_prime(q)]
            1 <= k < s.len() && (s[k - 1] as nat) < q < (s[k] as nat) ==> !is_prime(q),
{
    lemma_cache_first(s);
    assert forall|k: int, q: nat|
        #![trigger s[k], is_prime(q)]
        1 <= k < s.len() && (s[k - 1] as nat) < q < (s[k] as nat) implies !is_prime(q) by {
        lemma_cache_consecutive(s, k);
    }
}

} // verus!
