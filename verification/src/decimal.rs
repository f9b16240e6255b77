//! Arbitrary-precision non-negative decimal integers, stored as a sequence of
//! base-10 digits with the least significant digit first.

use vstd::prelude::*;
use vstd::arithmetic::div_mod::lemma_fundamental_div_mod;
use vstd::arithmetic::div_mod::lemma_fundamental_div_mod_converse;

verus! {

/// The error reported when numeric text holds a character that is not a
/// decimal digit.
#[derive(Clone, Copy, Debug, PartialEq, Eq, Structural)]
pub struct ParseError;

/// An arbitrary-precision non-negative integer: digits in base ten, least
/// significant first. The representation does not forbid leading
/// (most-significant) zero digits; consumers treat missing high positions as
/// zero.
#[derive(Debug)]
pub struct Decimal {
    digits: Vec<u8>,
}

impl View for Decimal {
    type V = Seq<u8>;

    closed spec fn view(&self) -> Seq<u8> {
        self.digits@
    }
}

/// Every digit is a single base-10 digit.
pub open spec fn digits_wf(s: Seq<u8>) -> bool {
    forall|i: int| 0 <= i < s.len() ==> (#[trigger] s[i]) < 10
}

/// The value of the digits from position `i` on.
pub open spec fn dec_value_from(s: Seq<u8>, i: int) -> int
    decreases s.len() - i,
{
    if i < 0 || i >= s.len() {
        0
    } else {
        s[i] + 10 * dec_value_from(s, i + 1)
    }
}

/// The number a digit sequence stands for.
pub open spec fn dec_value(s: Seq<u8>) -> int {
    dec_value_from(s, 0)
}

/// The canonical digit sequence of a number: empty for zero, otherwise the
/// digits with no leading zero.
pub open spec fn dec_digits(n: nat) -> Seq<u8>
    decreases n,
{
    if n == 0 {
        Seq::empty()
    } else {
        seq![(n % 10) as u8] + dec_digits(n / 10)
    }
}

/// The digit at position `i`, counting a missing high position as zero.
pub open spec fn at_d(s: Seq<u8>, i: int) -> u8 {
    if 0 <= i < s.len() {
        s[i]
    } else {
        0
    }
}

/// The value of a digit sequence is bounded by ten to its length.
pub proof fn lemma_dec_value_bound(s: Seq<u8>, i: int)
    requires
        digits_wf(s),
        0 <= i <= s.len(),
    ensures
        0 <= dec_value_from(s, i),
        dec_value_from(s, i) < pow10((s.len() - i) as nat),
    decreases s.len() - i,
{
    if i == s.len() {
        lemma_pow10_unfold(0);
    } else {
        lemma_dec_value_bound(s, i + 1);
        lemma_pow10_unfold((s.len() - i) as nat);
        assert(s[i] < 10);
        assert(dec_value_from(s, i) == s[i] + 10 * dec_value_from(s, i + 1));
        assert(s[i] + 10 * dec_value_from(s, i + 1) < 10 * pow10((s.len() - i - 1) as nat))
            by (nonlinear_arith)
            requires
                s[i] < 10,
                dec_value_from(s, i + 1) < pow10((s.len() - i - 1) as nat),
        ;
    }
}

/// Ten to the power `k`.
pub open spec fn pow10(k: nat) -> int {
    vstd::arithmetic::power::pow(10, k)
}

pub proof fn lemma_pow10_unfold(k: nat)
    ensures
        k == 0 ==> pow10(k) == 1,
        k > 0 ==> pow10(k) == 10 * pow10((k - 1) as nat),
        pow10(k) >= 1,
{
    vstd::arithmetic::power::lemma_pow_positive(10, k);
    if k == 0 {
        vstd::arithmetic::power::lemma_pow0(10);
    } else {
        vstd::arithmetic::power::lemma_pow_adds(10, 1, (k - 1) as nat);
        vstd::arithmetic::power::lemma_pow1(10);
        vstd::arithmetic::power::lemma_pow_positive(10, (k - 1) as nat);
    }
}

/// Prepending one digit shifts positions by one.
pub proof fn lemma_value_cons_shift(x: u8, t: Seq<u8>, i: int)
    requires
        i >= 0,
    ensures
        dec_value_from(seq![x] + t, i + 1) == dec_value_from(t, i),
    decreases t.len() - i,
{
    let u = seq![x] + t;
    if i >= t.len() {
    } else {
        assert(u[i + 1] == t[i]);
        lemma_value_cons_shift(x, t, i + 1);
    }
}

/// The canonical digits of `n` have value `n`, are well formed, and carry no
/// leading zero.
pub proof fn lemma_dec_digits_value(n: nat)
    ensures
        digits_wf(dec_digits(n)),
        dec_value(dec_digits(n)) == n,
        n > 0 ==> dec_digits(n).len() >= 1 && dec_digits(n).last() != 0,
    decreases n,
{
    if n != 0 {
        let d = (n % 10) as u8;
        let t = dec_digits(n / 10);
        let u = dec_digits(n);
        lemma_dec_digits_value(n / 10);
        lemma_fundamental_div_mod(n as int, 10);
        assert(u == seq![d] + t);
        assert(u[0] == d);
        lemma_value_cons_shift(d, t, 0);
        assert(dec_value(u) == d + 10 * dec_value(t));
        assert forall|i: int| 0 <= i < u.len() implies (#[trigger] u[i]) < 10 by {
            if i > 0 {
                assert(u[i] == t[i - 1]);
            }
        }
        if n / 10 == 0 {
            assert(u.len() == 1);
            assert(u.last() == d);
            assert(n % 10 != 0) by {
                if n % 10 == 0 {
                    assert(n == 0);
                }
            }
        } else {
            assert(u.last() == t.last());
        }
    }
}

/// The number of decimal digits of a value.
pub open spec fn nd(v: nat) -> int {
    dec_digits(v).len() as int
}

/// A value below a power of ten has at most that many digits, and digit
/// counts grow with the value.
pub proof fn lemma_nd_mono(v: nat, w: nat)
    requires
        v <= w,
    ensures
        nd(v) <= nd(w),
    decreases w,
{
    if v > 0 {
        assert(dec_digits(v).len() == 1 + dec_digits(v / 10).len());
        assert(dec_digits(w).len() == 1 + dec_digits(w / 10).len());
        vstd::arithmetic::div_mod::lemma_div_is_ordered(v as int, w as int, 10);
        assert(w / 10 < w) by {
            vstd::arithmetic::div_mod::lemma_div_decreases(w as int, 10);
        }
        lemma_nd_mono(v / 10, w / 10);
    }
}

/// A value below `pow10(k)` has at most `k` digits.
pub proof fn lemma_nd_bound(v: nat, k: nat)
    requires
        v < pow10(k),
    ensures
        nd(v) <= k,
    decreases k,
{
    lemma_pow10_unfold(k);
    if v > 0 {
        assert(k > 0);
        assert(dec_digits(v).len() == 1 + dec_digits(v / 10).len());
        assert(v / 10 < pow10((k - 1) as nat)) by {
            lemma_fundamental_div_mod(v as int, 10);
            assert(v == 10 * (v as int / 10) + v % 10);
            assert(10 * (v as int / 10) < 10 * pow10((k - 1) as nat)) by (nonlinear_arith)
                requires
                    10 * (v as int / 10) <= v as int,
                    (v as int) < 10 * pow10((k - 1) as nat),
            ;
        }
        lemma_nd_bound((v / 10) as nat, (k - 1) as nat);
    }
}

impl Decimal {
    /// Parse decimal text, most significant digit first, rejecting any
    /// character that is not a decimal digit.
    pub fn from_string(s: &str) -> (r: Result<Decimal, ParseError>)
        ensures
            match r {
                Ok(d) => {
                    &&& forall|i: int| 0 <= i < s@.len() ==> is_digit_char(#[trigger] s@[i])
                    &&& d@ == digits_of_text(s@)
                    &&& digits_wf(d@)
                },
                Err(_) => exists|i: int| 0 <= i < s@.len() && !is_digit_char(#[trigger] s@[i]),
            },
    {
        let n = s.unicode_len();
        let mut digits: Vec<u8> = Vec::new();
        let mut k: usize = 0;
        while k < n
            invariant
                n == s@.len(),
                k <= n,
                digits@.len() == k,
                forall|j: int| n - k <= j < n ==> is_digit_char(#[trigger] s@[j]),
                forall|i: int|
                    0 <= i < k ==> (#[trigger] digits@[i]) as int == s@[n - 1 - i] as int - 48,
                digits_wf(digits@),
            decreases n - k,
        {
            let c = s.get_char(n - 1 - k);
            let v = c as u32;
            if v < 48 || v > 57 {
                return Err(ParseError);
            }
            digits.push((v - 48) as u8);
            k = k + 1;
        }
        proof {
            assert(digits@ =~= digits_of_text(s@));
        }
        Ok(Decimal { digits })
    }

    /// The digits of a small unsigned integer; zero becomes the single
    /// digit `0`.
    pub fn from_u32(n: u32) -> (r: Decimal)
        ensures
            r@ == if n == 0 {
                seq![0u8]
            } else {
                dec_digits(n as nat)
            },
            digits_wf(r@),
            dec_value(r@) == n,
    {
        if n == 0 {
            let mut digits: Vec<u8> = Vec::new();
            digits.push(0);
            proof {
                assert(digits@ =~= seq![0u8]);
                assert(dec_value_from(digits@, 1) == 0);
            }
            return Decimal { digits };
        }
        let mut digits: Vec<u8> = Vec::new();
        let mut m: u32 = n;
        while m > 0
            invariant
                dec_digits(n as nat) =~= digits@ + dec_digits(m as nat),
                digits_wf(digits@),
            decreases m,
        {
            let ghost d0 = digits@;
            let ghost m0 = m as nat;
            digits.push((m % 10) as u8);
            m = m / 10;
            proof {
                assert(dec_digits(m0) == seq![(m0 % 10) as u8] + dec_digits(m0 / 10));
                assert(dec_digits(n as nat) =~= digits@ + dec_digits(m as nat));
            }
        }
        proof {
            assert(dec_digits(0nat) =~= Seq::<u8>::empty());
            assert(dec_digits(n as nat) =~= digits@);
            lemma_dec_digits_value(n as nat);
        }
        Decimal { digits }
    }

    /// The additive identity: the empty digit sequence.
    pub fn zero() -> (r: Decimal)
        ensures
            r@ =~= Seq::<u8>::empty(),
            dec_value(r@) == 0,
            digits_wf(r@),
    {
        Decimal { digits: Vec::new() }
    }

    /// The digit sequence, least significant first.
    pub fn digits(&self) -> (r: &Vec<u8>)
        ensures
            r@ == self@,
    {
        &self.digits
    }
}

/// The one-character text of a single digit.
fn digit_str(d: u8) -> (r: &'static str)
    requires
        d < 10,
    ensures
        r@ =~= seq![digit_char(d)],
{
    proof {
        reveal_strlit("0");
        reveal_strlit("1");
        reveal_strlit("2");
        reveal_strlit("3");
        reveal_strlit("4");
        reveal_strlit("5");
        reveal_strlit("6");
        reveal_strlit("7");
        reveal_strlit("8");
        reveal_strlit("9");
    }
    match d {
        0 => "0",
        1 => "1",
        2 => "2",
        3 => "3",
        4 => "4",
        5 => "5",
        6 => "6",
        7 => "7",
        8 => "8",
        _ => "9",
    }
}

impl Decimal {
    /// Render the digits as text, most significant digit first. The empty
    /// digit sequence (the additive identity) renders as the empty string;
    /// leading zero digits are not suppressed.
    pub fn to_text(&self) -> (r: String)
        requires
            digits_wf(self@),
        ensures
            r@ == text_of(self@),
    {
        let ghost s = self@;
        let n = self.digits.len();
        let mut out = String::new();
        let mut i: usize = n;
        while i > 0
            invariant
                s == self@,
                digits_wf(s),
                n == s.len(),
                i <= n,
                out@ =~= text_of(s).take(n - i),
            decreases i,
        {
            i = i - 1;
            let d = self.digits[i];
            let piece = digit_str(d);
            out.append(piece);
            proof {
                assert(text_of(s)[n - i - 1] == digit_char(s[i as int]));
                assert(out@ =~= text_of(s).take(n - i));
            }
        }
        proof {
            assert(text_of(s).take(n as int) =~= text_of(s));
        }
        out
    }
}

/// Reading rendered digits back yields the same digit sequence: the text
/// round trip is the identity on well-formed digit sequences, with every
/// rendered character a decimal digit.
pub proof fn lemma_text_round_trip(s: Seq<u8>)
    requires
        digits_wf(s),
    ensures
        digits_of_text(text_of(s)) =~= s,
        forall|i: int| 0 <= i < text_of(s).len() ==> is_digit_char(#[trigger] text_of(s)[i]),
{
    let t = text_of(s);
    assert forall|i: int| 0 <= i < t.len() implies is_digit_char(#[trigger] t[i]) by {
        assert(t[i] == digit_char(s[s.len() - 1 - i]));
        assert(s[s.len() - 1 - i] < 10);
    }
    assert forall|i: int| 0 <= i < s.len() implies digits_of_text(t)[i] == s[i] by {
        assert(t[t.len() - 1 - i] == digit_char(s[i]));
        assert(s[i] < 10);
    }
}

impl PartialEq for Decimal {
    /// Two numbers are equal when their digit sequences are equal.
    fn eq(&self, other: &Decimal) -> (r: bool) {
        if self.digits.len() != other.digits.len() {
            return false;
        }
        let n = self.digits.len();
        let mut i: usize = 0;
        while i < n
            invariant
                n == self@.len(),
                n == other@.len(),
                i <= n,
                forall|j: int| 0 <= j < i ==> self@[j] == other@[j],
            decreases n - i,
        {
            if self.digits[i] != other.digits[i] {
                return false;
            }
            i = i + 1;
        }
        proof {
            assert(self@ =~= other@);
        }
        true
    }
}

impl Eq for Decimal {

}

impl vstd::std_specs::cmp::PartialEqSpecImpl for Decimal {
    open spec fn obeys_eq_spec() -> bool {
        true
    }

    open spec fn eq_spec(&self, other: &Decimal) -> bool {
        self@ == other@
    }
}

/// How many digit positions remain from position `i` on.
pub open spec fn rem_len(s: Seq<u8>, i: int) -> int {
    if i <= s.len() {
        s.len() - i
    } else {
        0
    }
}

/// The larger of two integers.
pub open spec fn imax(x: int, y: int) -> int {
    if x >= y {
        x
    } else {
        y
    }
}

/// Schoolbook addition from position `i` on, with a carry digit: sum the two
/// digits and the carry, emit the sum modulo ten, carry the rest, and append
/// a final nonzero carry.
pub open spec fn add_from(a: Seq<u8>, b: Seq<u8>, i: int, c: u8) -> Seq<u8>
    decreases a.len() + b.len() - i,
{
    if i >= a.len() && i >= b.len() {
        if c == 0 {
            Seq::empty()
        } else {
            seq![c]
        }
    } else {
        let s = at_d(a, i) + at_d(b, i) + c;
        seq![(s % 10) as u8] + add_from(a, b, i + 1, (s / 10) as u8)
    }
}

/// Schoolbook addition of two digit sequences.
pub open spec fn add_spec(a: Seq<u8>, b: Seq<u8>) -> Seq<u8> {
    add_from(a, b, 0, 0)
}

/// Addition is correct: the result's value is the sum of the values.
pub proof fn lemma_add_from_value(a: Seq<u8>, b: Seq<u8>, i: int, c: u8)
    requires
        0 <= i,
    ensures
        dec_value(add_from(a, b, i, c)) == dec_value_from(a, i) + dec_value_from(b, i) + c,
    decreases a.len() + b.len() - i,
{
    if i >= a.len() && i >= b.len() {
        if c != 0 {
            let u = seq![c];
            assert(dec_value_from(u, 1) == 0);
        }
    } else {
        let s = at_d(a, i) + at_d(b, i) + c;
        let cn = (s / 10) as u8;
        let d = (s % 10) as u8;
        let rest = add_from(a, b, i + 1, cn);
        let u = seq![d] + rest;
        assert(add_from(a, b, i, c) == u);
        lemma_add_from_value(a, b, i + 1, cn);
        assert(u[0] == d);
        lemma_value_cons_shift(d, rest, 0);
        assert(dec_value(u) == d + 10 * dec_value(rest));
        lemma_fundamental_div_mod(s, 10);
    }
}

/// Addition of well-formed digits with a carry of at most one yields
/// well-formed digits.
pub proof fn lemma_add_from_wf(a: Seq<u8>, b: Seq<u8>, i: int, c: u8)
    requires
        digits_wf(a),
        digits_wf(b),
        c <= 1,
        0 <= i,
    ensures
        digits_wf(add_from(a, b, i, c)),
    decreases a.len() + b.len() - i,
{
    if i >= a.len() && i >= b.len() {
    } else {
        let s = at_d(a, i) + at_d(b, i) + c;
        let cn = (s / 10) as u8;
        let d = (s % 10) as u8;
        let rest = add_from(a, b, i + 1, cn);
        let u = seq![d] + rest;
        assert(at_d(a, i) <= 9 && at_d(b, i) <= 9);
        lemma_fundamental_div_mod(s, 10);
        lemma_add_from_wf(a, b, i + 1, cn);
        assert forall|j: int| 0 <= j < u.len() implies (#[trigger] u[j]) < 10 by {
            if j > 0 {
                assert(u[j] == rest[j - 1]);
            }
        }
    }
}

/// Addition is symmetric in its two operands, digit by digit.
pub proof fn lemma_add_from_comm(a: Seq<u8>, b: Seq<u8>, i: int, c: u8)
    ensures
        add_from(a, b, i, c) == add_from(b, a, i, c),
    decreases a.len() + b.len() - i,
{
    if i >= a.len() && i >= b.len() {
    } else {
        lemma_add_from_comm(a, b, i + 1, ((at_d(a, i) + at_d(b, i) + c) / 10) as u8);
    }
}

/// The length of a schoolbook sum: the longer operand's remaining length,
/// or the digit count of the value, whichever is larger.
pub proof fn lemma_add_from_len(a: Seq<u8>, b: Seq<u8>, i: int, c: u8)
    requires
        digits_wf(a),
        digits_wf(b),
        c <= 9,
        0 <= i,
    ensures
        add_from(a, b, i, c).len() == imax(
            imax(rem_len(a, i), rem_len(b, i)),
            nd((dec_value_from(a, i) + dec_value_from(b, i) + c) as nat),
        ),
    decreases a.len() + b.len() - i,
{
    let v = dec_value_from(a, i) + dec_value_from(b, i) + c;
    proof_dec_value_from_nonneg(a, i);
    proof_dec_value_from_nonneg(b, i);
    if i >= a.len() && i >= b.len() {
        assert(v == c);
        if c == 0 {
        } else {
            assert(dec_digits(c as nat) == seq![(c as nat % 10) as u8] + dec_digits(c as nat / 10));
            assert(dec_digits(c as nat / 10) =~= Seq::<u8>::empty());
            assert(nd(c as nat) == 1);
        }
    } else {
        let s = at_d(a, i) + at_d(b, i) + c;
        let cn = (s / 10) as u8;
        lemma_fundamental_div_mod(s, 10);
        lemma_add_from_len(a, b, i + 1, cn);
        let va1 = dec_value_from(a, i + 1);
        let vb1 = dec_value_from(b, i + 1);
        proof_dec_value_from_nonneg(a, i + 1);
        proof_dec_value_from_nonneg(b, i + 1);
        let v1 = va1 + vb1 + cn;
        assert(dec_value_from(a, i) == at_d(a, i) + 10 * va1);
        assert(dec_value_from(b, i) == at_d(b, i) + 10 * vb1);
        assert(v == s % 10 + 10 * v1);
        if v > 0 {
            lemma_fundamental_div_mod_converse(v, 10, v1, s % 10);
            assert(v as nat % 10 == s % 10 && v as nat / 10 == v1);
            assert(dec_digits(v as nat) == seq![(v as nat % 10) as u8] + dec_digits(v as nat / 10));
            assert(nd(v as nat) == 1 + nd(v1 as nat));
        } else {
            assert(v == 0);
            assert(v1 == 0 && s % 10 == 0);
            assert(nd(0) == 0);
        }
        assert(add_from(a, b, i, c).len() == 1 + add_from(a, b, i + 1, cn).len());
    }
}

proof fn proof_dec_value_from_nonneg(s: Seq<u8>, i: int)
    requires
        0 <= i,
    ensures
        dec_value_from(s, i) >= 0,
    decreases s.len() - i,
{
    if i < s.len() {
        proof_dec_value_from_nonneg(s, i + 1);
    }
}

/// Well-formed digit sequences of equal length and equal value are equal.
pub proof fn lemma_digits_unique(x: Seq<u8>, y: Seq<u8>)
    requires
        digits_wf(x),
        digits_wf(y),
        x.len() == y.len(),
        dec_value(x) == dec_value(y),
    ensures
        x =~= y,
{
    lemma_digits_unique_from(x, y, 0);
}

proof fn lemma_digits_unique_from(x: Seq<u8>, y: Seq<u8>, i: int)
    requires
        digits_wf(x),
        digits_wf(y),
        x.len() == y.len(),
        0 <= i <= x.len(),
        dec_value_from(x, i) == dec_value_from(y, i),
    ensures
        forall|j: int| i <= j < x.len() ==> x[j] == y[j],
    decreases x.len() - i,
{
    if i < x.len() {
        let v = dec_value_from(x, i);
        proof_dec_value_from_nonneg(x, i + 1);
        proof_dec_value_from_nonneg(y, i + 1);
        lemma_fundamental_div_mod_converse(v, 10, dec_value_from(x, i + 1), x[i] as int);
        lemma_fundamental_div_mod_converse(v, 10, dec_value_from(y, i + 1), y[i] as int);
        assert(x[i] as int == v % 10 && y[i] as int == v % 10);
        assert(dec_value_from(x, i + 1) == v / 10 && dec_value_from(y, i + 1) == v / 10);
        lemma_digits_unique_from(x, y, i + 1);
    }
}

/// Addition of digit sequences is commutative.
pub proof fn lemma_add_commutes(a: Seq<u8>, b: Seq<u8>)
    ensures
        add_spec(a, b) == add_spec(b, a),
{
    lemma_add_from_comm(a, b, 0, 0);
}

/// Addition of digit sequences is associative: summing three numbers gives
/// the same digits whichever pair is added first.
pub proof fn lemma_add_associates(a: Seq<u8>, b: Seq<u8>, c: Seq<u8>)
    requires
        digits_wf(a),
        digits_wf(b),
        digits_wf(c),
    ensures
        add_spec(add_spec(a, b), c) == add_spec(a, add_spec(b, c)),
{
    let ab = add_spec(a, b);
    let bc = add_spec(b, c);
    let lhs = add_spec(ab, c);
    let rhs = add_spec(a, bc);
    let va = dec_value(a);
    let vb = dec_value(b);
    let vc = dec_value(c);
    proof_dec_value_from_nonneg(a, 0);
    proof_dec_value_from_nonneg(b, 0);
    proof_dec_value_from_nonneg(c, 0);
    lemma_add_from_value(a, b, 0, 0);
    lemma_add_from_value(b, c, 0, 0);
    lemma_add_from_wf(a, b, 0, 0);
    lemma_add_from_wf(b, c, 0, 0);
    lemma_add_from_value(ab, c, 0, 0);
    lemma_add_from_value(a, bc, 0, 0);
    lemma_add_from_wf(ab, c, 0, 0);
    lemma_add_from_wf(a, bc, 0, 0);
    assert(dec_value(lhs) == va + vb + vc);
    assert(dec_value(rhs) == va + vb + vc);
    lemma_add_from_len(a, b, 0, 0);
    lemma_add_from_len(b, c, 0, 0);
    lemma_add_from_len(ab, c, 0, 0);
    lemma_add_from_len(a, bc, 0, 0);
    lemma_nd_mono((va + vb) as nat, (va + vb + vc) as nat);
    lemma_nd_mono((vb + vc) as nat, (va + vb + vc) as nat);
    assert(lhs.len() == rhs.len());
    lemma_digits_unique(lhs, rhs);
}

impl Decimal {
    /// Schoolbook addition with carry: for each position the two digits and
    /// the carry are summed, the sum modulo ten is emitted and the rest
    /// carried, with a final nonzero carry appended.
    pub fn add(&self, other: &Decimal) -> (r: Decimal)
        requires
            digits_wf(self@),
            digits_wf(other@),
        ensures
            r@ == add_spec(self@, other@),
            digits_wf(r@),
            dec_value(r@) == dec_value(self@) + dec_value(other@),
            r@.len() <= imax(self@.len() as int, other@.len() as int) + 1,
    {
        let ghost sa = self@;
        let ghost sb = other@;
        let l = if self.digits.len() < other.digits.len() {
            other.digits.len()
        } else {
            self.digits.len()
        };
        let mut sum: Vec<u8> = Vec::new();
        let mut carry: u8 = 0;
        let mut i: usize = 0;
        while i < l
            invariant
                sa == self@,
                sb == other@,
                digits_wf(sa),
                digits_wf(sb),
                l == imax(sa.len() as int, sb.len() as int),
                i <= l,
                carry <= 1,
                add_spec(sa, sb) == sum@ + add_from(sa, sb, i as int, carry),
                sum@.len() == i,
                digits_wf(sum@),
            decreases l - i,
        {
            let ai = if i < self.digits.len() {
                self.digits[i]
            } else {
                0
            };
            let bi = if i < other.digits.len() {
                other.digits[i]
            } else {
                0
            };
            proof {
                assert(ai == at_d(sa, i as int));
                assert(bi == at_d(sb, i as int));
                assert(ai <= 9 && bi <= 9);
            }
            let s = ai + bi + carry;
            let d = s % 10;
            let ghost carry0 = carry;
            let ghost sum0 = sum@;
            carry = s / 10;
            sum.push(d);
            i = i + 1;
            proof {
                let sv = at_d(sa, i - 1) + at_d(sb, i - 1) + carry0;
                assert(add_from(sa, sb, i - 1, carry0) == seq![(sv % 10) as u8] + add_from(
                    sa,
                    sb,
                    i as int,
                    (sv / 10) as u8,
                ));
                assert(d == (sv % 10) as u8 && carry == (sv / 10) as u8);
                assert(sum0 + add_from(sa, sb, i - 1, carry0) =~= sum@ + add_from(
                    sa,
                    sb,
                    i as int,
                    carry,
                ));
            }
        }
        if carry != 0 {
            proof {
                assert(add_from(sa, sb, l as int, carry) =~= seq![carry]);
            }
            sum.push(carry);
            proof {
                assert(add_spec(sa, sb) =~= sum@);
            }
        } else {
            proof {
                assert(add_from(sa, sb, l as int, carry) =~= Seq::<u8>::empty());
                assert(add_spec(sa, sb) =~= sum@);
            }
        }
        proof {
            lemma_add_from_wf(sa, sb, 0, 0);
            lemma_add_from_value(sa, sb, 0, 0);
            lemma_add_from_len(sa, sb, 0, 0);
            lemma_dec_value_bound(sa, 0);
            lemma_dec_value_bound(sb, 0);
            let mx = imax(sa.len() as int, sb.len() as int);
            lemma_pow10_unfold((mx + 1) as nat);
            lemma_pow10_unfold(mx as nat);
            vstd::arithmetic::power::lemma_pow_increases(10, sa.len(), mx as nat);
            vstd::arithmetic::power::lemma_pow_increases(10, sb.len(), mx as nat);
            assert(dec_value(sa) + dec_value(sb) < pow10((mx + 1) as nat));
            lemma_nd_bound((dec_value(sa) + dec_value(sb)) as nat, (mx + 1) as nat);
        }
        Decimal { digits: sum }
    }
}

/// One term of the digit convolution: `a[k - j] * b[j]`, zero out of range.
pub open spec fn conv_term(a: Seq<u8>, b: Seq<u8>, k: int, j: int) -> int {
    if 0 <= k - j < a.len() && 0 <= j < b.len() {
        a[k - j] * b[j]
    } else {
        0
    }
}

/// The tail of the diagonal sum for output position `k`, over `j` and above.
pub open spec fn dsum_from(a: Seq<u8>, b: Seq<u8>, k: int, j: int) -> int
    decreases k - j + 1,
{
    if j > k {
        0
    } else {
        conv_term(a, b, k, j) + dsum_from(a, b, k, j + 1)
    }
}

/// The diagonal sum for output position `k`: every pairwise digit product
/// `a[i] * b[j]` with `i + j == k`.
pub open spec fn dsum(a: Seq<u8>, b: Seq<u8>, k: int) -> int {
    dsum_from(a, b, k, 0)
}

/// The value of the first `k` diagonals, each weighted by its power of ten.
pub open spec fn conv_partial(a: Seq<u8>, b: Seq<u8>, k: int) -> int
    decreases k,
{
    if k <= 0 {
        0
    } else {
        conv_partial(a, b, k - 1) + dsum(a, b, k - 1) * pow10((k - 1) as nat)
    }
}

/// The value of the first `k` digit positions of a sequence.
pub open spec fn bval_upto(b: Seq<u8>, k: int) -> int
    decreases k,
{
    if k <= 0 {
        0
    } else {
        bval_upto(b, k - 1) + at_d(b, k - 1) * pow10((k - 1) as nat)
    }
}

/// The length the diagonal multiplication produces: empty only when both
/// operands are empty, else one less than the lengths' sum — the diagonal
/// positions themselves — plus one more when a final carry remains.
pub open spec fn mul_len_spec(a: Seq<u8>, b: Seq<u8>) -> int {
    if a.len() == 0 && b.len() == 0 {
        0
    } else if dec_value(a) * dec_value(b) >= pow10((a.len() + b.len() - 1) as nat) {
        a.len() as int + b.len()
    } else {
        a.len() as int + b.len() - 1
    }
}

proof fn lemma_bval_split(b: Seq<u8>, k: int)
    requires
        0 <= k,
    ensures
        bval_upto(b, k) + pow10(k as nat) * dec_value_from(b, k) == dec_value(b),
    decreases k,
{
    if k == 0 {
        lemma_pow10_unfold(0);
        assert(bval_upto(b, 0) == 0);
        assert(pow10(0) * dec_value_from(b, 0) == dec_value_from(b, 0)) by (nonlinear_arith)
            requires
                pow10(0) == 1,
        ;
    } else {
        lemma_bval_split(b, k - 1);
        lemma_pow10_unfold(k as nat);
        assert(dec_value_from(b, k - 1) == at_d(b, k - 1) + 10 * dec_value_from(b, k));
        assert(pow10(k as nat) * dec_value_from(b, k) == 10 * pow10((k - 1) as nat)
            * dec_value_from(b, k)) by (nonlinear_arith)
            requires
                pow10(k as nat) == 10 * pow10((k - 1) as nat),
        ;
        assert(pow10((k - 1) as nat) * (at_d(b, k - 1) + 10 * dec_value_from(b, k)) == at_d(
            b,
            k - 1,
        ) * pow10((k - 1) as nat) + 10 * pow10((k - 1) as nat) * dec_value_from(b, k))
            by (nonlinear_arith);
        assert(bval_upto(b, k) == bval_upto(b, k - 1) + at_d(b, k - 1) * pow10((k - 1) as nat));
        assert(pow10((k - 1) as nat) * dec_value_from(b, k - 1) == pow10((k - 1) as nat) * (at_d(
            b,
            k - 1,
        ) + 10 * dec_value_from(b, k)));
        assert(bval_upto(b, k) + pow10(k as nat) * dec_value_from(b, k) == bval_upto(b, k - 1)
            + pow10((k - 1) as nat) * dec_value_from(b, k - 1));
    }
}

/// Splitting off the first digit of `a` shifts the diagonals by one.
proof fn lemma_dsum_decomp(a: Seq<u8>, b: Seq<u8>, k: int, j: int)
    requires
        a.len() > 0,
        0 <= j <= k,
    ensures
        dsum_from(a, b, k, j) == (if 0 <= k < b.len() {
            a[0] * b[k]
        } else {
            0
        }) + dsum_from(a.drop_first(), b, k - 1, j),
    decreases k - j,
{
    if j == k {
        assert(conv_term(a, b, k, k) == (if 0 <= k < b.len() {
            a[0] * b[k]
        } else {
            0
        }));
        assert(dsum_from(a, b, k, k + 1) == 0);
        assert(dsum_from(a.drop_first(), b, k - 1, k) == 0);
    } else {
        assert(conv_term(a, b, k, j) == conv_term(a.drop_first(), b, k - 1, j)) by {
            if 0 <= k - j < a.len() && 0 <= j < b.len() {
                assert(a[k - j] == a.drop_first()[k - j - 1]);
            }
        }
        assert(dsum_from(a, b, k, j) == conv_term(a, b, k, j) + dsum_from(a, b, k, j + 1));
        assert(dsum_from(a.drop_first(), b, k - 1, j) == conv_term(a.drop_first(), b, k - 1, j)
            + dsum_from(a.drop_first(), b, k - 1, j + 1));
        lemma_dsum_decomp(a, b, k, j + 1);
    }
}

proof fn lemma_dsum_empty(a: Seq<u8>, b: Seq<u8>, k: int, j: int)
    requires
        a.len() == 0,
    ensures
        dsum_from(a, b, k, j) == 0,
    decreases k - j + 1,
{
    if j <= k {
        lemma_dsum_empty(a, b, k, j + 1);
    }
}

/// Diagonals past the last meaningful position are empty.
proof fn lemma_dsum_high(a: Seq<u8>, b: Seq<u8>, k: int, j: int)
    requires
        k >= a.len() + b.len() - 1,
    ensures
        dsum_from(a, b, k, j) == 0,
    decreases k - j + 1,
{
    if j <= k {
        assert(conv_term(a, b, k, j) == 0);
        lemma_dsum_high(a, b, k, j + 1);
    }
}

proof fn lemma_conv_empty(a: Seq<u8>, b: Seq<u8>, k: int)
    requires
        a.len() == 0,
    ensures
        conv_partial(a, b, k) == 0,
    decreases k,
{
    if k > 0 {
        lemma_conv_empty(a, b, k - 1);
        lemma_dsum_empty(a, b, k - 1, 0);
    }
}

/// Peeling the first digit off `a` rewrites the convolution value.
proof fn lemma_conv_decomp(a: Seq<u8>, b: Seq<u8>, k: int)
    requires
        a.len() > 0,
        0 <= k,
    ensures
        conv_partial(a, b, k) == a[0] * bval_upto(b, k) + 10 * conv_partial(
            a.drop_first(),
            b,
            k - 1,
        ),
    decreases k,
{
    let ad = a.drop_first();
    if k == 0 {
    } else {
        lemma_conv_decomp(a, b, k - 1);
        lemma_dsum_decomp(a, b, k - 1, 0);
        let g = (if 0 <= k - 1 < b.len() {
            a[0] * b[k - 1]
        } else {
            0
        });
        assert(g == a[0] * at_d(b, k - 1)) by {
            if !(0 <= k - 1 < b.len()) {
                assert(at_d(b, k - 1) == 0);
            }
        }
        assert(dsum(a, b, k - 1) == g + dsum_from(ad, b, k - 2, 0)) by {
            if k - 1 == 0 {
                assert(dsum_from(ad, b, -1, 0) == 0);
            }
        }
        if k >= 2 {
            assert(conv_partial(ad, b, k - 1) == conv_partial(ad, b, k - 2) + dsum(ad, b, k - 2)
                * pow10((k - 2) as nat));
            lemma_pow10_unfold((k - 1) as nat);
            assert(dsum_from(ad, b, k - 2, 0) * pow10((k - 1) as nat) == 10 * (dsum_from(
                ad,
                b,
                k - 2,
                0,
            ) * pow10((k - 2) as nat))) by (nonlinear_arith)
                requires
                    pow10((k - 1) as nat) == 10 * pow10((k - 2) as nat),
            ;
        } else {
            assert(k == 1);
            assert(conv_partial(ad, b, 0) == 0);
            assert(dsum_from(ad, b, -1, 0) == 0);
            lemma_pow10_unfold(0);
        }
        assert((g + dsum_from(ad, b, k - 2, 0)) * pow10((k - 1) as nat) == g * pow10((k - 1) as nat)
            + dsum_from(ad, b, k - 2, 0) * pow10((k - 1) as nat)) by (nonlinear_arith);
        assert(a[0] * at_d(b, k - 1) * pow10((k - 1) as nat) == a[0] * (at_d(b, k - 1) * pow10(
            (k - 1) as nat,
        ))) by (nonlinear_arith);
        assert(a[0] * bval_upto(b, k - 1) + a[0] * (at_d(b, k - 1) * pow10((k - 1) as nat)) == a[0]
            * bval_upto(b, k)) by (nonlinear_arith)
            requires
                bval_upto(b, k) == bval_upto(b, k - 1) + at_d(b, k - 1) * pow10((k - 1) as nat),
        ;
    }
}

/// The convolution theorem: summing every diagonal, each weighted by its
/// power of ten, yields the product of the two values.
pub proof fn lemma_conv_value(a: Seq<u8>, b: Seq<u8>, k: int)
    requires
        k >= a.len() + b.len(),
    ensures
        conv_partial(a, b, k) == dec_value(a) * dec_value(b),
    decreases a.len(),
{
    if a.len() == 0 {
        lemma_conv_empty(a, b, k);
        assert(dec_value(a) == 0);
        assert(dec_value(a) * dec_value(b) == 0) by (nonlinear_arith)
            requires
                dec_value(a) == 0,
        ;
    } else {
        let ad = a.drop_first();
        lemma_conv_decomp(a, b, k);
        lemma_bval_split(b, k);
        assert(dec_value_from(b, k) == 0);
        assert(bval_upto(b, k) == dec_value(b));
        lemma_conv_value(ad, b, k - 1);
        assert(a =~= seq![a[0]] + ad);
        lemma_value_cons_shift(a[0], ad, 0);
        assert(dec_value_from(a, 1) == dec_value(ad));
        assert(dec_value(a) == a[0] + 10 * dec_value(ad));
        assert(a[0] * dec_value(b) + 10 * (dec_value(ad) * dec_value(b)) == (a[0] + 10 * dec_value(
            ad,
        )) * dec_value(b)) by (nonlinear_arith);
    }
}

/// Appending a digit adds its value at the top position.
pub proof fn lemma_dec_value_push(s: Seq<u8>, d: u8)
    ensures
        dec_value(s.push(d)) == dec_value(s) + d * pow10(s.len()),
{
    lemma_value_push_from(s, d, 0);
}

proof fn lemma_value_push_from(s: Seq<u8>, d: u8, i: int)
    requires
        0 <= i <= s.len(),
    ensures
        dec_value_from(s.push(d), i) == dec_value_from(s, i) + d * pow10((s.len() - i) as nat),
    decreases s.len() - i,
{
    let u = s.push(d);
    if i == s.len() {
        assert(u[i] == d);
        assert(dec_value_from(u, i) == d + 10 * dec_value_from(u, i + 1));
        assert(dec_value_from(u, i + 1) == 0);
        assert(dec_value_from(s, i) == 0);
        lemma_pow10_unfold(0);
        assert(d * pow10(0) == d) by (nonlinear_arith)
            requires
                pow10(0) == 1,
        ;
    } else {
        assert(u[i] == s[i]);
        lemma_value_push_from(s, d, i + 1);
        lemma_pow10_unfold((s.len() - i) as nat);
        assert(10 * (dec_value_from(s, i + 1) + d * pow10((s.len() - i - 1) as nat)) == 10
            * dec_value_from(s, i + 1) + d * (10 * pow10((s.len() - i - 1) as nat)))
            by (nonlinear_arith);
        assert(d * (10 * pow10((s.len() - i - 1) as nat)) == d * pow10((s.len() - i) as nat))
            by (nonlinear_arith)
            requires
                pow10((s.len() - i) as nat) == 10 * pow10((s.len() - i - 1) as nat),
        ;
    }
}

impl Decimal {
    /// Diagonal multiplication: form every pairwise digit product, sum the
    /// products along each diagonal `i + j == k`, then propagate carries as
    /// in addition, appending a final nonzero carry.
    pub fn multiply(&self, other: &Decimal) -> (r: Decimal)
        requires
            digits_wf(self@),
            digits_wf(other@),
            self@.len() + other@.len() < 0x1000_0000,
        ensures
            digits_wf(r@),
            dec_value(r@) == dec_value(self@) * dec_value(other@),
            r@.len() == mul_len_spec(self@, other@),
    {
        let ghost sa = self@;
        let ghost sb = other@;
        let la = self.digits.len();
        let lb = other.digits.len();
        if la == 0 && lb == 0 {
            proof {
                assert(dec_value(sa) * dec_value(sb) == 0) by (nonlinear_arith)
                    requires
                        dec_value(sa) == 0,
                ;
            }
            return Decimal { digits: Vec::new() };
        }
        let l = la + lb - 1;
        let mut diags: Vec<u64> = Vec::new();
        let mut k: usize = 0;
        while k < l
            invariant
                sa == self@,
                sb == other@,
                digits_wf(sa),
                digits_wf(sb),
                la == sa.len(),
                lb == sb.len(),
                la + lb >= 1,
                la + lb < 0x1000_0000,
                l == la + lb - 1,
                k <= l,
                diags@.len() == k,
                forall|t: int| 0 <= t < k ==> (#[trigger] diags@[t]) as int == dsum(sa, sb, t),
                forall|t: int| 0 <= t < k ==> (#[trigger] diags@[t]) as int <= 81 * (la + lb),
            decreases l - k,
        {
            let mut d: u64 = 0;
            let mut j: usize = 0;
            while j <= k
                invariant
                    sa == self@,
                    sb == other@,
                    digits_wf(sa),
                    digits_wf(sb),
                    la == sa.len(),
                    lb == sb.len(),
                    la + lb < 0x1000_0000,
                    l == la + lb - 1,
                    k < l,
                    j <= k + 1,
                    d as int + dsum_from(sa, sb, k as int, j as int) == dsum(sa, sb, k as int),
                    d as int <= 81 * (j as int),
                decreases k + 1 - j,
            {
                proof {
                    assert(dsum_from(sa, sb, k as int, j as int) == conv_term(
                        sa,
                        sb,
                        k as int,
                        j as int,
                    ) + dsum_from(sa, sb, k as int, j + 1));
                }
                if j < lb && k - j < la {
                    let ai = self.digits[k - j];
                    let bj = other.digits[j];
                    proof {
                        assert(ai <= 9 && bj <= 9);
                        assert(conv_term(sa, sb, k as int, j as int) == ai as int * bj as int);
                        assert(ai as int * bj as int <= 81) by (nonlinear_arith)
                            requires
                                ai <= 9,
                                bj <= 9,
                        ;
                        assert(ai as int * bj as int >= 0) by (nonlinear_arith);
                    }
                    d = d + (ai as u64) * (bj as u64);
                } else {
                    proof {
                        assert(conv_term(sa, sb, k as int, j as int) == 0);
                    }
                }
                j = j + 1;
            }
            proof {
                assert(dsum_from(sa, sb, k as int, j as int) == 0);
            }
            diags.push(d);
            k = k + 1;
        }
        let mut out_digits: Vec<u8> = Vec::new();
        let mut carry: u64 = 0;
        let mut t: usize = 0;
        while t < l
            invariant
                sa == self@,
                sb == other@,
                digits_wf(sa),
                digits_wf(sb),
                la == sa.len(),
                lb == sb.len(),
                la + lb >= 1,
                la + lb < 0x1000_0000,
                l == la + lb - 1,
                diags@.len() == l,
                forall|u: int| 0 <= u < l ==> (#[trigger] diags@[u]) as int == dsum(sa, sb, u),
                forall|u: int| 0 <= u < l ==> (#[trigger] diags@[u]) as int <= 81 * (la + lb),
                t <= l,
                out_digits@.len() == t,
                digits_wf(out_digits@),
                carry as int <= 81 * (la + lb),
                dec_value(out_digits@) + carry as int * pow10(t as nat) == conv_partial(
                    sa,
                    sb,
                    t as int,
                ),
            decreases l - t,
        {
            let s = diags[t] + carry;
            let dig = (s % 10) as u8;
            let ghost carry0 = carry as int;
            let ghost out0 = out_digits@;
            carry = s / 10;
            out_digits.push(dig);
            t = t + 1;
            proof {
                lemma_dec_value_push(out0, dig);
                lemma_pow10_unfold(t as nat);
                lemma_fundamental_div_mod(s as int, 10);
                assert(conv_partial(sa, sb, t as int) == conv_partial(sa, sb, t - 1) + dsum(
                    sa,
                    sb,
                    t - 1,
                ) * pow10((t - 1) as nat));
                assert(10 * carry as int <= s as int);
                assert(dec_value(out_digits@) == dec_value(out0) + dig as int * pow10(
                    (t - 1) as nat,
                ));
                assert(dig as int + 10 * carry as int == s as int);
                assert(carry as int * pow10(t as nat) == 10 * carry as int * pow10((t - 1) as nat))
                    by (nonlinear_arith)
                    requires
                        pow10(t as nat) == 10 * pow10((t - 1) as nat),
                ;
                assert(dig as int * pow10((t - 1) as nat) + 10 * carry as int * pow10(
                    (t - 1) as nat,
                ) == s as int * pow10((t - 1) as nat)) by (nonlinear_arith)
                    requires
                        dig as int + 10 * carry as int == s as int,
                ;
                assert(s as int * pow10((t - 1) as nat) == carry0 * pow10((t - 1) as nat) + dsum(
                    sa,
                    sb,
                    t - 1,
                ) * pow10((t - 1) as nat)) by (nonlinear_arith)
                    requires
                        s as int == dsum(sa, sb, t - 1) + carry0,
                ;
            }
        }
        proof {
            assert(conv_partial(sa, sb, l + 1) == conv_partial(sa, sb, l as int) + dsum(
                sa,
                sb,
                l as int,
            ) * pow10(l as nat));
            lemma_dsum_high(sa, sb, l as int, 0);
            assert(dsum(sa, sb, l as int) * pow10(l as nat) == 0) by (nonlinear_arith)
                requires
                    dsum(sa, sb, l as int) == 0,
            ;
            lemma_conv_value(sa, sb, l + 1);
            lemma_dec_value_bound(sa, 0);
            lemma_dec_value_bound(sb, 0);
            vstd::arithmetic::power::lemma_pow_adds(10, la as nat, lb as nat);
            assert(dec_value(sa) * dec_value(sb) < pow10((la + lb) as nat)) by (nonlinear_arith)
                requires
                    0 <= dec_value(sa) < pow10(la as nat),
                    0 <= dec_value(sb) < pow10(lb as nat),
                    pow10((la + lb) as nat) == pow10(la as nat) * pow10(lb as nat),
            ;
            lemma_pow10_unfold((la + lb) as nat);
            lemma_dec_value_bound(out_digits@, 0);
            assert(carry < 10) by (nonlinear_arith)
                requires
                    dec_value(out_digits@) + carry as int * pow10(l as nat) == dec_value(sa)
                        * dec_value(sb),
                    dec_value(sa) * dec_value(sb) < 10 * pow10(l as nat),
                    dec_value(out_digits@) >= 0,
                    pow10(l as nat) >= 1,
                    carry >= 0,
            ;
        }
        if carry != 0 {
            let cd = carry as u8;
            let ghost out1 = out_digits@;
            out_digits.push(cd);
            proof {
                lemma_dec_value_push(out1, cd);
                assert(cd as int == carry as int);
                assert(dec_value(out_digits@) == dec_value(sa) * dec_value(sb));
                assert(dec_value(sa) * dec_value(sb) >= pow10(l as nat)) by (nonlinear_arith)
                    requires
                        dec_value(sa) * dec_value(sb) == dec_value(out1) + carry as int * pow10(
                            l as nat,
                        ),
                        dec_value(out1) >= 0,
                        carry >= 1,
                        pow10(l as nat) >= 1,
                ;
                assert forall|i: int| 0 <= i < out_digits@.len() implies (#[trigger] out_digits@[i])
                    < 10 by {
                    if i < out_digits@.len() - 1 {
                        assert(out1[i] < 10);
                    }
                }
            }
        } else {
            proof {
                assert(dec_value(out_digits@) == dec_value(sa) * dec_value(sb));
                assert(dec_value(sa) * dec_value(sb) < pow10(l as nat));
            }
        }
        Decimal { digits: out_digits }
    }
}

/// A positive value's digit count brackets it between neighbouring powers
/// of ten.
pub proof fn lemma_nd_range(v: nat)
    requires
        v >= 1,
    ensures
        nd(v) >= 1,
        pow10((nd(v) - 1) as nat) <= v,
        v < pow10(nd(v) as nat),
    decreases v,
{
    assert(dec_digits(v).len() == 1 + dec_digits(v / 10).len());
    if v < 10 {
        vstd::arithmetic::div_mod::lemma_basic_div(v as int, 10);
        assert(dec_digits((v / 10) as nat) =~= Seq::<u8>::empty());
        assert(nd(v) == 1);
        lemma_pow10_unfold(0);
        lemma_pow10_unfold(1);
    } else {
        assert(v / 10 >= 1) by {
            vstd::arithmetic::div_mod::lemma_div_by_self(10);
            vstd::arithmetic::div_mod::lemma_div_is_ordered(10, v as int, 10);
        }
        assert(v / 10 < v) by {
            vstd::arithmetic::div_mod::lemma_div_decreases(v as int, 10);
        }
        lemma_nd_range(v / 10);
        lemma_fundamental_div_mod(v as int, 10);
        lemma_pow10_unfold(nd(v) as nat);
        lemma_pow10_unfold(nd(v / 10) as nat);
        vstd::arithmetic::div_mod::lemma_mod_bound(v as int, 10);
        assert(10 * pow10((nd(v / 10) - 1) as nat) <= 10 * (v as int / 10)) by (nonlinear_arith)
            requires
                pow10((nd(v / 10) - 1) as nat) <= v as int / 10,
        ;
        assert(10 * (v as int / 10) <= 10 * (pow10(nd(v / 10) as nat) - 1)) by (nonlinear_arith)
            requires
                v as int / 10 <= pow10(nd(v / 10) as nat) - 1,
        ;
        assert(v as int == 10 * (v as int / 10) + v as int % 10);
    }
}

/// A decimal digit character.
pub open spec fn is_digit_char(c: char) -> bool {
    48 <= c as int <= 57
}

/// The character for one digit.
pub open spec fn digit_char(d: u8) -> char {
    ((48 + d) as u8) as char
}

/// How a digit sequence renders: most significant digit first.
pub open spec fn text_of(s: Seq<u8>) -> Seq<char> {
    Seq::new(s.len(), |i: int| digit_char(s[s.len() - 1 - i]))
}

/// How digit text reads back: reversed, each character's digit value.
pub open spec fn digits_of_text(t: Seq<char>) -> Seq<u8> {
    Seq::new(t.len(), |i: int| (t[t.len() - 1 - i] as int - 48) as u8)
}

} // verus!
