//! The field of rational numbers, in arbitrary precision.

use vstd::prelude::*;
use crate::integer::Integer;
use crate::traits::{
    AssertUnit, CheckedInv, CoefficientDomain, CommutativeRing, Field, FromUsize, RingSpec,
    divides, from_nat, is_gcd, is_unit, nilpotent, pow, recip, lemma_recip_is,
};

verus! {

/// The rational number `n / d`.
pub open spec fn quotient(n: int, d: int) -> real {
    n as real / d as real
}

/// Whether no number above one divides both `a` and `b`.
pub open spec fn coprime_ints(a: int, b: int) -> bool {
    forall|k: int| k > 1 ==> !(#[trigger] (a % k) == 0 && b % k == 0)
}

/// Whether `n / d` is a fraction in lowest terms: the denominator is positive
/// and no number above one divides both.
pub open spec fn lowest_terms(n: int, d: int) -> bool {
    d > 0 && coprime_ints(n, d)
}

/// The numerator and the denominator of a rational number in lowest terms.
pub open spec fn lowest_pair(v: real) -> (int, int) {
    choose|nd: (int, int)| lowest_terms(nd.0, nd.1) && #[trigger] quotient(nd.0, nd.1) == v
}

/// A rational number of any size: a fraction in lowest terms.
#[derive(Debug)]
pub struct Rational {
    numer: Integer,
    denom: Integer,
}

/// `num::BigRational::new`, taken apart by `into_raw`: the same number in
/// lowest terms.
#[verifier::external_body]
fn ratio_reduced(n: &Integer, d: &Integer) -> (r: (Integer, Integer))
    requires
        d@ != 0,
    ensures
        lowest_terms(r.0@, r.1@),
        quotient(r.0@, r.1@) == quotient(n@, d@),
{
    let f = num::BigInt::from_signed_bytes_le;
    let (p, q) = num::BigRational::new(f(&n.bytes), f(&d.bytes)).into_raw();
    (Integer { bytes: p.to_signed_bytes_le() }, Integer { bytes: q.to_signed_bytes_le() })
}

/// `num::BigRational::from` on the `num::BigInt` of a `usize`: the number `n`
/// in lowest terms.
#[verifier::external_body]
fn ratio_of_usize(n: usize) -> (r: (Integer, Integer))
    ensures
        lowest_terms(r.0@, r.1@),
        quotient(r.0@, r.1@) == n as real,
{
    let (p, q) = num::BigRational::from(num::BigInt::from(n)).into_raw();
    (Integer { bytes: p.to_signed_bytes_le() }, Integer { bytes: q.to_signed_bytes_le() })
}

/// The `+` of `num::BigRational`: the exact sum, in lowest terms.
#[verifier::external_body]
fn ratio_sum(a: &Rational, b: &Rational) -> (r: (Integer, Integer))
    requires
        a.denom@ != 0,
        b.denom@ != 0,
    ensures
        lowest_terms(r.0@, r.1@),
        quotient(r.0@, r.1@) == a@ + b@,
{
    let f = num::BigInt::from_signed_bytes_le;
    let x = num::BigRational::new(f(&a.numer.bytes), f(&a.denom.bytes));
    let y = num::BigRational::new(f(&b.numer.bytes), f(&b.denom.bytes));
    let (p, q) = (x + y).into_raw();
    (Integer { bytes: p.to_signed_bytes_le() }, Integer { bytes: q.to_signed_bytes_le() })
}

/// The `*` of `num::BigRational`: the exact product, in lowest
/// terms.
#[verifier::external_body]
fn ratio_product(a: &Rational, b: &Rational) -> (r: (Integer, Integer))
    requires
        a.denom@ != 0,
        b.denom@ != 0,
    ensures
        lowest_terms(r.0@, r.1@),
        quotient(r.0@, r.1@) == a@ * b@,
{
    let f = num::BigInt::from_signed_bytes_le;
    let x = num::BigRational::new(f(&a.numer.bytes), f(&a.denom.bytes));
    let y = num::BigRational::new(f(&b.numer.bytes), f(&b.denom.bytes));
    let (p, q) = (x * y).into_raw();
    (Integer { bytes: p.to_signed_bytes_le() }, Integer { bytes: q.to_signed_bytes_le() })
}

/// The unary `-` of `num::BigRational`, in lowest terms.
#[verifier::external_body]
fn ratio_negated(a: &Rational) -> (r: (Integer, Integer))
    requires
        a.denom@ != 0,
    ensures
        lowest_terms(r.0@, r.1@),
        quotient(r.0@, r.1@) == -a@,
{
    let f = num::BigInt::from_signed_bytes_le;
    let (p, q) = (-num::BigRational::new(f(&a.numer.bytes), f(&a.denom.bytes))).into_raw();
    (Integer { bytes: p.to_signed_bytes_le() }, Integer { bytes: q.to_signed_bytes_le() })
}

/// `num::BigRational::recip`, which panics on zero: the reciprocal of a
/// non-zero number, in lowest terms.
#[verifier::external_body]
fn ratio_recip(a: &Rational) -> (r: (Integer, Integer))
    requires
        a.denom@ != 0,
        a@ != 0real,
    ensures
        lowest_terms(r.0@, r.1@),
        quotient(r.0@, r.1@) == 1real / a@,
{
    let f = num::BigInt::from_signed_bytes_le;
    let (p, q) = num::BigRational::new(f(&a.numer.bytes), f(&a.denom.bytes)).recip().into_raw();
    (Integer { bytes: p.to_signed_bytes_le() }, Integer { bytes: q.to_signed_bytes_le() })
}

/// `num::Zero::is_zero` on a `BigRational`.
#[verifier::external_body]
fn ratio_is_zero(a: &Rational) -> (r: bool)
    requires
        a.denom@ != 0,
    ensures
        r == (a@ == 0real),
{
    let f = num::BigInt::from_signed_bytes_le;
    num::Zero::is_zero(&num::BigRational::new(f(&a.numer.bytes), f(&a.denom.bytes)))
}

/// `num::One::is_one` on a `BigRational`.
#[verifier::external_body]
fn ratio_is_one(a: &Rational) -> (r: bool)
    requires
        a.denom@ != 0,
    ensures
        r == (a@ == 1real),
{
    let f = num::BigInt::from_signed_bytes_le;
    num::One::is_one(&num::BigRational::new(f(&a.numer.bytes), f(&a.denom.bytes)))
}

/// `num::Signed::is_negative` on a `BigRational`.
#[verifier::external_body]
fn ratio_is_negative(a: &Rational) -> (r: bool)
    requires
        a.denom@ != 0,
    ensures
        r == (a@ < 0real),
{
    let f = num::BigInt::from_signed_bytes_le;
    num::Signed::is_negative(&num::BigRational::new(f(&a.numer.bytes), f(&a.denom.bytes)))
}

/// The `==` of `num::BigRational`: whether the numbers are equal.
#[verifier::external_body]
fn ratio_same_number(a: &Rational, b: &Rational) -> (r: bool)
    requires
        a.denom@ != 0,
        b.denom@ != 0,
    ensures
        r == (a@ == b@),
{
    let f = num::BigInt::from_signed_bytes_le;
    let x = num::BigRational::new(f(&a.numer.bytes), f(&a.denom.bytes));
    x == num::BigRational::new(f(&b.numer.bytes), f(&b.denom.bytes))
}

impl Rational {
    #[verifier::type_invariant]
    spec fn in_lowest_terms(self) -> bool {
        lowest_terms(self.numer@, self.denom@)
    }

    /// The number `numer / denom`.
    pub fn new(numer: Integer, denom: Integer) -> (r: Rational)
        requires
            denom@ != 0,
        ensures
            r@ == quotient(numer@, denom@),
    {
        let (n, d) = ratio_reduced(&numer, &denom);
        Rational { numer: n, denom: d }
    }

    /// The whole number `n`.
    pub fn from_integer(n: Integer) -> (r: Rational)
        ensures
            r@ == n@ as real,
    {
        Rational::new(n, Integer::from_i64(1))
    }

    /// The number `n / d`.
    pub fn from_i64s(n: i64, d: i64) -> (r: Rational)
        requires
            d != 0,
        ensures
            r@ == quotient(n as int, d as int),
    {
        Rational::new(Integer::from_i64(n), Integer::from_i64(d))
    }

    /// The numerator of the number in lowest terms.
    pub fn numer(&self) -> (n: Integer)
        ensures
            n@ == self.numer_v(),
    {
        self.numer.duplicate()
    }

    /// The denominator of the number in lowest terms, which is positive.
    pub fn denom(&self) -> (d: Integer)
        ensures
            d@ == self.denom_v(),
            d@ > 0,
    {
        proof {
            use_type_invariant(self);
        }
        self.denom.duplicate()
    }

    /// The numerator held.
    pub closed spec fn numer_v(&self) -> int {
        self.numer@
    }

    /// The denominator held.
    pub closed spec fn denom_v(&self) -> int {
        self.denom@
    }

    /// Numerator and denominator of the number in lowest terms.
    pub fn parts(&self) -> (r: (Integer, Integer))
        ensures
            r.0@ == self.numer_v(),
            r.1@ == self.denom_v(),
            lowest_terms(r.0@, r.1@),
            self@ == quotient(r.0@, r.1@),
    {
        proof {
            use_type_invariant(self);
        }
        (self.numer.duplicate(), self.denom.duplicate())
    }

    /// Whether the number is below zero.
    pub fn is_negative(&self) -> (b: bool)
        ensures
            b == (self@ < 0real),
    {
        proof {
            use_type_invariant(self);
        }
        ratio_is_negative(self)
    }

    /// The absolute value.
    pub fn abs(&self) -> (r: Rational)
        ensures
            r@ == if self@ < 0real { -self@ } else { self@ },
    {
        if self.is_negative() {
            self.neg()
        } else {
            self.duplicate()
        }
    }
}

/// A rational number has an inverse exactly if it is not zero.
pub proof fn lemma_rational_units(a: real)
    ensures
        is_unit::<Rational>(a) <==> a != 0real,
        a != 0real ==> recip::<Rational>(a) == 1real / a,
{
    if a != 0real {
        let b = 1real / a;
        assert(a * b == 1real) by (nonlinear_arith)
            requires
                a != 0real,
                b == 1real / a,
        ;
        assert(Rational::mul_v(a, b) == 1real);
        lemma_recip_is::<Rational>(a, b);
    }
    if is_unit::<Rational>(a) {
        let b = recip::<Rational>(a);
        assert(Rational::mul_v(a, b) == 1real);
        assert(a != 0real) by (nonlinear_arith)
            requires
                a * b == 1real,
        ;
    }
}

/// A power of a rational number is zero only if the number is.
pub proof fn lemma_rational_pow_zero(a: real, n: nat)
    requires
        pow::<Rational>(a, n) == 0real,
    ensures
        a == 0real,
    decreases n,
{
    if n > 0 {
        let p = pow::<Rational>(a, (n - 1) as nat);
        assert(a == 0real || p == 0real) by (nonlinear_arith)
            requires
                a * p == 0real,
        ;
        if a != 0real {
            lemma_rational_pow_zero(a, (n - 1) as nat);
        }
    }
}

/// The image of `n` in the rational numbers is `n`.
pub proof fn lemma_rational_from_nat(n: nat)
    ensures
        from_nat::<Rational>(n) == n as real,
    decreases n,
{
    if n > 0 {
        lemma_rational_from_nat((n - 1) as nat);
        assert(((n - 1) as nat) as real + 1real == n as real);
    }
}

/// The rational numbers tell every positive natural number from zero.
pub proof fn lemma_rational_distinguishes(bound: nat)
    ensures
        crate::traits::distinguishes_up_to::<Rational>(bound),
{
    assert forall|n: nat| 0 < n <= bound implies #[trigger] from_nat::<Rational>(n)
        != Rational::zero_v() by {
        lemma_rational_from_nat(n);
    }
}

impl RingSpec for Rational {
    type V = real;

    closed spec fn view(&self) -> real {
        quotient(self.numer@, self.denom@)
    }

    open spec fn member(v: real) -> bool {
        true
    }

    open spec fn zero_v() -> real {
        0real
    }

    open spec fn one_v() -> real {
        1real
    }

    open spec fn add_v(a: real, b: real) -> real {
        a + b
    }

    open spec fn neg_v(a: real) -> real {
        -a
    }

    open spec fn mul_v(a: real, b: real) -> real {
        a * b
    }

    proof fn law_view_member(x: &Self) {
    }

    proof fn law_closed(a: real, b: real) {
    }

    proof fn law_add_comm(a: real, b: real) {
    }

    proof fn law_add_assoc(a: real, b: real, c: real) {
    }

    proof fn law_add_zero(a: real) {
    }

    proof fn law_add_neg(a: real) {
    }

    proof fn law_mul_comm(a: real, b: real) {
        assert(a * b == b * a) by (nonlinear_arith);
    }

    proof fn law_mul_assoc(a: real, b: real, c: real) {
        assert((a * b) * c == a * (b * c)) by (nonlinear_arith);
    }

    proof fn law_mul_one(a: real) {
        assert(a * 1real == a) by (nonlinear_arith);
    }

    proof fn law_distrib(a: real, b: real, c: real) {
        assert(a * (b + c) == a * b + a * c) by (nonlinear_arith);
    }
}

impl CommutativeRing for Rational {
    fn zero() -> (r: Self) {
        let (n, d) = ratio_of_usize(0);
        Rational { numer: n, denom: d }
    }

    fn one() -> (r: Self) {
        let (n, d) = ratio_of_usize(1);
        Rational { numer: n, denom: d }
    }

    fn is_zero(&self) -> (b: bool) {
        proof {
            use_type_invariant(self);
        }
        ratio_is_zero(self)
    }

    fn is_one(&self) -> (b: bool) {
        proof {
            use_type_invariant(self);
        }
        ratio_is_one(self)
    }

    fn equals(&self, other: &Self) -> (b: bool) {
        proof {
            use_type_invariant(self);
            use_type_invariant(other);
        }
        ratio_same_number(self, other)
    }

    fn duplicate(&self) -> (r: Self) {
        proof {
            use_type_invariant(self);
        }
        Rational { numer: self.numer.duplicate(), denom: self.denom.duplicate() }
    }

    fn add(&self, other: &Self) -> (r: Self) {
        proof {
            use_type_invariant(self);
            use_type_invariant(other);
        }
        let (n, d) = ratio_sum(self, other);
        Rational { numer: n, denom: d }
    }

    fn neg(&self) -> (r: Self) {
        proof {
            use_type_invariant(self);
        }
        let (n, d) = ratio_negated(self);
        Rational { numer: n, denom: d }
    }

    fn mul(&self, other: &Self) -> (r: Self) {
        proof {
            use_type_invariant(self);
            use_type_invariant(other);
        }
        let (n, d) = ratio_product(self, other);
        Rational { numer: n, denom: d }
    }

    fn invert(x: &AssertUnit<Self>) -> (r: AssertUnit<Self>) {
        let u = x.get();
        proof {
            use_type_invariant(u);
            lemma_rational_units(u@);
        }
        let (n, d) = ratio_recip(u);
        let v = Rational { numer: n, denom: d };
        proof {
            lemma_rational_units(v@);
            assert(v@ != 0real) by (nonlinear_arith)
                requires
                    u@ != 0real,
                    v@ == 1real / u@,
            ;
            crate::traits::lemma_recip::<Rational>(u@);
        }
        AssertUnit::new(v)
    }

    fn assert_is_unit(self) -> (r: AssertUnit<Self>) {
        AssertUnit::new(self)
    }

    fn is_nilpotent(&self) -> (b: bool) {
        let b = self.is_zero();
        proof {
            if b {
                assert(pow::<Rational>(0real, 1) == 0real * pow::<Rational>(0real, 0));
                assert(0real * pow::<Rational>(0real, 0) == 0real) by (nonlinear_arith);
            }
            if nilpotent::<Rational>(self@) {
                let n = choose|n: nat| #[trigger] pow::<Rational>(self@, n) == 0real;
                lemma_rational_pow_zero(self@, n);
            }
        }
        b
    }
}

impl CheckedInv for Rational {
    fn checked_inv(&self) -> (r: Option<Self>) {
        proof {
            use_type_invariant(self);
            lemma_rational_units(self@);
        }
        if self.is_zero() {
            None
        } else {
            let (n, d) = ratio_recip(self);
            let v = Rational { numer: n, denom: d };
            proof {
                crate::traits::lemma_recip::<Rational>(self@);
            }
            Some(v)
        }
    }
}

impl Field for Rational {
    proof fn law_nontrivial() {
    }

    proof fn law_inverse(a: real) {
        lemma_rational_units(a);
    }
}

impl CoefficientDomain for Rational {
    /// A non-zero number is its own unit part; that of zero is one.
    open spec fn unit_part_v(a: real) -> real {
        if a == 0real {
            1real
        } else {
            a
        }
    }

    /// Zero for zero, one for every other number.
    open spec fn normal_v(a: real) -> real {
        if a == 0real {
            0real
        } else {
            1real
        }
    }

    /// Rational numbers have a greatest common divisor unless both are
    /// zero.
    open spec fn gcd_defined(a: real, b: real) -> bool {
        a != 0real || b != 0real
    }

    proof fn law_gcd_defined(a: real, b: real) {
    }

    proof fn law_no_zero_divisors(a: real, b: real) {
        assert(a == 0real || b == 0real) by (nonlinear_arith)
            requires
                a * b == 0real,
        ;
    }

    proof fn law_one_not_zero() {
    }

    proof fn law_unit_normal(a: real) {
        lemma_rational_units(Self::unit_part_v(a));
        assert(1real * 0real == 0real) by (nonlinear_arith);
        assert(a * 1real == a) by (nonlinear_arith);
    }

    proof fn law_normal_associates(u: real, a: real) {
        lemma_rational_units(u);
        assert(u * a == 0real <==> a == 0real) by (nonlinear_arith)
            requires
                u != 0real,
        ;
    }

    fn unit_and_normal(self) -> (r: (AssertUnit<Self>, Self)) {
        proof {
            lemma_rational_units(1real);
            lemma_rational_units(self@);
        }
        if self.is_zero() {
            (Rational::one().assert_is_unit(), Rational::zero())
        } else {
            (self.assert_is_unit(), Rational::one())
        }
    }

    /// One: every rational number but zero is a unit.
    fn gcd(&self, other: &Self) -> (r: Self)
        ensures
            r@ == 1real,
    {
        let r = Rational::one();
        proof {
            lemma_rational_gcd(self@, other@);
        }
        r
    }
}

/// Every rational number is a multiple of every non-zero one.
pub proof fn lemma_rational_divides(d: real, a: real)
    requires
        d != 0real,
    ensures
        divides::<Rational>(d, a),
{
    let q = a / d;
    assert(d * q == a) by (nonlinear_arith)
        requires
            d != 0real,
            q == a / d,
    ;
    assert(Rational::mul_v(d, q) == a);
}

/// One is a greatest common divisor of rational numbers that are not both
/// zero.
pub proof fn lemma_rational_gcd(a: real, b: real)
    requires
        a != 0real || b != 0real,
    ensures
        is_gcd::<Rational>(1real, a, b),
{
    lemma_rational_divides(1real, a);
    lemma_rational_divides(1real, b);
    assert forall|d: real|
        Rational::member(d) && #[trigger] divides::<Rational>(d, a) && divides::<Rational>(
            d,
            b,
        ) implies divides::<Rational>(d, 1real) by {
        if d == 0real {
            let q = choose|q: real| Rational::member(q) && #[trigger] Rational::mul_v(d, q) == a;
            let p = choose|p: real| Rational::member(p) && #[trigger] Rational::mul_v(d, p) == b;
            assert(0real * q == 0real) by (nonlinear_arith);
            assert(0real * p == 0real) by (nonlinear_arith);
        } else {
            lemma_rational_divides(d, 1real);
        }
    }
}

impl FromUsize for Rational {
    fn from_usize(n: usize) -> (r: Self) {
        proof {
            lemma_rational_from_nat(n as nat);
        }
        let (p, q) = ratio_of_usize(n);
        Rational { numer: p, denom: q }
    }
}

/// A sum of multiples of `k` is a multiple of `k`.
pub proof fn lemma_multiple_sum(k: int, q: int, b: int, r: int)
    requires
        k > 0,
        b % k == 0,
        r % k == 0,
    ensures
        (q * b + r) % k == 0,
{
    let u = b / k;
    let v = r / k;
    vstd::arithmetic::div_mod::lemma_fundamental_div_mod(b, k);
    vstd::arithmetic::div_mod::lemma_fundamental_div_mod(r, k);
    assert(q * b + r == (q * u + v) * k) by (nonlinear_arith)
        requires
            b == k * u,
            r == k * v,
    ;
    vstd::arithmetic::div_mod::lemma_fundamental_div_mod_converse(q * b + r, k, q * u + v, 0);
}

/// Bezout's identity for integers without a common divisor.
pub proof fn lemma_int_bezout(a: int, b: int) -> (xy: (int, int))
    requires
        a >= 0,
        b >= 0,
        a + b > 0,
        coprime_ints(a, b),
    ensures
        xy.0 * a + xy.1 * b == 1,
    decreases b,
{
    if b == 0 {
        if a > 1 {
            assert(a % a == 0) by (nonlinear_arith)
                requires
                    a > 1,
            ;
            assert(b % a == 0);
        }
        (1, 0)
    } else {
        let q = a / b;
        let r = a % b;
        vstd::arithmetic::div_mod::lemma_fundamental_div_mod(a, b);
        assert(a == q * b + r) by (nonlinear_arith)
            requires
                a == b * q + r,
        ;
        assert forall|k: int| k > 1 implies !(#[trigger] (b % k) == 0 && r % k == 0) by {
            if b % k == 0 && r % k == 0 {
                lemma_multiple_sum(k, q, b, r);
                assert(a % k == 0);
            }
        }
        let (x, y) = lemma_int_bezout(b, r);
        assert(y * a + (x - y * q) * b == 1) by (nonlinear_arith)
            requires
                a == q * b + r,
                x * b + y * r == 1,
        ;
        (y, x - y * q)
    }
}

/// What divides a product and has no divisor in common with one factor
/// divides the other.
pub proof fn lemma_int_gauss(d: int, n: int, e: int)
    requires
        d > 0,
        coprime_ints(n, d),
        (n * e) % d == 0,
    ensures
        e % d == 0,
{
    let m = if n < 0 {
        -n
    } else {
        n
    };
    assert forall|k: int| k > 1 implies !(#[trigger] (m % k) == 0 && d % k == 0) by {
        if m % k == 0 && d % k == 0 {
            if n < 0 {
                lemma_multiple_sum(k, -1, m, 0);
                assert(-1 * m + 0 == n);
            }
            assert(n % k == 0);
        }
    }
    let (x, y) = lemma_int_bezout(m, d);
    let x2 = if n < 0 {
        -x
    } else {
        x
    };
    assert(x2 * n + y * d == 1) by (nonlinear_arith)
        requires
            x * m + y * d == 1,
            m == (if n < 0 {
                -n
            } else {
                n
            }),
            x2 == (if n < 0 {
                -x
            } else {
                x
            }),
    ;
    let c = (n * e) / d;
    vstd::arithmetic::div_mod::lemma_fundamental_div_mod(n * e, d);
    assert(e == (x2 * c + y * e) * d) by (nonlinear_arith)
        requires
            x2 * n + y * d == 1,
            n * e == d * c,
    ;
    vstd::arithmetic::div_mod::lemma_fundamental_div_mod_converse(e, d, x2 * c + y * e, 0);
}

/// Equal fractions in lowest terms have the same numerator and the same
/// denominator.
pub proof fn lemma_lowest_unique(n: int, d: int, n2: int, d2: int)
    requires
        lowest_terms(n, d),
        lowest_terms(n2, d2),
        n * d2 == n2 * d,
    ensures
        n == n2,
        d == d2,
{
    vstd::arithmetic::div_mod::lemma_fundamental_div_mod_converse(n * d2, d, n2, 0);
    lemma_int_gauss(d, n, d2);
    assert(n2 * d == n * d2);
    vstd::arithmetic::div_mod::lemma_fundamental_div_mod_converse(n2 * d, d2, n, 0);
    lemma_int_gauss(d2, n2, d);
    let c = d2 / d;
    let c2 = d / d2;
    vstd::arithmetic::div_mod::lemma_fundamental_div_mod(d2, d);
    vstd::arithmetic::div_mod::lemma_fundamental_div_mod(d, d2);
    assert(d == d2) by (nonlinear_arith)
        requires
            d > 0,
            d2 > 0,
            d2 == d * c,
            d == d2 * c2,
    ;
    assert(n == n2) by (nonlinear_arith)
        requires
            d > 0,
            n * d == n2 * d,
    ;
}

/// Fractions with positive denominators that denote the same number are
/// equal after cross-multiplication.
pub proof fn lemma_cross_multiply(n: int, d: int, n2: int, d2: int)
    requires
        d > 0,
        d2 > 0,
        quotient(n, d) == quotient(n2, d2),
    ensures
        n * d2 == n2 * d,
{
    let a = n as real;
    let b = d as real;
    let c = n2 as real;
    let e = d2 as real;
    assert(a * e == c * b) by (nonlinear_arith)
        requires
            b > 0real,
            e > 0real,
            a / b == c / e,
    ;
    assert((n * d2) as real == a * e) by (nonlinear_arith)
        requires
            a == n as real,
            e == d2 as real,
    ;
    assert((n2 * d) as real == c * b) by (nonlinear_arith)
        requires
            c == n2 as real,
            b == d as real,
    ;
}

/// A fraction in lowest terms is the lowest terms of its number.
pub proof fn lemma_lowest_pair(n: int, d: int)
    requires
        lowest_terms(n, d),
    ensures
        lowest_pair(quotient(n, d)) == (n, d),
{
    let v = quotient(n, d);
    assert(lowest_terms((n, d).0, (n, d).1) && quotient((n, d).0, (n, d).1) == v);
    let nd = lowest_pair(v);
    lemma_cross_multiply(nd.0, nd.1, n, d);
    lemma_lowest_unique(nd.0, nd.1, n, d);
}

} // verus!
