//! The ring of integers, in arbitrary precision.

use vstd::prelude::*;
use crate::traits::{
    AssertUnit, CoefficientDomain, CommutativeRing, FromUsize, RingSpec, divides, from_nat,
    is_gcd, is_unit, nilpotent, pow, recip, lemma_recip_is,
};

verus! {

/// The number that bytes denote as little-endian digits in base 256.
pub open spec fn unsigned_le(s: Seq<u8>) -> nat
    decreases s.len(),
{
    if s.len() == 0 {
        0
    } else {
        s[0] as nat + 256 * unsigned_le(s.drop_first())
    }
}

/// `256` to the power `n`.
pub open spec fn pow256(n: nat) -> nat
    decreases n,
{
    if n == 0 {
        1
    } else {
        256 * pow256((n - 1) as nat)
    }
}

/// The integer that bytes denote in two's complement, least significant byte
/// first. No bytes denote zero.
pub open spec fn signed_le(s: Seq<u8>) -> int {
    if s.len() > 0 && s.last() >= 128 {
        unsigned_le(s) - pow256(s.len())
    } else {
        unsigned_le(s) as int
    }
}

/// Whether `d * q == a` for some integer `q`.
pub open spec fn int_divides(d: int, a: int) -> bool {
    exists|q: int| #[trigger] (d * q) == a
}

/// An integer of any size, held as its two's complement bytes, least
/// significant first.
#[derive(Debug)]
pub struct Integer {
    pub bytes: Vec<u8>,
}

/// `num::BigInt::from` on an `i64`, as the bytes that
/// `BigInt::to_signed_bytes_le` gives: they denote `n`.
#[verifier::external_body]
fn bytes_of_i64(n: i64) -> (r: Vec<u8>)
    ensures
        signed_le(r@) == n,
{
    num::BigInt::from(n).to_signed_bytes_le()
}

/// `num::BigInt::from` on a `usize`: the bytes denote `n`.
#[verifier::external_body]
fn bytes_of_usize(n: usize) -> (r: Vec<u8>)
    ensures
        signed_le(r@) == n,
{
    num::BigInt::from(n).to_signed_bytes_le()
}

/// `num::ToPrimitive::to_i64` on a `BigInt`: the number where it fits in an
/// `i64`, nothing where it does not.
#[verifier::external_body]
fn bytes_to_i64(a: &Vec<u8>) -> (r: Option<i64>)
    ensures
        r is Some <==> i64::MIN <= signed_le(a@) <= i64::MAX,
        r matches Some(n) ==> n == signed_le(a@),
{
    num::ToPrimitive::to_i64(&num::BigInt::from_signed_bytes_le(a))
}

/// The `+` of `num::BigInt`: the exact sum.
#[verifier::external_body]
fn bytes_sum(a: &Vec<u8>, b: &Vec<u8>) -> (r: Vec<u8>)
    ensures
        signed_le(r@) == signed_le(a@) + signed_le(b@),
{
    (num::BigInt::from_signed_bytes_le(a) + num::BigInt::from_signed_bytes_le(b)).to_signed_bytes_le()
}

/// The `*` of `num::BigInt`: the exact product.
#[verifier::external_body]
fn bytes_product(a: &Vec<u8>, b: &Vec<u8>) -> (r: Vec<u8>)
    ensures
        signed_le(r@) == signed_le(a@) * signed_le(b@),
{
    (num::BigInt::from_signed_bytes_le(a) * num::BigInt::from_signed_bytes_le(b)).to_signed_bytes_le()
}

/// The unary `-` of `num::BigInt`.
#[verifier::external_body]
fn bytes_negated(a: &Vec<u8>) -> (r: Vec<u8>)
    ensures
        signed_le(r@) == -signed_le(a@),
{
    (-num::BigInt::from_signed_bytes_le(a)).to_signed_bytes_le()
}

/// `num::Zero::is_zero` on a `BigInt`.
#[verifier::external_body]
fn bytes_is_zero(a: &Vec<u8>) -> (r: bool)
    ensures
        r == (signed_le(a@) == 0),
{
    num::Zero::is_zero(&num::BigInt::from_signed_bytes_le(a))
}

/// `num::One::is_one` on a `BigInt`.
#[verifier::external_body]
fn bytes_is_one(a: &Vec<u8>) -> (r: bool)
    ensures
        r == (signed_le(a@) == 1),
{
    num::One::is_one(&num::BigInt::from_signed_bytes_le(a))
}

/// `num::Signed::is_negative` on a `BigInt`.
#[verifier::external_body]
fn bytes_is_negative(a: &Vec<u8>) -> (r: bool)
    ensures
        r == (signed_le(a@) < 0),
{
    num::Signed::is_negative(&num::BigInt::from_signed_bytes_le(a))
}

/// The `==` of `num::BigInt`: whether the numbers are equal.
#[verifier::external_body]
fn bytes_same_number(a: &Vec<u8>, b: &Vec<u8>) -> (r: bool)
    ensures
        r == (signed_le(a@) == signed_le(b@)),
{
    num::BigInt::from_signed_bytes_le(a) == num::BigInt::from_signed_bytes_le(b)
}

/// `num::Integer::gcd` on `BigInt`: the non-negative greatest common divisor,
/// a common divisor that every common divisor divides.
#[verifier::external_body]
fn bytes_gcd(a: &Vec<u8>, b: &Vec<u8>) -> (r: Vec<u8>)
    ensures
        signed_le(r@) >= 0,
        int_divides(signed_le(r@), signed_le(a@)),
        int_divides(signed_le(r@), signed_le(b@)),
        forall|d: int|
            #[trigger] int_divides(d, signed_le(a@)) && int_divides(d, signed_le(b@))
                ==> int_divides(d, signed_le(r@)),
{
    let x = num::BigInt::from_signed_bytes_le(a);
    num::Integer::gcd(&x, &num::BigInt::from_signed_bytes_le(b)).to_signed_bytes_le()
}

impl Integer {
    /// The integer `n`.
    pub fn from_i64(n: i64) -> (r: Integer)
        ensures
            r@ == n,
    {
        Integer { bytes: bytes_of_i64(n) }
    }

    /// The number as an `i64`, where it fits.
    pub fn to_i64(&self) -> (r: Option<i64>)
        ensures
            r is Some <==> i64::MIN <= self@ <= i64::MAX,
            r matches Some(n) ==> n == self@,
    {
        bytes_to_i64(&self.bytes)
    }

    /// Whether the number is below zero.
    pub fn is_negative(&self) -> (b: bool)
        ensures
            b == (self@ < 0),
    {
        bytes_is_negative(&self.bytes)
    }

    /// The absolute value.
    pub fn abs(&self) -> (r: Integer)
        ensures
            r@ == if self@ < 0 { -self@ } else { self@ },
    {
        if self.is_negative() {
            self.neg()
        } else {
            self.duplicate()
        }
    }
}

/// An integer with an inverse is `1` or `-1`.
pub proof fn lemma_int_units(a: int)
    ensures
        is_unit::<Integer>(a) <==> (a == 1 || a == -1),
{
    if a == 1 || a == -1 {
        assert(Integer::mul_v(a, a) == 1);
    }
    if is_unit::<Integer>(a) {
        let b = recip::<Integer>(a);
        assert(a * b == 1);
        assert(a == 1 || a == -1) by (nonlinear_arith)
            requires
                a * b == 1,
        ;
    }
}

/// A power of an integer is zero only if the integer is.
pub proof fn lemma_int_pow_zero(a: int, n: nat)
    requires
        pow::<Integer>(a, n) == 0,
    ensures
        a == 0,
    decreases n,
{
    if n > 0 {
        let p = pow::<Integer>(a, (n - 1) as nat);
        assert(a == 0 || p == 0) by (nonlinear_arith)
            requires
                a * p == 0,
        ;
        if a != 0 {
            lemma_int_pow_zero(a, (n - 1) as nat);
        }
    }
}

/// The image of `n` in the integers is `n`.
pub proof fn lemma_int_from_nat(n: nat)
    ensures
        from_nat::<Integer>(n) == n,
    decreases n,
{
    if n > 0 {
        lemma_int_from_nat((n - 1) as nat);
    }
}

impl RingSpec for Integer {
    type V = int;

    open spec fn view(&self) -> int {
        signed_le(self.bytes@)
    }

    open spec fn member(v: int) -> bool {
        true
    }

    open spec fn zero_v() -> int {
        0
    }

    open spec fn one_v() -> int {
        1
    }

    open spec fn add_v(a: int, b: int) -> int {
        a + b
    }

    open spec fn neg_v(a: int) -> int {
        -a
    }

    open spec fn mul_v(a: int, b: int) -> int {
        a * b
    }

    proof fn law_view_member(x: &Self) {
    }

    proof fn law_closed(a: int, b: int) {
    }

    proof fn law_add_comm(a: int, b: int) {
    }

    proof fn law_add_assoc(a: int, b: int, c: int) {
    }

    proof fn law_add_zero(a: int) {
    }

    proof fn law_add_neg(a: int) {
    }

    proof fn law_mul_comm(a: int, b: int) {
        assert(a * b == b * a) by (nonlinear_arith);
    }

    proof fn law_mul_assoc(a: int, b: int, c: int) {
        assert((a * b) * c == a * (b * c)) by (nonlinear_arith);
    }

    proof fn law_mul_one(a: int) {
    }

    proof fn law_distrib(a: int, b: int, c: int) {
        assert(a * (b + c) == a * b + a * c) by (nonlinear_arith);
    }
}

impl CommutativeRing for Integer {
    fn zero() -> (r: Self) {
        Integer::from_i64(0)
    }

    fn one() -> (r: Self) {
        Integer::from_i64(1)
    }

    fn is_zero(&self) -> (b: bool) {
        bytes_is_zero(&self.bytes)
    }

    fn is_one(&self) -> (b: bool) {
        bytes_is_one(&self.bytes)
    }

    fn equals(&self, other: &Self) -> (b: bool) {
        bytes_same_number(&self.bytes, &other.bytes)
    }

    fn duplicate(&self) -> (r: Self) {
        Integer { bytes: self.bytes.clone() }
    }

    fn add(&self, other: &Self) -> (r: Self) {
        Integer { bytes: bytes_sum(&self.bytes, &other.bytes) }
    }

    fn neg(&self) -> (r: Self) {
        Integer { bytes: bytes_negated(&self.bytes) }
    }

    fn mul(&self, other: &Self) -> (r: Self) {
        Integer { bytes: bytes_product(&self.bytes, &other.bytes) }
    }

    /// The units of the integers are `1` and `-1`, each its own inverse.
    fn invert(x: &AssertUnit<Self>) -> (r: AssertUnit<Self>) {
        let u = x.get().duplicate();
        proof {
            lemma_int_units(u@);
            lemma_recip_is::<Integer>(u@, u@);
        }
        AssertUnit::new(u)
    }

    fn assert_is_unit(self) -> (r: AssertUnit<Self>) {
        AssertUnit::new(self)
    }

    fn is_nilpotent(&self) -> (b: bool) {
        let b = self.is_zero();
        proof {
            if b {
                assert(pow::<Integer>(0, 1) == 0 * pow::<Integer>(0, 0));
            }
            if nilpotent::<Integer>(self@) {
                let n = choose|n: nat| #[trigger] pow::<Integer>(self@, n) == 0;
                lemma_int_pow_zero(self@, n);
            }
        }
        b
    }
}

impl CoefficientDomain for Integer {
    /// The sign of a number, with `1` for zero.
    open spec fn unit_part_v(a: int) -> int {
        if a < 0 {
            -1
        } else {
            1
        }
    }

    /// The absolute value.
    open spec fn normal_v(a: int) -> int {
        if a < 0 {
            -a
        } else {
            a
        }
    }

    /// Any two integers have a greatest common divisor; that of zero and
    /// zero is zero.
    open spec fn gcd_defined(a: int, b: int) -> bool {
        true
    }

    proof fn law_gcd_defined(a: int, b: int) {
    }

    proof fn law_no_zero_divisors(a: int, b: int) {
        assert(a == 0 || b == 0) by (nonlinear_arith)
            requires
                a * b == 0,
        ;
    }

    proof fn law_one_not_zero() {
    }

    proof fn law_unit_normal(a: int) {
        lemma_int_units(Self::unit_part_v(a));
    }

    proof fn law_normal_associates(u: int, a: int) {
        lemma_int_units(u);
        assert(u * a == a || u * a == -a) by (nonlinear_arith)
            requires
                u == 1 || u == -1,
        ;
    }

    fn unit_and_normal(self) -> (r: (AssertUnit<Self>, Self)) {
        proof {
            lemma_int_units(1);
            lemma_int_units(-1);
        }
        if self.is_negative() {
            (Integer::from_i64(-1).assert_is_unit(), self.neg())
        } else {
            (Integer::from_i64(1).assert_is_unit(), self)
        }
    }

    /// The greatest common divisor that is not negative.
    fn gcd(&self, other: &Self) -> (r: Self)
        ensures
            r@ >= 0,
    {
        let r = Integer { bytes: bytes_gcd(&self.bytes, &other.bytes) };
        proof {
            lemma_int_gcd(r@, self@, other@);
        }
        r
    }
}

/// Divisibility in the ring of integers is divisibility of integers.
pub proof fn lemma_int_divides(d: int, a: int)
    ensures
        divides::<Integer>(d, a) <==> int_divides(d, a),
{
    if divides::<Integer>(d, a) {
        let q = choose|q: int| Integer::member(q) && #[trigger] Integer::mul_v(d, q) == a;
        assert(d * q == a);
    }
    if int_divides(d, a) {
        let q = choose|q: int| #[trigger] (d * q) == a;
        assert(Integer::mul_v(d, q) == a);
    }
}

/// A greatest common divisor of integers is one in the ring of integers.
pub proof fn lemma_int_gcd(g: int, a: int, b: int)
    requires
        int_divides(g, a),
        int_divides(g, b),
        forall|d: int| #[trigger] int_divides(d, a) && int_divides(d, b) ==> int_divides(d, g),
    ensures
        is_gcd::<Integer>(g, a, b),
{
    lemma_int_divides(g, a);
    lemma_int_divides(g, b);
    assert forall|d: int|
        Integer::member(d) && #[trigger] divides::<Integer>(d, a) && divides::<Integer>(
            d,
            b,
        ) implies divides::<Integer>(d, g) by {
        lemma_int_divides(d, a);
        lemma_int_divides(d, b);
        lemma_int_divides(d, g);
    }
}

impl FromUsize for Integer {
    fn from_usize(n: usize) -> (r: Self) {
        proof {
            lemma_int_from_nat(n as nat);
        }
        Integer { bytes: bytes_of_usize(n) }
    }
}

/// The sign and the absolute value of a machine integer whose negative
/// fits: the sign is `1` for zero.
pub fn i64_unit_and_normal(x: i64) -> (r: (i64, i64))
    requires
        x != i64::MIN,
    ensures
        r.0 == (if x < 0 {
            -1i64
        } else {
            1i64
        }),
        r.1 == (if x < 0 {
            -x
        } else {
            x as int
        }),
        r.0 * r.1 == x,
{
    if x < 0 {
        (-1, -x)
    } else {
        (1, x)
    }
}

} // verus!
