//! The algebraic structures that coefficients belong to.
//!
//! Every structure is described over the mathematical values of its elements:
//! an element `x` denotes the value `x@`, the operations are total functions on
//! values, and the ring laws are proof obligations of each implementation.

use vstd::prelude::*;

verus! {

/// The mathematical description of a commutative ring.
///
/// The operations are total on `V`; the carrier of the ring is the set of
/// values for which `member` holds. Every operation lands in the carrier, and
/// the value of every element lies in it.
pub trait RingSpec: Sized {
    /// The mathematical value that an element denotes.
    type V;

    /// The value of an element.
    spec fn view(&self) -> Self::V;

    /// Whether a value belongs to the ring.
    spec fn member(v: Self::V) -> bool;

    /// The additive identity.
    spec fn zero_v() -> Self::V;

    /// The multiplicative identity.
    spec fn one_v() -> Self::V;

    /// The sum of two values.
    spec fn add_v(a: Self::V, b: Self::V) -> Self::V;

    /// The additive inverse of a value.
    spec fn neg_v(a: Self::V) -> Self::V;

    /// The product of two values.
    spec fn mul_v(a: Self::V, b: Self::V) -> Self::V;

    /// The value of every element belongs to the ring.
    proof fn law_view_member(x: &Self)
        ensures
            Self::member(x.view()),
    ;

    /// The identities belong to the ring and every operation lands in it.
    proof fn law_closed(a: Self::V, b: Self::V)
        ensures
            Self::member(Self::zero_v()),
            Self::member(Self::one_v()),
            Self::member(Self::add_v(a, b)),
            Self::member(Self::neg_v(a)),
            Self::member(Self::mul_v(a, b)),
    ;

    /// Addition is commutative.
    proof fn law_add_comm(a: Self::V, b: Self::V)
        ensures
            Self::add_v(a, b) == Self::add_v(b, a),
    ;

    /// Addition is associative.
    proof fn law_add_assoc(a: Self::V, b: Self::V, c: Self::V)
        ensures
            Self::add_v(Self::add_v(a, b), c) == Self::add_v(a, Self::add_v(b, c)),
    ;

    /// Zero is the identity of addition.
    proof fn law_add_zero(a: Self::V)
        requires
            Self::member(a),
        ensures
            Self::add_v(a, Self::zero_v()) == a,
    ;

    /// A value and its negative add up to zero.
    proof fn law_add_neg(a: Self::V)
        ensures
            Self::add_v(a, Self::neg_v(a)) == Self::zero_v(),
    ;

    /// Multiplication is commutative.
    proof fn law_mul_comm(a: Self::V, b: Self::V)
        ensures
            Self::mul_v(a, b) == Self::mul_v(b, a),
    ;

    /// Multiplication is associative.
    proof fn law_mul_assoc(a: Self::V, b: Self::V, c: Self::V)
        ensures
            Self::mul_v(Self::mul_v(a, b), c) == Self::mul_v(a, Self::mul_v(b, c)),
    ;

    /// One is the identity of multiplication.
    proof fn law_mul_one(a: Self::V)
        requires
            Self::member(a),
        ensures
            Self::mul_v(a, Self::one_v()) == a,
    ;

    /// Multiplication distributes over addition.
    proof fn law_distrib(a: Self::V, b: Self::V, c: Self::V)
        ensures
            Self::mul_v(a, Self::add_v(b, c)) == Self::add_v(Self::mul_v(a, b), Self::mul_v(a, c)),
    ;
}

/// `a - b`, that is `a + (-b)`.
pub open spec fn sub_v<R: RingSpec>(a: R::V, b: R::V) -> R::V {
    R::add_v(a, R::neg_v(b))
}

/// Whether `a` has a multiplicative inverse in the ring.
pub open spec fn is_unit<R: RingSpec>(a: R::V) -> bool {
    exists|b: R::V| R::member(b) && #[trigger] R::mul_v(a, b) == R::one_v()
}

/// The multiplicative inverse of a unit.
pub open spec fn recip<R: RingSpec>(a: R::V) -> R::V {
    choose|b: R::V| R::member(b) && #[trigger] R::mul_v(a, b) == R::one_v()
}

/// Whether `d` divides `a` in the ring.
pub open spec fn divides<R: RingSpec>(d: R::V, a: R::V) -> bool {
    exists|q: R::V| R::member(q) && #[trigger] R::mul_v(d, q) == a
}

/// Whether `g` is a greatest common divisor of `a` and `b`: a common divisor
/// that every common divisor divides.
pub open spec fn is_gcd<R: RingSpec>(g: R::V, a: R::V, b: R::V) -> bool {
    &&& R::member(g)
    &&& divides::<R>(g, a)
    &&& divides::<R>(g, b)
    &&& forall|d: R::V|
        R::member(d) && #[trigger] divides::<R>(d, a) && divides::<R>(d, b) ==> divides::<R>(d, g)
}

/// The `n`-th power of `a`.
pub open spec fn pow<R: RingSpec>(a: R::V, n: nat) -> R::V
    decreases n,
{
    if n == 0 {
        R::one_v()
    } else {
        R::mul_v(a, pow::<R>(a, (n - 1) as nat))
    }
}

/// Whether some power of `a` is zero.
pub open spec fn nilpotent<R: RingSpec>(a: R::V) -> bool {
    exists|n: nat| #[trigger] pow::<R>(a, n) == R::zero_v()
}

/// The image of the natural number `n` in the ring: `1 + 1 + ... + 1`.
pub open spec fn from_nat<R: RingSpec>(n: nat) -> R::V
    decreases n,
{
    if n == 0 {
        R::zero_v()
    } else {
        R::add_v(from_nat::<R>((n - 1) as nat), R::one_v())
    }
}

/// Whether no natural number from 1 to `bound` collapses to zero in the ring.
pub open spec fn distinguishes_up_to<R: RingSpec>(bound: nat) -> bool {
    forall|n: nat| 0 < n <= bound ==> #[trigger] from_nat::<R>(n) != R::zero_v()
}

pub broadcast proof fn lemma_member_zero<R: RingSpec>()
    ensures
        #[trigger] R::member(R::zero_v()),
{
    R::law_closed(R::zero_v(), R::zero_v());
}

pub broadcast proof fn lemma_member_one<R: RingSpec>()
    ensures
        #[trigger] R::member(R::one_v()),
{
    R::law_closed(R::zero_v(), R::zero_v());
}

pub broadcast proof fn lemma_member_add<R: RingSpec>(a: R::V, b: R::V)
    ensures
        #[trigger] R::member(R::add_v(a, b)),
{
    R::law_closed(a, b);
}

pub broadcast proof fn lemma_member_neg<R: RingSpec>(a: R::V)
    ensures
        #[trigger] R::member(R::neg_v(a)),
{
    R::law_closed(a, a);
}

pub broadcast proof fn lemma_member_mul<R: RingSpec>(a: R::V, b: R::V)
    ensures
        #[trigger] R::member(R::mul_v(a, b)),
{
    R::law_closed(a, b);
}

/// Closure of the ring under its operations.
pub broadcast group group_ring_closed {
    lemma_member_zero,
    lemma_member_one,
    lemma_member_add,
    lemma_member_neg,
    lemma_member_mul,
}

pub proof fn lemma_zero_add<R: RingSpec>(a: R::V)
    requires
        R::member(a),
    ensures
        R::add_v(R::zero_v(), a) == a,
{
    R::law_add_comm(R::zero_v(), a);
    R::law_add_zero(a);
}

pub proof fn lemma_one_mul<R: RingSpec>(a: R::V)
    requires
        R::member(a),
    ensures
        R::mul_v(R::one_v(), a) == a,
{
    R::law_mul_comm(R::one_v(), a);
    R::law_mul_one(a);
}

pub proof fn lemma_add_cancel<R: RingSpec>(a: R::V, b: R::V, c: R::V)
    requires
        R::member(a),
        R::member(b),
        R::add_v(a, c) == R::add_v(b, c),
    ensures
        a == b,
{
    let nc = R::neg_v(c);
    R::law_add_zero(a);
    R::law_add_zero(b);
    R::law_add_neg(c);
    R::law_add_assoc(a, c, nc);
    R::law_add_assoc(b, c, nc);
}

pub proof fn lemma_mul_zero<R: RingSpec>(a: R::V)
    ensures
        R::mul_v(a, R::zero_v()) == R::zero_v(),
        R::mul_v(R::zero_v(), a) == R::zero_v(),
{
    broadcast use group_ring_closed;

    let o = R::zero_v();
    let z = R::mul_v(a, o);
    R::law_distrib(a, o, o);
    R::law_add_zero(o);
    lemma_zero_add::<R>(z);
    lemma_add_cancel::<R>(o, z, z);
    R::law_mul_comm(a, o);
}

pub proof fn lemma_neg_unique<R: RingSpec>(a: R::V, b: R::V)
    requires
        R::member(b),
        R::add_v(a, b) == R::zero_v(),
    ensures
        b == R::neg_v(a),
{
    broadcast use group_ring_closed;

    R::law_add_comm(a, b);
    R::law_add_neg(a);
    R::law_add_comm(a, R::neg_v(a));
    lemma_add_cancel::<R>(b, R::neg_v(a), a);
}

pub proof fn lemma_neg_zero<R: RingSpec>()
    ensures
        R::neg_v(R::zero_v()) == R::zero_v(),
{
    broadcast use group_ring_closed;

    R::law_add_zero(R::zero_v());
    lemma_neg_unique::<R>(R::zero_v(), R::zero_v());
}

/// `(a + b) + (c + d) == (a + c) + (b + d)`.
pub proof fn lemma_add_shuffle<R: RingSpec>(a: R::V, b: R::V, c: R::V, d: R::V)
    ensures
        R::add_v(R::add_v(a, b), R::add_v(c, d)) == R::add_v(R::add_v(a, c), R::add_v(b, d)),
{
    R::law_add_assoc(a, b, R::add_v(c, d));
    R::law_add_assoc(b, c, d);
    R::law_add_comm(b, c);
    R::law_add_assoc(c, b, d);
    R::law_add_assoc(a, c, R::add_v(b, d));
}

pub proof fn lemma_distrib_right<R: RingSpec>(a: R::V, b: R::V, c: R::V)
    ensures
        R::mul_v(R::add_v(a, b), c) == R::add_v(R::mul_v(a, c), R::mul_v(b, c)),
{
    R::law_mul_comm(R::add_v(a, b), c);
    R::law_distrib(c, a, b);
    R::law_mul_comm(c, a);
    R::law_mul_comm(c, b);
}

pub proof fn lemma_mul_neg<R: RingSpec>(a: R::V, b: R::V)
    ensures
        R::mul_v(a, R::neg_v(b)) == R::neg_v(R::mul_v(a, b)),
        R::mul_v(R::neg_v(a), b) == R::neg_v(R::mul_v(a, b)),
{
    broadcast use group_ring_closed;

    R::law_distrib(a, b, R::neg_v(b));
    R::law_add_neg(b);
    lemma_mul_zero::<R>(a);
    lemma_neg_unique::<R>(R::mul_v(a, b), R::mul_v(a, R::neg_v(b)));
    R::law_distrib(b, a, R::neg_v(a));
    R::law_add_neg(a);
    lemma_mul_zero::<R>(b);
    lemma_neg_unique::<R>(R::mul_v(b, a), R::mul_v(b, R::neg_v(a)));
    R::law_mul_comm(a, b);
    R::law_mul_comm(R::neg_v(a), b);
}

/// `a - a == 0`, and `(a - b) + b == a`.
pub proof fn lemma_sub_add<R: RingSpec>(a: R::V, b: R::V)
    requires
        R::member(a),
    ensures
        R::add_v(sub_v::<R>(a, b), b) == a,
        sub_v::<R>(a, a) == R::zero_v(),
{
    R::law_add_assoc(a, R::neg_v(b), b);
    R::law_add_comm(R::neg_v(b), b);
    R::law_add_neg(b);
    R::law_add_zero(a);
    R::law_add_neg(a);
}

/// `(a * b) * (c * d) == (a * c) * (b * d)`.
pub proof fn lemma_mul_shuffle<R: RingSpec>(a: R::V, b: R::V, c: R::V, d: R::V)
    ensures
        R::mul_v(R::mul_v(a, b), R::mul_v(c, d)) == R::mul_v(R::mul_v(a, c), R::mul_v(b, d)),
{
    R::law_mul_assoc(a, b, R::mul_v(c, d));
    R::law_mul_assoc(b, c, d);
    R::law_mul_comm(b, c);
    R::law_mul_assoc(c, b, d);
    R::law_mul_assoc(a, c, R::mul_v(b, d));
}

/// A value has at most one inverse.
pub proof fn lemma_inverse_unique<R: RingSpec>(a: R::V, b: R::V, c: R::V)
    requires
        R::member(b),
        R::member(c),
        R::mul_v(a, b) == R::one_v(),
        R::mul_v(a, c) == R::one_v(),
    ensures
        b == c,
{
    R::law_mul_one(b);
    R::law_mul_assoc(b, a, c);
    R::law_mul_comm(b, a);
    lemma_one_mul::<R>(c);
}

/// The inverse of a unit is in the ring and multiplies with it to one.
pub proof fn lemma_recip<R: RingSpec>(a: R::V)
    requires
        is_unit::<R>(a),
    ensures
        R::member(recip::<R>(a)),
        R::mul_v(a, recip::<R>(a)) == R::one_v(),
        R::mul_v(recip::<R>(a), a) == R::one_v(),
{
    R::law_mul_comm(a, recip::<R>(a));
}

/// Whoever multiplies with `a` to one is the inverse of `a`.
pub proof fn lemma_recip_is<R: RingSpec>(a: R::V, b: R::V)
    requires
        R::member(b),
        R::mul_v(a, b) == R::one_v(),
    ensures
        is_unit::<R>(a),
        recip::<R>(a) == b,
{
    lemma_recip::<R>(a);
    lemma_inverse_unique::<R>(a, recip::<R>(a), b);
}

/// `(x + t) + (r - t) == x + r`.
pub proof fn lemma_add_sub_cancel<R: RingSpec>(x: R::V, t: R::V, r: R::V)
    ensures
        R::add_v(R::add_v(x, t), sub_v::<R>(r, t)) == R::add_v(x, r),
{
    broadcast use group_ring_closed;

    lemma_add_shuffle::<R>(x, t, r, R::neg_v(t));
    R::law_add_neg(t);
    R::law_add_zero(R::add_v(x, r));
}

/// If `x + r == a` then `r == a - x`.
pub proof fn lemma_sub_unique<R: RingSpec>(x: R::V, r: R::V, a: R::V)
    requires
        R::member(r),
        R::add_v(x, r) == a,
    ensures
        r == sub_v::<R>(a, x),
{
    R::law_add_comm(x, r);
    R::law_add_assoc(r, x, R::neg_v(x));
    R::law_add_neg(x);
    R::law_add_zero(r);
}

/// If `x + r == y + s` then `x - y == s - r`.
pub proof fn lemma_eq_rearrange<R: RingSpec>(x: R::V, r: R::V, y: R::V, s: R::V)
    requires
        R::add_v(x, r) == R::add_v(y, s),
    ensures
        sub_v::<R>(x, y) == sub_v::<R>(s, r),
{
    broadcast use group_ring_closed;

    let ny = R::neg_v(y);
    let nr = R::neg_v(r);
    lemma_add_shuffle::<R>(x, r, ny, nr);
    lemma_add_shuffle::<R>(y, s, ny, nr);
    R::law_add_neg(r);
    R::law_add_neg(y);
    R::law_add_zero(R::add_v(x, ny));
    lemma_zero_add::<R>(R::add_v(s, nr));
}

/// If `a - b == 0` then `a == b`.
pub proof fn lemma_sub_zero_eq<R: RingSpec>(a: R::V, b: R::V)
    requires
        R::member(a),
        R::member(b),
        sub_v::<R>(a, b) == R::zero_v(),
    ensures
        a == b,
{
    R::law_add_neg(b);
    lemma_add_cancel::<R>(a, b, R::neg_v(b));
}

/// `(a - b) * c == a * c - b * c`, and `c * (a - b) == c * a - c * b`.
pub proof fn lemma_mul_sub<R: RingSpec>(a: R::V, b: R::V, c: R::V)
    ensures
        R::mul_v(sub_v::<R>(a, b), c) == sub_v::<R>(R::mul_v(a, c), R::mul_v(b, c)),
        R::mul_v(c, sub_v::<R>(a, b)) == sub_v::<R>(R::mul_v(c, a), R::mul_v(c, b)),
{
    lemma_distrib_right::<R>(a, R::neg_v(b), c);
    lemma_mul_neg::<R>(b, c);
    R::law_distrib(c, a, R::neg_v(b));
    lemma_mul_neg::<R>(c, b);
}

pub proof fn lemma_divides_refl<R: RingSpec>(a: R::V)
    requires
        R::member(a),
    ensures
        divides::<R>(a, a),
        divides::<R>(R::one_v(), a),
{
    broadcast use group_ring_closed;

    R::law_mul_one(a);
    assert(R::mul_v(a, R::one_v()) == a);
    lemma_one_mul::<R>(a);
    assert(R::mul_v(R::one_v(), a) == a);
}

pub proof fn lemma_divides_zero<R: RingSpec>(d: R::V)
    ensures
        divides::<R>(d, R::zero_v()),
{
    broadcast use group_ring_closed;

    lemma_mul_zero::<R>(d);
    assert(R::mul_v(d, R::zero_v()) == R::zero_v());
}

pub proof fn lemma_divides_trans<R: RingSpec>(a: R::V, b: R::V, c: R::V)
    requires
        divides::<R>(a, b),
        divides::<R>(b, c),
    ensures
        divides::<R>(a, c),
{
    broadcast use group_ring_closed;

    let q1 = choose|q: R::V| R::member(q) && #[trigger] R::mul_v(a, q) == b;
    let q2 = choose|q: R::V| R::member(q) && #[trigger] R::mul_v(b, q) == c;
    R::law_mul_assoc(a, q1, q2);
    assert(R::mul_v(a, R::mul_v(q1, q2)) == c);
}

pub proof fn lemma_divides_add<R: RingSpec>(d: R::V, a: R::V, b: R::V)
    requires
        divides::<R>(d, a),
        divides::<R>(d, b),
    ensures
        divides::<R>(d, R::add_v(a, b)),
{
    broadcast use group_ring_closed;

    let q1 = choose|q: R::V| R::member(q) && #[trigger] R::mul_v(d, q) == a;
    let q2 = choose|q: R::V| R::member(q) && #[trigger] R::mul_v(d, q) == b;
    R::law_distrib(d, q1, q2);
    assert(R::mul_v(d, R::add_v(q1, q2)) == R::add_v(a, b));
}

pub proof fn lemma_divides_neg<R: RingSpec>(d: R::V, a: R::V)
    requires
        divides::<R>(d, a),
    ensures
        divides::<R>(d, R::neg_v(a)),
{
    broadcast use group_ring_closed;

    let q = choose|q: R::V| R::member(q) && #[trigger] R::mul_v(d, q) == a;
    lemma_mul_neg::<R>(d, q);
    assert(R::mul_v(d, R::neg_v(q)) == R::neg_v(a));
}

pub proof fn lemma_divides_sub<R: RingSpec>(d: R::V, a: R::V, b: R::V)
    requires
        divides::<R>(d, a),
        divides::<R>(d, b),
    ensures
        divides::<R>(d, sub_v::<R>(a, b)),
{
    lemma_divides_neg::<R>(d, b);
    lemma_divides_add::<R>(d, a, R::neg_v(b));
}

/// A divisor of `a` divides every multiple of `a`.
pub proof fn lemma_divides_mul<R: RingSpec>(d: R::V, a: R::V, c: R::V)
    requires
        divides::<R>(d, a),
        R::member(c),
    ensures
        divides::<R>(d, R::mul_v(a, c)),
        divides::<R>(d, R::mul_v(c, a)),
{
    broadcast use group_ring_closed;

    let q = choose|q: R::V| R::member(q) && #[trigger] R::mul_v(d, q) == a;
    R::law_mul_assoc(d, q, c);
    assert(R::mul_v(d, R::mul_v(q, c)) == R::mul_v(a, c));
    R::law_mul_comm(a, c);
}

/// A factor divides the product.
pub proof fn lemma_factor_divides<R: RingSpec>(a: R::V, b: R::V)
    requires
        R::member(a),
        R::member(b),
    ensures
        divides::<R>(a, R::mul_v(a, b)),
        divides::<R>(b, R::mul_v(a, b)),
{
    assert(R::mul_v(a, b) == R::mul_v(a, b));
    R::law_mul_comm(a, b);
    assert(R::mul_v(b, a) == R::mul_v(a, b));
}

/// `(x + y) + z == (x + z) + y`.
pub proof fn lemma_add_swap<R: RingSpec>(x: R::V, y: R::V, z: R::V)
    ensures
        R::add_v(R::add_v(x, y), z) == R::add_v(R::add_v(x, z), y),
{
    R::law_add_assoc(x, y, z);
    R::law_add_comm(y, z);
    R::law_add_assoc(x, z, y);
}

/// `(x * y) * z == (x * z) * y`, and `x * (y * z) == y * (x * z)`.
pub proof fn lemma_mul_swap<R: RingSpec>(x: R::V, y: R::V, z: R::V)
    ensures
        R::mul_v(R::mul_v(x, y), z) == R::mul_v(R::mul_v(x, z), y),
        R::mul_v(x, R::mul_v(y, z)) == R::mul_v(y, R::mul_v(x, z)),
{
    R::law_mul_assoc(x, y, z);
    R::law_mul_comm(y, z);
    R::law_mul_assoc(x, z, y);
    R::law_mul_comm(x, y);
    R::law_mul_assoc(y, x, z);
}

/// `x * (g * a) + y * (g * b) == g * (x * a + y * b)`.
pub proof fn lemma_combination_factor<R: RingSpec>(x: R::V, y: R::V, g: R::V, a: R::V, b: R::V)
    ensures
        R::add_v(R::mul_v(x, R::mul_v(g, a)), R::mul_v(y, R::mul_v(g, b))) == R::mul_v(
            g,
            R::add_v(R::mul_v(x, a), R::mul_v(y, b)),
        ),
{
    lemma_mul_swap::<R>(x, g, a);
    lemma_mul_swap::<R>(y, g, b);
    R::law_distrib(g, R::mul_v(x, a), R::mul_v(y, b));
}

/// With `r == a - q * b`: `x * b + y * r == y * a + (x - y * q) * b`.
pub proof fn lemma_combination_step<R: RingSpec>(x: R::V, y: R::V, a: R::V, b: R::V, q: R::V)
    ensures
        R::add_v(R::mul_v(x, b), R::mul_v(y, sub_v::<R>(a, R::mul_v(q, b)))) == R::add_v(
            R::mul_v(y, a),
            R::mul_v(sub_v::<R>(x, R::mul_v(y, q)), b),
        ),
{
    let ya = R::mul_v(y, a);
    let xb = R::mul_v(x, b);
    let c = R::mul_v(y, R::mul_v(q, b));
    lemma_mul_sub::<R>(a, R::mul_v(q, b), y);
    lemma_mul_sub::<R>(x, R::mul_v(y, q), b);
    R::law_mul_assoc(y, q, b);
    // xb + (ya - c) == ya + (xb - c)
    R::law_add_assoc(xb, ya, R::neg_v(c));
    R::law_add_comm(xb, ya);
    R::law_add_assoc(ya, xb, R::neg_v(c));
}

/// If `d` divides `a` then `c * d` divides `c * a`.
pub proof fn lemma_divides_scale<R: RingSpec>(c: R::V, d: R::V, a: R::V)
    requires
        divides::<R>(d, a),
    ensures
        divides::<R>(R::mul_v(c, d), R::mul_v(c, a)),
{
    let q = choose|q: R::V| R::member(q) && #[trigger] R::mul_v(d, q) == a;
    R::law_mul_assoc(c, d, q);
    assert(R::mul_v(R::mul_v(c, d), q) == R::mul_v(c, a));
}

/// The image of a sum of natural numbers is the sum of their images.
pub proof fn lemma_from_nat_add<R: RingSpec>(m: nat, n: nat)
    ensures
        from_nat::<R>(m + n) == R::add_v(from_nat::<R>(m), from_nat::<R>(n)),
    decreases n,
{
    broadcast use group_ring_closed;

    if n == 0 {
        lemma_from_nat_member::<R>(m);
        R::law_add_zero(from_nat::<R>(m));
    } else {
        lemma_from_nat_add::<R>(m, (n - 1) as nat);
        assert(m + n - 1 == m + (n - 1));
        R::law_add_assoc(from_nat::<R>(m), from_nat::<R>((n - 1) as nat), R::one_v());
    }
}

/// The image of a natural number is in the ring.
pub proof fn lemma_from_nat_member<R: RingSpec>(n: nat)
    ensures
        R::member(from_nat::<R>(n)),
{
    broadcast use group_ring_closed;

}

/// Every power of one is one.
pub proof fn lemma_pow_one<R: RingSpec>(n: nat)
    ensures
        pow::<R>(R::one_v(), n) == R::one_v(),
    decreases n,
{
    broadcast use group_ring_closed;

    if n > 0 {
        lemma_pow_one::<R>((n - 1) as nat);
        R::law_mul_one(R::one_v());
    }
}

/// The first power of an element of the ring is the element.
pub proof fn lemma_pow_first<R: RingSpec>(a: R::V)
    requires
        R::member(a),
    ensures
        pow::<R>(a, 1) == a,
{
    assert(pow::<R>(a, 1) == R::mul_v(a, pow::<R>(a, 0)));
    R::law_mul_one(a);
}

/// A power of a product is the product of the powers.
pub proof fn lemma_pow_mul<R: RingSpec>(a: R::V, b: R::V, n: nat)
    ensures
        pow::<R>(R::mul_v(a, b), n) == R::mul_v(pow::<R>(a, n), pow::<R>(b, n)),
    decreases n,
{
    broadcast use group_ring_closed;

    if n > 0 {
        let m = (n - 1) as nat;
        lemma_pow_mul::<R>(a, b, m);
        lemma_mul_shuffle::<R>(a, b, pow::<R>(a, m), pow::<R>(b, m));
    } else {
        R::law_mul_one(R::one_v());
    }
}

/// `(e * (r * g)) * (s * g)^j == ((e * s^j) * r) * g^(j+1)`.
pub proof fn lemma_regroup_powers<R: RingSpec>(e: R::V, r: R::V, g: R::V, s: R::V, j: nat)
    ensures
        R::mul_v(R::mul_v(e, R::mul_v(r, g)), pow::<R>(R::mul_v(s, g), j)) == R::mul_v(
            R::mul_v(R::mul_v(e, pow::<R>(s, j)), r),
            pow::<R>(g, j + 1),
        ),
{
    let sj = pow::<R>(s, j);
    let gj = pow::<R>(g, j);
    lemma_pow_mul::<R>(s, g, j);
    lemma_mul_shuffle::<R>(e, R::mul_v(r, g), sj, gj);
    R::law_mul_assoc(r, g, gj);
    R::law_mul_assoc(R::mul_v(e, sj), r, R::mul_v(g, gj));
    assert(pow::<R>(g, j + 1) == R::mul_v(g, pow::<R>(g, j)));
}

/// `a^(m+n) == a^m * a^n`.
pub proof fn lemma_pow_add<R: RingSpec>(a: R::V, m: nat, n: nat)
    ensures
        pow::<R>(a, m + n) == R::mul_v(pow::<R>(a, m), pow::<R>(a, n)),
    decreases m,
{
    broadcast use group_ring_closed;

    if m == 0 {
        lemma_pow_member::<R>(a, n);
        lemma_one_mul::<R>(pow::<R>(a, n));
    } else {
        let k = (m - 1) as nat;
        lemma_pow_add::<R>(a, k, n);
        assert(m + n - 1 == k + n);
        R::law_mul_assoc(a, pow::<R>(a, k), pow::<R>(a, n));
    }
}

/// A power is in the ring.
pub proof fn lemma_pow_member<R: RingSpec>(a: R::V, n: nat)
    ensures
        R::member(pow::<R>(a, n)),
{
    broadcast use group_ring_closed;

}

/// An element known to be a unit of its ring.
pub struct AssertUnit<T: RingSpec>(T);

impl<T: RingSpec> AssertUnit<T> {
    #[verifier::type_invariant]
    spec fn holds_unit(self) -> bool {
        is_unit::<T>(self.0@)
    }

    /// The element that was found to be a unit.
    pub closed spec fn inner(self) -> T {
        self.0
    }

    /// Wraps an element that is a unit.
    pub fn new(x: T) -> (r: Self)
        requires
            is_unit::<T>(x@),
        ensures
            r.inner() == x,
    {
        AssertUnit(x)
    }

    /// A look at the unit.
    pub fn get(&self) -> (r: &T)
        ensures
            *r == self.inner(),
            is_unit::<T>(r@),
    {
        proof {
            use_type_invariant(self);
        }
        &self.0
    }

    /// The unit itself.
    pub fn into_inner(self) -> (r: T)
        ensures
            r == self.inner(),
            is_unit::<T>(r@),
    {
        proof {
            use_type_invariant(&self);
        }
        self.0
    }
}

/// A commutative ring whose elements can be computed with.
pub trait CommutativeRing: RingSpec {
    /// The additive identity.
    fn zero() -> (r: Self)
        ensures
            r@ == Self::zero_v(),
    ;

    /// The multiplicative identity.
    fn one() -> (r: Self)
        ensures
            r@ == Self::one_v(),
    ;

    /// Whether this is the additive identity.
    fn is_zero(&self) -> (b: bool)
        ensures
            b == (self@ == Self::zero_v()),
    ;

    /// Whether this is the multiplicative identity.
    fn is_one(&self) -> (b: bool)
        ensures
            b == (self@ == Self::one_v()),
    ;

    /// Whether two elements denote the same value.
    fn equals(&self, other: &Self) -> (b: bool)
        ensures
            b == (self@ == other@),
    ;

    /// Another element of the same value.
    fn duplicate(&self) -> (r: Self)
        ensures
            r@ == self@,
    ;

    /// The sum.
    fn add(&self, other: &Self) -> (r: Self)
        ensures
            r@ == Self::add_v(self@, other@),
    ;

    /// The additive inverse.
    fn neg(&self) -> (r: Self)
        ensures
            r@ == Self::neg_v(self@),
    ;

    /// The product.
    fn mul(&self, other: &Self) -> (r: Self)
        ensures
            r@ == Self::mul_v(self@, other@),
    ;

    /// The difference: `self + (-other)`.
    fn sub(&self, other: &Self) -> (r: Self)
        ensures
            r@ == sub_v::<Self>(self@, other@),
    {
        self.add(&other.neg())
    }

    /// The inverse of a known unit.
    fn invert(x: &AssertUnit<Self>) -> (r: AssertUnit<Self>)
        ensures
            r.inner()@ == recip::<Self>(x.inner()@),
            Self::mul_v(x.inner()@, r.inner()@) == Self::one_v(),
    ;

    /// Records that this element is a unit.
    fn assert_is_unit(self) -> (r: AssertUnit<Self>)
        requires
            is_unit::<Self>(self@),
        ensures
            r.inner() == self,
    ;

    /// Whether some power of this element is zero.
    fn is_nilpotent(&self) -> (b: bool)
        ensures
            b == nilpotent::<Self>(self@),
    ;
}

/// Inversion that reports when there is no inverse.
pub trait CheckedInv: CommutativeRing {
    /// The inverse, or nothing where there is none.
    fn checked_inv(&self) -> (r: Option<Self>)
        ensures
            r is Some <==> is_unit::<Self>(self@),
            r matches Some(b) ==> b@ == recip::<Self>(self@) && Self::mul_v(self@, b@)
                == Self::one_v(),
    ;
}

/// A domain whose elements split into a unit and a canonical associate, and
/// in which greatest common divisors exist.
pub trait CoefficientDomain: CommutativeRing {
    /// The unit part of a value.
    spec fn unit_part_v(a: Self::V) -> Self::V;

    /// The canonical associate of a value.
    spec fn normal_v(a: Self::V) -> Self::V;

    /// Whether the domain gives a greatest common divisor of two values.
    spec fn gcd_defined(a: Self::V, b: Self::V) -> bool;

    /// Of two values that are not both zero, every domain gives a greatest
    /// common divisor.
    proof fn law_gcd_defined(a: Self::V, b: Self::V)
        requires
            a != Self::zero_v() || b != Self::zero_v(),
        ensures
            Self::gcd_defined(a, b),
    ;

    /// A product is zero only if a factor is.
    proof fn law_no_zero_divisors(a: Self::V, b: Self::V)
        requires
            Self::member(a),
            Self::member(b),
            Self::mul_v(a, b) == Self::zero_v(),
        ensures
            a == Self::zero_v() || b == Self::zero_v(),
    ;

    /// The domain is not the zero ring.
    proof fn law_one_not_zero()
        ensures
            Self::one_v() != Self::zero_v(),
    ;

    /// A value is the product of its unit part, which is a unit, and its
    /// canonical associate.
    proof fn law_unit_normal(a: Self::V)
        requires
            Self::member(a),
        ensures
            Self::member(Self::unit_part_v(a)),
            Self::member(Self::normal_v(a)),
            is_unit::<Self>(Self::unit_part_v(a)),
            Self::mul_v(Self::unit_part_v(a), Self::normal_v(a)) == a,
    ;

    /// Values that differ by a unit have the same canonical associate.
    proof fn law_normal_associates(u: Self::V, a: Self::V)
        requires
            Self::member(u),
            Self::member(a),
            is_unit::<Self>(u),
        ensures
            Self::normal_v(Self::mul_v(u, a)) == Self::normal_v(a),
    ;

    /// The unit part and the canonical associate.
    fn unit_and_normal(self) -> (r: (AssertUnit<Self>, Self))
        ensures
            r.0.inner()@ == Self::unit_part_v(self@),
            r.1@ == Self::normal_v(self@),
    ;

    /// A greatest common divisor, where the domain gives one.
    fn gcd(&self, other: &Self) -> (r: Self)
        requires
            Self::gcd_defined(self@, other@),
        ensures
            is_gcd::<Self>(r@, self@, other@),
    ;
}

/// A ring into which machine integers can be lifted.
pub trait FromUsize: RingSpec {
    /// The image of `n`: the sum of `n` ones.
    fn from_usize(n: usize) -> (r: Self)
        ensures
            r@ == from_nat::<Self>(n as nat),
    ;
}

/// A field: a commutative ring, not the zero ring, in which every non-zero
/// element has an inverse.
pub trait Field: CommutativeRing + CheckedInv {
    /// One is not zero.
    proof fn law_nontrivial()
        ensures
            Self::one_v() != Self::zero_v(),
    ;

    /// Every element but zero has an inverse.
    proof fn law_inverse(a: Self::V)
        requires
            Self::member(a),
            a != Self::zero_v(),
        ensures
            is_unit::<Self>(a),
    ;

    /// `self / other`, or nothing when `other` has no inverse.
    fn div(self, other: Self) -> (r: Option<Self>)
        ensures
            r is Some <==> other@ != Self::zero_v(),
            r matches Some(q) ==> q@ == Self::mul_v(self@, recip::<Self>(other@)),
    {
        proof {
            Self::law_view_member(&other);
            Self::law_nontrivial();
            if other@ != Self::zero_v() {
                Self::law_inverse(other@);
            } else if is_unit::<Self>(other@) {
                lemma_recip::<Self>(other@);
                lemma_mul_zero::<Self>(recip::<Self>(other@));
            }
        }
        match other.checked_inv() {
            Some(b) => Some(self.mul(&b)),
            None => None,
        }
    }
}

/// In a field, a product is zero only if a factor is.
pub proof fn lemma_field_no_zero_divisors<F: Field>(a: F::V, b: F::V)
    requires
        F::member(a),
        F::member(b),
        F::mul_v(a, b) == F::zero_v(),
    ensures
        a == F::zero_v() || b == F::zero_v(),
{
    if a != F::zero_v() {
        F::law_inverse(a);
        lemma_recip::<F>(a);
        let i = recip::<F>(a);
        lemma_one_mul::<F>(b);
        F::law_mul_assoc(i, a, b);
        lemma_mul_zero::<F>(i);
    }
}

/// In a domain, a factor that is not zero can be cancelled.
pub proof fn lemma_domain_cancel<K: CoefficientDomain>(x: K::V, y: K::V, n: K::V)
    requires
        K::member(x),
        K::member(y),
        K::member(n),
        n != K::zero_v(),
        K::mul_v(x, n) == K::mul_v(y, n),
    ensures
        x == y,
{
    broadcast use group_ring_closed;

    lemma_mul_sub::<K>(x, y, n);
    lemma_sub_add::<K>(K::mul_v(x, n), K::mul_v(x, n));
    K::law_no_zero_divisors(sub_v::<K>(x, y), n);
    lemma_sub_zero_eq::<K>(x, y);
}

} // verus!
