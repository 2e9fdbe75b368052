//! The value of a polynomial at a point.

use vstd::prelude::*;
use crate::poly_ring::lemma_pmul_last;
use crate::polynomial::{
    Polynomial, coeff, group_poly, lemma_trim, padd, pconst, pmul, pscale, pshift,
};
use crate::traits::{
    CommutativeRing, RingSpec, group_ring_closed, lemma_add_shuffle, lemma_distrib_right,
    lemma_mul_swap, lemma_mul_zero, lemma_pow_add, lemma_zero_add, pow,
};

verus! {

/// The sum of `p_i * x^i` over `0 <= i < n`.
pub open spec fn esum<R: RingSpec>(p: Seq<R::V>, x: R::V, n: nat) -> R::V
    decreases n,
{
    if n == 0 {
        R::zero_v()
    } else {
        R::add_v(
            esum::<R>(p, x, (n - 1) as nat),
            R::mul_v(coeff::<R>(p, n - 1), pow::<R>(x, (n - 1) as nat)),
        )
    }
}

/// The value of the polynomial `p` at `x`.
pub open spec fn peval<R: RingSpec>(p: Seq<R::V>, x: R::V) -> R::V {
    esum::<R>(p, x, p.len())
}

pub broadcast proof fn lemma_esum_member<R: RingSpec>(p: Seq<R::V>, x: R::V, n: nat)
    ensures
        R::member(#[trigger] esum::<R>(p, x, n)),
{
    broadcast use group_ring_closed;

}

/// Terms beyond the degree add nothing.
pub proof fn lemma_esum_beyond<R: RingSpec>(p: Seq<R::V>, x: R::V, n: nat)
    requires
        n >= p.len(),
    ensures
        esum::<R>(p, x, n) == peval::<R>(p, x),
    decreases n,
{
    broadcast use {group_ring_closed, lemma_esum_member};

    if n > p.len() {
        lemma_esum_beyond::<R>(p, x, (n - 1) as nat);
        lemma_mul_zero::<R>(pow::<R>(x, (n - 1) as nat));
        R::law_add_zero(esum::<R>(p, x, (n - 1) as nat));
    }
}

/// The sum depends on the coefficients alone.
pub proof fn lemma_esum_congr<R: RingSpec>(p: Seq<R::V>, q: Seq<R::V>, x: R::V, n: nat)
    requires
        forall|i: int| 0 <= i < n ==> coeff::<R>(p, i) == #[trigger] coeff::<R>(q, i),
    ensures
        esum::<R>(p, x, n) == esum::<R>(q, x, n),
    decreases n,
{
    if n > 0 {
        lemma_esum_congr::<R>(p, q, x, (n - 1) as nat);
        assert(coeff::<R>(p, n - 1) == coeff::<R>(q, n - 1));
    }
}

/// Polynomials with the same coefficients have the same values.
pub proof fn lemma_peval_congr<R: RingSpec>(p: Seq<R::V>, q: Seq<R::V>, x: R::V)
    requires
        forall|i: int| coeff::<R>(p, i) == #[trigger] coeff::<R>(q, i),
    ensures
        peval::<R>(p, x) == peval::<R>(q, x),
{
    let n = if p.len() >= q.len() {
        p.len()
    } else {
        q.len()
    };
    lemma_esum_beyond::<R>(p, x, n);
    lemma_esum_beyond::<R>(q, x, n);
    lemma_esum_congr::<R>(p, q, x, n);
}

proof fn lemma_esum_add<R: RingSpec>(a: Seq<R::V>, b: Seq<R::V>, x: R::V, n: nat)
    ensures
        esum::<R>(padd::<R>(a, b), x, n) == R::add_v(esum::<R>(a, x, n), esum::<R>(b, x, n)),
    decreases n,
{
    broadcast use {group_ring_closed, group_poly};

    if n == 0 {
        R::law_add_zero(R::zero_v());
    } else {
        let m = (n - 1) as nat;
        lemma_esum_add::<R>(a, b, x, m);
        let w = pow::<R>(x, m);
        lemma_distrib_right::<R>(coeff::<R>(a, n - 1), coeff::<R>(b, n - 1), w);
        lemma_add_shuffle::<R>(
            esum::<R>(a, x, m),
            esum::<R>(b, x, m),
            R::mul_v(coeff::<R>(a, n - 1), w),
            R::mul_v(coeff::<R>(b, n - 1), w),
        );
    }
}

/// The value of a sum is the sum of the values.
pub proof fn lemma_peval_add<R: RingSpec>(a: Seq<R::V>, b: Seq<R::V>, x: R::V)
    ensures
        peval::<R>(padd::<R>(a, b), x) == R::add_v(peval::<R>(a, x), peval::<R>(b, x)),
{
    broadcast use {group_ring_closed, group_poly};

    let n = if a.len() >= b.len() {
        a.len()
    } else {
        b.len()
    };
    lemma_esum_beyond::<R>(a, x, n);
    lemma_esum_beyond::<R>(b, x, n);
    lemma_esum_beyond::<R>(padd::<R>(a, b), x, n);
    lemma_esum_add::<R>(a, b, x, n);
}

proof fn lemma_esum_scale<R: RingSpec>(c: R::V, a: Seq<R::V>, x: R::V, n: nat)
    ensures
        esum::<R>(pscale::<R>(c, a), x, n) == R::mul_v(c, esum::<R>(a, x, n)),
    decreases n,
{
    broadcast use {group_ring_closed, group_poly};

    if n == 0 {
        lemma_mul_zero::<R>(c);
    } else {
        let m = (n - 1) as nat;
        lemma_esum_scale::<R>(c, a, x, m);
        let w = pow::<R>(x, m);
        R::law_mul_assoc(c, coeff::<R>(a, n - 1), w);
        R::law_distrib(c, esum::<R>(a, x, m), R::mul_v(coeff::<R>(a, n - 1), w));
    }
}

/// The value of a multiple is the multiple of the value.
pub proof fn lemma_peval_scale<R: RingSpec>(c: R::V, a: Seq<R::V>, x: R::V)
    ensures
        peval::<R>(pscale::<R>(c, a), x) == R::mul_v(c, peval::<R>(a, x)),
{
    broadcast use {group_ring_closed, group_poly};

    lemma_esum_beyond::<R>(pscale::<R>(c, a), x, a.len());
    lemma_esum_scale::<R>(c, a, x, a.len());
}

proof fn lemma_esum_shift_low<R: RingSpec>(a: Seq<R::V>, k: nat, x: R::V, n: nat)
    requires
        n <= k,
    ensures
        esum::<R>(pshift::<R>(a, k), x, n) == R::zero_v(),
    decreases n,
{
    broadcast use {group_ring_closed, group_poly};

    if n > 0 {
        lemma_esum_shift_low::<R>(a, k, x, (n - 1) as nat);
        lemma_mul_zero::<R>(pow::<R>(x, (n - 1) as nat));
        R::law_add_zero(R::zero_v());
    }
}

proof fn lemma_esum_shift<R: RingSpec>(a: Seq<R::V>, k: nat, x: R::V, n: nat)
    ensures
        esum::<R>(pshift::<R>(a, k), x, n + k) == R::mul_v(pow::<R>(x, k), esum::<R>(a, x, n)),
    decreases n,
{
    broadcast use {group_ring_closed, group_poly};

    if n == 0 {
        lemma_esum_shift_low::<R>(a, k, x, k);
        lemma_mul_zero::<R>(pow::<R>(x, k));
    } else {
        let m = (n - 1) as nat;
        lemma_esum_shift::<R>(a, k, x, m);
        assert(n + k - 1 == m + k);
        assert(coeff::<R>(pshift::<R>(a, k), n + k - 1) == coeff::<R>(a, n - 1));
        lemma_pow_add::<R>(x, k, m);
        let c = coeff::<R>(a, n - 1);
        lemma_mul_swap::<R>(c, pow::<R>(x, k), pow::<R>(x, m));
        R::law_distrib(pow::<R>(x, k), esum::<R>(a, x, m), R::mul_v(c, pow::<R>(x, m)));
    }
}

/// The value of `x^k * a` is the `k`-th power of the point times the value
/// of `a`.
pub proof fn lemma_peval_shift<R: RingSpec>(a: Seq<R::V>, k: nat, x: R::V)
    ensures
        peval::<R>(pshift::<R>(a, k), x) == R::mul_v(pow::<R>(x, k), peval::<R>(a, x)),
{
    broadcast use {group_ring_closed, group_poly};

    lemma_esum_beyond::<R>(pshift::<R>(a, k), x, a.len() + k);
    lemma_esum_shift::<R>(a, k, x, a.len());
}

/// The value of a product is the product of the values.
pub proof fn lemma_peval_mul<R: RingSpec>(a: Seq<R::V>, b: Seq<R::V>, x: R::V)
    ensures
        peval::<R>(pmul::<R>(a, b), x) == R::mul_v(peval::<R>(a, x), peval::<R>(b, x)),
    decreases a.len(),
{
    broadcast use {group_ring_closed, group_poly, lemma_esum_member};

    let vb = peval::<R>(b, x);
    if a.len() == 0 {
        crate::poly_ring::lemma_pmul_zero::<R>(a, b);
        lemma_mul_zero::<R>(vb);
    } else {
        let d = a.drop_last();
        let t = a.last();
        let m = (a.len() - 1) as nat;
        let w = pow::<R>(x, m);
        lemma_peval_mul::<R>(d, b, x);
        lemma_pmul_last::<R>(a, b);
        lemma_peval_add::<R>(pmul::<R>(d, b), pscale::<R>(t, pshift::<R>(b, m)), x);
        lemma_peval_scale::<R>(t, pshift::<R>(b, m), x);
        lemma_peval_shift::<R>(b, m, x);
        R::law_mul_assoc(t, w, vb);
        lemma_distrib_right::<R>(peval::<R>(d, x), R::mul_v(t, w), vb);
        assert forall|i: int| 0 <= i < m implies coeff::<R>(a, i) == #[trigger] coeff::<R>(
            d,
            i,
        ) by {}
        lemma_esum_congr::<R>(a, d, x, m);
    }
}

/// The value of a constant polynomial is the constant.
pub proof fn lemma_peval_const<R: RingSpec>(c: R::V, x: R::V)
    requires
        R::member(c),
    ensures
        peval::<R>(pconst::<R>(c), x) == c,
{
    broadcast use {group_ring_closed, group_poly};

    let p = pconst::<R>(c);
    lemma_esum_beyond::<R>(p, x, 1);
    assert(esum::<R>(p, x, 1) == R::add_v(
        esum::<R>(p, x, 0),
        R::mul_v(coeff::<R>(p, 0), pow::<R>(x, 0)),
    ));
    R::law_mul_one(c);
    lemma_zero_add::<R>(c);
}

impl<R: CommutativeRing> Polynomial<R> {
    /// The value of the polynomial at `x`.
    pub fn eval(&self, x: &R) -> (r: R)
        ensures
            r@ == peval::<R>(self@, x@),
    {
        let n = self.coeffs.len();
        let mut acc = R::zero();
        let mut power = R::one();
        let mut i: usize = 0;
        while i < n
            invariant
                i <= n,
                n == self.coeffs.len(),
                acc@ == esum::<R>(self.raw(), x@, i as nat),
                power@ == pow::<R>(x@, i as nat),
            decreases n - i,
        {
            let term = self.coeffs[i].mul(&power);
            acc = acc.add(&term);
            power = x.mul(&power);
            i = i + 1;
        }
        proof {
            lemma_trim::<R>(self.raw());
            assert forall|k: int| coeff::<R>(self.raw(), k) == #[trigger] coeff::<R>(
                self@,
                k,
            ) by {}
            lemma_peval_congr::<R>(self.raw(), self@, x@);
        }
        acc
    }
}

} // verus!
