//! The polynomials over a domain as a ring to compute in, and their
//! splitting into a unit and a normal form.

use vstd::prelude::*;
use crate::euclid::{euclid, lemma_pmul_len};
use crate::poly_ring::{
    lemma_pmul_comm, lemma_pmul_const, lemma_pmul_zero, lemma_pscale_one, lemma_pscale_pscale,
};
use crate::polynomial::{
    Polynomial, coeff, group_poly, lemma_canon_ext, lemma_pok_coeff, pconst, plead, pmul, pok,
    pone, pscale, pzero,
};
use crate::traits::{
    AssertUnit, CoefficientDomain, CommutativeRing, Field, RingSpec, group_ring_closed, is_unit,
    lemma_mul_zero, lemma_one_mul, lemma_recip, lemma_recip_is, nilpotent, pow, recip,
};

verus! {

/// Over a domain, the degree of a product of non-zero polynomials is the
/// sum of the degrees.
pub proof fn lemma_domain_pmul_len<K: CoefficientDomain>(a: Seq<K::V>, b: Seq<K::V>)
    requires
        pok::<K>(a),
        pok::<K>(b),
        a.len() > 0,
        b.len() > 0,
    ensures
        pmul::<K>(a, b).len() == a.len() + b.len() - 1,
        plead::<K>(pmul::<K>(a, b)) == K::mul_v(a.last(), b.last()),
{
    if K::mul_v(a.last(), b.last()) == K::zero_v() {
        K::law_no_zero_divisors(a.last(), b.last());
    }
    lemma_pmul_len::<K>(a, b);
}

/// Over a domain, a product of polynomials is zero only if a factor is.
pub proof fn lemma_domain_no_zero_divisors<K: CoefficientDomain>(a: Seq<K::V>, b: Seq<K::V>)
    requires
        pok::<K>(a),
        pok::<K>(b),
        pmul::<K>(a, b) == pzero::<K>(),
    ensures
        a == pzero::<K>() || b == pzero::<K>(),
{
    if a.len() > 0 && b.len() > 0 {
        lemma_domain_pmul_len::<K>(a, b);
    }
    assert(a.len() == 0 ==> a =~= pzero::<K>());
    assert(b.len() == 0 ==> b =~= pzero::<K>());
}

/// Over a domain, a power of a polynomial is zero only if the polynomial
/// is.
pub proof fn lemma_domain_pow_zero<K: CoefficientDomain>(p: Seq<K::V>, n: nat)
    requires
        pok::<K>(p),
        pow::<Polynomial<K>>(p, n) == pzero::<K>(),
    ensures
        p == pzero::<K>(),
    decreases n,
{
    broadcast use {group_ring_closed, group_poly};

    K::law_one_not_zero();
    if n == 0 {
        assert(pone::<K>() == seq![K::one_v()]);
        assert(false);
    } else {
        let q = pow::<Polynomial<K>>(p, (n - 1) as nat);
        K::law_closed(K::zero_v(), K::zero_v());
        assert(pok::<K>(q));
        lemma_domain_no_zero_divisors::<K>(p, q);
        if p != pzero::<K>() {
            lemma_domain_pow_zero::<K>(p, (n - 1) as nat);
        }
    }
}

/// The constant polynomial of a unit is a unit, with the constant
/// polynomial of the inverse as its inverse.
pub proof fn lemma_const_unit<R: RingSpec>(c: R::V)
    requires
        R::member(c),
        is_unit::<R>(c),
    ensures
        is_unit::<Polynomial<R>>(pconst::<R>(c)),
        recip::<Polynomial<R>>(pconst::<R>(c)) == pconst::<R>(recip::<R>(c)),
        pmul::<R>(pconst::<R>(c), pconst::<R>(recip::<R>(c))) == pone::<R>(),
{
    broadcast use {group_ring_closed, group_poly};

    lemma_recip::<R>(c);
    let i = recip::<R>(c);
    let l = pmul::<R>(pconst::<R>(c), pconst::<R>(i));
    lemma_pmul_const::<R>(c, pconst::<R>(i));
    assert forall|k: int| coeff::<R>(l, k) == #[trigger] coeff::<R>(pone::<R>(), k) by {
        if k != 0 {
            lemma_mul_zero::<R>(c);
        }
    }
    lemma_canon_ext::<R>(l, pone::<R>());
    lemma_recip_is::<Polynomial<R>>(pconst::<R>(c), pconst::<R>(i));
}

/// Over a domain, the units among the polynomials are the constant
/// polynomials of the units.
pub proof fn lemma_domain_unit<K: CoefficientDomain>(p: Seq<K::V>)
    requires
        pok::<K>(p),
        is_unit::<Polynomial<K>>(p),
    ensures
        p.len() == 1,
        is_unit::<K>(p[0]),
        p == pconst::<K>(p[0]),
{
    broadcast use {group_ring_closed, group_poly};

    K::law_one_not_zero();
    lemma_recip::<Polynomial<K>>(p);
    let q = recip::<Polynomial<K>>(p);
    assert(pone::<K>() == seq![K::one_v()]);
    if p.len() == 0 || q.len() == 0 {
        lemma_pmul_zero::<K>(p, q);
        assert(false);
    }
    lemma_domain_pmul_len::<K>(p, q);
    assert(K::mul_v(p[0], q[0]) == K::one_v());
    assert(p =~= pconst::<K>(p[0]));
}

/// The unit part of a polynomial over a domain: the unit part of its
/// leading coefficient, and one for the zero polynomial.
pub open spec fn punit_part<K: CoefficientDomain>(p: Seq<K::V>) -> Seq<K::V> {
    if p.len() == 0 {
        pone::<K>()
    } else {
        pconst::<K>(K::unit_part_v(plead::<K>(p)))
    }
}

/// The normal form of a polynomial over a domain: the polynomial divided by
/// the unit part of its leading coefficient.
pub open spec fn pnormal<K: CoefficientDomain>(p: Seq<K::V>) -> Seq<K::V> {
    if p.len() == 0 {
        pzero::<K>()
    } else {
        pscale::<K>(recip::<K>(K::unit_part_v(plead::<K>(p))), p)
    }
}

/// A polynomial over a domain is the product of its unit part, which is a
/// unit, and its normal form, whose leading coefficient is the canonical
/// associate of the leading coefficient.
pub proof fn lemma_punit_normal<K: CoefficientDomain>(p: Seq<K::V>)
    requires
        pok::<K>(p),
    ensures
        pok::<K>(punit_part::<K>(p)),
        pok::<K>(pnormal::<K>(p)),
        is_unit::<Polynomial<K>>(punit_part::<K>(p)),
        pmul::<K>(punit_part::<K>(p), pnormal::<K>(p)) == p,
        pnormal::<K>(p).len() == p.len(),
        plead::<K>(pnormal::<K>(p)) == (if p.len() == 0 {
            K::zero_v()
        } else {
            K::normal_v(plead::<K>(p))
        }),
{
    broadcast use {group_ring_closed, group_poly};

    K::law_one_not_zero();
    if p.len() == 0 {
        lemma_pmul_zero::<K>(pone::<K>(), pzero::<K>());
        assert(p =~= pzero::<K>());
        K::law_mul_one(K::one_v());
        assert(K::mul_v(K::one_v(), K::one_v()) == K::one_v());
        lemma_const_unit::<K>(K::one_v());
    } else {
        let l = plead::<K>(p);
        lemma_pok_coeff::<K>(p, p.len() - 1);
        K::law_unit_normal(l);
        let u = K::unit_part_v(l);
        lemma_recip::<K>(u);
        let i = recip::<K>(u);
        lemma_const_unit::<K>(u);
        lemma_pmul_const::<K>(u, pnormal::<K>(p));
        lemma_pscale_pscale::<K>(u, i, p);
        lemma_pscale_one::<K>(p);
        // the leading coefficient of the normal form
        K::law_mul_assoc(i, u, K::normal_v(l));
        lemma_one_mul::<K>(K::normal_v(l));
        assert(coeff::<K>(pnormal::<K>(p), p.len() - 1) == K::mul_v(i, l));
        if K::normal_v(l) == K::zero_v() {
            lemma_mul_zero::<K>(u);
            assert(false);
        }
    }
}

impl<K: CoefficientDomain> Polynomial<K> {
    /// The polynomial as a unit times its normal form: the unit is the unit
    /// part of the leading coefficient, and the normal form the polynomial
    /// divided by it. For the zero polynomial the unit is one.
    pub fn unit_and_normal(self) -> (r: (AssertUnit<Self>, Self))
        ensures
            r.0.inner()@ == punit_part::<K>(self@),
            r.1@ == pnormal::<K>(self@),
    {
        proof {
            Self::law_view_member(&self);
            lemma_punit_normal::<K>(self@);
            assert(self@.len() == 0 ==> self@ =~= pzero::<K>());
        }
        if self.is_zero() {
            let one = Polynomial::<K>::one();
            (AssertUnit::new(one), Polynomial::<K>::zero())
        } else {
            let lc = self.leading_coefficient_cloned();
            let (unit, _normal) = lc.unit_and_normal();
            let inverse = K::invert(&unit);
            let normal = self.scalar_mul(inverse.get());
            let u = Polynomial::constant(unit.into_inner());
            (AssertUnit::new(u), normal)
        }
    }
}

impl<K: CoefficientDomain> CommutativeRing for Polynomial<K> {
    fn zero() -> (r: Self) {
        Polynomial::<K>::zero()
    }

    fn one() -> (r: Self) {
        Polynomial::<K>::one()
    }

    fn is_zero(&self) -> (b: bool) {
        self.is_zero()
    }

    fn is_one(&self) -> (b: bool) {
        self.is_one()
    }

    fn equals(&self, other: &Self) -> (b: bool) {
        self.equals(other)
    }

    fn duplicate(&self) -> (r: Self) {
        self.duplicate()
    }

    fn add(&self, other: &Self) -> (r: Self) {
        self.add(other)
    }

    fn neg(&self) -> (r: Self) {
        self.neg()
    }

    fn mul(&self, other: &Self) -> (r: Self) {
        self.mul(other)
    }

    /// The inverse of a unit: the constant polynomial of the inverse of
    /// its constant term.
    fn invert(x: &AssertUnit<Self>) -> (r: AssertUnit<Self>) {
        let p = x.get();
        proof {
            Self::law_view_member(p);
            lemma_domain_unit::<K>(p@);
            lemma_const_unit::<K>(p@[0]);
            lemma_recip::<Polynomial<K>>(p@);
        }
        let c = p.coefficient(0).assert_is_unit();
        let i = K::invert(&c);
        let q = Polynomial::constant(i.into_inner());
        proof {
            lemma_pmul_comm::<K>(p@, q@);
            assert(<Polynomial<K> as RingSpec>::mul_v(q@, p@) == pone::<K>());
        }
        AssertUnit::new(q)
    }

    fn assert_is_unit(self) -> (r: AssertUnit<Self>) {
        AssertUnit::new(self)
    }

    /// Over a domain only the zero polynomial is nilpotent.
    fn is_nilpotent(&self) -> (b: bool) {
        let b = self.is_zero();
        proof {
            broadcast use {group_ring_closed, group_poly};

            Self::law_view_member(self);
            if b {
                lemma_pmul_zero::<K>(pzero::<K>(), pow::<Polynomial<K>>(pzero::<K>(), 0));
                assert(pow::<Polynomial<K>>(pzero::<K>(), 1) == pzero::<K>());
            }
            if nilpotent::<Polynomial<K>>(self@) {
                let n = choose|n: nat| #[trigger] pow::<Polynomial<K>>(self@, n) == pzero::<K>();
                lemma_domain_pow_zero::<K>(self@, n);
            }
        }
        b
    }
}

/// Polynomials over a domain that differ by a unit have the same normal
/// form.
pub proof fn lemma_pnormal_associates<K: CoefficientDomain>(u: Seq<K::V>, a: Seq<K::V>)
    requires
        pok::<K>(u),
        pok::<K>(a),
        is_unit::<Polynomial<K>>(u),
    ensures
        pnormal::<K>(pmul::<K>(u, a)) == pnormal::<K>(a),
{
    broadcast use {group_ring_closed, group_poly};

    K::law_one_not_zero();
    lemma_domain_unit::<K>(u);
    let c = u[0];
    lemma_pmul_const::<K>(c, a);
    let ua = pmul::<K>(u, a);
    if a.len() == 0 {
        lemma_pmul_zero::<K>(u, a);
    } else {
        let l = plead::<K>(a);
        lemma_pok_coeff::<K>(a, a.len() - 1);
        lemma_domain_pmul_len::<K>(u, a);
        let cl = K::mul_v(c, l);
        K::law_normal_associates(c, l);
        K::law_unit_normal(l);
        K::law_unit_normal(cl);
        let n = K::normal_v(l);
        let v = K::unit_part_v(l);
        let w = K::unit_part_v(cl);
        if n == K::zero_v() {
            lemma_mul_zero::<K>(v);
            assert(false);
        }
        // w * n == c * l == (c * v) * n
        K::law_mul_assoc(c, v, n);
        crate::traits::lemma_domain_cancel::<K>(w, K::mul_v(c, v), n);
        // (1/w) * c is the inverse of v
        lemma_recip::<K>(w);
        let wi = recip::<K>(w);
        crate::traits::lemma_mul_swap::<K>(v, wi, c);
        K::law_mul_comm(c, v);
        K::law_mul_comm(wi, w);
        lemma_recip_is::<K>(v, K::mul_v(wi, c));
        lemma_pscale_pscale::<K>(wi, c, a);
    }
}

impl<F: Field + CoefficientDomain> CoefficientDomain for Polynomial<F> {
    open spec fn unit_part_v(a: Seq<F::V>) -> Seq<F::V> {
        punit_part::<F>(a)
    }

    open spec fn normal_v(a: Seq<F::V>) -> Seq<F::V> {
        pnormal::<F>(a)
    }

    /// Any two polynomials over a field have a greatest common divisor;
    /// that of zero and zero is zero.
    open spec fn gcd_defined(a: Seq<F::V>, b: Seq<F::V>) -> bool {
        true
    }

    proof fn law_gcd_defined(a: Seq<F::V>, b: Seq<F::V>) {
    }

    proof fn law_no_zero_divisors(a: Seq<F::V>, b: Seq<F::V>) {
        lemma_domain_no_zero_divisors::<F>(a, b);
    }

    proof fn law_one_not_zero() {
        broadcast use {group_ring_closed, group_poly};

        <F as Field>::law_nontrivial();
        assert(pone::<F>() == seq![F::one_v()]);
    }

    proof fn law_unit_normal(a: Seq<F::V>) {
        lemma_punit_normal::<F>(a);
    }

    proof fn law_normal_associates(u: Seq<F::V>, a: Seq<F::V>) {
        lemma_pnormal_associates::<F>(u, a);
    }

    fn unit_and_normal(self) -> (r: (AssertUnit<Self>, Self)) {
        self.unit_and_normal()
    }

    /// A greatest common divisor, by Euclid's algorithm.
    fn gcd(&self, other: &Self) -> (r: Self)
        ensures
            r@ == euclid::<F>(self@, other@),
    {
        self.gcd(other)
    }
}

} // verus!
