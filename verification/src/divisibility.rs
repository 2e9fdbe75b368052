//! Irreducible polynomials, multiplicities, and the square-free part of a
//! polynomial over a field.

use vstd::prelude::*;
use crate::derivative::{lemma_leibniz, lemma_pderiv_len, lemma_pow_deriv, lemma_pow_member};
use crate::euclid::{
    coprime, euclid, lemma_coprime_quotients, lemma_divides_len, lemma_euclid_is_gcd,
    lemma_field_pmul_len, lemma_gauss, lemma_pmul_cancel, lemma_unit_const,
};
use crate::poly_ring::{lemma_pmul_assoc, lemma_pmul_comm, lemma_pmul_one, lemma_pmul_zero};
use crate::polynomial::{Polynomial, group_poly, pderiv, pmul, pok, pone};
use crate::traits::{
    Field, RingSpec, distinguishes_up_to, divides, from_nat, group_ring_closed, is_gcd,
    lemma_divides_add, lemma_divides_mul, lemma_divides_refl, lemma_divides_sub,
    lemma_divides_trans, lemma_factor_divides, lemma_mul_shuffle, lemma_recip, lemma_sub_unique,
    pow, recip,
};

verus! {

/// A cofactor: `a == d * q`.
pub proof fn lemma_divides_witness<F: Field>(d: Seq<F::V>, a: Seq<F::V>) -> (q: Seq<F::V>)
    requires
        divides::<Polynomial<F>>(d, a),
    ensures
        pok::<F>(q),
        a == pmul::<F>(d, q),
{
    choose|q: Seq<F::V>|
        <Polynomial<F> as RingSpec>::member(q) && #[trigger] <Polynomial<F> as RingSpec>::mul_v(
            d,
            q,
        ) == a
}

/// A polynomial that divides two coprime polynomials is a constant.
pub proof fn lemma_common_divisor_unit<F: Field>(p: Seq<F::V>, a: Seq<F::V>, b: Seq<F::V>)
    requires
        pok::<F>(p),
        coprime::<F>(a, b),
        divides::<Polynomial<F>>(p, a),
        divides::<Polynomial<F>>(p, b),
    ensures
        p.len() == 1,
{
    broadcast use {group_ring_closed, group_poly};

    F::law_nontrivial();
    lemma_divides_len::<F>(p, pone::<F>());
}

/// Where the greatest common divisor is a constant, the polynomials are
/// coprime.
pub proof fn lemma_unit_gcd_coprime<F: Field>(g: Seq<F::V>, a: Seq<F::V>, b: Seq<F::V>)
    requires
        pok::<F>(a),
        pok::<F>(b),
        is_gcd::<Polynomial<F>>(g, a, b),
        g.len() == 1,
    ensures
        coprime::<F>(a, b),
{
    broadcast use {group_ring_closed, group_poly};

    lemma_divides_refl::<Polynomial<F>>(a);
    lemma_divides_refl::<Polynomial<F>>(b);
    lemma_unit_const::<F>(g);
    lemma_recip::<Polynomial<F>>(g);
    assert(divides::<Polynomial<F>>(g, pone::<F>()));
    assert forall|d: Seq<F::V>|
        <Polynomial<F> as RingSpec>::member(d) && #[trigger] divides::<Polynomial<F>>(d, a)
            && divides::<Polynomial<F>>(d, b) implies divides::<Polynomial<F>>(
        d,
        pone::<F>(),
    ) by {
        lemma_divides_trans::<Polynomial<F>>(d, g, pone::<F>());
    }
}

/// A divisor of the same degree is divided in turn.
pub proof fn lemma_same_len_divides<F: Field>(g: Seq<F::V>, p: Seq<F::V>)
    requires
        pok::<F>(g),
        pok::<F>(p),
        p.len() > 0,
        g.len() == p.len(),
        divides::<Polynomial<F>>(g, p),
    ensures
        divides::<Polynomial<F>>(p, g),
{
    broadcast use {group_ring_closed, group_poly};

    let q = lemma_divides_witness::<F>(g, p);
    if q.len() == 0 {
        lemma_pmul_zero::<F>(g, q);
        assert(false);
    }
    lemma_field_pmul_len::<F>(g, q);
    lemma_unit_const::<F>(q);
    lemma_recip::<Polynomial<F>>(q);
    let qi = recip::<Polynomial<F>>(q);
    lemma_pmul_assoc::<F>(g, q, qi);
    lemma_pmul_one::<F>(g);
    assert(<Polynomial<F> as RingSpec>::mul_v(p, qi) == g);
}

/// Whether `p` is not constant and has no divisors but the constants and
/// its own constant multiples.
pub open spec fn irreducible<F: Field>(p: Seq<F::V>) -> bool {
    &&& pok::<F>(p)
    &&& p.len() >= 2
    &&& forall|d: Seq<F::V>|
        pok::<F>(d) && #[trigger] divides::<Polynomial<F>>(d, p) ==> d.len() == 1 || d.len()
            == p.len()
}

/// Every polynomial that is not constant has an irreducible divisor.
pub proof fn lemma_irreducible_factor<F: Field>(d: Seq<F::V>) -> (p: Seq<F::V>)
    requires
        pok::<F>(d),
        d.len() >= 2,
    ensures
        irreducible::<F>(p),
        divides::<Polynomial<F>>(p, d),
    decreases d.len(),
{
    if irreducible::<F>(d) {
        lemma_divides_refl::<Polynomial<F>>(d);
        d
    } else {
        let e = choose|e: Seq<F::V>|
            pok::<F>(e) && #[trigger] divides::<Polynomial<F>>(e, d) && !(e.len() == 1 || e.len()
                == d.len());
        lemma_divides_len::<F>(e, d);
        let p = lemma_irreducible_factor::<F>(e);
        lemma_divides_trans::<Polynomial<F>>(p, e, d);
        p
    }
}

/// An irreducible polynomial is coprime to what it does not divide.
pub proof fn lemma_irreducible_coprime<F: Field>(p: Seq<F::V>, a: Seq<F::V>)
    requires
        irreducible::<F>(p),
        pok::<F>(a),
        !divides::<Polynomial<F>>(p, a),
    ensures
        coprime::<F>(p, a),
{
    let g = euclid::<F>(p, a);
    lemma_euclid_is_gcd::<F>(p, a);
    assert(divides::<Polynomial<F>>(g, p));
    if g.len() == p.len() {
        lemma_same_len_divides::<F>(g, p);
        lemma_divides_trans::<Polynomial<F>>(p, g, a);
    }
    lemma_unit_gcd_coprime::<F>(g, p, a);
}

/// An irreducible polynomial that divides a product divides a factor.
pub proof fn lemma_prime<F: Field>(p: Seq<F::V>, a: Seq<F::V>, b: Seq<F::V>)
    requires
        irreducible::<F>(p),
        pok::<F>(a),
        pok::<F>(b),
        divides::<Polynomial<F>>(p, pmul::<F>(a, b)),
    ensures
        divides::<Polynomial<F>>(p, a) || divides::<Polynomial<F>>(p, b),
{
    if !divides::<Polynomial<F>>(p, a) {
        lemma_irreducible_coprime::<F>(p, a);
        lemma_gauss::<F>(p, a, b);
    }
}

/// Where its degree is not zero in the field, an irreducible polynomial is
/// coprime to its derivative.
pub proof fn lemma_irreducible_deriv<F: Field>(p: Seq<F::V>)
    requires
        irreducible::<F>(p),
        from_nat::<F>((p.len() - 1) as nat) != F::zero_v(),
    ensures
        coprime::<F>(p, pderiv::<F>(p)),
{
    broadcast use {group_ring_closed, group_poly};

    lemma_pderiv_len::<F>(p);
    if divides::<Polynomial<F>>(p, pderiv::<F>(p)) {
        lemma_divides_len::<F>(p, pderiv::<F>(p));
    }
    lemma_irreducible_coprime::<F>(p, pderiv::<F>(p));
}

/// The degree of a power.
pub proof fn lemma_pow_len<F: Field>(p: Seq<F::V>, k: nat)
    requires
        pok::<F>(p),
        p.len() >= 1,
    ensures
        pow::<Polynomial<F>>(p, k).len() == k * (p.len() - 1) + 1,
    decreases k,
{
    broadcast use {group_ring_closed, group_poly};

    F::law_nontrivial();
    let l = p.len() - 1;
    if k > 0 {
        let km = (k - 1) as nat;
        let q = pow::<Polynomial<F>>(p, km);
        lemma_pow_len::<F>(p, km);
        lemma_pow_member::<F>(p, km);
        lemma_field_pmul_len::<F>(p, q);
        assert(km * l + l == k * l) by (nonlinear_arith)
            requires
                km + 1 == k,
        ;
    } else {
        assert(pow::<Polynomial<F>>(p, k) == pone::<F>());
        assert(pone::<F>() == seq![F::one_v()]);
        assert(k * l == 0) by (nonlinear_arith)
            requires
                k == 0,
        ;
    }
}

/// How often a polynomial that is not constant divides one that is not
/// zero: `p^k` divides it and `p^(k+1)` does not.
pub proof fn lemma_multiplicity<F: Field>(p: Seq<F::V>, r: Seq<F::V>, from: nat) -> (k: nat)
    requires
        pok::<F>(p),
        p.len() >= 2,
        pok::<F>(r),
        r.len() > 0,
        divides::<Polynomial<F>>(pow::<Polynomial<F>>(p, from), r),
    ensures
        k >= from,
        divides::<Polynomial<F>>(pow::<Polynomial<F>>(p, k), r),
        !divides::<Polynomial<F>>(pow::<Polynomial<F>>(p, k + 1), r),
    decreases r.len() - from,
{
    if divides::<Polynomial<F>>(pow::<Polynomial<F>>(p, from + 1), r) {
        lemma_pow_len::<F>(p, from + 1);
        lemma_pow_member::<F>(p, from + 1);
        lemma_divides_len::<F>(pow::<Polynomial<F>>(p, from + 1), r);
        let l = p.len() - 1;
        assert((from + 1) * l >= from + 1) by (nonlinear_arith)
            requires
                l >= 1,
        ;
        lemma_multiplicity::<F>(p, r, from + 1)
    } else {
        from
    }
}

/// If `c * d` divides `c * a` and `c` is not zero then `d` divides `a`.
pub proof fn lemma_divides_cancel<F: Field>(c: Seq<F::V>, d: Seq<F::V>, a: Seq<F::V>)
    requires
        pok::<F>(c),
        pok::<F>(a),
        c.len() > 0,
        divides::<Polynomial<F>>(pmul::<F>(c, d), pmul::<F>(c, a)),
    ensures
        divides::<Polynomial<F>>(d, a),
{
    broadcast use {group_ring_closed, group_poly};

    let q = lemma_divides_witness::<F>(pmul::<F>(c, d), pmul::<F>(c, a));
    lemma_pmul_assoc::<F>(c, d, q);
    lemma_pmul_cancel::<F>(c, pmul::<F>(d, q), a);
    assert(<Polynomial<F> as RingSpec>::mul_v(d, q) == a);
}

/// An irreducible polynomial that divides a polynomial and its derivative
/// divides the polynomial twice.
pub proof fn lemma_double_factor<F: Field>(p: Seq<F::V>, f: Seq<F::V>) -> (a: Seq<F::V>)
    requires
        irreducible::<F>(p),
        from_nat::<F>((p.len() - 1) as nat) != F::zero_v(),
        pok::<F>(f),
        divides::<Polynomial<F>>(p, f),
        divides::<Polynomial<F>>(p, pderiv::<F>(f)),
    ensures
        pok::<F>(a),
        f == pmul::<F>(p, pmul::<F>(p, a)),
{
    broadcast use {group_ring_closed, group_poly};

    let c = lemma_divides_witness::<F>(p, f);
    lemma_leibniz::<F>(p, c);
    let x = pmul::<F>(pderiv::<F>(p), c);
    let y = pmul::<F>(p, pderiv::<F>(c));
    <Polynomial<F> as RingSpec>::law_add_comm(x, y);
    lemma_sub_unique::<Polynomial<F>>(y, x, pderiv::<F>(f));
    lemma_factor_divides::<Polynomial<F>>(p, pderiv::<F>(c));
    lemma_divides_sub::<Polynomial<F>>(p, pderiv::<F>(f), y);
    lemma_irreducible_deriv::<F>(p);
    lemma_gauss::<F>(p, pderiv::<F>(p), c);
    lemma_divides_witness::<F>(p, c)
}

/// The core of the square-free part: with `u == r * f`, `u' == r * w`, and
/// `f`, `w` coprime, every common divisor of `f` and `f'` is a constant.
#[verifier::rlimit(50)]
proof fn lemma_squarefree_divisor<F: Field>(
    u: Seq<F::V>,
    r: Seq<F::V>,
    f: Seq<F::V>,
    w: Seq<F::V>,
    d: Seq<F::V>,
)
    requires
        pok::<F>(u),
        pok::<F>(r),
        pok::<F>(f),
        pok::<F>(w),
        pok::<F>(d),
        u.len() > 0,
        distinguishes_up_to::<F>((u.len() - 1) as nat),
        u == pmul::<F>(r, f),
        pderiv::<F>(u) == pmul::<F>(r, w),
        coprime::<F>(f, w),
        divides::<Polynomial<F>>(d, f),
        divides::<Polynomial<F>>(d, pderiv::<F>(f)),
    ensures
        d.len() == 1,
{
    broadcast use {group_ring_closed, group_poly};

    if r.len() == 0 || f.len() == 0 {
        lemma_pmul_zero::<F>(r, f);
        assert(false);
    }
    lemma_divides_len::<F>(d, f);
    if d.len() >= 2 {
        let p = lemma_irreducible_factor::<F>(d);
        lemma_divides_trans::<Polynomial<F>>(p, d, f);
        lemma_divides_trans::<Polynomial<F>>(p, d, pderiv::<F>(f));
        lemma_divides_len::<F>(p, f);
        lemma_field_pmul_len::<F>(r, f);
        assert(from_nat::<F>((p.len() - 1) as nat) != F::zero_v());
        // p does not divide w
        if divides::<Polynomial<F>>(p, w) {
            lemma_common_divisor_unit::<F>(p, f, w);
        }
        // p divides u'
        lemma_leibniz::<F>(r, f);
        lemma_divides_mul::<Polynomial<F>>(p, f, pderiv::<F>(r));
        lemma_divides_mul::<Polynomial<F>>(p, pderiv::<F>(f), r);
        lemma_divides_add::<Polynomial<F>>(
            p,
            pmul::<F>(pderiv::<F>(r), f),
            pmul::<F>(r, pderiv::<F>(f)),
        );
        // so p divides r
        lemma_prime::<F>(p, r, w);
        assert(divides::<Polynomial<F>>(p, r));
        // p divides f twice
        let a2 = lemma_double_factor::<F>(p, f);
        // the multiplicity of p in r
        lemma_pmul_one::<F>(p);
        assert(pow::<Polynomial<F>>(p, 1) == pmul::<F>(p, pow::<Polynomial<F>>(p, 0)));
        let k = lemma_multiplicity::<F>(p, r, 1);
        let pk = pow::<Polynomial<F>>(p, k);
        lemma_pow_member::<F>(p, k);
        let r1 = lemma_divides_witness::<F>(pk, r);
        // u == p^(k+2) * (r1 * a2)
        let b = pmul::<F>(r1, a2);
        assert(pow::<Polynomial<F>>(p, k + 2) == pmul::<F>(p, pow::<Polynomial<F>>(p, k + 1)));
        assert(pow::<Polynomial<F>>(p, k + 1) == pmul::<F>(p, pk));
        lemma_pmul_assoc::<F>(p, p, a2);
        lemma_mul_shuffle::<Polynomial<F>>(pk, r1, pmul::<F>(p, p), a2);
        lemma_pmul_comm::<F>(pk, pmul::<F>(p, p));
        lemma_pmul_assoc::<F>(p, p, pk);
        assert(u == pmul::<F>(pow::<Polynomial<F>>(p, k + 2), b));
        lemma_pow_deriv::<F>(p, b, k + 1);
        // cancel p^k in p^(k+1) | u' == p^k * (r1 * w)
        lemma_pmul_assoc::<F>(pk, r1, w);
        lemma_pmul_comm::<F>(p, pk);
        if pk.len() == 0 {
            lemma_pmul_zero::<F>(pk, r1);
            assert(false);
        }
        lemma_divides_cancel::<F>(pk, p, pmul::<F>(r1, w));
        lemma_prime::<F>(p, r1, w);
        // neither is possible
        assert(divides::<Polynomial<F>>(p, r1));
        let r2 = lemma_divides_witness::<F>(p, r1);
        lemma_pmul_assoc::<F>(pk, p, r2);
        assert(<Polynomial<F> as RingSpec>::mul_v(pow::<Polynomial<F>>(p, k + 1), r2) == r);
        assert(false);
    }
}

/// The square-free part: a polynomial divided by a greatest common divisor
/// of itself and its derivative is coprime to its own derivative, where
/// the field tells the numbers up to the degree from zero.
pub proof fn lemma_squarefree_part<F: Field>(u: Seq<F::V>, r: Seq<F::V>, f: Seq<F::V>)
    requires
        pok::<F>(u),
        pok::<F>(f),
        u.len() > 0,
        distinguishes_up_to::<F>((u.len() - 1) as nat),
        is_gcd::<Polynomial<F>>(r, u, pderiv::<F>(u)),
        u == pmul::<F>(r, f),
    ensures
        coprime::<F>(f, pderiv::<F>(f)),
{
    broadcast use {group_ring_closed, group_poly};

    if r.len() == 0 {
        lemma_pmul_zero::<F>(r, f);
        assert(false);
    }
    let w = lemma_divides_witness::<F>(r, pderiv::<F>(u));
    lemma_coprime_quotients::<F>(r, u, pderiv::<F>(u), f, w);
    lemma_divides_refl::<Polynomial<F>>(f);
    lemma_divides_refl::<Polynomial<F>>(pderiv::<F>(f));
    assert forall|d: Seq<F::V>|
        <Polynomial<F> as RingSpec>::member(d) && #[trigger] divides::<Polynomial<F>>(d, f)
            && divides::<Polynomial<F>>(d, pderiv::<F>(f)) implies divides::<Polynomial<F>>(
        d,
        pone::<F>(),
    ) by {
        lemma_squarefree_divisor::<F>(u, r, f, w, d);
        lemma_unit_const::<F>(d);
        lemma_recip::<Polynomial<F>>(d);
        assert(divides::<Polynomial<F>>(d, pone::<F>()));
    }
}

/// A divisor of a polynomial that is coprime to its derivative is coprime
/// to its own derivative, and to its cofactor.
pub proof fn lemma_squarefree_factor<F: Field>(f: Seq<F::V>, s: Seq<F::V>, g: Seq<F::V>)
    requires
        pok::<F>(s),
        pok::<F>(g),
        f == pmul::<F>(s, g),
        coprime::<F>(f, pderiv::<F>(f)),
    ensures
        coprime::<F>(s, pderiv::<F>(s)),
        coprime::<F>(s, g),
{
    broadcast use {group_ring_closed, group_poly};

    lemma_leibniz::<F>(s, g);
    lemma_divides_refl::<Polynomial<F>>(s);
    lemma_divides_refl::<Polynomial<F>>(g);
    lemma_divides_refl::<Polynomial<F>>(pderiv::<F>(s));
    assert forall|d: Seq<F::V>|
        <Polynomial<F> as RingSpec>::member(d) && #[trigger] divides::<Polynomial<F>>(d, s)
            && divides::<Polynomial<F>>(d, pderiv::<F>(s)) implies divides::<Polynomial<F>>(
        d,
        pone::<F>(),
    ) by {
        lemma_divides_mul::<Polynomial<F>>(d, s, g);
        lemma_divides_mul::<Polynomial<F>>(d, pderiv::<F>(s), g);
        lemma_divides_mul::<Polynomial<F>>(d, s, pderiv::<F>(g));
        lemma_divides_add::<Polynomial<F>>(
            d,
            pmul::<F>(pderiv::<F>(s), g),
            pmul::<F>(s, pderiv::<F>(g)),
        );
        assert(divides::<Polynomial<F>>(d, f));
    }
    assert forall|d: Seq<F::V>|
        <Polynomial<F> as RingSpec>::member(d) && #[trigger] divides::<Polynomial<F>>(d, s)
            && divides::<Polynomial<F>>(d, g) implies divides::<Polynomial<F>>(
        d,
        pone::<F>(),
    ) by {
        lemma_divides_mul::<Polynomial<F>>(d, s, g);
        lemma_divides_mul::<Polynomial<F>>(d, g, pderiv::<F>(s));
        lemma_divides_mul::<Polynomial<F>>(d, s, pderiv::<F>(g));
        lemma_divides_add::<Polynomial<F>>(
            d,
            pmul::<F>(pderiv::<F>(s), g),
            pmul::<F>(s, pderiv::<F>(g)),
        );
        assert(divides::<Polynomial<F>>(d, f));
    }
}

} // verus!
