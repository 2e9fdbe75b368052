//! The derivative of polynomials: the product rule, and its degree over a
//! field.

use vstd::prelude::*;
use crate::poly_ring::lemma_pmul_assoc;
use crate::polynomial::{
    Polynomial, coeff, conv, group_poly, lemma_canon_ext, lemma_pok_coeff, padd, pderiv, pmul, pok,
    pzero,
};
use crate::traits::{
    Field, RingSpec, divides, from_nat, group_ring_closed, lemma_add_shuffle,
    lemma_distrib_right, lemma_divides_add, lemma_divides_mul, lemma_divides_refl,
    lemma_divides_scale, lemma_field_no_zero_divisors, lemma_from_nat_add,
    lemma_from_nat_member, lemma_mul_swap, lemma_mul_zero, pow,
};

verus! {

/// The derivative of a constant is zero.
pub proof fn lemma_pderiv_const<R: RingSpec>(a: Seq<R::V>)
    requires
        a.len() <= 1,
    ensures
        pderiv::<R>(a) == pzero::<R>(),
{
    broadcast use {group_ring_closed, group_poly};

    assert(pderiv::<R>(a) =~= pzero::<R>());
}

/// The partial sums behind the product rule.
#[verifier::rlimit(50)]
proof fn lemma_leibniz_sums<R: RingSpec>(a: Seq<R::V>, b: Seq<R::V>, n: int, k: int)
    requires
        0 <= n,
        0 <= k <= n + 2,
    ensures
        R::mul_v(from_nat::<R>((n + 1) as nat), conv::<R>(a, b, n + 1, k)) == R::add_v(
            conv::<R>(pderiv::<R>(a), b, n, k - 1),
            conv::<R>(a, pderiv::<R>(b), n, k),
        ),
    decreases k,
{
    broadcast use {group_ring_closed, group_poly};

    let nn = from_nat::<R>((n + 1) as nat);
    let da = pderiv::<R>(a);
    let db = pderiv::<R>(b);
    if k == 0 {
        lemma_mul_zero::<R>(nn);
        R::law_add_zero(R::zero_v());
    } else {
        lemma_leibniz_sums::<R>(a, b, n, k - 1);
        let i = k - 1;
        let j = n + 1 - i;
        let ai = coeff::<R>(a, i);
        let bj = coeff::<R>(b, j);
        let t = R::mul_v(ai, bj);
        let kk = from_nat::<R>(i as nat);
        let jj = from_nat::<R>(j as nat);
        let p = conv::<R>(a, b, n + 1, k - 1);
        let x0 = conv::<R>(da, b, n, k - 2);
        let y0 = conv::<R>(a, db, n, k - 1);
        let x = R::mul_v(R::mul_v(kk, ai), bj);
        let y = R::mul_v(ai, R::mul_v(jj, bj));
        // N * t == x + y
        lemma_from_nat_add::<R>(i as nat, j as nat);
        assert(i as nat + j as nat == (n + 1) as nat);
        lemma_distrib_right::<R>(kk, jj, t);
        R::law_mul_assoc(kk, ai, bj);
        lemma_mul_swap::<R>(jj, ai, bj);
        assert(R::mul_v(nn, t) == R::add_v(x, y));
        // the last term of the second sum
        assert(coeff::<R>(db, n - i) == R::mul_v(jj, bj)) by {
            if n - i < 0 {
                lemma_mul_zero::<R>(bj);
            }
        }
        assert(conv::<R>(a, db, n, k) == R::add_v(y0, y));
        R::law_distrib(nn, p, t);
        lemma_add_shuffle::<R>(x0, y0, x, y);
        if i == 0 {
            lemma_mul_zero::<R>(ai);
            lemma_mul_zero::<R>(bj);
            R::law_add_zero(R::zero_v());
        } else {
            assert(coeff::<R>(da, i - 1) == R::mul_v(kk, ai));
            assert(n - (i - 1) == j);
            assert(conv::<R>(da, b, n, k - 1) == R::add_v(x0, x));
        }
    }
}

/// The product rule: `(a * b)' == a' * b + a * b'`.
pub proof fn lemma_leibniz<R: RingSpec>(a: Seq<R::V>, b: Seq<R::V>)
    ensures
        pderiv::<R>(pmul::<R>(a, b)) == padd::<R>(
            pmul::<R>(pderiv::<R>(a), b),
            pmul::<R>(a, pderiv::<R>(b)),
        ),
{
    broadcast use {group_ring_closed, group_poly};

    let l = pderiv::<R>(pmul::<R>(a, b));
    let r = padd::<R>(pmul::<R>(pderiv::<R>(a), b), pmul::<R>(a, pderiv::<R>(b)));
    assert forall|n: int| coeff::<R>(l, n) == #[trigger] coeff::<R>(r, n) by {
        if n >= 0 {
            lemma_leibniz_sums::<R>(a, b, n, n + 2);
            lemma_mul_zero::<R>(coeff::<R>(a, n + 1));
            R::law_add_zero(conv::<R>(a, pderiv::<R>(b), n, n + 1));
            assert(coeff::<R>(pmul::<R>(a, b), n + 1) == conv::<R>(a, b, n + 1, n + 2));
        } else {
            R::law_add_zero(R::zero_v());
        }
    }
    lemma_canon_ext::<R>(l, r);
}

/// Over a field in which the degree is not zero, the derivative of a
/// polynomial that is not constant has a degree one less.
pub proof fn lemma_pderiv_len<F: Field>(a: Seq<F::V>)
    requires
        pok::<F>(a),
        a.len() >= 2,
        from_nat::<F>((a.len() - 1) as nat) != F::zero_v(),
    ensures
        pderiv::<F>(a).len() == a.len() - 1,
{
    broadcast use {group_ring_closed, group_poly};

    let m = a.len() - 1;
    let d = pderiv::<F>(a);
    lemma_from_nat_member::<F>(m as nat);
    lemma_pok_coeff::<F>(a, m);
    assert(coeff::<F>(d, m - 1) == F::mul_v(from_nat::<F>(m as nat), a[m]));
    if F::mul_v(from_nat::<F>(m as nat), a[m]) == F::zero_v() {
        lemma_field_no_zero_divisors::<F>(from_nat::<F>(m as nat), a[m]);
    }
}

/// If `p^(n+1)` divides a polynomial then `p^n` divides its derivative.
pub proof fn lemma_pow_deriv<F: Field>(p: Seq<F::V>, b: Seq<F::V>, n: nat)
    requires
        pok::<F>(p),
        pok::<F>(b),
    ensures
        divides::<Polynomial<F>>(
            pow::<Polynomial<F>>(p, n),
            pderiv::<F>(pmul::<F>(pow::<Polynomial<F>>(p, n + 1), b)),
        ),
    decreases n,
{
    broadcast use {group_ring_closed, group_poly};

    let pn = pow::<Polynomial<F>>(p, n);
    let a = pmul::<F>(pow::<Polynomial<F>>(p, n + 1), b);
    if n == 0 {
        lemma_divides_refl::<Polynomial<F>>(pderiv::<F>(a));
    } else {
        let c = pmul::<F>(pn, b);
        lemma_pmul_assoc::<F>(p, pn, b);
        lemma_leibniz::<F>(p, c);
        lemma_pow_member::<F>(p, n);
        // p^n | p' * c
        crate::traits::lemma_factor_divides::<Polynomial<F>>(pn, b);
        lemma_divides_mul::<Polynomial<F>>(pn, c, pderiv::<F>(p));
        // p^n | p * c'
        lemma_pow_deriv::<F>(p, b, (n - 1) as nat);
        lemma_divides_scale::<Polynomial<F>>(
            p,
            pow::<Polynomial<F>>(p, (n - 1) as nat),
            pderiv::<F>(c),
        );
        lemma_divides_add::<Polynomial<F>>(
            pn,
            pmul::<F>(pderiv::<F>(p), c),
            pmul::<F>(p, pderiv::<F>(c)),
        );
    }
}

/// A power of a polynomial is a polynomial.
pub proof fn lemma_pow_member<F: Field>(p: Seq<F::V>, n: nat)
    ensures
        pok::<F>(pow::<Polynomial<F>>(p, n)),
{
    broadcast use {group_ring_closed, group_poly};

    F::law_closed(F::zero_v(), F::zero_v());
}

} // verus!
