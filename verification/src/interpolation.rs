//! Lagrange interpolation over a field.

use vstd::prelude::*;
use crate::euclid::{lemma_len_bound, lemma_pmul_top};
use crate::evaluation::{
    lemma_peval_add, lemma_peval_const, lemma_peval_mul, lemma_peval_scale, esum, peval,
};
use crate::polynomial::{
    Polynomial, coeff, group_poly, lemma_trim, padd, pmul, pok, pone, pscale, pzero, trim, values,
};
use crate::traits::{
    CheckedInv, CommutativeRing, Field, RingSpec, group_ring_closed,
    lemma_field_no_zero_divisors, lemma_mul_zero, lemma_one_mul, lemma_recip,
    lemma_sub_zero_eq, lemma_zero_add, pow, recip, sub_v,
};

verus! {

/// The values of a list of points.
pub open spec fn point_values<F: RingSpec>(s: Seq<(F, F)>) -> Seq<(F::V, F::V)> {
    Seq::new(s.len(), |i: int| (s[i].0@, s[i].1@))
}

/// Whether all coordinates are in the field.
pub open spec fn points_in_field<F: Field>(pts: Seq<(F::V, F::V)>) -> bool {
    forall|i: int| 0 <= i < pts.len() ==> F::member((#[trigger] pts[i]).0) && F::member(pts[i].1)
}

/// Whether no two points have the same first coordinate.
pub open spec fn distinct_points<F: Field>(pts: Seq<(F::V, F::V)>) -> bool {
    forall|i: int, j: int|
        0 <= i < pts.len() && 0 <= j < pts.len() && i != j ==> (#[trigger] pts[i]).0 != (
        #[trigger] pts[j]).0
}

/// The polynomial `x - a`.
pub open spec fn plinear<F: Field>(a: F::V) -> Seq<F::V> {
    trim::<F>(seq![F::neg_v(a), F::one_v()])
}

/// The product of `x - x_j` over the first `n` points whose first
/// coordinate differs from that of point `i`.
pub open spec fn basis<F: Field>(pts: Seq<(F::V, F::V)>, i: int, n: nat) -> Seq<F::V>
    decreases n,
{
    if n == 0 {
        pone::<F>()
    } else {
        let rest = basis::<F>(pts, i, (n - 1) as nat);
        if pts[n - 1].0 != pts[i].0 {
            pmul::<F>(rest, plinear::<F>(pts[n - 1].0))
        } else {
            rest
        }
    }
}

/// The value of `basis` at `x`: the product of `x - x_j`.
pub open spec fn basis_at<F: Field>(pts: Seq<(F::V, F::V)>, i: int, n: nat, x: F::V) -> F::V
    decreases n,
{
    if n == 0 {
        F::one_v()
    } else {
        let rest = basis_at::<F>(pts, i, (n - 1) as nat, x);
        if pts[n - 1].0 != pts[i].0 {
            F::mul_v(rest, sub_v::<F>(x, pts[n - 1].0))
        } else {
            rest
        }
    }
}

/// The term of point `i`: the polynomial that is `y_i` at `x_i` and zero
/// at the other points.
pub open spec fn lagrange_term<F: Field>(pts: Seq<(F::V, F::V)>, i: int) -> Seq<F::V> {
    pscale::<F>(
        F::mul_v(pts[i].1, recip::<F>(basis_at::<F>(pts, i, pts.len(), pts[i].0))),
        basis::<F>(pts, i, pts.len()),
    )
}

/// The sum of the terms of the first `n` points.
pub open spec fn lagrange_sum<F: Field>(pts: Seq<(F::V, F::V)>, n: nat) -> Seq<F::V>
    decreases n,
{
    if n == 0 {
        pzero::<F>()
    } else {
        padd::<F>(lagrange_sum::<F>(pts, (n - 1) as nat), lagrange_term::<F>(pts, n - 1))
    }
}

/// The interpolating polynomial of the points, in Lagrange's form.
pub open spec fn lagrange<F: Field>(pts: Seq<(F::V, F::V)>) -> Seq<F::V> {
    lagrange_sum::<F>(pts, pts.len())
}

/// The polynomial `x - a` has two coefficients and the value `x - a`.
pub proof fn lemma_plinear<F: Field>(a: F::V, x: F::V)
    requires
        F::member(a),
        F::member(x),
    ensures
        pok::<F>(plinear::<F>(a)),
        plinear::<F>(a) == seq![F::neg_v(a), F::one_v()],
        peval::<F>(plinear::<F>(a), x) == sub_v::<F>(x, a),
{
    broadcast use {group_ring_closed, group_poly};

    F::law_nontrivial();
    let s = seq![F::neg_v(a), F::one_v()];
    assert(s.last() == F::one_v());
    lemma_trim::<F>(s);
    assert(esum::<F>(s, x, 2) == F::add_v(
        esum::<F>(s, x, 1),
        F::mul_v(coeff::<F>(s, 1), pow::<F>(x, 1)),
    ));
    assert(esum::<F>(s, x, 1) == F::add_v(
        esum::<F>(s, x, 0),
        F::mul_v(coeff::<F>(s, 0), pow::<F>(x, 0)),
    ));
    crate::traits::lemma_pow_first::<F>(x);
    F::law_mul_one(F::neg_v(a));
    lemma_zero_add::<F>(F::neg_v(a));
    lemma_one_mul::<F>(x);
    F::law_add_comm(F::neg_v(a), x);
}

/// The product of the `x - x_j` is a polynomial of bounded degree, whose
/// value is the product of the values.
pub proof fn lemma_basis<F: Field>(pts: Seq<(F::V, F::V)>, i: int, n: nat, x: F::V)
    requires
        points_in_field::<F>(pts),
        0 <= i < pts.len(),
        n <= pts.len(),
        F::member(x),
    ensures
        pok::<F>(basis::<F>(pts, i, n)),
        basis::<F>(pts, i, n).len() <= n + 1,
        i < n ==> basis::<F>(pts, i, n).len() <= n,
        peval::<F>(basis::<F>(pts, i, n), x) == basis_at::<F>(pts, i, n, x),
    decreases n,
{
    broadcast use {group_ring_closed, group_poly};

    if n == 0 {
        lemma_peval_const::<F>(F::one_v(), x);
    } else {
        let m = (n - 1) as nat;
        let rest = basis::<F>(pts, i, m);
        lemma_basis::<F>(pts, i, m, x);
        if pts[n - 1].0 != pts[i].0 {
            let a = pts[n - 1].0;
            let lin = plinear::<F>(a);
            lemma_plinear::<F>(a, x);
            lemma_peval_mul::<F>(rest, lin, x);
            if rest.len() > 0 {
                lemma_pmul_top::<F>(rest, lin);
                lemma_len_bound::<F>(pmul::<F>(rest, lin), (rest.len() + 1) as int);
            } else {
                crate::poly_ring::lemma_pmul_zero::<F>(rest, lin);
            }
        }
    }
}

/// At another point, the product of the `x - x_j` is zero.
pub proof fn lemma_basis_at_other<F: Field>(pts: Seq<(F::V, F::V)>, i: int, k: int, n: nat)
    requires
        points_in_field::<F>(pts),
        distinct_points::<F>(pts),
        0 <= i < pts.len(),
        0 <= k < n <= pts.len(),
        k != i,
    ensures
        basis_at::<F>(pts, i, n, pts[k].0) == F::zero_v(),
    decreases n,
{
    broadcast use group_ring_closed;

    let x = pts[k].0;
    let m = (n - 1) as nat;
    let rest = basis_at::<F>(pts, i, m, x);
    if n - 1 == k {
        assert(pts[k].0 != pts[i].0);
        crate::traits::lemma_sub_add::<F>(x, x);
        lemma_mul_zero::<F>(rest);
    } else {
        lemma_basis_at_other::<F>(pts, i, k, m);
        lemma_mul_zero::<F>(sub_v::<F>(x, pts[n - 1].0));
    }
}

/// At its own point, the product of the `x_i - x_j` is in the field and
/// not zero.
pub proof fn lemma_basis_at_own<F: Field>(pts: Seq<(F::V, F::V)>, i: int, n: nat)
    requires
        points_in_field::<F>(pts),
        0 <= i < pts.len(),
        n <= pts.len(),
    ensures
        F::member(basis_at::<F>(pts, i, n, pts[i].0)),
        basis_at::<F>(pts, i, n, pts[i].0) != F::zero_v(),
    decreases n,
{
    broadcast use group_ring_closed;

    F::law_nontrivial();
    if n > 0 {
        let x = pts[i].0;
        let m = (n - 1) as nat;
        let rest = basis_at::<F>(pts, i, m, x);
        lemma_basis_at_own::<F>(pts, i, m);
        let a = pts[n - 1].0;
        if a != x {
            let d = sub_v::<F>(x, a);
            assert(F::member(a));
            if d == F::zero_v() {
                lemma_sub_zero_eq::<F>(x, a);
            }
            if F::mul_v(rest, d) == F::zero_v() {
                lemma_field_no_zero_divisors::<F>(rest, d);
            }
        }
    }
}

/// The term of point `i` is `y_i` at `x_i` and zero at the other points.
pub proof fn lemma_term_eval<F: Field>(pts: Seq<(F::V, F::V)>, i: int, k: int)
    requires
        points_in_field::<F>(pts),
        distinct_points::<F>(pts),
        0 <= i < pts.len(),
        0 <= k < pts.len(),
    ensures
        pok::<F>(lagrange_term::<F>(pts, i)),
        lagrange_term::<F>(pts, i).len() <= pts.len(),
        peval::<F>(lagrange_term::<F>(pts, i), pts[k].0) == (if k == i {
            pts[i].1
        } else {
            F::zero_v()
        }),
{
    broadcast use {group_ring_closed, group_poly};

    let n = pts.len();
    let x = pts[k].0;
    let den = basis_at::<F>(pts, i, n, pts[i].0);
    let c = F::mul_v(pts[i].1, recip::<F>(den));
    assert(F::member(x) && F::member(pts[i].1));
    lemma_basis::<F>(pts, i, n, x);
    lemma_peval_scale::<F>(c, basis::<F>(pts, i, n), x);
    if k == i {
        lemma_basis_at_own::<F>(pts, i, n);
        F::law_inverse(den);
        lemma_recip::<F>(den);
        F::law_mul_assoc(pts[i].1, recip::<F>(den), den);
        F::law_mul_one(pts[i].1);
    } else {
        lemma_basis_at_other::<F>(pts, i, k, n);
        lemma_mul_zero::<F>(c);
    }
}

/// The sum of the terms of the first `n` points has the value `y_k` at
/// `x_k` for each of these points, and zero at the other points.
pub proof fn lemma_sum_eval<F: Field>(pts: Seq<(F::V, F::V)>, n: nat, k: int)
    requires
        points_in_field::<F>(pts),
        distinct_points::<F>(pts),
        n <= pts.len(),
        0 <= k < pts.len(),
    ensures
        lagrange_sum::<F>(pts, n).len() <= pts.len(),
        peval::<F>(lagrange_sum::<F>(pts, n), pts[k].0) == (if k < n {
            pts[k].1
        } else {
            F::zero_v()
        }),
    decreases n,
{
    broadcast use {group_ring_closed, group_poly};

    if n > 0 {
        let m = (n - 1) as nat;
        lemma_sum_eval::<F>(pts, m, k);
        lemma_term_eval::<F>(pts, n - 1, k);
        lemma_peval_add::<F>(lagrange_sum::<F>(pts, m), lagrange_term::<F>(pts, n - 1), pts[k].0);
        assert(F::member(pts[k].1));
        F::law_add_zero(pts[k].1);
        lemma_zero_add::<F>(pts[k].1);
        F::law_add_zero(F::zero_v());
    }
}

/// The interpolating polynomial passes through points with distinct first
/// coordinates, and has fewer coefficients than there are points, or as
/// many.
pub proof fn lemma_lagrange_interpolates<F: Field>(pts: Seq<(F::V, F::V)>, k: int)
    requires
        points_in_field::<F>(pts),
        distinct_points::<F>(pts),
        0 <= k < pts.len(),
    ensures
        peval::<F>(lagrange::<F>(pts), pts[k].0) == pts[k].1,
        lagrange::<F>(pts).len() <= pts.len(),
{
    lemma_sum_eval::<F>(pts, pts.len(), k);
}

/// The polynomial that interpolates the given points: through points whose
/// first coordinates are distinct it is the one polynomial of a degree
/// below their number that passes through all of them.
pub fn lagrange_interpolation<F: Field>(points: Vec<(F, F)>) -> (r: Polynomial<F>)
    ensures
        r@ == lagrange::<F>(point_values::<F>(points@)),
        distinct_points::<F>(point_values::<F>(points@)) ==> r@.len() <= points@.len()
            && forall|k: int|
            0 <= k < points@.len() ==> peval::<F>(r@, (#[trigger] points@[k]).0@)
                == points@[k].1@,
{
    let ghost pts = point_values::<F>(points@);
    let n = points.len();
    proof {
        assert forall|i: int| 0 <= i < pts.len() implies F::member((#[trigger] pts[i]).0)
            && F::member(pts[i].1) by {
            F::law_view_member(&points@[i].0);
            F::law_view_member(&points@[i].1);
        }
    }
    let mut sum = Polynomial::<F>::zero();
    let mut i: usize = 0;
    while i < n
        invariant
            i <= n,
            n == points.len(),
            pts == point_values::<F>(points@),
            points_in_field::<F>(pts),
            sum@ == lagrange_sum::<F>(pts, i as nat),
        decreases n - i,
    {
        let pi = &points[i];
        let mut num = Polynomial::<F>::one();
        let mut den = F::one();
        let mut j: usize = 0;
        while j < n
            invariant
                j <= n,
                i < n,
                n == points.len(),
                pts == point_values::<F>(points@),
                points_in_field::<F>(pts),
                *pi == points@[i as int],
                num@ == basis::<F>(pts, i as int, j as nat),
                den@ == basis_at::<F>(pts, i as int, j as nat, pts[i as int].0),
            decreases n - j,
        {
            let pj = &points[j];
            if !pi.0.equals(&pj.0) {
                let mut v: Vec<F> = Vec::new();
                v.push(pj.0.neg());
                v.push(F::one());
                let ghost vs = values::<F>(v@);
                let lin = Polynomial::new(v);
                proof {
                    assert(vs =~= seq![F::neg_v(pts[j as int].0), F::one_v()]);
                }
                num = num.mul(&lin);
                let diff = pi.0.add(&pj.0.neg());
                den = den.mul(&diff);
            }
            j = j + 1;
        }
        proof {
            lemma_basis_at_own::<F>(pts, i as int, n as nat);
            F::law_inverse(den@);
        }
        let inv = match den.checked_inv() {
            Some(v) => v,
            None => den,
        };
        let c = pi.1.mul(&inv);
        let term = num.scalar_mul(&c);
        sum = sum.add(&term);
        i = i + 1;
    }
    proof {
        if distinct_points::<F>(pts) {
            assert forall|k: int| 0 <= k < points@.len() implies peval::<F>(
                sum@,
                (#[trigger] points@[k]).0@,
            ) == points@[k].1@ by {
                lemma_lagrange_interpolates::<F>(pts, k);
                assert(pts[k] == (points@[k].0@, points@[k].1@));
            }
            if n > 0 {
                lemma_lagrange_interpolates::<F>(pts, 0);
            }
        }
    }
    sum
}

} // verus!
