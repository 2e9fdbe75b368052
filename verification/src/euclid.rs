//! Division with remainder and greatest common divisors of polynomials over
//! a field.

use vstd::prelude::*;
use crate::poly_ring::{
    lemma_conv_last_left, lemma_padd_zero, lemma_pmul_add_left, lemma_pmul_comm, lemma_pmul_const,
    lemma_pmul_shift_left, lemma_pmul_zero, lemma_pscale_zero,
};
use crate::polynomial::{
    Polynomial, canon, coeff, group_poly, lemma_conv_high, lemma_pok_coeff, lemma_trim, padd,
    pconst, pmul, pok, pone, plead, pscale, pshift, psub, pzero,
};
use crate::traits::{
    CheckedInv, CommutativeRing, Field, RingSpec, divides, group_ring_closed, is_gcd, is_unit,
    lemma_add_sub_cancel, lemma_divides_add, lemma_divides_mul, lemma_divides_refl,
    lemma_divides_sub, lemma_divides_zero, lemma_eq_rearrange, lemma_field_no_zero_divisors,
    lemma_mul_sub, lemma_mul_zero, lemma_recip, lemma_sub_unique, lemma_sub_zero_eq,
    lemma_zero_add, recip,
};

verus! {

/// A polynomial without trailing zeros whose coefficients vanish from `n` on
/// has at most `n` coefficients.
pub proof fn lemma_len_bound<R: RingSpec>(p: Seq<R::V>, n: int)
    requires
        canon::<R>(p),
        n >= 0,
        forall|i: int| i >= n ==> #[trigger] coeff::<R>(p, i) == R::zero_v(),
    ensures
        p.len() <= n,
{
    if p.len() > n {
        assert(coeff::<R>(p, p.len() - 1) == R::zero_v());
    }
}

/// The coefficient of the highest power in a product is the product of the
/// highest stored coefficients.
pub proof fn lemma_pmul_top<R: RingSpec>(a: Seq<R::V>, b: Seq<R::V>)
    requires
        a.len() > 0,
        b.len() > 0,
    ensures
        coeff::<R>(pmul::<R>(a, b), a.len() + b.len() - 2) == R::mul_v(a.last(), b.last()),
        forall|i: int| i >= a.len() + b.len() - 1 ==> #[trigger] coeff::<R>(pmul::<R>(a, b), i)
            == R::zero_v(),
{
    broadcast use {group_ring_closed, group_poly};

    let n = a.len() + b.len() - 2;
    lemma_conv_last_left::<R>(a, b, n, n + 1);
    lemma_conv_high::<R>(a.drop_last(), b, n, n + 1);
    lemma_zero_add::<R>(R::mul_v(a.last(), b.last()));
    assert forall|i: int| i >= a.len() + b.len() - 1 implies #[trigger] coeff::<R>(
        pmul::<R>(a, b),
        i,
    ) == R::zero_v() by {
        lemma_conv_high::<R>(a, b, i, i + 1);
    }
}

/// Where the product of the leading coefficients is not zero, the degree of
/// a product is the sum of the degrees.
pub proof fn lemma_pmul_len<R: RingSpec>(a: Seq<R::V>, b: Seq<R::V>)
    requires
        a.len() > 0,
        b.len() > 0,
        R::mul_v(a.last(), b.last()) != R::zero_v(),
    ensures
        pmul::<R>(a, b).len() == a.len() + b.len() - 1,
        plead::<R>(pmul::<R>(a, b)) == R::mul_v(a.last(), b.last()),
{
    broadcast use {group_ring_closed, group_poly};

    lemma_pmul_top::<R>(a, b);
    lemma_len_bound::<R>(pmul::<R>(a, b), a.len() + b.len() - 1);
}

/// Over a field, the degree of a product of non-zero polynomials is the sum
/// of the degrees.
pub proof fn lemma_field_pmul_len<F: Field>(a: Seq<F::V>, b: Seq<F::V>)
    requires
        pok::<F>(a),
        pok::<F>(b),
        a.len() > 0,
        b.len() > 0,
    ensures
        pmul::<F>(a, b).len() == a.len() + b.len() - 1,
        plead::<F>(pmul::<F>(a, b)) == F::mul_v(a.last(), b.last()),
{
    if F::mul_v(a.last(), b.last()) == F::zero_v() {
        lemma_field_no_zero_divisors::<F>(a.last(), b.last());
    }
    lemma_pmul_len::<F>(a, b);
}

/// Whether `q` and `r` are quotient and remainder of `a` by `b`:
/// `a == q * b + r`, with `r` zero or of lower degree than `b`.
pub open spec fn is_divmod<F: Field>(
    a: Seq<F::V>,
    b: Seq<F::V>,
    q: Seq<F::V>,
    r: Seq<F::V>,
) -> bool {
    &&& pok::<F>(q)
    &&& pok::<F>(r)
    &&& a == padd::<F>(pmul::<F>(q, b), r)
    &&& r.len() < b.len()
}

/// Whether `a` has a quotient and a remainder by `b`.
pub open spec fn has_divmod<F: Field>(a: Seq<F::V>, b: Seq<F::V>) -> bool {
    exists|qr: (Seq<F::V>, Seq<F::V>)| #[trigger] is_divmod::<F>(a, b, qr.0, qr.1)
}

/// The quotient of `a` by `b`.
pub open spec fn pquo<F: Field>(a: Seq<F::V>, b: Seq<F::V>) -> Seq<F::V> {
    if has_divmod::<F>(a, b) {
        (choose|qr: (Seq<F::V>, Seq<F::V>)| #[trigger] is_divmod::<F>(a, b, qr.0, qr.1)).0
    } else {
        pzero::<F>()
    }
}

/// The remainder of `a` by `b`.
pub open spec fn prem<F: Field>(a: Seq<F::V>, b: Seq<F::V>) -> Seq<F::V> {
    if has_divmod::<F>(a, b) {
        (choose|qr: (Seq<F::V>, Seq<F::V>)| #[trigger] is_divmod::<F>(a, b, qr.0, qr.1)).1
    } else {
        pzero::<F>()
    }
}

/// The last remainder of Euclid's algorithm on `a` and `b` that is not zero.
pub open spec fn euclid<F: Field>(a: Seq<F::V>, b: Seq<F::V>) -> Seq<F::V>
    decreases b.len(),
{
    if b.len() == 0 {
        a
    } else {
        euclid::<F>(b, prem::<F>(a, b))
    }
}

/// The polynomial divided by its leading coefficient.
pub open spec fn pmonic<F: Field>(a: Seq<F::V>) -> Seq<F::V> {
    pscale::<F>(recip::<F>(plead::<F>(a)), a)
}

/// Quotient and remainder are unique.
pub proof fn lemma_divmod_unique<F: Field>(
    a: Seq<F::V>,
    b: Seq<F::V>,
    q: Seq<F::V>,
    r: Seq<F::V>,
    q2: Seq<F::V>,
    r2: Seq<F::V>,
)
    requires
        pok::<F>(b),
        is_divmod::<F>(a, b, q, r),
        is_divmod::<F>(a, b, q2, r2),
    ensures
        q == q2,
        r == r2,
{
    broadcast use {group_ring_closed, group_poly};

    let x = pmul::<F>(q, b);
    let y = pmul::<F>(q2, b);
    lemma_eq_rearrange::<Polynomial<F>>(x, r, y, r2);
    lemma_mul_sub::<Polynomial<F>>(q, q2, b);
    let dq = psub::<F>(q, q2);
    assert(pmul::<F>(dq, b) == psub::<F>(r2, r));
    if dq.len() > 0 {
        lemma_field_pmul_len::<F>(dq, b);
        assert(false);
    }
    assert(dq =~= pzero::<F>());
    lemma_sub_zero_eq::<Polynomial<F>>(q, q2);
    lemma_pmul_zero::<F>(dq, b);
    lemma_sub_zero_eq::<Polynomial<F>>(r2, r);
}

/// Whatever quotient and remainder there are, they are `pquo` and `prem`.
pub proof fn lemma_divmod_is<F: Field>(a: Seq<F::V>, b: Seq<F::V>, q: Seq<F::V>, r: Seq<F::V>)
    requires
        pok::<F>(b),
        is_divmod::<F>(a, b, q, r),
    ensures
        q == pquo::<F>(a, b),
        r == prem::<F>(a, b),
        has_divmod::<F>(a, b),
{
    assert(is_divmod::<F>(a, b, (q, r).0, (q, r).1));
    let c = choose|qr: (Seq<F::V>, Seq<F::V>)| #[trigger] is_divmod::<F>(a, b, qr.0, qr.1);
    lemma_divmod_unique::<F>(a, b, q, r, c.0, c.1);
}

/// Division by a divisor leaves no remainder.
pub proof fn lemma_exact_division<F: Field>(
    a: Seq<F::V>,
    b: Seq<F::V>,
    q: Seq<F::V>,
    r: Seq<F::V>,
)
    requires
        pok::<F>(a),
        pok::<F>(b),
        is_divmod::<F>(a, b, q, r),
        divides::<Polynomial<F>>(b, a),
    ensures
        r == pzero::<F>(),
        a == pmul::<F>(q, b),
        a == pmul::<F>(b, q),
{
    broadcast use {group_ring_closed, group_poly};

    let s = choose|s: Seq<F::V>|
        <Polynomial<F> as RingSpec>::member(s) && #[trigger] <Polynomial<F> as RingSpec>::mul_v(
            b,
            s,
        ) == a;
    lemma_pmul_comm::<F>(b, s);
    lemma_padd_zero::<F>(a);
    assert(is_divmod::<F>(a, b, s, pzero::<F>()));
    lemma_divmod_unique::<F>(a, b, q, r, s, pzero::<F>());
    lemma_pmul_comm::<F>(b, q);
}

/// One step of long division: subtracting the right multiple of the
/// divisor lowers the degree of the dividend.
pub proof fn lemma_division_step<F: Field>(a: Seq<F::V>, b: Seq<F::V>, inv: F::V)
    requires
        pok::<F>(a),
        pok::<F>(b),
        a.len() >= b.len() > 0,
        F::member(inv),
        F::mul_v(plead::<F>(b), inv) == F::one_v(),
    ensures
        ({
            let c = F::mul_v(plead::<F>(a), inv);
            let k = (a.len() - b.len()) as nat;
            let term = pshift::<F>(pscale::<F>(c, b), k);
            &&& pmul::<F>(pshift::<F>(pconst::<F>(c), k), b) == term
            &&& psub::<F>(a, term).len() < a.len()
        }),
{
    broadcast use {group_ring_closed, group_poly};

    let at = plead::<F>(a);
    let bt = plead::<F>(b);
    let c = F::mul_v(at, inv);
    let k = (a.len() - b.len()) as nat;
    let term = pshift::<F>(pscale::<F>(c, b), k);
    let dr = a.len() - 1;
    lemma_pmul_shift_left::<F>(pconst::<F>(c), k, b);
    lemma_pmul_const::<F>(c, b);
    lemma_pok_coeff::<F>(a, dr);
    F::law_mul_assoc(at, inv, bt);
    F::law_mul_comm(inv, bt);
    F::law_mul_one(at);
    F::law_add_neg(at);
    let r2 = psub::<F>(a, term);
    assert forall|i: int| i >= dr implies #[trigger] coeff::<F>(r2, i) == F::zero_v() by {
        assert(coeff::<F>(term, i) == F::mul_v(c, coeff::<F>(b, i - k)));
        if i > dr {
            lemma_mul_zero::<F>(c);
            crate::traits::lemma_neg_zero::<F>();
            F::law_add_zero(F::zero_v());
        }
    }
    lemma_len_bound::<F>(r2, dr);
}

/// Every polynomial has a quotient and a remainder by every non-zero
/// polynomial.
pub proof fn lemma_division_exists<F: Field>(a: Seq<F::V>, b: Seq<F::V>)
    requires
        pok::<F>(a),
        pok::<F>(b),
        b.len() > 0,
    ensures
        has_divmod::<F>(a, b),
        is_divmod::<F>(a, b, pquo::<F>(a, b), prem::<F>(a, b)),
    decreases a.len(),
{
    broadcast use {group_ring_closed, group_poly};

    if a.len() < b.len() {
        lemma_pmul_zero::<F>(pzero::<F>(), b);
        lemma_padd_zero::<F>(a);
        assert(is_divmod::<F>(a, b, (pzero::<F>(), a).0, (pzero::<F>(), a).1));
    } else {
        lemma_pok_coeff::<F>(b, b.len() - 1);
        F::law_inverse(plead::<F>(b));
        lemma_recip::<F>(plead::<F>(b));
        let inv = recip::<F>(plead::<F>(b));
        let c = F::mul_v(plead::<F>(a), inv);
        let k = (a.len() - b.len()) as nat;
        let term = pshift::<F>(pscale::<F>(c, b), k);
        let m = pshift::<F>(pconst::<F>(c), k);
        lemma_division_step::<F>(a, b, inv);
        let a2 = psub::<F>(a, term);
        lemma_division_exists::<F>(a2, b);
        let q1 = pquo::<F>(a2, b);
        let r1 = prem::<F>(a2, b);
        let q = padd::<F>(q1, m);
        crate::traits::lemma_sub_add::<Polynomial<F>>(a, term);
        lemma_pmul_add_left::<F>(q1, m, b);
        crate::traits::lemma_add_swap::<Polynomial<F>>(pmul::<F>(q1, b), r1, term);
        assert(is_divmod::<F>(a, b, (q, r1).0, (q, r1).1));
    }
    let w = choose|qr: (Seq<F::V>, Seq<F::V>)| #[trigger] is_divmod::<F>(a, b, qr.0, qr.1);
    assert(is_divmod::<F>(a, b, w.0, w.1));
}

/// A greatest common divisor of the divisor and the remainder is one of the
/// dividend and the divisor.
pub proof fn lemma_gcd_step<F: Field>(
    a: Seq<F::V>,
    b: Seq<F::V>,
    q: Seq<F::V>,
    r: Seq<F::V>,
    g: Seq<F::V>,
)
    requires
        pok::<F>(a),
        pok::<F>(b),
        is_divmod::<F>(a, b, q, r),
        is_gcd::<Polynomial<F>>(g, b, r),
    ensures
        is_gcd::<Polynomial<F>>(g, a, b),
{
    broadcast use {group_ring_closed, group_poly};

    lemma_divides_mul::<Polynomial<F>>(g, b, q);
    lemma_divides_add::<Polynomial<F>>(g, pmul::<F>(q, b), r);
    lemma_sub_unique::<Polynomial<F>>(pmul::<F>(q, b), r, a);
    assert forall|d: Seq<F::V>|
        <Polynomial<F> as RingSpec>::member(d) && #[trigger] divides::<Polynomial<F>>(d, a)
            && divides::<Polynomial<F>>(d, b) implies divides::<Polynomial<F>>(d, g) by {
        lemma_divides_mul::<Polynomial<F>>(d, b, q);
        lemma_divides_sub::<Polynomial<F>>(d, a, pmul::<F>(q, b));
        assert(divides::<Polynomial<F>>(d, b));
    }
}

/// Euclid's algorithm ends in a greatest common divisor.
pub proof fn lemma_euclid_is_gcd<F: Field>(a: Seq<F::V>, b: Seq<F::V>)
    requires
        pok::<F>(a),
        pok::<F>(b),
    ensures
        pok::<F>(euclid::<F>(a, b)),
        is_gcd::<Polynomial<F>>(euclid::<F>(a, b), a, b),
    decreases b.len(),
{
    if b.len() == 0 {
        assert(b =~= pzero::<F>());
        lemma_divides_refl::<Polynomial<F>>(a);
        lemma_divides_zero::<Polynomial<F>>(a);
    } else {
        lemma_division_exists::<F>(a, b);
        let q = pquo::<F>(a, b);
        let r = prem::<F>(a, b);
        lemma_euclid_is_gcd::<F>(b, r);
        lemma_gcd_step::<F>(a, b, q, r, euclid::<F>(b, r));
    }
}

/// The combination `x * a + y * b`.
pub open spec fn combo<F: Field>(
    x: Seq<F::V>,
    a: Seq<F::V>,
    y: Seq<F::V>,
    b: Seq<F::V>,
) -> Seq<F::V> {
    padd::<F>(pmul::<F>(x, a), pmul::<F>(y, b))
}

/// Whether `g == x * a + y * b` for some polynomials `x` and `y`.
pub open spec fn is_combination<F: Field>(g: Seq<F::V>, a: Seq<F::V>, b: Seq<F::V>) -> bool {
    exists|x: Seq<F::V>, y: Seq<F::V>|
        pok::<F>(x) && pok::<F>(y) && #[trigger] combo::<F>(x, a, y, b) == g
}

/// What Euclid's algorithm ends in is a combination of its arguments.
pub proof fn lemma_euclid_combination<F: Field>(a: Seq<F::V>, b: Seq<F::V>)
    requires
        pok::<F>(a),
        pok::<F>(b),
    ensures
        is_combination::<F>(euclid::<F>(a, b), a, b),
    decreases b.len(),
{
    broadcast use {group_ring_closed, group_poly};

    if b.len() == 0 {
        crate::poly_ring::lemma_pmul_one::<F>(a);
        lemma_pmul_zero::<F>(pzero::<F>(), b);
        lemma_padd_zero::<F>(a);
        assert(combo::<F>(pone::<F>(), a, pzero::<F>(), b) == a);
    } else {
        lemma_division_exists::<F>(a, b);
        let q = pquo::<F>(a, b);
        let r = prem::<F>(a, b);
        lemma_euclid_combination::<F>(b, r);
        let (x, y) = choose|x: Seq<F::V>, y: Seq<F::V>|
            pok::<F>(x) && pok::<F>(y) && #[trigger] combo::<F>(x, b, y, r) == euclid::<F>(b, r);
        lemma_sub_unique::<Polynomial<F>>(pmul::<F>(q, b), r, a);
        crate::traits::lemma_combination_step::<Polynomial<F>>(x, y, a, b, q);
        let x2 = psub::<F>(x, pmul::<F>(y, q));
        assert(combo::<F>(y, a, x2, b) == euclid::<F>(a, b));
    }
}

/// Bezout's identity: a greatest common divisor is a combination.
pub proof fn lemma_bezout<F: Field>(g: Seq<F::V>, a: Seq<F::V>, b: Seq<F::V>)
    requires
        pok::<F>(a),
        pok::<F>(b),
        is_gcd::<Polynomial<F>>(g, a, b),
    ensures
        is_combination::<F>(g, a, b),
{
    broadcast use {group_ring_closed, group_poly};

    let e = euclid::<F>(a, b);
    lemma_euclid_is_gcd::<F>(a, b);
    lemma_euclid_combination::<F>(a, b);
    let (x, y) = choose|x: Seq<F::V>, y: Seq<F::V>|
        pok::<F>(x) && pok::<F>(y) && #[trigger] combo::<F>(x, a, y, b) == e;
    assert(divides::<Polynomial<F>>(e, a));
    assert(divides::<Polynomial<F>>(e, g));
    let w = choose|w: Seq<F::V>|
        <Polynomial<F> as RingSpec>::member(w) && #[trigger] <Polynomial<F> as RingSpec>::mul_v(
            e,
            w,
        ) == g;
    // (x a + y b) w == (w x) a + (w y) b
    crate::traits::lemma_distrib_right::<Polynomial<F>>(pmul::<F>(x, a), pmul::<F>(y, b), w);
    crate::traits::lemma_mul_swap::<Polynomial<F>>(x, a, w);
    crate::traits::lemma_mul_swap::<Polynomial<F>>(y, b, w);
    lemma_pmul_comm::<F>(x, w);
    lemma_pmul_comm::<F>(y, w);
    assert(combo::<F>(pmul::<F>(w, x), a, pmul::<F>(w, y), b) == g);
}

/// Over a field, a non-zero factor can be cancelled.
pub proof fn lemma_pmul_cancel<F: Field>(c: Seq<F::V>, a: Seq<F::V>, b: Seq<F::V>)
    requires
        pok::<F>(a),
        pok::<F>(b),
        pok::<F>(c),
        c.len() > 0,
        pmul::<F>(c, a) == pmul::<F>(c, b),
    ensures
        a == b,
{
    broadcast use {group_ring_closed, group_poly};

    lemma_mul_sub::<Polynomial<F>>(a, b, c);
    crate::poly_ring::lemma_padd_neg::<F>(pmul::<F>(c, a));
    let d = psub::<F>(a, b);
    if d.len() > 0 {
        lemma_field_pmul_len::<F>(c, d);
        assert(false);
    }
    assert(d =~= pzero::<F>());
    lemma_sub_zero_eq::<Polynomial<F>>(a, b);
}

/// A divisor of a non-zero polynomial is not zero and of no higher degree.
pub proof fn lemma_divides_len<F: Field>(d: Seq<F::V>, a: Seq<F::V>)
    requires
        pok::<F>(d),
        a.len() > 0,
        divides::<Polynomial<F>>(d, a),
    ensures
        0 < d.len() <= a.len(),
{
    let q = choose|q: Seq<F::V>|
        <Polynomial<F> as RingSpec>::member(q) && #[trigger] <Polynomial<F> as RingSpec>::mul_v(
            d,
            q,
        ) == a;
    if d.len() == 0 || q.len() == 0 {
        lemma_pmul_zero::<F>(d, q);
        assert(false);
    }
    lemma_field_pmul_len::<F>(d, q);
}

/// The units among the polynomials over a field are the non-zero constants.
pub proof fn lemma_unit_const<F: Field>(p: Seq<F::V>)
    requires
        pok::<F>(p),
    ensures
        is_unit::<Polynomial<F>>(p) <==> p.len() == 1,
{
    broadcast use {group_ring_closed, group_poly};

    F::law_nontrivial();
    if is_unit::<Polynomial<F>>(p) {
        lemma_recip::<Polynomial<F>>(p);
        let q = recip::<Polynomial<F>>(p);
        assert(pone::<F>() == seq![F::one_v()]);
        if p.len() == 0 || q.len() == 0 {
            lemma_pmul_zero::<F>(p, q);
            assert(false);
        }
        lemma_field_pmul_len::<F>(p, q);
    }
    if p.len() == 1 {
        let c = p[0];
        F::law_inverse(c);
        lemma_recip::<F>(c);
        let q = pconst::<F>(recip::<F>(c));
        assert(p =~= pconst::<F>(c));
        lemma_pmul_const::<F>(c, q);
        assert forall|i: int| coeff::<F>(pmul::<F>(p, q), i) == #[trigger] coeff::<F>(
            pone::<F>(),
            i,
        ) by {
            if i != 0 {
                lemma_mul_zero::<F>(c);
            }
        }
        crate::polynomial::lemma_canon_ext::<F>(pmul::<F>(p, q), pone::<F>());
        assert(<Polynomial<F> as RingSpec>::mul_v(p, q) == pone::<F>());
    }
}

/// Whether the common divisors of `a` and `b` are the units.
pub open spec fn coprime<F: Field>(a: Seq<F::V>, b: Seq<F::V>) -> bool {
    is_gcd::<Polynomial<F>>(pone::<F>(), a, b)
}

/// Polynomials of which a combination is `1` are coprime.
pub proof fn lemma_combination_coprime<F: Field>(a: Seq<F::V>, b: Seq<F::V>)
    requires
        pok::<F>(a),
        pok::<F>(b),
        is_combination::<F>(pone::<F>(), a, b),
    ensures
        coprime::<F>(a, b),
{
    broadcast use {group_ring_closed, group_poly};

    let (x, y) = choose|x: Seq<F::V>, y: Seq<F::V>|
        pok::<F>(x) && pok::<F>(y) && #[trigger] combo::<F>(x, a, y, b) == pone::<F>();
    lemma_divides_refl::<Polynomial<F>>(a);
    lemma_divides_refl::<Polynomial<F>>(b);
    assert forall|d: Seq<F::V>|
        <Polynomial<F> as RingSpec>::member(d) && #[trigger] divides::<Polynomial<F>>(d, a)
            && divides::<Polynomial<F>>(d, b) implies divides::<Polynomial<F>>(
        d,
        pone::<F>(),
    ) by {
        lemma_divides_mul::<Polynomial<F>>(d, a, x);
        lemma_divides_mul::<Polynomial<F>>(d, b, y);
        lemma_divides_add::<Polynomial<F>>(d, pmul::<F>(x, a), pmul::<F>(y, b));
    }
}

/// Being coprime does not depend on the order.
pub proof fn lemma_coprime_sym<F: Field>(a: Seq<F::V>, b: Seq<F::V>)
    requires
        coprime::<F>(a, b),
    ensures
        coprime::<F>(b, a),
{
    assert forall|d: Seq<F::V>|
        <Polynomial<F> as RingSpec>::member(d) && #[trigger] divides::<Polynomial<F>>(d, b)
            && divides::<Polynomial<F>>(d, a) implies divides::<Polynomial<F>>(
        d,
        pone::<F>(),
    ) by {
        assert(divides::<Polynomial<F>>(d, a));
    }
}

/// A polynomial coprime to `b` is coprime to every divisor of `b`.
pub proof fn lemma_coprime_divisor<F: Field>(a: Seq<F::V>, b: Seq<F::V>, d: Seq<F::V>)
    requires
        pok::<F>(d),
        coprime::<F>(a, b),
        divides::<Polynomial<F>>(d, b),
    ensures
        coprime::<F>(a, d),
{
    lemma_divides_refl::<Polynomial<F>>(d);
    assert forall|e: Seq<F::V>|
        <Polynomial<F> as RingSpec>::member(e) && #[trigger] divides::<Polynomial<F>>(e, a)
            && divides::<Polynomial<F>>(e, d) implies divides::<Polynomial<F>>(
        e,
        pone::<F>(),
    ) by {
        crate::traits::lemma_divides_trans::<Polynomial<F>>(e, d, b);
    }
}

/// Gauss's lemma: what divides a product and is coprime to one factor
/// divides the other.
pub proof fn lemma_gauss<F: Field>(a: Seq<F::V>, b: Seq<F::V>, c: Seq<F::V>)
    requires
        pok::<F>(a),
        pok::<F>(b),
        pok::<F>(c),
        coprime::<F>(a, b),
        divides::<Polynomial<F>>(a, pmul::<F>(b, c)),
    ensures
        divides::<Polynomial<F>>(a, c),
{
    broadcast use {group_ring_closed, group_poly};

    lemma_bezout::<F>(pone::<F>(), a, b);
    let (x, y) = choose|x: Seq<F::V>, y: Seq<F::V>|
        pok::<F>(x) && pok::<F>(y) && #[trigger] combo::<F>(x, a, y, b) == pone::<F>();
    crate::traits::lemma_distrib_right::<Polynomial<F>>(pmul::<F>(x, a), pmul::<F>(y, b), c);
    crate::poly_ring::lemma_pmul_one::<F>(c);
    // a | (x a) c
    lemma_divides_refl::<Polynomial<F>>(a);
    lemma_divides_mul::<Polynomial<F>>(a, a, x);
    lemma_divides_mul::<Polynomial<F>>(a, pmul::<F>(x, a), c);
    // a | (y b) c
    crate::poly_ring::lemma_pmul_assoc::<F>(y, b, c);
    lemma_divides_mul::<Polynomial<F>>(a, pmul::<F>(b, c), y);
    lemma_divides_add::<Polynomial<F>>(
        a,
        pmul::<F>(pmul::<F>(x, a), c),
        pmul::<F>(pmul::<F>(y, b), c),
    );
}

/// Two polynomials divided by a greatest common divisor are coprime.
pub proof fn lemma_coprime_quotients<F: Field>(
    g: Seq<F::V>,
    a: Seq<F::V>,
    b: Seq<F::V>,
    a2: Seq<F::V>,
    b2: Seq<F::V>,
)
    requires
        pok::<F>(a2),
        pok::<F>(b2),
        g.len() > 0,
        is_gcd::<Polynomial<F>>(g, a, b),
        a == pmul::<F>(g, a2),
        b == pmul::<F>(g, b2),
    ensures
        coprime::<F>(a2, b2),
{
    broadcast use {group_ring_closed, group_poly};

    lemma_bezout::<F>(g, a, b);
    let (x, y) = choose|x: Seq<F::V>, y: Seq<F::V>|
        pok::<F>(x) && pok::<F>(y) && #[trigger] combo::<F>(x, a, y, b) == g;
    crate::traits::lemma_combination_factor::<Polynomial<F>>(x, y, g, a2, b2);
    crate::poly_ring::lemma_pmul_one::<F>(g);
    lemma_pmul_cancel::<F>(g, combo::<F>(x, a2, y, b2), pone::<F>());
    lemma_combination_coprime::<F>(a2, b2);
}

/// A non-zero polynomial divided by its leading coefficient is monic and
/// has the same divisors and multiples.
pub proof fn lemma_pmonic<F: Field>(g: Seq<F::V>)
    requires
        pok::<F>(g),
        g.len() > 0,
    ensures
        pok::<F>(pmonic::<F>(g)),
        pmonic::<F>(g).len() == g.len(),
        plead::<F>(pmonic::<F>(g)) == F::one_v(),
        g == pscale::<F>(plead::<F>(g), pmonic::<F>(g)),
        divides::<Polynomial<F>>(g, pmonic::<F>(g)),
        divides::<Polynomial<F>>(pmonic::<F>(g), g),
{
    broadcast use {group_ring_closed, group_poly};

    F::law_nontrivial();
    let t = plead::<F>(g);
    lemma_pok_coeff::<F>(g, g.len() - 1);
    F::law_inverse(t);
    lemma_recip::<F>(t);
    let i = recip::<F>(t);
    let m = pmonic::<F>(g);
    assert(coeff::<F>(m, g.len() - 1) == F::mul_v(i, t));
    crate::poly_ring::lemma_pscale_pscale::<F>(t, i, g);
    crate::poly_ring::lemma_pscale_one::<F>(g);
    lemma_pmul_const::<F>(i, g);
    lemma_pmul_const::<F>(t, m);
    lemma_pmul_comm::<F>(pconst::<F>(i), g);
    lemma_pmul_comm::<F>(pconst::<F>(t), m);
    assert(<Polynomial<F> as RingSpec>::mul_v(g, pconst::<F>(i)) == m);
    assert(<Polynomial<F> as RingSpec>::mul_v(m, pconst::<F>(t)) == g);
}

/// A greatest common divisor divided by its leading coefficient is a
/// greatest common divisor.
pub proof fn lemma_pmonic_gcd<F: Field>(g: Seq<F::V>, a: Seq<F::V>, b: Seq<F::V>)
    requires
        g.len() > 0,
        is_gcd::<Polynomial<F>>(g, a, b),
    ensures
        is_gcd::<Polynomial<F>>(pmonic::<F>(g), a, b),
{
    lemma_pmonic::<F>(g);
    let m = pmonic::<F>(g);
    crate::traits::lemma_divides_trans::<Polynomial<F>>(m, g, a);
    crate::traits::lemma_divides_trans::<Polynomial<F>>(m, g, b);
    assert forall|d: Seq<F::V>|
        <Polynomial<F> as RingSpec>::member(d) && #[trigger] divides::<Polynomial<F>>(d, a)
            && divides::<Polynomial<F>>(d, b) implies divides::<Polynomial<F>>(d, m) by {
        crate::traits::lemma_divides_trans::<Polynomial<F>>(d, g, m);
    }
}

impl<F: Field> Polynomial<F> {
    /// Quotient and remainder of the division by a polynomial that is not
    /// zero.
    #[verifier::rlimit(50)]
    pub fn div_rem(&self, other: &Self) -> (r: (Self, Self))
        requires
            other@ != pzero::<F>(),
        ensures
            is_divmod::<F>(self@, other@, r.0@, r.1@),
            r.0@ == pquo::<F>(self@, other@),
            r.1@ == prem::<F>(self@, other@),
            r.0.normalized(),
            r.1.normalized(),
    {
        let ghost a = self@;
        let ghost b = other@;
        proof {
            Self::law_view_member(self);
            Self::law_view_member(other);
            assert(b.len() == 0 ==> b =~= pzero::<F>());
        }
        let db = match other.degree() {
            Some(d) => d,
            None => 0,
        };
        let lb = other.leading_coefficient_cloned();
        proof {
            lemma_pok_coeff::<F>(b, b.len() - 1);
            F::law_inverse(lb@);
        }
        let inv = match lb.checked_inv() {
            Some(i) => i,
            None => lb,
        };
        let mut q = Polynomial::<F>::zero();
        let mut r = self.duplicate().normalize();
        proof {
            lemma_pmul_zero::<F>(pzero::<F>(), b);
            crate::poly_ring::lemma_padd_zero::<F>(a);
        }
        while r.coeffs.len() > db
            invariant
                a == self@,
                b == other@,
                pok::<F>(b),
                b.len() == db + 1,
                F::mul_v(plead::<F>(b), inv@) == F::one_v(),
                r.normalized(),
                q.normalized(),
                a == padd::<F>(pmul::<F>(q@, b), r@),
            decreases r.coeffs.len(),
        {
            proof {
                lemma_trim::<F>(r.raw());
                Self::law_view_member(&r);
            }
            let dr = r.coeffs.len() - 1;
            let c = r.coeffs[dr].mul(&inv);
            let k = dr - db;
            let term = other.scalar_mul(&c).shift(k);
            let m = Polynomial::constant(c).shift(k);
            let r2 = r.sub(&term);
            let q2 = q.add(&m);
            proof {
                broadcast use {group_ring_closed, group_poly};

                F::law_view_member(&inv);
                lemma_division_step::<F>(r@, b, inv@);
                lemma_pmul_add_left::<F>(q@, m@, b);
                lemma_add_sub_cancel::<Polynomial<F>>(pmul::<F>(q@, b), term@, r@);
                lemma_trim::<F>(r2.raw());
            }
            r = r2;
            q = q2;
        }
        proof {
            lemma_trim::<F>(r.raw());
            Self::law_view_member(&r);
            Self::law_view_member(&q);
            lemma_divmod_is::<F>(a, b, q@, r@);
        }
        (q, r)
    }

    /// A greatest common divisor, by Euclid's algorithm: the last remainder
    /// that is not zero, or `self` where `other` is zero.
    pub fn gcd(&self, other: &Self) -> (g: Self)
        ensures
            g@ == euclid::<F>(self@, other@),
            is_gcd::<Polynomial<F>>(g@, self@, other@),
            g.normalized(),
    {
        let mut a = self.duplicate().normalize();
        let mut b = other.duplicate().normalize();
        proof {
            Self::law_view_member(self);
            Self::law_view_member(other);
            lemma_euclid_is_gcd::<F>(self@, other@);
        }
        while !b.is_zero()
            invariant
                a.normalized(),
                b.normalized(),
                euclid::<F>(a@, b@) == euclid::<F>(self@, other@),
            decreases b@.len(),
        {
            let (_q, r) = a.div_rem(&b);
            a = b;
            b = r;
        }
        a
    }

    /// The polynomial divided by its leading coefficient; zero stays zero.
    pub fn monic(&self) -> (r: Self)
        ensures
            r@ == pmonic::<F>(self@),
            r.normalized(),
    {
        if self.is_zero() {
            proof {
                lemma_pscale_zero::<F>(recip::<F>(plead::<F>(self@)), self@);
            }
            Polynomial::zero()
        } else {
            let lc = self.leading_coefficient_cloned();
            proof {
                Self::law_view_member(self);
                lemma_pok_coeff::<F>(self@, self@.len() - 1);
                F::law_inverse(lc@);
            }
            match lc.checked_inv() {
                Some(inv) => self.scalar_mul(&inv),
                None => Polynomial::zero(),
            }
        }
    }
}

} // verus!
