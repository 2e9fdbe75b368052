//! The polynomials over a commutative ring form a commutative ring.

use vstd::prelude::*;
use crate::polynomial::{
    Polynomial, canon, coeff, conv, group_poly, lemma_canon_ext, lemma_pok_coeff, lemma_trim,
    padd, pconst, pmul, pneg, pok, pone, pscale, pshift, psub, pzero, trim,
};
use crate::traits::{
    RingSpec, group_ring_closed, lemma_add_shuffle, lemma_distrib_right, lemma_mul_zero,
    lemma_zero_add,
};

verus! {

pub proof fn lemma_padd_comm<R: RingSpec>(a: Seq<R::V>, b: Seq<R::V>)
    ensures
        padd::<R>(a, b) == padd::<R>(b, a),
{
    broadcast use {group_ring_closed, group_poly};

    assert forall|i: int| coeff::<R>(padd::<R>(a, b), i) == #[trigger] coeff::<R>(
        padd::<R>(b, a),
        i,
    ) by {
        R::law_add_comm(coeff::<R>(a, i), coeff::<R>(b, i));
    }
    lemma_canon_ext::<R>(padd::<R>(a, b), padd::<R>(b, a));
}

pub proof fn lemma_padd_assoc<R: RingSpec>(a: Seq<R::V>, b: Seq<R::V>, c: Seq<R::V>)
    ensures
        padd::<R>(padd::<R>(a, b), c) == padd::<R>(a, padd::<R>(b, c)),
{
    broadcast use {group_ring_closed, group_poly};

    let l = padd::<R>(padd::<R>(a, b), c);
    let r = padd::<R>(a, padd::<R>(b, c));
    assert forall|i: int| coeff::<R>(l, i) == #[trigger] coeff::<R>(r, i) by {
        R::law_add_assoc(coeff::<R>(a, i), coeff::<R>(b, i), coeff::<R>(c, i));
    }
    lemma_canon_ext::<R>(l, r);
}

pub proof fn lemma_padd_zero<R: RingSpec>(a: Seq<R::V>)
    requires
        pok::<R>(a),
    ensures
        padd::<R>(a, pzero::<R>()) == a,
        padd::<R>(pzero::<R>(), a) == a,
{
    broadcast use {group_ring_closed, group_poly};

    let l = padd::<R>(a, pzero::<R>());
    assert forall|i: int| coeff::<R>(l, i) == #[trigger] coeff::<R>(a, i) by {
        lemma_pok_coeff::<R>(a, i);
        R::law_add_zero(coeff::<R>(a, i));
    }
    lemma_canon_ext::<R>(l, a);
    lemma_padd_comm::<R>(a, pzero::<R>());
}

pub proof fn lemma_padd_neg<R: RingSpec>(a: Seq<R::V>)
    ensures
        padd::<R>(a, pneg::<R>(a)) == pzero::<R>(),
        psub::<R>(a, a) == pzero::<R>(),
{
    broadcast use {group_ring_closed, group_poly};

    let l = padd::<R>(a, pneg::<R>(a));
    assert forall|i: int| coeff::<R>(l, i) == #[trigger] coeff::<R>(pzero::<R>(), i) by {
        R::law_add_neg(coeff::<R>(a, i));
    }
    lemma_canon_ext::<R>(l, pzero::<R>());
}

/// A polynomial all of whose coefficients are zero is the zero polynomial.
pub proof fn lemma_zero_coeffs<R: RingSpec>(a: Seq<R::V>)
    requires
        canon::<R>(a),
        forall|i: int| #[trigger] coeff::<R>(a, i) == R::zero_v(),
    ensures
        a == pzero::<R>(),
{
    assert forall|i: int| coeff::<R>(a, i) == #[trigger] coeff::<R>(pzero::<R>(), i) by {
        assert(coeff::<R>(a, i) == R::zero_v());
    }
    lemma_canon_ext::<R>(a, pzero::<R>());
}

pub proof fn lemma_pscale_pscale<R: RingSpec>(c: R::V, d: R::V, a: Seq<R::V>)
    ensures
        pscale::<R>(c, pscale::<R>(d, a)) == pscale::<R>(R::mul_v(c, d), a),
{
    broadcast use {group_ring_closed, group_poly};

    let l = pscale::<R>(c, pscale::<R>(d, a));
    let r = pscale::<R>(R::mul_v(c, d), a);
    assert forall|i: int| coeff::<R>(l, i) == #[trigger] coeff::<R>(r, i) by {
        R::law_mul_assoc(c, d, coeff::<R>(a, i));
    }
    lemma_canon_ext::<R>(l, r);
}

pub proof fn lemma_pscale_one<R: RingSpec>(a: Seq<R::V>)
    requires
        pok::<R>(a),
    ensures
        pscale::<R>(R::one_v(), a) == a,
{
    broadcast use {group_ring_closed, group_poly};

    let l = pscale::<R>(R::one_v(), a);
    assert forall|i: int| coeff::<R>(l, i) == #[trigger] coeff::<R>(a, i) by {
        lemma_pok_coeff::<R>(a, i);
        crate::traits::lemma_one_mul::<R>(coeff::<R>(a, i));
    }
    lemma_canon_ext::<R>(l, a);
}

pub proof fn lemma_pscale_zero<R: RingSpec>(c: R::V, a: Seq<R::V>)
    ensures
        pscale::<R>(R::zero_v(), a) == pzero::<R>(),
        pscale::<R>(c, pzero::<R>()) == pzero::<R>(),
{
    broadcast use {group_ring_closed, group_poly};

    assert forall|i: int| #[trigger]
        coeff::<R>(pscale::<R>(R::zero_v(), a), i) == R::zero_v() by {
        lemma_mul_zero::<R>(coeff::<R>(a, i));
    }
    lemma_zero_coeffs::<R>(pscale::<R>(R::zero_v(), a));
    assert forall|i: int| #[trigger]
        coeff::<R>(pscale::<R>(c, pzero::<R>()), i) == R::zero_v() by {
        lemma_mul_zero::<R>(c);
    }
    lemma_zero_coeffs::<R>(pscale::<R>(c, pzero::<R>()));
}

pub proof fn lemma_pshift_zero<R: RingSpec>(a: Seq<R::V>)
    requires
        canon::<R>(a),
    ensures
        pshift::<R>(a, 0) == a,
{
    broadcast use {group_ring_closed, group_poly};

    assert forall|i: int| coeff::<R>(pshift::<R>(a, 0), i) == #[trigger] coeff::<R>(a, i) by {}
    lemma_canon_ext::<R>(pshift::<R>(a, 0), a);
}

pub proof fn lemma_pshift_pshift<R: RingSpec>(a: Seq<R::V>, j: nat, k: nat)
    ensures
        pshift::<R>(pshift::<R>(a, j), k) == pshift::<R>(a, j + k),
{
    broadcast use {group_ring_closed, group_poly};

    let l = pshift::<R>(pshift::<R>(a, j), k);
    let r = pshift::<R>(a, j + k);
    assert forall|i: int| coeff::<R>(l, i) == #[trigger] coeff::<R>(r, i) by {
        assert(coeff::<R>(pshift::<R>(a, j), i - k) == coeff::<R>(a, i - k - j));
    }
    lemma_canon_ext::<R>(l, r);
}

/// The sequence with its trailing zeros removed is the polynomial without
/// trailing zeros that has the same coefficients.
pub proof fn lemma_trim_eq<R: RingSpec>(v: Seq<R::V>, t: Seq<R::V>)
    requires
        canon::<R>(t),
        forall|i: int| coeff::<R>(v, i) == #[trigger] coeff::<R>(t, i),
    ensures
        trim::<R>(v) == t,
{
    lemma_trim::<R>(v);
    assert forall|i: int| coeff::<R>(trim::<R>(v), i) == #[trigger] coeff::<R>(t, i) by {
        assert(coeff::<R>(v, i) == coeff::<R>(t, i));
    }
    lemma_canon_ext::<R>(trim::<R>(v), t);
}

/// The convolution sum depends on the coefficients alone.
pub proof fn lemma_conv_congr<R: RingSpec>(
    a: Seq<R::V>,
    a2: Seq<R::V>,
    b: Seq<R::V>,
    b2: Seq<R::V>,
    n: int,
    k: int,
)
    requires
        forall|i: int| coeff::<R>(a, i) == #[trigger] coeff::<R>(a2, i),
        forall|i: int| coeff::<R>(b, i) == #[trigger] coeff::<R>(b2, i),
    ensures
        conv::<R>(a, b, n, k) == conv::<R>(a2, b2, n, k),
    decreases k,
{
    if k > 0 {
        lemma_conv_congr::<R>(a, a2, b, b2, n, k - 1);
        assert(coeff::<R>(a, k - 1) == coeff::<R>(a2, k - 1));
        assert(coeff::<R>(b, n - (k - 1)) == coeff::<R>(b2, n - (k - 1)));
    }
}

/// The product depends on the coefficients alone.
pub proof fn lemma_pmul_congr<R: RingSpec>(
    a: Seq<R::V>,
    a2: Seq<R::V>,
    b: Seq<R::V>,
    b2: Seq<R::V>,
)
    requires
        forall|i: int| coeff::<R>(a, i) == #[trigger] coeff::<R>(a2, i),
        forall|i: int| coeff::<R>(b, i) == #[trigger] coeff::<R>(b2, i),
    ensures
        pmul::<R>(a, b) == pmul::<R>(a2, b2),
{
    broadcast use {group_ring_closed, group_poly};

    let l = pmul::<R>(a, b);
    let r = pmul::<R>(a2, b2);
    assert forall|n: int| coeff::<R>(l, n) == #[trigger] coeff::<R>(r, n) by {
        lemma_conv_congr::<R>(a, a2, b, b2, n, n + 1);
    }
    lemma_canon_ext::<R>(l, r);
}

pub proof fn lemma_conv_add_left<R: RingSpec>(
    p: Seq<R::V>,
    q: Seq<R::V>,
    c: Seq<R::V>,
    n: int,
    k: int,
)
    ensures
        conv::<R>(padd::<R>(p, q), c, n, k) == R::add_v(
            conv::<R>(p, c, n, k),
            conv::<R>(q, c, n, k),
        ),
    decreases k,
{
    broadcast use {group_ring_closed, group_poly};

    if k > 0 {
        lemma_conv_add_left::<R>(p, q, c, n, k - 1);
        let x = coeff::<R>(p, k - 1);
        let y = coeff::<R>(q, k - 1);
        let z = coeff::<R>(c, n - (k - 1));
        lemma_distrib_right::<R>(x, y, z);
        lemma_add_shuffle::<R>(
            conv::<R>(p, c, n, k - 1),
            conv::<R>(q, c, n, k - 1),
            R::mul_v(x, z),
            R::mul_v(y, z),
        );
    } else {
        R::law_add_zero(R::zero_v());
    }
}

pub proof fn lemma_conv_scale_left<R: RingSpec>(
    t: R::V,
    p: Seq<R::V>,
    c: Seq<R::V>,
    n: int,
    k: int,
)
    ensures
        conv::<R>(pscale::<R>(t, p), c, n, k) == R::mul_v(t, conv::<R>(p, c, n, k)),
    decreases k,
{
    broadcast use {group_ring_closed, group_poly};

    if k > 0 {
        lemma_conv_scale_left::<R>(t, p, c, n, k - 1);
        let x = coeff::<R>(p, k - 1);
        let z = coeff::<R>(c, n - (k - 1));
        R::law_mul_assoc(t, x, z);
        R::law_distrib(t, conv::<R>(p, c, n, k - 1), R::mul_v(x, z));
    } else {
        lemma_mul_zero::<R>(t);
    }
}

pub proof fn lemma_conv_shift_left<R: RingSpec>(
    p: Seq<R::V>,
    m: nat,
    c: Seq<R::V>,
    n: int,
    k: int,
)
    ensures
        conv::<R>(pshift::<R>(p, m), c, n, k) == conv::<R>(p, c, n - m, k - m),
    decreases k,
{
    broadcast use {group_ring_closed, group_poly};

    if k > 0 {
        lemma_conv_shift_left::<R>(p, m, c, n, k - 1);
        assert(coeff::<R>(pshift::<R>(p, m), k - 1) == coeff::<R>(p, k - 1 - m));
        if k - m <= 0 {
            lemma_mul_zero::<R>(coeff::<R>(c, n - (k - 1)));
            R::law_add_zero(R::zero_v());
        } else {
            assert(n - m - (k - m - 1) == n - (k - 1));
        }
    }
}

/// Splitting off the highest stored coefficient of the left factor.
pub proof fn lemma_conv_last_left<R: RingSpec>(a: Seq<R::V>, b: Seq<R::V>, n: int, k: int)
    requires
        a.len() > 0,
    ensures
        conv::<R>(a, b, n, k) == R::add_v(
            conv::<R>(a.drop_last(), b, n, k),
            if k > a.len() - 1 {
                R::mul_v(a.last(), coeff::<R>(b, n - (a.len() - 1)))
            } else {
                R::zero_v()
            },
        ),
    decreases k,
{
    broadcast use {group_ring_closed, group_poly};

    let m = a.len() - 1;
    let d = a.drop_last();
    if k > 0 {
        lemma_conv_last_left::<R>(a, b, n, k - 1);
        let i = k - 1;
        let z = coeff::<R>(b, n - i);
        let c0 = conv::<R>(d, b, n, k - 1);
        if i < m {
            assert(coeff::<R>(a, i) == coeff::<R>(d, i));
            let t = R::mul_v(coeff::<R>(a, i), z);
            R::law_add_zero(c0);
            R::law_add_zero(R::add_v(c0, t));
        } else if i == m {
            assert(coeff::<R>(d, i) == R::zero_v());
            lemma_mul_zero::<R>(z);
            R::law_add_zero(c0);
        } else {
            assert(coeff::<R>(a, i) == R::zero_v());
            assert(coeff::<R>(d, i) == R::zero_v());
            lemma_mul_zero::<R>(z);
            let x = R::mul_v(a.last(), coeff::<R>(b, n - m));
            R::law_add_zero(c0);
            R::law_add_zero(R::add_v(c0, x));
        }
    } else {
        R::law_add_zero(R::zero_v());
    }
}

/// Splitting off the highest stored coefficient of the right factor.
pub proof fn lemma_conv_last_right<R: RingSpec>(b: Seq<R::V>, a: Seq<R::V>, n: int, k: int)
    requires
        a.len() > 0,
    ensures
        conv::<R>(b, a, n, k) == R::add_v(
            conv::<R>(b, a.drop_last(), n, k),
            if 0 <= n - (a.len() - 1) < k {
                R::mul_v(coeff::<R>(b, n - (a.len() - 1)), a.last())
            } else {
                R::zero_v()
            },
        ),
    decreases k,
{
    broadcast use {group_ring_closed, group_poly};

    let m = a.len() - 1;
    let d = a.drop_last();
    if k > 0 {
        lemma_conv_last_right::<R>(b, a, n, k - 1);
        let i = k - 1;
        let j = n - i;
        let y = coeff::<R>(b, i);
        let c0 = conv::<R>(b, d, n, k - 1);
        if j == m {
            assert(coeff::<R>(d, j) == R::zero_v());
            assert(coeff::<R>(a, j) == a.last());
            lemma_mul_zero::<R>(y);
            R::law_add_zero(c0);
        } else {
            assert(coeff::<R>(a, j) == coeff::<R>(d, j));
            let t = R::mul_v(y, coeff::<R>(a, j));
            let x = if 0 <= n - m < k - 1 {
                R::mul_v(coeff::<R>(b, n - m), a.last())
            } else {
                R::zero_v()
            };
            // (c0 + x) + t == (c0 + t) + x
            R::law_add_assoc(c0, x, t);
            R::law_add_comm(x, t);
            R::law_add_assoc(c0, t, x);
        }
    } else {
        R::law_add_zero(R::zero_v());
    }
}

/// A product with the empty sequence of coefficients has only zero
/// coefficients.
pub proof fn lemma_conv_empty<R: RingSpec>(a: Seq<R::V>, b: Seq<R::V>, n: int, k: int)
    requires
        a.len() == 0 || b.len() == 0,
    ensures
        conv::<R>(a, b, n, k) == R::zero_v(),
    decreases k,
{
    broadcast use group_ring_closed;

    if k > 0 {
        lemma_conv_empty::<R>(a, b, n, k - 1);
        lemma_mul_zero::<R>(coeff::<R>(a, k - 1));
        lemma_mul_zero::<R>(coeff::<R>(b, n - (k - 1)));
        R::law_add_zero(R::zero_v());
    }
}

pub proof fn lemma_conv_const<R: RingSpec>(c: R::V, a: Seq<R::V>, n: int, k: int)
    ensures
        conv::<R>(pconst::<R>(c), a, n, k) == (if k >= 1 {
            R::mul_v(c, coeff::<R>(a, n))
        } else {
            R::zero_v()
        }),
    decreases k,
{
    broadcast use {group_ring_closed, group_poly};

    if k > 0 {
        lemma_conv_const::<R>(c, a, n, k - 1);
        if k == 1 {
            lemma_zero_add::<R>(R::mul_v(c, coeff::<R>(a, n)));
        } else {
            assert(coeff::<R>(pconst::<R>(c), k - 1) == R::zero_v());
            lemma_mul_zero::<R>(coeff::<R>(a, n - (k - 1)));
            R::law_add_zero(R::mul_v(c, coeff::<R>(a, n)));
        }
    }
}

pub proof fn lemma_pmul_zero<R: RingSpec>(a: Seq<R::V>, b: Seq<R::V>)
    requires
        a.len() == 0 || b.len() == 0,
    ensures
        pmul::<R>(a, b) == pzero::<R>(),
{
    broadcast use {group_ring_closed, group_poly};

    assert forall|n: int| #[trigger] coeff::<R>(pmul::<R>(a, b), n) == R::zero_v() by {
        lemma_conv_empty::<R>(a, b, n, n + 1);
    }
    lemma_zero_coeffs::<R>(pmul::<R>(a, b));
}

pub proof fn lemma_pmul_const<R: RingSpec>(c: R::V, a: Seq<R::V>)
    ensures
        pmul::<R>(pconst::<R>(c), a) == pscale::<R>(c, a),
{
    broadcast use {group_ring_closed, group_poly};

    let l = pmul::<R>(pconst::<R>(c), a);
    let r = pscale::<R>(c, a);
    assert forall|n: int| coeff::<R>(l, n) == #[trigger] coeff::<R>(r, n) by {
        lemma_conv_const::<R>(c, a, n, n + 1);
        if n < 0 {
            lemma_mul_zero::<R>(c);
        }
    }
    lemma_canon_ext::<R>(l, r);
}

pub proof fn lemma_pmul_add_left<R: RingSpec>(p: Seq<R::V>, q: Seq<R::V>, c: Seq<R::V>)
    ensures
        pmul::<R>(padd::<R>(p, q), c) == padd::<R>(pmul::<R>(p, c), pmul::<R>(q, c)),
{
    broadcast use {group_ring_closed, group_poly};

    let l = pmul::<R>(padd::<R>(p, q), c);
    let r = padd::<R>(pmul::<R>(p, c), pmul::<R>(q, c));
    assert forall|n: int| coeff::<R>(l, n) == #[trigger] coeff::<R>(r, n) by {
        lemma_conv_add_left::<R>(p, q, c, n, n + 1);
    }
    lemma_canon_ext::<R>(l, r);
}

pub proof fn lemma_pmul_scale_left<R: RingSpec>(t: R::V, p: Seq<R::V>, c: Seq<R::V>)
    ensures
        pmul::<R>(pscale::<R>(t, p), c) == pscale::<R>(t, pmul::<R>(p, c)),
{
    broadcast use {group_ring_closed, group_poly};

    let l = pmul::<R>(pscale::<R>(t, p), c);
    let r = pscale::<R>(t, pmul::<R>(p, c));
    assert forall|n: int| coeff::<R>(l, n) == #[trigger] coeff::<R>(r, n) by {
        lemma_conv_scale_left::<R>(t, p, c, n, n + 1);
    }
    lemma_canon_ext::<R>(l, r);
}

pub proof fn lemma_pmul_shift_left<R: RingSpec>(p: Seq<R::V>, m: nat, c: Seq<R::V>)
    ensures
        pmul::<R>(pshift::<R>(p, m), c) == pshift::<R>(pmul::<R>(p, c), m),
{
    broadcast use {group_ring_closed, group_poly};

    let l = pmul::<R>(pshift::<R>(p, m), c);
    let r = pshift::<R>(pmul::<R>(p, c), m);
    assert forall|n: int| coeff::<R>(l, n) == #[trigger] coeff::<R>(r, n) by {
        lemma_conv_shift_left::<R>(p, m, c, n, n + 1);
        assert(coeff::<R>(pmul::<R>(p, c), n - m) == conv::<R>(p, c, n - m, n - m + 1));
    }
    lemma_canon_ext::<R>(l, r);
}

/// The product, with the highest stored coefficient of the left factor
/// split off: `a * b == a' * b + top * x^m * b`.
pub proof fn lemma_pmul_last<R: RingSpec>(a: Seq<R::V>, b: Seq<R::V>)
    requires
        a.len() > 0,
    ensures
        pmul::<R>(a, b) == padd::<R>(
            pmul::<R>(a.drop_last(), b),
            pscale::<R>(a.last(), pshift::<R>(b, (a.len() - 1) as nat)),
        ),
{
    broadcast use {group_ring_closed, group_poly};

    let m = (a.len() - 1) as nat;
    let l = pmul::<R>(a, b);
    let r = padd::<R>(pmul::<R>(a.drop_last(), b), pscale::<R>(a.last(), pshift::<R>(b, m)));
    assert forall|n: int| coeff::<R>(l, n) == #[trigger] coeff::<R>(r, n) by {
        lemma_conv_last_left::<R>(a, b, n, n + 1);
        if n + 1 <= m {
            lemma_mul_zero::<R>(a.last());
        }
    }
    lemma_canon_ext::<R>(l, r);
}

pub proof fn lemma_pmul_comm<R: RingSpec>(a: Seq<R::V>, b: Seq<R::V>)
    ensures
        pmul::<R>(a, b) == pmul::<R>(b, a),
    decreases a.len(),
{
    broadcast use {group_ring_closed, group_poly};

    if a.len() == 0 {
        lemma_pmul_zero::<R>(a, b);
        lemma_pmul_zero::<R>(b, a);
    } else {
        let d = a.drop_last();
        let m = a.len() - 1;
        lemma_pmul_comm::<R>(d, b);
        let l = pmul::<R>(a, b);
        let r = pmul::<R>(b, a);
        assert forall|n: int| coeff::<R>(l, n) == #[trigger] coeff::<R>(r, n) by {
            lemma_conv_last_left::<R>(a, b, n, n + 1);
            lemma_conv_last_right::<R>(b, a, n, n + 1);
            assert(coeff::<R>(pmul::<R>(d, b), n) == conv::<R>(d, b, n, n + 1));
            assert(coeff::<R>(pmul::<R>(b, d), n) == conv::<R>(b, d, n, n + 1));
            R::law_mul_comm(a.last(), coeff::<R>(b, n - m));
            if n - m < 0 {
                lemma_mul_zero::<R>(a.last());
            }
        }
        lemma_canon_ext::<R>(l, r);
    }
}

pub proof fn lemma_pmul_add_right<R: RingSpec>(a: Seq<R::V>, b: Seq<R::V>, c: Seq<R::V>)
    ensures
        pmul::<R>(a, padd::<R>(b, c)) == padd::<R>(pmul::<R>(a, b), pmul::<R>(a, c)),
{
    lemma_pmul_comm::<R>(a, padd::<R>(b, c));
    lemma_pmul_add_left::<R>(b, c, a);
    lemma_pmul_comm::<R>(b, a);
    lemma_pmul_comm::<R>(c, a);
}

pub proof fn lemma_pmul_assoc<R: RingSpec>(a: Seq<R::V>, b: Seq<R::V>, c: Seq<R::V>)
    ensures
        pmul::<R>(pmul::<R>(a, b), c) == pmul::<R>(a, pmul::<R>(b, c)),
    decreases a.len(),
{
    if a.len() == 0 {
        lemma_pmul_zero::<R>(a, b);
        lemma_pmul_zero::<R>(pzero::<R>(), c);
        lemma_pmul_zero::<R>(a, pmul::<R>(b, c));
    } else {
        let d = a.drop_last();
        let t = a.last();
        let m = (a.len() - 1) as nat;
        let bc = pmul::<R>(b, c);
        lemma_pmul_assoc::<R>(d, b, c);
        lemma_pmul_last::<R>(a, b);
        lemma_pmul_add_left::<R>(pmul::<R>(d, b), pscale::<R>(t, pshift::<R>(b, m)), c);
        lemma_pmul_scale_left::<R>(t, pshift::<R>(b, m), c);
        lemma_pmul_shift_left::<R>(b, m, c);
        lemma_pmul_last::<R>(a, bc);
    }
}

pub proof fn lemma_pmul_one<R: RingSpec>(a: Seq<R::V>)
    requires
        pok::<R>(a),
    ensures
        pmul::<R>(a, pone::<R>()) == a,
        pmul::<R>(pone::<R>(), a) == a,
{
    lemma_pmul_comm::<R>(a, pone::<R>());
    lemma_pmul_const::<R>(R::one_v(), a);
    lemma_pscale_one::<R>(a);
}

impl<R: RingSpec> RingSpec for Polynomial<R> {
    type V = Seq<R::V>;

    /// The coefficients without their trailing zeros.
    open spec fn view(&self) -> Seq<R::V> {
        trim::<R>(self.raw())
    }

    open spec fn member(v: Seq<R::V>) -> bool {
        pok::<R>(v)
    }

    open spec fn zero_v() -> Seq<R::V> {
        pzero::<R>()
    }

    open spec fn one_v() -> Seq<R::V> {
        pone::<R>()
    }

    open spec fn add_v(a: Seq<R::V>, b: Seq<R::V>) -> Seq<R::V> {
        padd::<R>(a, b)
    }

    open spec fn neg_v(a: Seq<R::V>) -> Seq<R::V> {
        pneg::<R>(a)
    }

    open spec fn mul_v(a: Seq<R::V>, b: Seq<R::V>) -> Seq<R::V> {
        pmul::<R>(a, b)
    }

    proof fn law_view_member(x: &Self) {
        let s = x.raw();
        lemma_trim::<R>(s);
        assert forall|i: int| 0 <= i < x@.len() implies R::member(#[trigger] x@[i]) by {
            assert(trim::<R>(s)[i] == s[i]);
            R::law_view_member(&x.coeffs@[i]);
        }
    }

    proof fn law_closed(a: Seq<R::V>, b: Seq<R::V>) {
        broadcast use {group_ring_closed, group_poly};

    }

    proof fn law_add_comm(a: Seq<R::V>, b: Seq<R::V>) {
        lemma_padd_comm::<R>(a, b);
    }

    proof fn law_add_assoc(a: Seq<R::V>, b: Seq<R::V>, c: Seq<R::V>) {
        lemma_padd_assoc::<R>(a, b, c);
    }

    proof fn law_add_zero(a: Seq<R::V>) {
        lemma_padd_zero::<R>(a);
    }

    proof fn law_add_neg(a: Seq<R::V>) {
        lemma_padd_neg::<R>(a);
    }

    proof fn law_mul_comm(a: Seq<R::V>, b: Seq<R::V>) {
        lemma_pmul_comm::<R>(a, b);
    }

    proof fn law_mul_assoc(a: Seq<R::V>, b: Seq<R::V>, c: Seq<R::V>) {
        lemma_pmul_assoc::<R>(a, b, c);
    }

    proof fn law_mul_one(a: Seq<R::V>) {
        lemma_pmul_one::<R>(a);
    }

    proof fn law_distrib(a: Seq<R::V>, b: Seq<R::V>, c: Seq<R::V>) {
        lemma_pmul_add_right::<R>(a, b, c);
    }
}

} // verus!
