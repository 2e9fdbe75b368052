//! Polynomials in one variable, as the sequence of their coefficients from
//! the constant term upwards.

use vstd::prelude::*;
use crate::traits::{
    RingSpec, from_nat, group_ring_closed, lemma_mul_zero, lemma_neg_zero,
};

verus! {

/// A polynomial over the ring `R`: `coeffs[i]` is the coefficient of `x^i`.
/// Zero coefficients at the end are allowed and change nothing.
#[derive(Debug)]
pub struct Polynomial<R> {
    pub coeffs: Vec<R>,
}

/// The values of a sequence of ring elements.
pub open spec fn values<R: RingSpec>(s: Seq<R>) -> Seq<R::V> {
    Seq::new(s.len(), |i: int| s[i]@)
}

impl<R: RingSpec> Polynomial<R> {
    /// The values of the stored coefficients.
    pub open spec fn raw(&self) -> Seq<R::V> {
        values::<R>(self.coeffs@)
    }

    /// Whether no zero coefficient is stored at the end.
    pub open spec fn normalized(&self) -> bool {
        canon::<R>(self.raw())
    }
}

/// The coefficient of `x^i`: zero beyond the stored ones.
pub open spec fn coeff<R: RingSpec>(a: Seq<R::V>, i: int) -> R::V {
    if 0 <= i < a.len() {
        a[i]
    } else {
        R::zero_v()
    }
}

/// The sequence without its trailing zero coefficients.
pub open spec fn trim<R: RingSpec>(a: Seq<R::V>) -> Seq<R::V>
    decreases a.len(),
{
    if a.len() > 0 && a.last() == R::zero_v() {
        trim::<R>(a.drop_last())
    } else {
        a
    }
}

/// Whether the highest stored coefficient, if any, is not zero.
pub open spec fn canon<R: RingSpec>(a: Seq<R::V>) -> bool {
    a.len() == 0 || a.last() != R::zero_v()
}

/// Whether `a` is the value of a polynomial over the ring: no trailing zero,
/// and every coefficient in the ring.
pub open spec fn pok<R: RingSpec>(a: Seq<R::V>) -> bool {
    &&& canon::<R>(a)
    &&& forall|i: int| 0 <= i < a.len() ==> R::member(#[trigger] a[i])
}

/// The polynomial whose coefficient of `x^i` is `f(i)` for `i < n`.
pub open spec fn pbuild<R: RingSpec>(n: nat, f: spec_fn(int) -> R::V) -> Seq<R::V> {
    trim::<R>(Seq::new(n, f))
}

/// The degree of a non-zero polynomial, and `-1` for zero.
pub open spec fn pdeg<R: RingSpec>(a: Seq<R::V>) -> int {
    a.len() - 1
}

/// The leading coefficient of a non-zero polynomial, and zero for zero.
pub open spec fn plead<R: RingSpec>(a: Seq<R::V>) -> R::V {
    coeff::<R>(a, a.len() - 1)
}

/// The zero polynomial.
pub open spec fn pzero<R: RingSpec>() -> Seq<R::V> {
    Seq::empty()
}

/// The constant polynomial `c`.
pub open spec fn pconst<R: RingSpec>(c: R::V) -> Seq<R::V> {
    pbuild::<R>(1, |i: int| c)
}

/// The polynomial `1`.
pub open spec fn pone<R: RingSpec>() -> Seq<R::V> {
    pconst::<R>(R::one_v())
}

/// The sum of two polynomials.
pub open spec fn padd<R: RingSpec>(a: Seq<R::V>, b: Seq<R::V>) -> Seq<R::V> {
    pbuild::<R>(
        if a.len() >= b.len() {
            a.len()
        } else {
            b.len()
        },
        |i: int| R::add_v(coeff::<R>(a, i), coeff::<R>(b, i)),
    )
}

/// The additive inverse of a polynomial.
pub open spec fn pneg<R: RingSpec>(a: Seq<R::V>) -> Seq<R::V> {
    pbuild::<R>(a.len(), |i: int| R::neg_v(coeff::<R>(a, i)))
}

/// The difference of two polynomials.
pub open spec fn psub<R: RingSpec>(a: Seq<R::V>, b: Seq<R::V>) -> Seq<R::V> {
    padd::<R>(a, pneg::<R>(b))
}

/// The polynomial `c * a` for a ring element `c`.
pub open spec fn pscale<R: RingSpec>(c: R::V, a: Seq<R::V>) -> Seq<R::V> {
    pbuild::<R>(a.len(), |i: int| R::mul_v(c, coeff::<R>(a, i)))
}

/// The polynomial `x^k * a`.
pub open spec fn pshift<R: RingSpec>(a: Seq<R::V>, k: nat) -> Seq<R::V> {
    pbuild::<R>(a.len() + k, |i: int| coeff::<R>(a, i - k))
}

/// The sum of `a_i * b_(n-i)` over `0 <= i < k`.
pub open spec fn conv<R: RingSpec>(a: Seq<R::V>, b: Seq<R::V>, n: int, k: int) -> R::V
    decreases k,
{
    if k <= 0 {
        R::zero_v()
    } else {
        R::add_v(
            conv::<R>(a, b, n, k - 1),
            R::mul_v(coeff::<R>(a, k - 1), coeff::<R>(b, n - (k - 1))),
        )
    }
}

/// The product of two polynomials: the coefficient of `x^n` is the sum of
/// `a_i * b_(n-i)` over `0 <= i <= n`.
pub open spec fn pmul<R: RingSpec>(a: Seq<R::V>, b: Seq<R::V>) -> Seq<R::V> {
    pbuild::<R>(a.len() + b.len(), |n: int| conv::<R>(a, b, n, n + 1))
}

/// The derivative: the coefficient of `x^i` is `(i + 1) * a_(i+1)`.
pub open spec fn pderiv<R: RingSpec>(a: Seq<R::V>) -> Seq<R::V> {
    pbuild::<R>(
        if a.len() > 0 {
            (a.len() - 1) as nat
        } else {
            0
        },
        |i: int| R::mul_v(from_nat::<R>((i + 1) as nat), coeff::<R>(a, i + 1)),
    )
}

/// Trimming keeps every coefficient, and leaves a polynomial that has no
/// trailing zero as it is.
pub proof fn lemma_trim<R: RingSpec>(a: Seq<R::V>)
    ensures
        canon::<R>(trim::<R>(a)),
        trim::<R>(a).len() <= a.len(),
        forall|i: int| #[trigger] coeff::<R>(trim::<R>(a), i) == coeff::<R>(a, i),
        forall|i: int| 0 <= i < trim::<R>(a).len() ==> #[trigger] trim::<R>(a)[i] == a[i],
        canon::<R>(a) ==> trim::<R>(a) == a,
    decreases a.len(),
{
    if a.len() > 0 && a.last() == R::zero_v() {
        let d = a.drop_last();
        lemma_trim::<R>(d);
        assert forall|i: int| #[trigger] coeff::<R>(trim::<R>(a), i) == coeff::<R>(a, i) by {
            assert(coeff::<R>(trim::<R>(d), i) == coeff::<R>(d, i));
        }
        assert forall|i: int| 0 <= i < trim::<R>(a).len() implies #[trigger] trim::<R>(a)[i]
            == a[i] by {
            assert(trim::<R>(d)[i] == d[i]);
        }
    }
}

/// Two polynomials without trailing zeros are equal if their coefficients
/// are.
pub proof fn lemma_canon_ext<R: RingSpec>(a: Seq<R::V>, b: Seq<R::V>)
    requires
        canon::<R>(a),
        canon::<R>(b),
        forall|i: int| coeff::<R>(a, i) == #[trigger] coeff::<R>(b, i),
    ensures
        a == b,
{
    if a.len() < b.len() {
        assert(coeff::<R>(a, b.len() - 1) == coeff::<R>(b, b.len() - 1));
    }
    if b.len() < a.len() {
        assert(coeff::<R>(a, a.len() - 1) == coeff::<R>(b, a.len() - 1));
    }
    assert forall|i: int| 0 <= i < a.len() implies a[i] == b[i] by {
        assert(coeff::<R>(a, i) == coeff::<R>(b, i));
    }
    assert(a =~= b);
}

/// A polynomial without trailing zeros whose coefficients are all in the
/// ring is a value of the polynomial ring.
pub proof fn lemma_pok_from_coeffs<R: RingSpec>(a: Seq<R::V>)
    requires
        canon::<R>(a),
        forall|i: int| R::member(#[trigger] coeff::<R>(a, i)),
    ensures
        pok::<R>(a),
{
    assert forall|i: int| 0 <= i < a.len() implies R::member(#[trigger] a[i]) by {
        assert(R::member(coeff::<R>(a, i)));
    }
}

/// Every coefficient of a value of the polynomial ring is in the ring.
pub proof fn lemma_pok_coeff<R: RingSpec>(a: Seq<R::V>, i: int)
    requires
        pok::<R>(a),
    ensures
        R::member(coeff::<R>(a, i)),
{
    broadcast use group_ring_closed;

}

/// The coefficients and the shape of a polynomial given by a function.
pub proof fn lemma_pbuild<R: RingSpec>(n: nat, f: spec_fn(int) -> R::V)
    ensures
        canon::<R>(pbuild::<R>(n, f)),
        pbuild::<R>(n, f).len() <= n,
        forall|i: int| #[trigger]
            coeff::<R>(pbuild::<R>(n, f), i) == (if 0 <= i < n {
                f(i)
            } else {
                R::zero_v()
            }),
{
    let s = Seq::new(n, f);
    lemma_trim::<R>(s);
    assert forall|i: int| #[trigger]
        coeff::<R>(pbuild::<R>(n, f), i) == (if 0 <= i < n {
            f(i)
        } else {
            R::zero_v()
        }) by {
        assert(coeff::<R>(trim::<R>(s), i) == coeff::<R>(s, i));
    }
}

pub broadcast proof fn lemma_pconst_coeff<R: RingSpec>(c: R::V, i: int)
    ensures
        #[trigger] coeff::<R>(pconst::<R>(c), i) == (if i == 0 {
            c
        } else {
            R::zero_v()
        }),
{
    lemma_pbuild::<R>(1, |i: int| c);
}

pub broadcast proof fn lemma_pconst_shape<R: RingSpec>(c: R::V)
    ensures
        canon::<R>(#[trigger] pconst::<R>(c)),
        pconst::<R>(c).len() <= 1,
        c != R::zero_v() ==> pconst::<R>(c) == seq![c],
        c == R::zero_v() ==> pconst::<R>(c) == pzero::<R>(),
        R::member(c) ==> pok::<R>(pconst::<R>(c)),
{
    broadcast use group_ring_closed;

    let p = pconst::<R>(c);
    lemma_pbuild::<R>(1, |i: int| c);
    assert(coeff::<R>(p, 0) == c);
    if c != R::zero_v() {
        assert(p.len() == 1);
        assert(p =~= seq![c]);
    } else {
        if p.len() > 0 {
            assert(p.last() == coeff::<R>(p, 0));
        }
        assert(p =~= pzero::<R>());
    }
    if R::member(c) {
        assert forall|i: int| R::member(#[trigger] coeff::<R>(p, i)) by {
            lemma_pconst_coeff::<R>(c, i);
        }
        lemma_pok_from_coeffs::<R>(p);
    }
}

pub broadcast proof fn lemma_padd_coeff<R: RingSpec>(a: Seq<R::V>, b: Seq<R::V>, i: int)
    ensures
        #[trigger] coeff::<R>(padd::<R>(a, b), i) == R::add_v(coeff::<R>(a, i), coeff::<R>(b, i)),
{
    broadcast use group_ring_closed;

    let n: nat = if a.len() >= b.len() {
        a.len()
    } else {
        b.len()
    };
    lemma_pbuild::<R>(n, |i: int| R::add_v(coeff::<R>(a, i), coeff::<R>(b, i)));
    R::law_add_zero(R::zero_v());
}

pub broadcast proof fn lemma_padd_shape<R: RingSpec>(a: Seq<R::V>, b: Seq<R::V>)
    ensures
        pok::<R>(#[trigger] padd::<R>(a, b)),
        padd::<R>(a, b).len() <= a.len() || padd::<R>(a, b).len() <= b.len(),
{
    broadcast use group_ring_closed;

    let n: nat = if a.len() >= b.len() {
        a.len()
    } else {
        b.len()
    };
    lemma_pbuild::<R>(n, |i: int| R::add_v(coeff::<R>(a, i), coeff::<R>(b, i)));
    assert forall|i: int| R::member(#[trigger] coeff::<R>(padd::<R>(a, b), i)) by {
        lemma_padd_coeff::<R>(a, b, i);
    }
    lemma_pok_from_coeffs::<R>(padd::<R>(a, b));
}

pub broadcast proof fn lemma_pneg_coeff<R: RingSpec>(a: Seq<R::V>, i: int)
    ensures
        #[trigger] coeff::<R>(pneg::<R>(a), i) == R::neg_v(coeff::<R>(a, i)),
{
    lemma_pbuild::<R>(a.len(), |i: int| R::neg_v(coeff::<R>(a, i)));
    lemma_neg_zero::<R>();
}

pub broadcast proof fn lemma_pneg_shape<R: RingSpec>(a: Seq<R::V>)
    ensures
        pok::<R>(#[trigger] pneg::<R>(a)),
        pneg::<R>(a).len() <= a.len(),
{
    broadcast use group_ring_closed;

    lemma_pbuild::<R>(a.len(), |i: int| R::neg_v(coeff::<R>(a, i)));
    assert forall|i: int| R::member(#[trigger] coeff::<R>(pneg::<R>(a), i)) by {
        lemma_pneg_coeff::<R>(a, i);
    }
    lemma_pok_from_coeffs::<R>(pneg::<R>(a));
}

pub broadcast proof fn lemma_pscale_coeff<R: RingSpec>(c: R::V, a: Seq<R::V>, i: int)
    ensures
        #[trigger] coeff::<R>(pscale::<R>(c, a), i) == R::mul_v(c, coeff::<R>(a, i)),
{
    lemma_pbuild::<R>(a.len(), |i: int| R::mul_v(c, coeff::<R>(a, i)));
    lemma_mul_zero::<R>(c);
}

pub broadcast proof fn lemma_pscale_shape<R: RingSpec>(c: R::V, a: Seq<R::V>)
    ensures
        pok::<R>(#[trigger] pscale::<R>(c, a)),
        pscale::<R>(c, a).len() <= a.len(),
{
    broadcast use group_ring_closed;

    lemma_pbuild::<R>(a.len(), |i: int| R::mul_v(c, coeff::<R>(a, i)));
    assert forall|i: int| R::member(#[trigger] coeff::<R>(pscale::<R>(c, a), i)) by {
        lemma_pscale_coeff::<R>(c, a, i);
    }
    lemma_pok_from_coeffs::<R>(pscale::<R>(c, a));
}

pub broadcast proof fn lemma_pshift_coeff<R: RingSpec>(a: Seq<R::V>, k: nat, i: int)
    ensures
        #[trigger] coeff::<R>(pshift::<R>(a, k), i) == coeff::<R>(a, i - k),
{
    lemma_pbuild::<R>(a.len() + k, |i: int| coeff::<R>(a, i - k));
}

pub broadcast proof fn lemma_pshift_shape<R: RingSpec>(a: Seq<R::V>, k: nat)
    ensures
        canon::<R>(#[trigger] pshift::<R>(a, k)),
        pshift::<R>(a, k).len() <= a.len() + k,
        pok::<R>(a) ==> pok::<R>(pshift::<R>(a, k)),
        canon::<R>(a) && a.len() > 0 ==> pshift::<R>(a, k).len() == a.len() + k,
{
    broadcast use group_ring_closed;

    let p = pshift::<R>(a, k);
    lemma_pbuild::<R>(a.len() + k, |i: int| coeff::<R>(a, i - k));
    if pok::<R>(a) {
        assert forall|i: int| R::member(#[trigger] coeff::<R>(p, i)) by {
            lemma_pshift_coeff::<R>(a, k, i);
        }
        lemma_pok_from_coeffs::<R>(p);
    }
    if canon::<R>(a) && a.len() > 0 {
        lemma_pshift_coeff::<R>(a, k, a.len() + k - 1);
        assert(coeff::<R>(p, a.len() + k - 1) == a.last());
    }
}

/// The convolution sum is in the ring.
pub broadcast proof fn lemma_conv_member<R: RingSpec>(a: Seq<R::V>, b: Seq<R::V>, n: int, k: int)
    ensures
        R::member(#[trigger] conv::<R>(a, b, n, k)),
{
    broadcast use group_ring_closed;

}

/// The convolution sum is zero where every term has an index beyond one of
/// the two polynomials.
pub proof fn lemma_conv_high<R: RingSpec>(a: Seq<R::V>, b: Seq<R::V>, n: int, k: int)
    requires
        n >= a.len() + b.len() - 1,
    ensures
        conv::<R>(a, b, n, k) == R::zero_v(),
    decreases k,
{
    broadcast use group_ring_closed;

    if k > 0 {
        lemma_conv_high::<R>(a, b, n, k - 1);
        lemma_mul_zero::<R>(coeff::<R>(a, k - 1));
        lemma_mul_zero::<R>(coeff::<R>(b, n - (k - 1)));
        R::law_add_zero(R::zero_v());
    }
}

pub broadcast proof fn lemma_pmul_coeff<R: RingSpec>(a: Seq<R::V>, b: Seq<R::V>, n: int)
    ensures
        #[trigger] coeff::<R>(pmul::<R>(a, b), n) == conv::<R>(a, b, n, n + 1),
{
    lemma_pbuild::<R>(a.len() + b.len(), |n: int| conv::<R>(a, b, n, n + 1));
    if n >= a.len() + b.len() {
        lemma_conv_high::<R>(a, b, n, n + 1);
    }
}

pub broadcast proof fn lemma_pmul_shape<R: RingSpec>(a: Seq<R::V>, b: Seq<R::V>)
    ensures
        pok::<R>(#[trigger] pmul::<R>(a, b)),
        pmul::<R>(a, b).len() <= a.len() + b.len(),
{
    broadcast use group_ring_closed;

    let p = pmul::<R>(a, b);
    lemma_pbuild::<R>(a.len() + b.len(), |n: int| conv::<R>(a, b, n, n + 1));
    assert forall|i: int| R::member(#[trigger] coeff::<R>(p, i)) by {
        lemma_pmul_coeff::<R>(a, b, i);
        lemma_conv_member::<R>(a, b, i, i + 1);
    }
    lemma_pok_from_coeffs::<R>(p);
}

pub broadcast proof fn lemma_pderiv_coeff<R: RingSpec>(a: Seq<R::V>, i: int)
    ensures
        #[trigger] coeff::<R>(pderiv::<R>(a), i) == (if i >= 0 {
            R::mul_v(from_nat::<R>((i + 1) as nat), coeff::<R>(a, i + 1))
        } else {
            R::zero_v()
        }),
{
    let n: nat = if a.len() > 0 {
        (a.len() - 1) as nat
    } else {
        0
    };
    lemma_pbuild::<R>(n, |i: int| R::mul_v(from_nat::<R>((i + 1) as nat), coeff::<R>(a, i + 1)));
    if i >= 0 {
        lemma_mul_zero::<R>(from_nat::<R>((i + 1) as nat));
    }
}

pub broadcast proof fn lemma_pderiv_shape<R: RingSpec>(a: Seq<R::V>)
    ensures
        pok::<R>(#[trigger] pderiv::<R>(a)),
        pderiv::<R>(a).len() < a.len() || a.len() == 0 && pderiv::<R>(a).len() == 0,
{
    broadcast use group_ring_closed;

    let n: nat = if a.len() > 0 {
        (a.len() - 1) as nat
    } else {
        0
    };
    lemma_pbuild::<R>(n, |i: int| R::mul_v(from_nat::<R>((i + 1) as nat), coeff::<R>(a, i + 1)));
    assert forall|i: int| R::member(#[trigger] coeff::<R>(pderiv::<R>(a), i)) by {
        lemma_pderiv_coeff::<R>(a, i);
    }
    lemma_pok_from_coeffs::<R>(pderiv::<R>(a));
}

/// The coefficients and the shape of the results of the polynomial
/// operations.
pub broadcast group group_poly {
    lemma_pconst_coeff,
    lemma_pconst_shape,
    lemma_padd_coeff,
    lemma_padd_shape,
    lemma_pneg_coeff,
    lemma_pneg_shape,
    lemma_pscale_coeff,
    lemma_pscale_shape,
    lemma_pshift_coeff,
    lemma_pshift_shape,
    lemma_conv_member,
    lemma_pmul_coeff,
    lemma_pmul_shape,
    lemma_pderiv_coeff,
    lemma_pderiv_shape,
}

} // verus!
