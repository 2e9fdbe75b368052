//! Computing with polynomials over a commutative ring.

use vstd::prelude::*;
use crate::poly_ring::{
    lemma_pmul_congr, lemma_pmul_last, lemma_pmul_zero, lemma_pshift_pshift, lemma_pshift_zero,
    lemma_trim_eq,
};
use crate::polynomial::{
    Polynomial, canon, coeff, group_poly, lemma_canon_ext, lemma_trim, padd, pconst, pderiv,
    pdeg, plead, pmul, pneg, pone, pscale, pshift, psub, pzero, trim, values,
};
use crate::traits::{CommutativeRing, FromUsize, RingSpec, group_ring_closed, lemma_mul_zero};

verus! {

/// How many coefficients are left when the zeros at the end are dropped.
pub(crate) fn effective_len<R: CommutativeRing>(v: &Vec<R>) -> (n: usize)
    ensures
        n <= v.len(),
        trim::<R>(values::<R>(v@)) == values::<R>(v@).take(n as int),
{
    let ghost s = values::<R>(v@);
    let mut n = v.len();
    assert(s.take(n as int) =~= s);
    while n > 0
        invariant
            n <= v.len(),
            s == values::<R>(v@),
            trim::<R>(s.take(n as int)) == trim::<R>(s),
        ensures
            n <= v.len(),
            trim::<R>(s.take(n as int)) == trim::<R>(s),
            canon::<R>(s.take(n as int)),
        decreases n,
    {
        if !v[n - 1].is_zero() {
            assert(s.take(n as int).last() == v@[n - 1]@);
            break ;
        }
        proof {
            assert(s.take(n as int).last() == v@[n - 1]@);
            assert(s.take(n as int).drop_last() =~= s.take(n - 1));
        }
        n = n - 1;
    }
    proof {
        lemma_trim::<R>(s.take(n as int));
    }
    n
}

impl<R: CommutativeRing> Polynomial<R> {
    /// The polynomial with the given coefficients, constant term first.
    pub fn new(coeffs: Vec<R>) -> (r: Self)
        ensures
            r@ == trim::<R>(values::<R>(coeffs@)),
            r.normalized(),
    {
        let mut v = coeffs;
        let n = effective_len(&v);
        let ghost s = values::<R>(v@);
        v.truncate(n);
        proof {
            assert(values::<R>(v@) =~= s.take(n as int));
            lemma_trim::<R>(s);
            lemma_trim::<R>(values::<R>(v@));
        }
        Polynomial { coeffs: v }
    }

    /// The same polynomial, with no zero coefficient stored at the end.
    pub fn normalize(self) -> (r: Self)
        ensures
            r@ == self@,
            r.normalized(),
    {
        Polynomial::new(self.coeffs)
    }

    /// The zero polynomial.
    pub fn zero() -> (r: Self)
        ensures
            r@ == pzero::<R>(),
            r.normalized(),
    {
        let r = Polynomial { coeffs: Vec::new() };
        proof {
            assert(r.raw() =~= pzero::<R>());
        }
        r
    }

    /// The constant polynomial `c`.
    pub fn constant(c: R) -> (r: Self)
        ensures
            r@ == pconst::<R>(c@),
            r.normalized(),
    {
        let mut v: Vec<R> = Vec::new();
        v.push(c);
        let ghost s = values::<R>(v@);
        let r = Polynomial::new(v);
        proof {
            broadcast use {group_ring_closed, group_poly};

            assert forall|i: int| coeff::<R>(s, i) == #[trigger] coeff::<R>(
                pconst::<R>(c@),
                i,
            ) by {}
            lemma_trim_eq::<R>(s, pconst::<R>(c@));
        }
        r
    }

    /// The polynomial `1`.
    pub fn one() -> (r: Self)
        ensures
            r@ == pone::<R>(),
            r.normalized(),
    {
        Polynomial::constant(R::one())
    }

    /// The coefficient of `x^i`.
    pub fn coefficient(&self, i: usize) -> (c: R)
        ensures
            c@ == coeff::<R>(self@, i as int),
    {
        proof {
            lemma_trim::<R>(self.raw());
        }
        if i < self.coeffs.len() {
            self.coeffs[i].duplicate()
        } else {
            R::zero()
        }
    }

    /// The degree, or nothing for the zero polynomial.
    pub fn degree(&self) -> (d: Option<usize>)
        ensures
            d is None <==> self@ == pzero::<R>(),
            d matches Some(n) ==> n == pdeg::<R>(self@),
    {
        let n = effective_len(&self.coeffs);
        proof {
            assert(self@.len() == 0 ==> self@ =~= pzero::<R>());
        }
        if n == 0 {
            None
        } else {
            Some(n - 1)
        }
    }

    /// The coefficient of the highest power of `x` in a polynomial that is
    /// not zero.
    pub fn leading_coefficient_cloned(&self) -> (c: R)
        requires
            self@ != pzero::<R>(),
        ensures
            c@ == plead::<R>(self@),
            c@ != R::zero_v(),
    {
        let n = effective_len(&self.coeffs);
        proof {
            lemma_trim::<R>(self.raw());
            assert(self@.len() == 0 ==> self@ =~= pzero::<R>());
        }
        self.coeffs[n - 1].duplicate()
    }

    /// Whether this is the zero polynomial.
    pub fn is_zero(&self) -> (b: bool)
        ensures
            b == (self@ == pzero::<R>()),
    {
        let n = effective_len(&self.coeffs);
        proof {
            assert(self@.len() == 0 ==> self@ =~= pzero::<R>());
        }
        n == 0
    }

    /// Whether two polynomials have the same coefficients.
    pub fn equals(&self, other: &Self) -> (b: bool)
        ensures
            b == (self@ == other@),
    {
        let n = if self.coeffs.len() >= other.coeffs.len() {
            self.coeffs.len()
        } else {
            other.coeffs.len()
        };
        let mut i: usize = 0;
        while i < n
            invariant
                i <= n,
                forall|j: int| 0 <= j < i ==> coeff::<R>(self@, j) == coeff::<R>(other@, j),
            decreases n - i,
        {
            let x = self.coefficient(i);
            let y = other.coefficient(i);
            if !x.equals(&y) {
                return false;
            }
            i = i + 1;
        }
        proof {
            lemma_trim::<R>(self.raw());
            lemma_trim::<R>(other.raw());
            assert forall|j: int| coeff::<R>(self@, j) == #[trigger] coeff::<R>(other@, j) by {
                if 0 <= j < n {
                    assert(coeff::<R>(self@, j) == coeff::<R>(other@, j));
                }
            }
            lemma_canon_ext::<R>(self@, other@);
        }
        true
    }

    /// Whether this is the polynomial `1`.
    pub fn is_one(&self) -> (b: bool)
        ensures
            b == (self@ == pone::<R>()),
    {
        let one = Polynomial::<R>::one();
        self.equals(&one)
    }

    /// Another polynomial with the same coefficients.
    pub fn duplicate(&self) -> (r: Self)
        ensures
            r@ == self@,
            r.raw() == self.raw(),
    {
        let n = self.coeffs.len();
        let mut v: Vec<R> = Vec::new();
        let mut i: usize = 0;
        while i < n
            invariant
                i <= n,
                n == self.coeffs.len(),
                v@.len() == i,
                forall|j: int| 0 <= j < i ==> v@[j]@ == self.coeffs@[j]@,
            decreases n - i,
        {
            v.push(self.coeffs[i].duplicate());
            i = i + 1;
        }
        let r = Polynomial { coeffs: v };
        proof {
            assert(r.raw() =~= self.raw());
        }
        r
    }

    /// The sum of two polynomials.
    pub fn add(&self, other: &Self) -> (r: Self)
        ensures
            r@ == padd::<R>(self@, other@),
            r.normalized(),
    {
        let n = if self.coeffs.len() >= other.coeffs.len() {
            self.coeffs.len()
        } else {
            other.coeffs.len()
        };
        let mut v: Vec<R> = Vec::new();
        let mut i: usize = 0;
        while i < n
            invariant
                i <= n,
                v@.len() == i,
                forall|j: int|
                    0 <= j < i ==> v@[j]@ == R::add_v(
                        coeff::<R>(self@, j),
                        coeff::<R>(other@, j),
                    ),
            decreases n - i,
        {
            let x = self.coefficient(i);
            let y = other.coefficient(i);
            v.push(x.add(&y));
            i = i + 1;
        }
        let ghost s = values::<R>(v@);
        let r = Polynomial::new(v);
        proof {
            broadcast use {group_ring_closed, group_poly};

            lemma_trim::<R>(self.raw());
            lemma_trim::<R>(other.raw());
            let t = padd::<R>(self@, other@);
            assert forall|j: int| coeff::<R>(s, j) == #[trigger] coeff::<R>(t, j) by {
                if !(0 <= j < n) {
                    R::law_add_zero(R::zero_v());
                }
            }
            lemma_trim_eq::<R>(s, t);
        }
        r
    }

    /// The additive inverse.
    pub fn neg(&self) -> (r: Self)
        ensures
            r@ == pneg::<R>(self@),
            r.normalized(),
    {
        let n = self.coeffs.len();
        let mut v: Vec<R> = Vec::new();
        let mut i: usize = 0;
        while i < n
            invariant
                i <= n,
                n == self.coeffs.len(),
                v@.len() == i,
                forall|j: int| 0 <= j < i ==> v@[j]@ == R::neg_v(self.coeffs@[j]@),
            decreases n - i,
        {
            v.push(self.coeffs[i].neg());
            i = i + 1;
        }
        let ghost s = values::<R>(v@);
        let r = Polynomial::new(v);
        proof {
            broadcast use {group_ring_closed, group_poly};

            lemma_trim::<R>(self.raw());
            let t = pneg::<R>(self@);
            assert forall|j: int| coeff::<R>(s, j) == #[trigger] coeff::<R>(t, j) by {
                assert(coeff::<R>(self@, j) == coeff::<R>(self.raw(), j));
                if !(0 <= j < n) {
                    crate::traits::lemma_neg_zero::<R>();
                }
            }
            lemma_trim_eq::<R>(s, t);
        }
        r
    }

    /// The difference of two polynomials.
    pub fn sub(&self, other: &Self) -> (r: Self)
        ensures
            r@ == psub::<R>(self@, other@),
            r.normalized(),
    {
        let m = other.neg();
        self.add(&m)
    }

    /// The polynomial with every coefficient multiplied by `c`.
    pub fn scalar_mul(&self, c: &R) -> (r: Self)
        ensures
            r@ == pscale::<R>(c@, self@),
            r.normalized(),
    {
        let n = self.coeffs.len();
        let mut v: Vec<R> = Vec::new();
        let mut i: usize = 0;
        while i < n
            invariant
                i <= n,
                n == self.coeffs.len(),
                v@.len() == i,
                forall|j: int| 0 <= j < i ==> v@[j]@ == R::mul_v(c@, self.coeffs@[j]@),
            decreases n - i,
        {
            v.push(c.mul(&self.coeffs[i]));
            i = i + 1;
        }
        let ghost s = values::<R>(v@);
        let r = Polynomial::new(v);
        proof {
            broadcast use {group_ring_closed, group_poly};

            lemma_trim::<R>(self.raw());
            let t = pscale::<R>(c@, self@);
            assert forall|j: int| coeff::<R>(s, j) == #[trigger] coeff::<R>(t, j) by {
                assert(coeff::<R>(self@, j) == coeff::<R>(self.raw(), j));
                if !(0 <= j < n) {
                    lemma_mul_zero::<R>(c@);
                }
            }
            lemma_trim_eq::<R>(s, t);
        }
        r
    }

    /// The polynomial times `x^k`.
    pub fn shift(&self, k: usize) -> (r: Self)
        ensures
            r@ == pshift::<R>(self@, k as nat),
            r.normalized(),
    {
        let n = self.coeffs.len();
        let mut v: Vec<R> = Vec::new();
        let mut i: usize = 0;
        while i < k
            invariant
                i <= k,
                v@.len() == i,
                forall|j: int| 0 <= j < i ==> v@[j]@ == R::zero_v(),
            decreases k - i,
        {
            v.push(R::zero());
            i = i + 1;
        }
        let mut i: usize = 0;
        while i < n
            invariant
                i <= n,
                n == self.coeffs.len(),
                v@.len() == k + i,
                forall|j: int| 0 <= j < k ==> v@[j]@ == R::zero_v(),
                forall|j: int| k <= j < k + i ==> v@[j]@ == self.coeffs@[j - k]@,
            decreases n - i,
        {
            v.push(self.coeffs[i].duplicate());
            i = i + 1;
        }
        let ghost s = values::<R>(v@);
        let r = Polynomial::new(v);
        proof {
            broadcast use {group_ring_closed, group_poly};

            lemma_trim::<R>(self.raw());
            let t = pshift::<R>(self@, k as nat);
            assert forall|j: int| coeff::<R>(s, j) == #[trigger] coeff::<R>(t, j) by {
                assert(coeff::<R>(self@, j - k) == coeff::<R>(self.raw(), j - k));
            }
            lemma_trim_eq::<R>(s, t);
        }
        r
    }

    /// The product of two polynomials.
    pub fn mul(&self, other: &Self) -> (r: Self)
        ensures
            r@ == pmul::<R>(self@, other@),
            r.normalized(),
    {
        let n = self.coeffs.len();
        let ghost a = self.raw();
        let ghost b = other@;
        let mut acc = Polynomial::<R>::zero();
        let mut sb = other.duplicate();
        let mut i: usize = 0;
        proof {
            lemma_trim::<R>(other.raw());
            lemma_pshift_zero::<R>(b);
            lemma_pmul_zero::<R>(a.take(0), b);
        }
        while i < n
            invariant
                i <= n,
                n == self.coeffs.len(),
                a == self.raw(),
                b == other@,
                acc@ == pmul::<R>(a.take(i as int), b),
                acc.normalized(),
                sb@ == pshift::<R>(b, i as nat),
            decreases n - i,
        {
            let term = sb.scalar_mul(&self.coeffs[i]);
            let next = acc.add(&term);
            let shifted = sb.shift(1);
            proof {
                let p = a.take(i + 1);
                assert(p.drop_last() =~= a.take(i as int));
                assert(p.last() == self.coeffs@[i as int]@);
                lemma_pmul_last::<R>(p, b);
                lemma_pshift_pshift::<R>(b, i as nat, 1);
            }
            acc = next;
            sb = shifted;
            i = i + 1;
        }
        proof {
            assert(a.take(n as int) =~= a);
            lemma_trim::<R>(a);
            lemma_pmul_congr::<R>(a, self@, b, b);
        }
        acc
    }

    /// The derivative.
    pub fn derivative(&self) -> (r: Self) where R: FromUsize
        ensures
            r@ == pderiv::<R>(self@),
            r.normalized(),
    {
        let n = self.coeffs.len();
        let mut v: Vec<R> = Vec::new();
        let mut i: usize = 1;
        while i < n
            invariant
                1 <= i,
                i <= n || (n == 0 && i == 1),
                n == self.coeffs.len(),
                v@.len() == i - 1,
                forall|j: int|
                    0 <= j < i - 1 ==> v@[j]@ == R::mul_v(
                        from_nat_of::<R>(j + 1),
                        self.coeffs@[j + 1]@,
                    ),
            decreases n - i,
        {
            let k = R::from_usize(i);
            v.push(k.mul(&self.coeffs[i]));
            i = i + 1;
        }
        let ghost vv = v@;
        let ghost s = values::<R>(v@);
        let r = Polynomial::new(v);
        proof {
            broadcast use {group_ring_closed, group_poly};

            lemma_trim::<R>(self.raw());
            let t = pderiv::<R>(self@);
            assert forall|j: int| coeff::<R>(s, j) == #[trigger] coeff::<R>(t, j) by {
                assert(coeff::<R>(self@, j + 1) == coeff::<R>(self.raw(), j + 1));
                if 0 <= j < n - 1 {
                    assert(s[j] == vv[j]@);
                } else if j >= 0 {
                    lemma_mul_zero::<R>(from_nat_of::<R>(j + 1));
                }
            }
            lemma_trim_eq::<R>(s, t);
        }
        r
    }
}

/// The image of a non-negative integer in the ring.
pub open spec fn from_nat_of<R: RingSpec>(n: int) -> R::V {
    crate::traits::from_nat::<R>(n as nat)
}

} // verus!
