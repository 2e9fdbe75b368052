//! Square-free factorization of polynomials over a field, by Yun's
//! algorithm.

use vstd::prelude::*;
pub use crate::divisors::integer_divisors;
pub use crate::interpolation::lagrange_interpolation;
use crate::derivative::{lemma_leibniz, lemma_pderiv_len, lemma_pow_member};
use crate::divisibility::{
    lemma_divides_cancel, lemma_squarefree_factor, lemma_squarefree_part,
};
use crate::euclid::{
    coprime, lemma_coprime_divisor, lemma_coprime_quotients, lemma_coprime_sym, lemma_divides_len,
    lemma_exact_division, lemma_field_pmul_len, lemma_gauss, lemma_pmonic, lemma_pmonic_gcd,
    pmonic,
};
use crate::poly_ring::{
    lemma_pmul_assoc, lemma_pmul_comm, lemma_pmul_one, lemma_pmul_zero, lemma_pscale_zero,
};
use crate::polynomial::{
    Polynomial, group_poly, lemma_pok_coeff, lemma_trim, pderiv, plead, pmul, pok, pone, pscale,
    pzero,
};
use crate::traits::{
    CommutativeRing, Field, FromUsize, RingSpec, distinguishes_up_to, divides, group_ring_closed,
    is_gcd, lemma_divides_mul, lemma_divides_sub, lemma_factor_divides, lemma_mul_swap,
    lemma_pow_first, lemma_pow_one, lemma_regroup_powers, lemma_sub_unique, pow,
};

verus! {

/// How often a factor occurs: a count of at least one.
#[derive(Clone, Copy, Debug)]
pub struct Multiplicity {
    count: usize,
}

impl Multiplicity {
    #[verifier::type_invariant]
    spec fn positive(self) -> bool {
        self.count >= 1
    }

    /// The count.
    pub closed spec fn view(&self) -> nat {
        self.count as nat
    }

    /// The multiplicity `n`, unless `n` is zero.
    pub fn new(n: usize) -> (r: Option<Multiplicity>)
        ensures
            r is Some <==> n >= 1,
            r matches Some(m) ==> m@ == n,
    {
        if n >= 1 {
            Some(Multiplicity { count: n })
        } else {
            None
        }
    }

    /// The multiplicity one.
    pub fn one() -> (r: Multiplicity)
        ensures
            r@ == 1,
    {
        Multiplicity { count: 1 }
    }

    /// The count, which is at least one.
    pub fn get(&self) -> (n: usize)
        ensures
            n == self@,
            n >= 1,
    {
        proof {
            use_type_invariant(self);
        }
        self.count
    }

    /// The multiplicity raised by `k`, or the highest one that fits.
    pub fn saturating_add(&self, k: usize) -> (r: Multiplicity)
        ensures
            r@ == if self@ + k > usize::MAX {
                usize::MAX as int
            } else {
                self@ + k
            },
    {
        proof {
            use_type_invariant(self);
        }
        Multiplicity { count: self.count.saturating_add(k) }
    }
}

/// A polynomial as its leading coefficient times a product of powers of
/// monic polynomials.
#[derive(Debug)]
pub struct SquareFreeFactorization<F> {
    pub leading_coeff: F,
    pub factors: Vec<(Polynomial<F>, Multiplicity)>,
}

/// The values of a list of factors with their multiplicities.
pub open spec fn factor_values<F: Field>(s: Seq<(Polynomial<F>, Multiplicity)>) -> Seq<
    (Seq<F::V>, nat),
> {
    Seq::new(s.len(), |i: int| (s[i].0@, s[i].1@))
}

impl<F: Field> SquareFreeFactorization<F> {
    /// The factors with their multiplicities, as values.
    pub open spec fn factor_list(&self) -> Seq<(Seq<F::V>, nat)> {
        factor_values::<F>(self.factors@)
    }

    /// Whether two factorizations have the same leading coefficient and the
    /// same factors with the same multiplicities, in the same order.
    pub fn equals(&self, other: &Self) -> (b: bool)
        ensures
            b == (self.leading_coeff@ == other.leading_coeff@ && self.factor_list()
                == other.factor_list()),
    {
        let n = self.factors.len();
        if !self.leading_coeff.equals(&other.leading_coeff) {
            return false;
        }
        if other.factors.len() != n {
            proof {
                assert(self.factor_list().len() != other.factor_list().len());
            }
            return false;
        }
        let mut i: usize = 0;
        while i < n
            invariant
                i <= n,
                n == self.factors@.len(),
                n == other.factors@.len(),
                forall|k: int| 0 <= k < i ==> self.factor_list()[k] == other.factor_list()[k],
            decreases n - i,
        {
            let a = &self.factors[i];
            let b = &other.factors[i];
            if !a.0.equals(&b.0) || a.1.get() != b.1.get() {
                proof {
                    assert(self.factor_list()[i as int] != other.factor_list()[i as int]);
                }
                return false;
            }
            i = i + 1;
        }
        proof {
            assert(self.factor_list() =~= other.factor_list());
        }
        true
    }

    /// Another factorization with the same leading coefficient and factors.
    pub fn duplicate(&self) -> (r: Self)
        ensures
            r.leading_coeff@ == self.leading_coeff@,
            r.factor_list() == self.factor_list(),
    {
        let n = self.factors.len();
        let mut factors: Vec<(Polynomial<F>, Multiplicity)> = Vec::new();
        let mut i: usize = 0;
        while i < n
            invariant
                i <= n,
                n == self.factors@.len(),
                factors@.len() == i,
                forall|k: int|
                    0 <= k < i ==> factor_values::<F>(factors@)[k] == self.factor_list()[k],
            decreases n - i,
        {
            let a = &self.factors[i];
            factors.push((a.0.duplicate(), a.1));
            i = i + 1;
        }
        let r = SquareFreeFactorization { leading_coeff: self.leading_coeff.duplicate(), factors };
        proof {
            assert(r.factor_list() =~= self.factor_list());
        }
        r
    }
}

/// The product of the factors, each raised to its multiplicity.
pub open spec fn expand<F: Field>(fl: Seq<(Seq<F::V>, nat)>) -> Seq<F::V>
    decreases fl.len(),
{
    if fl.len() == 0 {
        pone::<F>()
    } else {
        pmul::<F>(expand::<F>(fl.drop_last()), pow::<Polynomial<F>>(fl.last().0, fl.last().1))
    }
}

/// Whether a factor is a monic polynomial that is not constant and is
/// coprime to its derivative, with a multiplicity of at least one.
pub open spec fn square_free_factor<F: Field>(x: (Seq<F::V>, nat)) -> bool {
    &&& pok::<F>(x.0)
    &&& x.0.len() >= 2
    &&& plead::<F>(x.0) == F::one_v()
    &&& x.1 >= 1
    &&& coprime::<F>(x.0, pderiv::<F>(x.0))
}

/// Whether the multiplicities strictly increase along the list.
pub open spec fn multiplicities_increase<F: Field>(fl: Seq<(Seq<F::V>, nat)>) -> bool {
    forall|i: int, k: int| 0 <= i < k < fl.len() ==> (#[trigger] fl[i]).1 < (#[trigger] fl[k]).1
}

/// Whether any two factors at different places are coprime.
pub open spec fn pairwise_coprime<F: Field>(fl: Seq<(Seq<F::V>, nat)>) -> bool {
    forall|i: int, k: int|
        0 <= i < fl.len() && 0 <= k < fl.len() && i != k ==> coprime::<F>(
            (#[trigger] fl[i]).0,
            (#[trigger] fl[k]).0,
        )
}

/// Whether `lc` and `fl` are the square-free factorization of `p`: `p` is
/// `lc` times the product of the powers, `lc` is the leading coefficient of
/// `p`, and the factors are monic, not constant, each coprime to its own
/// derivative and to the others, with strictly increasing multiplicities.
pub open spec fn is_square_free_factorization<F: Field>(
    p: Seq<F::V>,
    lc: F::V,
    fl: Seq<(Seq<F::V>, nat)>,
) -> bool {
    &&& p == pscale::<F>(lc, expand::<F>(fl))
    &&& lc == plead::<F>(p)
    &&& forall|i: int| 0 <= i < fl.len() ==> square_free_factor::<F>(#[trigger] fl[i])
    &&& multiplicities_increase::<F>(fl)
    &&& pairwise_coprime::<F>(fl)
}

/// What holds between the rounds of the factorization of the monic
/// polynomial `u`: `e` holds the factors found so far, `r` what is left of
/// the repeated part, `f` the product of the factors still to come, and `j`
/// the multiplicity in turn.
pub open spec fn yun_state<F: Field>(
    u: Seq<F::V>,
    e: Seq<(Seq<F::V>, nat)>,
    r: Seq<F::V>,
    f: Seq<F::V>,
    j: nat,
) -> bool {
    &&& pok::<F>(u)
    &&& pok::<F>(r)
    &&& pok::<F>(f)
    &&& plead::<F>(r) == F::one_v()
    &&& plead::<F>(f) == F::one_v()
    &&& u == pmul::<F>(pmul::<F>(expand::<F>(e), r), pow::<Polynomial<F>>(f, j))
    &&& divides::<Polynomial<F>>(r, pmul::<F>(pderiv::<F>(r), f))
    &&& j >= 1
    &&& j + r.len() <= u.len() + 1
    &&& coprime::<F>(f, pderiv::<F>(f))
    &&& forall|i: int|
        0 <= i < e.len() ==> square_free_factor::<F>(#[trigger] e[i]) && e[i].1 < j
            && coprime::<F>(e[i].0, f)
    &&& multiplicities_increase::<F>(e)
    &&& pairwise_coprime::<F>(e)
}

/// The product of a list with one more factor.
pub proof fn lemma_expand_push<F: Field>(e: Seq<(Seq<F::V>, nat)>, x: (Seq<F::V>, nat))
    ensures
        expand::<F>(e.push(x)) == pmul::<F>(expand::<F>(e), pow::<Polynomial<F>>(x.0, x.1)),
{
    assert(e.push(x).drop_last() =~= e);
}

/// The product of the factors is a polynomial.
pub proof fn lemma_expand_member<F: Field>(e: Seq<(Seq<F::V>, nat)>)
    ensures
        pok::<F>(expand::<F>(e)),
{
    broadcast use {group_ring_closed, group_poly};

    F::law_closed(F::zero_v(), F::zero_v());
}

/// A monic polynomial is not zero, and is `1` if it is constant.
pub proof fn lemma_monic<F: Field>(a: Seq<F::V>)
    requires
        pok::<F>(a),
        plead::<F>(a) == F::one_v(),
    ensures
        a.len() >= 1,
        a.len() == 1 <==> a == pone::<F>(),
{
    broadcast use {group_ring_closed, group_poly};

    F::law_nontrivial();
    assert(pone::<F>() == seq![F::one_v()]);
    if a.len() == 1 {
        assert(a =~= seq![F::one_v()]);
    }
}

/// Of a monic product with a monic factor, the other factor is monic.
pub proof fn lemma_monic_cofactor<F: Field>(a: Seq<F::V>, b: Seq<F::V>)
    requires
        pok::<F>(a),
        pok::<F>(b),
        plead::<F>(pmul::<F>(a, b)) == F::one_v(),
        plead::<F>(b) == F::one_v(),
    ensures
        plead::<F>(a) == F::one_v(),
        a.len() >= 1,
        pmul::<F>(a, b).len() == a.len() + b.len() - 1,
{
    F::law_nontrivial();
    lemma_monic::<F>(b);
    if a.len() == 0 {
        lemma_pmul_zero::<F>(a, b);
        assert(false);
    }
    lemma_field_pmul_len::<F>(a, b);
    lemma_pok_coeff::<F>(a, a.len() - 1);
    F::law_mul_one(a.last());
}

/// In a round, the repeated part keeps dividing its derivative times the
/// product of the factors to come.
#[verifier::rlimit(50)]
proof fn lemma_step_divides<F: Field>(
    r: Seq<F::V>,
    f: Seq<F::V>,
    g: Seq<F::V>,
    s: Seq<F::V>,
    r2: Seq<F::V>,
)
    requires
        pok::<F>(r),
        pok::<F>(f),
        pok::<F>(s),
        pok::<F>(r2),
        g.len() > 0,
        is_gcd::<Polynomial<F>>(g, r, f),
        f == pmul::<F>(g, s),
        r == pmul::<F>(g, r2),
        divides::<Polynomial<F>>(r, pmul::<F>(pderiv::<F>(r), f)),
    ensures
        divides::<Polynomial<F>>(r2, pmul::<F>(pderiv::<F>(r2), g)),
{
    broadcast use {group_ring_closed, group_poly};

    let dg = pderiv::<F>(g);
    let dr2 = pderiv::<F>(r2);
    let x = pmul::<F>(dg, r2);
    let y = pmul::<F>(g, dr2);
    lemma_leibniz::<F>(g, r2);
    // r' * f == g * (r' * s)
    lemma_mul_swap::<Polynomial<F>>(pderiv::<F>(r), g, s);
    lemma_divides_cancel::<F>(g, r2, pmul::<F>(pderiv::<F>(r), s));
    // r2 | (x + y) * s == x * s + y * s, and r2 | x * s
    crate::traits::lemma_distrib_right::<Polynomial<F>>(x, y, s);
    lemma_factor_divides::<Polynomial<F>>(dg, r2);
    lemma_divides_mul::<Polynomial<F>>(r2, x, s);
    <Polynomial<F> as RingSpec>::law_add_comm(pmul::<F>(x, s), pmul::<F>(y, s));
    lemma_sub_unique::<Polynomial<F>>(
        pmul::<F>(x, s),
        pmul::<F>(y, s),
        pmul::<F>(pderiv::<F>(r), s),
    );
    lemma_divides_sub::<Polynomial<F>>(r2, pmul::<F>(pderiv::<F>(r), s), pmul::<F>(x, s));
    // r2 and s are coprime
    lemma_coprime_quotients::<F>(g, r, f, r2, s);
    lemma_pmul_comm::<F>(y, s);
    lemma_gauss::<F>(r2, s, y);
    lemma_pmul_comm::<F>(g, dr2);
}

/// In a round, the greatest common divisor of a repeated part that is not
/// constant and the product of the factors to come is not constant.
proof fn lemma_step_progress<F: Field>(r: Seq<F::V>, f: Seq<F::V>, g: Seq<F::V>)
    requires
        pok::<F>(r),
        pok::<F>(f),
        r.len() >= 2,
        crate::traits::from_nat::<F>((r.len() - 1) as nat) != F::zero_v(),
        is_gcd::<Polynomial<F>>(g, r, f),
        plead::<F>(g) == F::one_v(),
        divides::<Polynomial<F>>(r, pmul::<F>(pderiv::<F>(r), f)),
    ensures
        g.len() >= 2,
{
    broadcast use {group_ring_closed, group_poly};

    lemma_monic::<F>(g);
    if g.len() == 1 {
        lemma_pmul_comm::<F>(pderiv::<F>(r), f);
        lemma_gauss::<F>(r, f, pderiv::<F>(r));
        lemma_pderiv_len::<F>(r);
        lemma_divides_len::<F>(r, pderiv::<F>(r));
    }
}

/// In a round, the product of the factors found, the repeated part and the
/// power of the factors to come stays the same.
proof fn lemma_step_product<F: Field>(
    u: Seq<F::V>,
    e: Seq<(Seq<F::V>, nat)>,
    j: nat,
    g: Seq<F::V>,
    s: Seq<F::V>,
    r2: Seq<F::V>,
)
    requires
        u == pmul::<F>(
            pmul::<F>(expand::<F>(e), pmul::<F>(r2, g)),
            pow::<Polynomial<F>>(pmul::<F>(s, g), j),
        ),
    ensures
        u == pmul::<F>(
            pmul::<F>(
                expand::<F>(
                    if s == pone::<F>() {
                        e
                    } else {
                        e.push((s, j))
                    },
                ),
                r2,
            ),
            pow::<Polynomial<F>>(g, j + 1),
        ),
{
    lemma_expand_member::<F>(e);
    lemma_regroup_powers::<Polynomial<F>>(expand::<F>(e), r2, g, s, j);
    if s == pone::<F>() {
        lemma_pow_one::<Polynomial<F>>(j);
        lemma_pmul_one::<F>(expand::<F>(e));
    } else {
        lemma_expand_push::<F>(e, (s, j));
    }
}

/// In a round, the factors found stay square-free, apart in their
/// multiplicities, and coprime to each other and to the factors to come.
#[verifier::rlimit(50)]
proof fn lemma_step_factors<F: Field>(
    e: Seq<(Seq<F::V>, nat)>,
    e2: Seq<(Seq<F::V>, nat)>,
    f: Seq<F::V>,
    j: nat,
    g: Seq<F::V>,
    s: Seq<F::V>,
)
    requires
        pok::<F>(s),
        pok::<F>(g),
        f == pmul::<F>(s, g),
        j >= 1,
        s != pone::<F>() ==> square_free_factor::<F>((s, j)),
        coprime::<F>(s, g),
        forall|i: int|
            0 <= i < e.len() ==> square_free_factor::<F>(#[trigger] e[i]) && e[i].1 < j
                && coprime::<F>(e[i].0, f),
        multiplicities_increase::<F>(e),
        pairwise_coprime::<F>(e),
        e2 == (if s == pone::<F>() {
            e
        } else {
            e.push((s, j))
        }),
    ensures
        forall|i: int|
            0 <= i < e2.len() ==> square_free_factor::<F>(#[trigger] e2[i]) && e2[i].1 < j + 1
                && coprime::<F>(e2[i].0, g),
        multiplicities_increase::<F>(e2),
        pairwise_coprime::<F>(e2),
{
    lemma_factor_divides::<Polynomial<F>>(s, g);
    assert forall|i: int| 0 <= i < e2.len() implies square_free_factor::<F>(#[trigger] e2[i])
        && e2[i].1 < j + 1 && coprime::<F>(e2[i].0, g) by {
        if i < e.len() {
            assert(e2[i] == e[i]);
            lemma_coprime_divisor::<F>(e[i].0, f, g);
        }
    }
    assert forall|i: int, k: int| 0 <= i < k < e2.len() implies (#[trigger] e2[i]).1 < (
    #[trigger] e2[k]).1 by {
        if k < e.len() {
            assert(e2[i] == e[i] && e2[k] == e[k]);
        } else {
            assert(e2[i] == e[i]);
        }
    }
    assert forall|i: int, k: int|
        0 <= i < e2.len() && 0 <= k < e2.len() && i != k implies coprime::<F>(
        (#[trigger] e2[i]).0,
        (#[trigger] e2[k]).0,
    ) by {
        if i < e.len() && k < e.len() {
            assert(e2[i] == e[i] && e2[k] == e[k]);
        } else if i < e.len() {
            assert(e2[i] == e[i]);
            lemma_coprime_divisor::<F>(e[i].0, f, s);
        } else {
            assert(e2[k] == e[k]);
            lemma_coprime_divisor::<F>(e[k].0, f, s);
            lemma_coprime_sym::<F>(e[k].0, s);
        }
    }
}

/// One round of the factorization keeps the state, and shortens the
/// repeated part.
#[verifier::rlimit(50)]
pub proof fn lemma_yun_step<F: Field>(
    u: Seq<F::V>,
    e: Seq<(Seq<F::V>, nat)>,
    r: Seq<F::V>,
    f: Seq<F::V>,
    j: nat,
    g: Seq<F::V>,
    s: Seq<F::V>,
    r2: Seq<F::V>,
)
    requires
        yun_state::<F>(u, e, r, f, j),
        distinguishes_up_to::<F>((u.len() - 1) as nat),
        r != pone::<F>(),
        is_gcd::<Polynomial<F>>(g, r, f),
        plead::<F>(g) == F::one_v(),
        pok::<F>(s),
        pok::<F>(r2),
        f == pmul::<F>(s, g),
        r == pmul::<F>(r2, g),
    ensures
        yun_state::<F>(
            u,
            if s == pone::<F>() {
                e
            } else {
                e.push((s, j))
            },
            r2,
            g,
            j + 1,
        ),
        r2.len() < r.len(),
{
    lemma_monic::<F>(r);
    lemma_monic::<F>(f);
    lemma_monic::<F>(g);
    lemma_pmul_comm::<F>(s, g);
    lemma_pmul_comm::<F>(r2, g);
    // the cofactors are monic
    lemma_monic_cofactor::<F>(s, g);
    lemma_monic_cofactor::<F>(r2, g);
    lemma_monic::<F>(s);
    // progress
    assert(crate::traits::from_nat::<F>((r.len() - 1) as nat) != F::zero_v());
    lemma_step_progress::<F>(r, f, g);
    // the product
    lemma_step_product::<F>(u, e, j, g, s, r2);
    // divisibility
    lemma_step_divides::<F>(r, f, g, s, r2);
    // square-freeness and coprimality
    lemma_squarefree_factor::<F>(f, s, g);
    lemma_squarefree_factor::<F>(f, g, s);
    let e2 = if s == pone::<F>() {
        e
    } else {
        e.push((s, j))
    };
    lemma_step_factors::<F>(e, e2, f, j, g, s);
    assert forall|i: int| 0 <= i < e2.len() implies square_free_factor::<F>(#[trigger] e2[i])
        && e2[i].1 < j + 1 && coprime::<F>(e2[i].0, g) by {}
}

/// The state in which the rounds begin.
pub proof fn lemma_yun_start<F: Field>(u: Seq<F::V>, r: Seq<F::V>, f: Seq<F::V>)
    requires
        pok::<F>(u),
        plead::<F>(u) == F::one_v(),
        distinguishes_up_to::<F>((u.len() - 1) as nat),
        is_gcd::<Polynomial<F>>(r, u, pderiv::<F>(u)),
        plead::<F>(r) == F::one_v(),
        pok::<F>(f),
        u == pmul::<F>(f, r),
    ensures
        yun_state::<F>(u, Seq::empty(), r, f, 1),
{
    broadcast use {group_ring_closed, group_poly};

    let e = Seq::<(Seq<F::V>, nat)>::empty();
    lemma_monic::<F>(u);
    lemma_monic::<F>(r);
    lemma_monic_cofactor::<F>(f, r);
    lemma_pmul_comm::<F>(f, r);
    // the product
    lemma_pmul_one::<F>(r);
    lemma_pow_first::<Polynomial<F>>(f);
    assert(u == pmul::<F>(pmul::<F>(expand::<F>(e), r), pow::<Polynomial<F>>(f, 1)));
    // r | r' * f
    lemma_leibniz::<F>(r, f);
    let x = pmul::<F>(pderiv::<F>(r), f);
    let y = pmul::<F>(r, pderiv::<F>(f));
    <Polynomial<F> as RingSpec>::law_add_comm(x, y);
    lemma_sub_unique::<Polynomial<F>>(y, x, pderiv::<F>(u));
    lemma_factor_divides::<Polynomial<F>>(r, pderiv::<F>(f));
    lemma_divides_sub::<Polynomial<F>>(r, pderiv::<F>(u), y);
    // the square-free part
    lemma_squarefree_part::<F>(u, r, f);
}

/// The state in which the rounds end gives the factorization.
pub proof fn lemma_yun_done<F: Field>(
    p: Seq<F::V>,
    u: Seq<F::V>,
    e: Seq<(Seq<F::V>, nat)>,
    f: Seq<F::V>,
    j: nat,
)
    requires
        pok::<F>(p),
        p.len() > 0,
        u == pmonic::<F>(p),
        yun_state::<F>(u, e, pone::<F>(), f, j),
    ensures
        is_square_free_factorization::<F>(
            p,
            plead::<F>(p),
            if f == pone::<F>() {
                e
            } else {
                e.push((f, j))
            },
        ),
{
    broadcast use {group_ring_closed, group_poly};

    let e2 = if f == pone::<F>() {
        e
    } else {
        e.push((f, j))
    };
    lemma_pmonic::<F>(p);
    lemma_monic::<F>(f);
    lemma_expand_member::<F>(e);
    lemma_pmul_one::<F>(expand::<F>(e));
    if f == pone::<F>() {
        lemma_pow_one::<Polynomial<F>>(j);
    } else {
        lemma_expand_push::<F>(e, (f, j));
    }
    assert(u == expand::<F>(e2));
    assert forall|i: int| 0 <= i < e2.len() implies square_free_factor::<F>(
        #[trigger] e2[i],
    ) by {
        if i < e.len() {
            assert(e2[i] == e[i]);
        }
    }
    assert forall|i: int, k: int| 0 <= i < k < e2.len() implies (#[trigger] e2[i]).1 < (
    #[trigger] e2[k]).1 by {
        if k < e.len() {
            assert(e2[i] == e[i] && e2[k] == e[k]);
        } else {
            assert(e2[i] == e[i]);
        }
    }
    assert forall|i: int, k: int|
        0 <= i < e2.len() && 0 <= k < e2.len() && i != k implies coprime::<F>(
        (#[trigger] e2[i]).0,
        (#[trigger] e2[k]).0,
    ) by {
        if i < e.len() && k < e.len() {
            assert(e2[i] == e[i] && e2[k] == e[k]);
        } else if i < e.len() {
            assert(e2[i] == e[i]);
        } else {
            assert(e2[k] == e[k]);
            lemma_coprime_sym::<F>(e[k].0, f);
        }
    }
}

/// The zero polynomial has the leading coefficient zero and no factors.
pub proof fn lemma_zero_factorization<F: Field>()
    ensures
        is_square_free_factorization::<F>(pzero::<F>(), F::zero_v(), Seq::empty()),
{
    broadcast use {group_ring_closed, group_poly};

    lemma_pscale_zero::<F>(F::zero_v(), expand::<F>(Seq::empty()));
}

/// Each power in the product of the factors divides the product.
pub proof fn lemma_expand_divides<F: Field>(fl: Seq<(Seq<F::V>, nat)>, i: int)
    requires
        0 <= i < fl.len(),
    ensures
        divides::<Polynomial<F>>(pow::<Polynomial<F>>(fl[i].0, fl[i].1), expand::<F>(fl)),
    decreases fl.len(),
{
    let d = fl.drop_last();
    let last = pow::<Polynomial<F>>(fl.last().0, fl.last().1);
    lemma_expand_member::<F>(d);
    lemma_pow_member::<F>(fl.last().0, fl.last().1);
    if i == fl.len() - 1 {
        lemma_factor_divides::<Polynomial<F>>(expand::<F>(d), last);
    } else {
        lemma_expand_divides::<F>(d, i);
        assert(d[i] == fl[i]);
        lemma_divides_mul::<Polynomial<F>>(
            pow::<Polynomial<F>>(fl[i].0, fl[i].1),
            expand::<F>(d),
            last,
        );
    }
}

/// A polynomial whose square divides `s` divides `s` and its derivative.
pub proof fn lemma_square_divides_derivative<F: Field>(x: Seq<F::V>, m: nat, s: Seq<F::V>)
    requires
        pok::<F>(x),
        m >= 2,
        divides::<Polynomial<F>>(pow::<Polynomial<F>>(x, m), s),
    ensures
        divides::<Polynomial<F>>(x, s),
        divides::<Polynomial<F>>(x, pderiv::<F>(s)),
{
    broadcast use {group_ring_closed, group_poly};

    let c = pow::<Polynomial<F>>(x, (m - 2) as nat);
    lemma_pow_member::<F>(x, (m - 2) as nat);
    assert(pow::<Polynomial<F>>(x, (m - 1) as nat) == pmul::<F>(x, c));
    assert(pow::<Polynomial<F>>(x, m) == pmul::<F>(x, pmul::<F>(x, c)));
    let w = crate::divisibility::lemma_divides_witness::<F>(pow::<Polynomial<F>>(x, m), s);
    let y = pmul::<F>(x, pmul::<F>(c, w));
    lemma_pmul_assoc::<F>(x, pmul::<F>(x, c), w);
    lemma_pmul_assoc::<F>(x, c, w);
    assert(s == pmul::<F>(x, y));
    lemma_leibniz::<F>(x, y);
    lemma_factor_divides::<Polynomial<F>>(x, y);
    lemma_factor_divides::<Polynomial<F>>(x, pmul::<F>(c, w));
    lemma_divides_mul::<Polynomial<F>>(x, y, pderiv::<F>(x));
    lemma_factor_divides::<Polynomial<F>>(x, pderiv::<F>(y));
    crate::traits::lemma_divides_add::<Polynomial<F>>(
        x,
        pmul::<F>(pderiv::<F>(x), y),
        pmul::<F>(x, pderiv::<F>(y)),
    );
}

/// The square-free factorization of a factor is the factor: a monic
/// polynomial that is not constant and is coprime to its derivative has the
/// leading coefficient one and itself, once, as its only factor.
pub proof fn lemma_refactoring<F: Field>(s: Seq<F::V>, lc: F::V, fl: Seq<(Seq<F::V>, nat)>)
    requires
        square_free_factor::<F>((s, 1)),
        is_square_free_factorization::<F>(s, lc, fl),
    ensures
        lc == F::one_v(),
        fl == seq![(s, 1nat)],
{
    broadcast use {group_ring_closed, group_poly};

    lemma_expand_member::<F>(fl);
    crate::poly_ring::lemma_pscale_one::<F>(expand::<F>(fl));
    assert(s == expand::<F>(fl));
    assert forall|i: int| 0 <= i < fl.len() implies (#[trigger] fl[i]).1 == 1 by {
        assert(square_free_factor::<F>(fl[i]));
        if fl[i].1 >= 2 {
            lemma_expand_divides::<F>(fl, i);
            lemma_square_divides_derivative::<F>(fl[i].0, fl[i].1, s);
            crate::divisibility::lemma_common_divisor_unit::<F>(fl[i].0, s, pderiv::<F>(s));
        }
    }
    if fl.len() >= 2 {
        assert(fl[0].1 < fl[1].1);
    }
    if fl.len() == 0 {
        lemma_monic::<F>(s);
    }
    assert(fl.len() == 1);
    let x = fl[0];
    assert(fl.last() == x);
    assert(fl.drop_last() =~= Seq::empty());
    assert(square_free_factor::<F>(x));
    assert(x.1 == 1);
    lemma_pow_first::<Polynomial<F>>(x.0);
    lemma_pmul_one::<F>(x.0);
    assert(expand::<F>(fl.drop_last()) == pone::<F>());
    assert(expand::<F>(fl) == pmul::<F>(pone::<F>(), pow::<Polynomial<F>>(x.0, x.1)));
    assert(x.0 == s);
    assert(x == (s, 1nat));
    assert(fl =~= seq![(s, 1nat)]);
}

impl<F: Field> Polynomial<F> {
    /// The square-free factorization, by Yun's algorithm.
    ///
    /// For a polynomial that is not constant, the field has to tell the
    /// numbers from one up to the degree from zero, as every field of
    /// characteristic zero does.
    #[verifier::rlimit(50)]
    pub fn square_free_factorization(self) -> (r: SquareFreeFactorization<F>) where
        F: FromUsize,

        requires
            self@.len() >= 2 ==> distinguishes_up_to::<F>((self@.len() - 1) as nat),
        ensures
            is_square_free_factorization::<F>(self@, r.leading_coeff@, r.factor_list()),
            self@ == pzero::<F>() ==> r.leading_coeff@ == F::zero_v() && r.factors@.len() == 0,
    {
        if self.is_zero() {
            let r = SquareFreeFactorization { leading_coeff: F::zero(), factors: Vec::new() };
            proof {
                lemma_zero_factorization::<F>();
                assert(r.factor_list() =~= Seq::empty());
            }
            return r;
        }
        let ghost p = self@;
        proof {
            Self::law_view_member(&self);
            assert(p.len() == 0 ==> p =~= pzero::<F>());
            lemma_pmonic::<F>(p);
        }
        let leading_coeff = self.leading_coefficient_cloned();
        let u = self.monic();
        let n = u.coeffs.len();
        let mut factors: Vec<(Polynomial<F>, Multiplicity)> = Vec::new();
        let du = u.derivative();
        let g0 = u.gcd(&du);
        proof {
            lemma_divides_len::<F>(g0@, u@);
            lemma_pmonic::<F>(g0@);
            lemma_pmonic_gcd::<F>(g0@, u@, du@);
        }
        let mut r = g0.monic();
        let (f0, _rem) = u.div_rem(&r);
        let mut f = f0;
        let mut j = Multiplicity::one();
        proof {
            lemma_exact_division::<F>(u@, r@, f@, _rem@);
            lemma_yun_start::<F>(u@, r@, f@);
            lemma_trim::<F>(u.raw());
            assert(factor_values::<F>(factors@) =~= Seq::empty());
        }
        while !r.is_one()
            invariant
                p == self@,
                pok::<F>(p),
                p.len() > 0,
                u@ == pmonic::<F>(p),
                u@.len() <= n,
                distinguishes_up_to::<F>((u@.len() - 1) as nat),
                yun_state::<F>(u@, factor_values::<F>(factors@), r@, f@, j@),
            decreases r@.len(),
        {
            let ghost e = factor_values::<F>(factors@);
            let g1 = r.gcd(&f);
            proof {
                Self::law_view_member(&r);
                Self::law_view_member(&f);
                crate::factorization::lemma_monic::<F>(r@);
                lemma_divides_len::<F>(g1@, r@);
                lemma_pmonic::<F>(g1@);
                lemma_pmonic_gcd::<F>(g1@, r@, f@);
            }
            let g = g1.monic();
            let (s, _rs) = f.div_rem(&g);
            let (r2, _rr) = r.div_rem(&g);
            proof {
                lemma_exact_division::<F>(f@, g@, s@, _rs@);
                lemma_exact_division::<F>(r@, g@, r2@, _rr@);
                lemma_yun_step::<F>(u@, e, r@, f@, j@, g@, s@, r2@);
            }
            if !s.is_one() {
                factors.push((s, j));
                proof {
                    assert(factor_values::<F>(factors@) =~= e.push((s@, j@)));
                }
            }
            r = r2;
            f = g;
            j = j.saturating_add(1);
        }
        let ghost e = factor_values::<F>(factors@);
        proof {
            lemma_yun_done::<F>(p, u@, e, f@, j@);
        }
        if !f.is_one() {
            factors.push((f, j));
            proof {
                assert(factor_values::<F>(factors@) =~= e.push((f@, j@)));
            }
        }
        SquareFreeFactorization { leading_coeff, factors }
    }
}

} // verus!
