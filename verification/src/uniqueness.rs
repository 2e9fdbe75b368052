//! A polynomial over a field has only one square-free factorization.

use vstd::prelude::*;
use crate::derivative::lemma_pow_member;
use crate::divisibility::{
    irreducible, lemma_common_divisor_unit, lemma_divides_cancel, lemma_divides_witness,
    lemma_irreducible_factor, lemma_pow_len, lemma_prime, lemma_same_len_divides,
    lemma_squarefree_factor,
};
use crate::euclid::{coprime, lemma_divides_len, lemma_field_pmul_len, lemma_unit_const};
use crate::factorization::{
    expand, is_square_free_factorization, lemma_expand_member, lemma_square_divides_derivative,
    multiplicities_increase, pairwise_coprime, square_free_factor,
};
use crate::poly_ring::{
    lemma_pmul_assoc, lemma_pmul_comm, lemma_pmul_one, lemma_pmul_zero, lemma_pscale_one,
    lemma_pscale_pscale,
};
use crate::polynomial::{Polynomial, group_poly, lemma_pok_coeff, pderiv, plead, pmul, pok, pone};
use crate::traits::{
    Field, RingSpec, divides, group_ring_closed, lemma_divides_scale, lemma_divides_trans,
    lemma_factor_divides, lemma_pow_add, lemma_pow_first, lemma_pow_mul, lemma_recip, pow, recip,
};

verus! {

/// Whether `fl` is a list of monic, square-free factors that are not
/// constant, coprime to each other, with strictly increasing
/// multiplicities.
pub open spec fn square_free_factors<F: Field>(fl: Seq<(Seq<F::V>, nat)>) -> bool {
    &&& forall|i: int| 0 <= i < fl.len() ==> square_free_factor::<F>(#[trigger] fl[i])
    &&& multiplicities_increase::<F>(fl)
    &&& pairwise_coprime::<F>(fl)
}

/// Whether `p` divides `u` exactly `k` times.
pub open spec fn exact_power<F: Field>(p: Seq<F::V>, k: nat, u: Seq<F::V>) -> bool {
    &&& divides::<Polynomial<F>>(pow::<Polynomial<F>>(p, k), u)
    &&& !divides::<Polynomial<F>>(pow::<Polynomial<F>>(p, k + 1), u)
}

/// Whether every irreducible divisor of `s` divides `t`.
pub open spec fn primes_divide<F: Field>(s: Seq<F::V>, t: Seq<F::V>) -> bool {
    forall|q: Seq<F::V>|
        irreducible::<F>(q) && #[trigger] divides::<Polynomial<F>>(q, s) ==> divides::<
            Polynomial<F>,
        >(q, t)
}

/// Whether `x` is an entry of `fl`.
pub open spec fn occurs<F: Field>(fl: Seq<(Seq<F::V>, nat)>, x: (Seq<F::V>, nat)) -> bool {
    exists|j: int| 0 <= j < fl.len() && #[trigger] fl[j] == x
}

/// A polynomial that is not constant does not divide one.
pub proof fn lemma_not_divides_one<F: Field>(p: Seq<F::V>)
    requires
        pok::<F>(p),
        p.len() >= 2,
    ensures
        !divides::<Polynomial<F>>(p, pone::<F>()),
{
    broadcast use {group_ring_closed, group_poly};

    F::law_nontrivial();
    if divides::<Polynomial<F>>(p, pone::<F>()) {
        lemma_divides_len::<F>(p, pone::<F>());
    }
}

/// A polynomial coprime to its derivative is not divisible twice by a
/// polynomial that is not constant.
pub proof fn lemma_no_square<F: Field>(s: Seq<F::V>, p: Seq<F::V>, t: Seq<F::V>)
    requires
        pok::<F>(p),
        pok::<F>(t),
        p.len() >= 2,
        coprime::<F>(s, pderiv::<F>(s)),
        s == pmul::<F>(p, t),
    ensures
        !divides::<Polynomial<F>>(p, t),
{
    if divides::<Polynomial<F>>(p, t) {
        let w = lemma_divides_witness::<F>(p, t);
        lemma_pow_first::<Polynomial<F>>(p);
        assert(pow::<Polynomial<F>>(p, 2) == pmul::<F>(p, pow::<Polynomial<F>>(p, 1)));
        lemma_pmul_assoc::<F>(p, p, w);
        assert(<Polynomial<F> as RingSpec>::mul_v(pow::<Polynomial<F>>(p, 2), w) == s);
        lemma_square_divides_derivative::<F>(p, 2, s);
        lemma_common_divisor_unit::<F>(p, s, pderiv::<F>(s));
    }
}

/// An irreducible polynomial that divides a power divides its base.
pub proof fn lemma_prime_pow<F: Field>(p: Seq<F::V>, a: Seq<F::V>, n: nat)
    requires
        irreducible::<F>(p),
        pok::<F>(a),
        divides::<Polynomial<F>>(p, pow::<Polynomial<F>>(a, n)),
    ensures
        divides::<Polynomial<F>>(p, a),
    decreases n,
{
    if n == 0 {
        lemma_not_divides_one::<F>(p);
    } else {
        let q = pow::<Polynomial<F>>(a, (n - 1) as nat);
        lemma_pow_member::<F>(a, (n - 1) as nat);
        lemma_prime::<F>(p, a, q);
        if !divides::<Polynomial<F>>(p, a) {
            lemma_prime_pow::<F>(p, a, (n - 1) as nat);
        }
    }
}

/// A lower power divides a higher one.
pub proof fn lemma_pow_divides<F: Field>(p: Seq<F::V>, i: nat, j: nat)
    requires
        i <= j,
    ensures
        divides::<Polynomial<F>>(pow::<Polynomial<F>>(p, i), pow::<Polynomial<F>>(p, j)),
{
    let d = (j - i) as nat;
    lemma_pow_add::<Polynomial<F>>(p, i, d);
    lemma_pow_member::<F>(p, d);
    assert(<Polynomial<F> as RingSpec>::mul_v(
        pow::<Polynomial<F>>(p, i),
        pow::<Polynomial<F>>(p, d),
    ) == pow::<Polynomial<F>>(p, j));
}

/// The power of an irreducible polynomial times what it does not divide is
/// divided by it exactly as often as the power says.
pub proof fn lemma_exact_power<F: Field>(p: Seq<F::V>, k: nat, x: Seq<F::V>)
    requires
        irreducible::<F>(p),
        pok::<F>(x),
        !divides::<Polynomial<F>>(p, x),
    ensures
        exact_power::<F>(p, k, pmul::<F>(pow::<Polynomial<F>>(p, k), x)),
{
    let pk = pow::<Polynomial<F>>(p, k);
    lemma_pow_member::<F>(p, k);
    lemma_pow_len::<F>(p, k);
    lemma_factor_divides::<Polynomial<F>>(pk, x);
    assert(pow::<Polynomial<F>>(p, k + 1) == pmul::<F>(p, pk));
    lemma_pmul_comm::<F>(p, pk);
    if divides::<Polynomial<F>>(pow::<Polynomial<F>>(p, k + 1), pmul::<F>(pk, x)) {
        lemma_divides_cancel::<F>(pk, p, x);
    }
}

/// How often a polynomial divides another exactly is determined.
pub proof fn lemma_exact_power_unique<F: Field>(p: Seq<F::V>, a: nat, b: nat, u: Seq<F::V>)
    requires
        exact_power::<F>(p, a, u),
        exact_power::<F>(p, b, u),
    ensures
        a == b,
{
    if a < b {
        lemma_pow_divides::<F>(p, a + 1, b);
        lemma_divides_trans::<Polynomial<F>>(
            pow::<Polynomial<F>>(p, a + 1),
            pow::<Polynomial<F>>(p, b),
            u,
        );
    }
    if b < a {
        lemma_pow_divides::<F>(p, b + 1, a);
        lemma_divides_trans::<Polynomial<F>>(
            pow::<Polynomial<F>>(p, b + 1),
            pow::<Polynomial<F>>(p, a),
            u,
        );
    }
}

/// The product of the first `n` powers of a list.
pub proof fn lemma_expand_take<F: Field>(fl: Seq<(Seq<F::V>, nat)>, n: nat)
    requires
        0 < n <= fl.len(),
    ensures
        expand::<F>(fl.take(n as int)) == pmul::<F>(
            expand::<F>(fl.take(n - 1)),
            pow::<Polynomial<F>>(fl[n - 1].0, fl[n - 1].1),
        ),
{
    assert(fl.take(n as int).drop_last() =~= fl.take(n - 1));
    assert(fl.take(n as int).last() == fl[n - 1]);
}

/// An irreducible divisor of the factor at `i` divides no power of another
/// factor.
proof fn lemma_other_power<F: Field>(fl: Seq<(Seq<F::V>, nat)>, i: int, k: int, p: Seq<F::V>)
    requires
        square_free_factors::<F>(fl),
        0 <= i < fl.len(),
        0 <= k < fl.len(),
        i != k,
        irreducible::<F>(p),
        divides::<Polynomial<F>>(p, fl[i].0),
    ensures
        pok::<F>(pow::<Polynomial<F>>(fl[k].0, fl[k].1)),
        !divides::<Polynomial<F>>(p, pow::<Polynomial<F>>(fl[k].0, fl[k].1)),
{
    assert(square_free_factor::<F>(fl[k]));
    lemma_pow_member::<F>(fl[k].0, fl[k].1);
    if divides::<Polynomial<F>>(p, pow::<Polynomial<F>>(fl[k].0, fl[k].1)) {
        lemma_prime_pow::<F>(p, fl[k].0, fl[k].1);
        assert(coprime::<F>(fl[i].0, fl[k].0));
        lemma_common_divisor_unit::<F>(p, fl[i].0, fl[k].0);
    }
}

/// The product of the first `n` powers, with the power of the factor at
/// `i` set apart: what is left is not divided by an irreducible divisor of
/// that factor.
proof fn lemma_prefix_power<F: Field>(
    fl: Seq<(Seq<F::V>, nat)>,
    i: int,
    n: nat,
    p: Seq<F::V>,
) -> (r: Seq<F::V>)
    requires
        square_free_factors::<F>(fl),
        0 <= i < fl.len(),
        n <= fl.len(),
        irreducible::<F>(p),
        divides::<Polynomial<F>>(p, fl[i].0),
    ensures
        pok::<F>(r),
        !divides::<Polynomial<F>>(p, r),
        n <= i ==> r == expand::<F>(fl.take(n as int)),
        n > i ==> expand::<F>(fl.take(n as int)) == pmul::<F>(
            pow::<Polynomial<F>>(fl[i].0, fl[i].1),
            r,
        ),
    decreases n,
{
    broadcast use {group_ring_closed, group_poly};

    if n == 0 {
        lemma_not_divides_one::<F>(p);
        assert(fl.take(0) =~= Seq::empty());
        lemma_expand_member::<F>(fl.take(0));
        pone::<F>()
    } else {
        let k = n - 1;
        let r0 = lemma_prefix_power::<F>(fl, i, k as nat, p);
        let q = pow::<Polynomial<F>>(fl[k].0, fl[k].1);
        lemma_expand_take::<F>(fl, n);
        lemma_pow_member::<F>(fl[k].0, fl[k].1);
        if k == i {
            lemma_pmul_comm::<F>(r0, q);
            r0
        } else {
            lemma_other_power::<F>(fl, i, k, p);
            if divides::<Polynomial<F>>(p, pmul::<F>(r0, q)) {
                lemma_prime::<F>(p, r0, q);
            }
            if k > i {
                lemma_pmul_assoc::<F>(pow::<Polynomial<F>>(fl[i].0, fl[i].1), r0, q);
            }
            lemma_expand_member::<F>(fl.take(n as int));
            pmul::<F>(r0, q)
        }
    }
}

/// An irreducible divisor of a factor divides the product of the powers
/// exactly as often as the multiplicity of the factor says.
pub proof fn lemma_factor_exact_power<F: Field>(fl: Seq<(Seq<F::V>, nat)>, i: int, p: Seq<F::V>)
    requires
        square_free_factors::<F>(fl),
        0 <= i < fl.len(),
        irreducible::<F>(p),
        divides::<Polynomial<F>>(p, fl[i].0),
    ensures
        exact_power::<F>(p, fl[i].1, expand::<F>(fl)),
        divides::<Polynomial<F>>(p, expand::<F>(fl)),
{
    let s = fl[i].0;
    let m = fl[i].1;
    assert(square_free_factor::<F>(fl[i]));
    let r = lemma_prefix_power::<F>(fl, i, fl.len(), p);
    assert(fl.take(fl.len() as int) =~= fl);
    let t = lemma_divides_witness::<F>(p, s);
    lemma_no_square::<F>(s, p, t);
    lemma_pow_mul::<Polynomial<F>>(p, t, m);
    let pm = pow::<Polynomial<F>>(p, m);
    let tm = pow::<Polynomial<F>>(t, m);
    lemma_pow_member::<F>(t, m);
    lemma_pow_member::<F>(p, m);
    if divides::<Polynomial<F>>(p, tm) {
        lemma_prime_pow::<F>(p, t, m);
    }
    let x = pmul::<F>(tm, r);
    if divides::<Polynomial<F>>(p, x) {
        lemma_prime::<F>(p, tm, r);
    }
    lemma_pmul_assoc::<F>(pm, tm, r);
    assert(pok::<F>(x)) by {
        broadcast use group_poly;

    }
    lemma_exact_power::<F>(p, m, x);
    // p divides p^m as m >= 1
    lemma_pow_divides::<F>(p, 1, m);
    lemma_pow_first::<Polynomial<F>>(p);
    lemma_divides_trans::<Polynomial<F>>(p, pm, expand::<F>(fl));
}

/// An irreducible divisor of the product of the first `n` powers divides
/// one of the first `n` factors.
pub proof fn lemma_prime_in_product<F: Field>(
    fl: Seq<(Seq<F::V>, nat)>,
    n: nat,
    p: Seq<F::V>,
) -> (j: int)
    requires
        square_free_factors::<F>(fl),
        n <= fl.len(),
        irreducible::<F>(p),
        divides::<Polynomial<F>>(p, expand::<F>(fl.take(n as int))),
    ensures
        0 <= j < n,
        divides::<Polynomial<F>>(p, fl[j].0),
    decreases n,
{
    if n == 0 {
        assert(fl.take(0) =~= Seq::empty());
        lemma_not_divides_one::<F>(p);
        0
    } else {
        let k = n - 1;
        let q = pow::<Polynomial<F>>(fl[k].0, fl[k].1);
        assert(square_free_factor::<F>(fl[k]));
        lemma_expand_take::<F>(fl, n);
        lemma_expand_member::<F>(fl.take(k));
        lemma_pow_member::<F>(fl[k].0, fl[k].1);
        lemma_prime::<F>(p, expand::<F>(fl.take(k)), q);
        if divides::<Polynomial<F>>(p, expand::<F>(fl.take(k))) {
            lemma_prime_in_product::<F>(fl, k as nat, p)
        } else {
            lemma_prime_pow::<F>(p, fl[k].0, fl[k].1);
            k
        }
    }
}

/// A polynomial coprime to its derivative divides every polynomial that
/// all of its irreducible divisors divide.
pub proof fn lemma_squarefree_divides<F: Field>(s: Seq<F::V>, s2: Seq<F::V>)
    requires
        pok::<F>(s),
        s.len() >= 1,
        coprime::<F>(s, pderiv::<F>(s)),
        pok::<F>(s2),
        primes_divide::<F>(s, s2),
    ensures
        divides::<Polynomial<F>>(s, s2),
    decreases s.len(),
{
    if s.len() == 1 {
        lemma_unit_const::<F>(s);
        lemma_recip::<Polynomial<F>>(s);
        let si = recip::<Polynomial<F>>(s);
        lemma_pmul_assoc::<F>(s, si, s2);
        lemma_pmul_one::<F>(s2);
        assert(pok::<F>(pmul::<F>(si, s2))) by {
            broadcast use group_poly;

        }
        assert(<Polynomial<F> as RingSpec>::mul_v(s, pmul::<F>(si, s2)) == s2);
    } else {
        let p = lemma_irreducible_factor::<F>(s);
        let t = lemma_divides_witness::<F>(p, s);
        lemma_no_square::<F>(s, p, t);
        assert(divides::<Polynomial<F>>(p, s2));
        let t2 = lemma_divides_witness::<F>(p, s2);
        lemma_pmul_comm::<F>(p, t);
        lemma_squarefree_factor::<F>(s, t, p);
        if t.len() == 0 {
            lemma_pmul_zero::<F>(p, t);
        }
        lemma_field_pmul_len::<F>(p, t);
        lemma_factor_divides::<Polynomial<F>>(p, t);
        assert forall|q: Seq<F::V>|
            irreducible::<F>(q) && #[trigger] divides::<Polynomial<F>>(
                q,
                t,
            ) implies divides::<Polynomial<F>>(q, t2) by {
            lemma_divides_trans::<Polynomial<F>>(q, t, s);
            assert(divides::<Polynomial<F>>(q, s2));
            lemma_prime::<F>(q, p, t2);
            if divides::<Polynomial<F>>(q, p) {
                lemma_same_len_divides::<F>(q, p);
                lemma_divides_trans::<Polynomial<F>>(p, q, t);
            }
        }
        lemma_squarefree_divides::<F>(t, t2);
        lemma_divides_scale::<Polynomial<F>>(p, t, t2);
    }
}

/// Monic polynomials that divide each other are equal.
pub proof fn lemma_monic_associates<F: Field>(a: Seq<F::V>, b: Seq<F::V>)
    requires
        pok::<F>(a),
        pok::<F>(b),
        plead::<F>(a) == F::one_v(),
        plead::<F>(b) == F::one_v(),
        divides::<Polynomial<F>>(a, b),
        divides::<Polynomial<F>>(b, a),
    ensures
        a == b,
{
    broadcast use {group_ring_closed, group_poly};

    F::law_nontrivial();
    crate::factorization::lemma_monic::<F>(a);
    crate::factorization::lemma_monic::<F>(b);
    lemma_divides_len::<F>(a, b);
    lemma_divides_len::<F>(b, a);
    let q = lemma_divides_witness::<F>(a, b);
    if q.len() == 0 {
        lemma_pmul_zero::<F>(a, q);
        assert(false);
    }
    lemma_field_pmul_len::<F>(a, q);
    lemma_pok_coeff::<F>(q, 0);
    crate::traits::lemma_one_mul::<F>(q[0]);
    assert(q =~= pone::<F>());
    lemma_pmul_one::<F>(a);
}

/// In two lists with the same product, a factor divides the factor of the
/// same multiplicity.
proof fn lemma_divides_match<F: Field>(
    fl: Seq<(Seq<F::V>, nat)>,
    i: int,
    fl2: Seq<(Seq<F::V>, nat)>,
    j: int,
)
    requires
        square_free_factors::<F>(fl),
        square_free_factors::<F>(fl2),
        expand::<F>(fl) == expand::<F>(fl2),
        0 <= i < fl.len(),
        0 <= j < fl2.len(),
        fl[i].1 == fl2[j].1,
    ensures
        divides::<Polynomial<F>>(fl[i].0, fl2[j].0),
{
    assert(square_free_factor::<F>(fl[i]));
    assert(square_free_factor::<F>(fl2[j]));
    assert(fl2.take(fl2.len() as int) =~= fl2);
    assert forall|q: Seq<F::V>|
        irreducible::<F>(q) && #[trigger] divides::<Polynomial<F>>(q, fl[i].0) implies divides::<
        Polynomial<F>,
    >(q, fl2[j].0) by {
        lemma_factor_exact_power::<F>(fl, i, q);
        let k = lemma_prime_in_product::<F>(fl2, fl2.len(), q);
        lemma_factor_exact_power::<F>(fl2, k, q);
        lemma_exact_power_unique::<F>(q, fl[i].1, fl2[k].1, expand::<F>(fl));
        if k < j {
            assert(fl2[k].1 < fl2[j].1);
        }
        if j < k {
            assert(fl2[j].1 < fl2[k].1);
        }
    }
    lemma_squarefree_divides::<F>(fl[i].0, fl2[j].0);
}

/// In two lists with the same product, every entry of one is an entry of
/// the other.
pub proof fn lemma_occurs<F: Field>(
    fl: Seq<(Seq<F::V>, nat)>,
    fl2: Seq<(Seq<F::V>, nat)>,
    i: int,
) -> (j: int)
    requires
        square_free_factors::<F>(fl),
        square_free_factors::<F>(fl2),
        expand::<F>(fl) == expand::<F>(fl2),
        0 <= i < fl.len(),
    ensures
        0 <= j < fl2.len(),
        fl2[j] == fl[i],
{
    assert(square_free_factor::<F>(fl[i]));
    let p = lemma_irreducible_factor::<F>(fl[i].0);
    lemma_factor_exact_power::<F>(fl, i, p);
    assert(fl2.take(fl2.len() as int) =~= fl2);
    let j = lemma_prime_in_product::<F>(fl2, fl2.len(), p);
    lemma_factor_exact_power::<F>(fl2, j, p);
    lemma_exact_power_unique::<F>(p, fl[i].1, fl2[j].1, expand::<F>(fl));
    assert(square_free_factor::<F>(fl2[j]));
    lemma_divides_match::<F>(fl, i, fl2, j);
    lemma_divides_match::<F>(fl2, j, fl, i);
    lemma_monic_associates::<F>(fl[i].0, fl2[j].0);
    j
}

/// Lists with strictly increasing multiplicities agree on their first `k`
/// entries, if every entry of one is an entry of the other.
proof fn lemma_prefix_equal<F: Field>(
    fl: Seq<(Seq<F::V>, nat)>,
    fl2: Seq<(Seq<F::V>, nat)>,
    k: nat,
)
    requires
        multiplicities_increase::<F>(fl),
        multiplicities_increase::<F>(fl2),
        forall|i: int| 0 <= i < fl.len() ==> occurs::<F>(fl2, #[trigger] fl[i]),
        forall|i: int| 0 <= i < fl2.len() ==> occurs::<F>(fl, #[trigger] fl2[i]),
        k <= fl.len(),
    ensures
        k <= fl2.len(),
        forall|i: int| 0 <= i < k ==> #[trigger] fl[i] == fl2[i],
    decreases k,
{
    if k > 0 {
        let i = k - 1;
        lemma_prefix_equal::<F>(fl, fl2, i as nat);
        assert(occurs::<F>(fl2, fl[i]));
        let j = choose|j: int| 0 <= j < fl2.len() && #[trigger] fl2[j] == fl[i];
        if j < i {
            assert(fl[j] == fl2[j]);
            assert(fl[j].1 < fl[i].1);
        }
        assert(occurs::<F>(fl, fl2[i]));
        let h = choose|h: int| 0 <= h < fl.len() && #[trigger] fl[h] == fl2[i];
        if h < i {
            assert(fl[h] == fl2[h]);
            assert(fl2[h].1 < fl2[i].1);
        }
        if j > i {
            assert(fl2[i].1 < fl2[j].1);
            if h > i {
                assert(fl[i].1 < fl[h].1);
            }
        }
        assert(fl[i] == fl2[i]);
    }
}

/// The square-free factorization is unique: of a polynomial that is not
/// zero, any two have the same leading coefficient and the same factors
/// with the same multiplicities, in the same order.
pub proof fn lemma_factorization_unique<F: Field>(
    p: Seq<F::V>,
    lc: F::V,
    fl: Seq<(Seq<F::V>, nat)>,
    lc2: F::V,
    fl2: Seq<(Seq<F::V>, nat)>,
)
    requires
        pok::<F>(p),
        p.len() > 0,
        is_square_free_factorization::<F>(p, lc, fl),
        is_square_free_factorization::<F>(p, lc2, fl2),
    ensures
        lc == lc2,
        fl == fl2,
{
    let u = expand::<F>(fl);
    let u2 = expand::<F>(fl2);
    lemma_expand_member::<F>(fl);
    lemma_expand_member::<F>(fl2);
    lemma_pok_coeff::<F>(p, p.len() - 1);
    F::law_inverse(lc);
    lemma_recip::<F>(lc);
    let inv = recip::<F>(lc);
    lemma_pscale_pscale::<F>(inv, lc, u);
    lemma_pscale_pscale::<F>(inv, lc, u2);
    lemma_pscale_one::<F>(u);
    lemma_pscale_one::<F>(u2);
    assert(u == u2);
    assert forall|i: int| 0 <= i < fl.len() implies occurs::<F>(fl2, #[trigger] fl[i]) by {
        let j = lemma_occurs::<F>(fl, fl2, i);
        assert(fl2[j] == fl[i]);
    }
    assert forall|i: int| 0 <= i < fl2.len() implies occurs::<F>(fl, #[trigger] fl2[i]) by {
        let j = lemma_occurs::<F>(fl2, fl, i);
        assert(fl[j] == fl2[i]);
    }
    lemma_prefix_equal::<F>(fl, fl2, fl.len());
    lemma_prefix_equal::<F>(fl2, fl, fl2.len());
    assert(fl =~= fl2);
}

} // verus!
