use math2::factorization::SquareFreeFactorization;
use math2::integer::Integer;
use math2::polynomial::Polynomial;
use math2::rational::Rational;
use math2::traits::{CheckedInv, CommutativeRing};

fn q(n: i64) -> Rational {
    Rational::from_i64s(n, 1)
}

fn poly(coeffs: &[i64]) -> Polynomial<Rational> {
    Polynomial::new(coeffs.iter().map(|&c| q(c)).collect())
}

fn same_factors(got: &SquareFreeFactorization<Rational>, lc: Rational, want: &[(&[i64], usize)]) {
    assert!(got.leading_coeff.equals(&lc));
    assert_eq!(got.factors.len(), want.len());
    for (i, (coeffs, mult)) in want.iter().enumerate() {
        assert!(got.factors[i].0.equals(&poly(coeffs)));
        assert_eq!(got.factors[i].1.get(), *mult);
    }
}

#[test]
fn square_of_linear_factor() {
    // x^2 - 2x + 1 == (x - 1)^2
    let r = poly(&[1, -2, 1]).square_free_factorization();
    same_factors(&r, q(1), &[(&[-1, 1], 2)]);
}

#[test]
fn distinct_roots_give_one_factor() {
    // x^3 - x has three distinct roots
    let r = poly(&[0, -1, 0, 1]).square_free_factorization();
    same_factors(&r, q(1), &[(&[0, -1, 0, 1], 1)]);
}

#[test]
fn zero_polynomial_has_no_factors() {
    let r = poly(&[]).square_free_factorization();
    same_factors(&r, q(0), &[]);
    let r = poly(&[0, 0, 0]).square_free_factorization();
    same_factors(&r, q(0), &[]);
}

#[test]
fn constant_has_no_factors() {
    let r = poly(&[5]).square_free_factorization();
    same_factors(&r, q(5), &[]);
}

#[test]
fn mixed_multiplicities() {
    // 3 (x + 2) (x - 1)^2 (x + 1)^3
    let p = poly(&[2, 1])
        .mul(&poly(&[-1, 1]))
        .mul(&poly(&[-1, 1]))
        .mul(&poly(&[1, 1]))
        .mul(&poly(&[1, 1]))
        .mul(&poly(&[1, 1]))
        .scalar_mul(&q(3));
    let r = p.duplicate().square_free_factorization();
    same_factors(&r, q(3), &[(&[2, 1], 1), (&[-1, 1], 2), (&[1, 1], 3)]);
    // the product of the powers gives the polynomial back
    let mut back = Polynomial::constant(r.leading_coeff.duplicate());
    for (f, m) in &r.factors {
        for _ in 0..m.get() {
            back = back.mul(f);
        }
    }
    assert!(back.equals(&p));
}

#[test]
fn gap_in_multiplicities() {
    // (x^2 + 1) (x - 3)^4, with a rational leading coefficient
    let mut p = poly(&[1, 0, 1]);
    for _ in 0..4 {
        p = p.mul(&poly(&[-3, 1]));
    }
    let p = p.scalar_mul(&Rational::from_i64s(-2, 7));
    let r = p.square_free_factorization();
    same_factors(&r, Rational::from_i64s(-2, 7), &[(&[1, 0, 1], 1), (&[-3, 1], 4)]);
}

#[test]
fn factor_of_factor_is_itself() {
    let r = poly(&[2, 1])
        .mul(&poly(&[-1, 1]))
        .mul(&poly(&[-1, 1]))
        .square_free_factorization();
    for (f, _) in &r.factors {
        let again = f.duplicate().square_free_factorization();
        assert!(again.leading_coeff.is_one());
        assert_eq!(again.factors.len(), 1);
        assert!(again.factors[0].0.equals(f));
        assert_eq!(again.factors[0].1.get(), 1);
    }
}

#[test]
fn division_with_remainder() {
    // (x^3 + 1) / (x + 1) == x^2 - x + 1
    let (quot, rem) = poly(&[1, 0, 0, 1]).div_rem(&poly(&[1, 1]));
    assert!(quot.equals(&poly(&[1, -1, 1])));
    assert!(rem.is_zero());
    // (x^2 + 1) / (2x) == x/2, remainder 1
    let (quot, rem) = poly(&[1, 0, 1]).div_rem(&poly(&[0, 2]));
    assert!(quot.equals(&Polynomial::new(vec![q(0), Rational::from_i64s(1, 2)])));
    assert!(rem.equals(&poly(&[1])));
}

#[test]
fn checked_inversion() {
    assert!(q(0).checked_inv().is_none());
    let inv = Rational::from_i64s(2, 3).checked_inv().unwrap();
    assert!(inv.equals(&Rational::from_i64s(3, 2)));
    assert_eq!(inv.numer().to_i64(), Some(3));
    assert_eq!(inv.denom().to_i64(), Some(2));
}

#[test]
fn integer_arithmetic() {
    let a = Integer::from_i64(-7);
    let b = Integer::from_i64(5);
    assert_eq!(a.add(&b).to_i64(), Some(-2));
    assert_eq!(a.mul(&b).to_i64(), Some(-35));
    assert_eq!(a.neg().to_i64(), Some(7));
    assert_eq!(a.sub(&b).to_i64(), Some(-12));
    assert!(Integer::from_i64(0).is_zero());
    assert!(!Integer::from_i64(3).is_zero());
}

#[test]
fn factors_are_square_free_and_coprime() {
    // 5 x (x - 2)^2 (x^2 + 1)^2 (x + 3)^5
    let mut p = poly(&[0, 1]).scalar_mul(&q(5));
    for _ in 0..2 {
        p = p.mul(&poly(&[-2, 1])).mul(&poly(&[1, 0, 1]));
    }
    for _ in 0..5 {
        p = p.mul(&poly(&[3, 1]));
    }
    let r = p.square_free_factorization();
    same_factors(&r, q(5), &[(&[0, 1], 1), (&[-2, 1, -2, 1], 2), (&[3, 1], 5)]);
    for (i, (s, m)) in r.factors.iter().enumerate() {
        assert!(s.leading_coefficient_cloned().is_one());
        assert!(s.degree().unwrap() >= 1);
        assert_eq!(s.gcd(&s.derivative()).degree(), Some(0));
        for (t, n) in &r.factors[i + 1..] {
            assert_eq!(s.gcd(t).degree(), Some(0));
            assert!(m.get() < n.get());
        }
    }
}

#[test]
fn factorizations_compare_by_value() {
    let a = poly(&[1, -2, 1]).square_free_factorization();
    let b = poly(&[1, -2, 1, 0]).square_free_factorization();
    let c = poly(&[2, -4, 2]).square_free_factorization();
    let d = poly(&[-1, 1]).square_free_factorization();
    assert!(a.equals(&b));
    assert!(a.equals(&a.duplicate()));
    assert!(!a.equals(&c));
    assert!(!a.equals(&d));
    assert!(!d.equals(&poly(&[3]).square_free_factorization()));
}
