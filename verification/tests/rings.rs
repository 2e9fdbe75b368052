use math2::factorization::{integer_divisors, lagrange_interpolation, Multiplicity};
use math2::integer::{i64_unit_and_normal, Integer};
use math2::polynomial::Polynomial;
use math2::rational::Rational;
use math2::traits::{CheckedInv, CoefficientDomain, CommutativeRing, Field, FromUsize};

fn z(n: i64) -> Integer {
    Integer::from_i64(n)
}

fn r(n: i64, d: i64) -> Rational {
    Rational::from_i64s(n, d)
}

fn zpoly(coeffs: &[i64]) -> Polynomial<Integer> {
    Polynomial::new(coeffs.iter().map(|&c| z(c)).collect())
}

fn rpoly(coeffs: &[i64]) -> Polynomial<Rational> {
    Polynomial::new(coeffs.iter().map(|&c| r(c, 1)).collect())
}

#[test]
fn integer_from_and_to_machine_integers() {
    assert_eq!(z(0).to_i64(), Some(0));
    assert_eq!(z(-129).to_i64(), Some(-129));
    assert_eq!(z(i64::MIN).to_i64(), Some(i64::MIN));
    assert_eq!(z(i64::MAX).add(&z(1)).to_i64(), None);
    assert_eq!(Integer::from_usize(300).to_i64(), Some(300));
    // bytes are two's complement, least significant first
    assert_eq!(Integer { bytes: vec![0x2c, 0x01] }.to_i64(), Some(300));
    assert_eq!(Integer { bytes: vec![0xff] }.to_i64(), Some(-1));
    assert_eq!(Integer { bytes: vec![] }.to_i64(), Some(0));
}

#[test]
fn integer_ring_operations() {
    assert_eq!(z(6).add(&z(-10)).to_i64(), Some(-4));
    assert_eq!(z(6).mul(&z(-10)).to_i64(), Some(-60));
    assert_eq!(z(6).neg().to_i64(), Some(-6));
    assert_eq!(z(6).sub(&z(10)).to_i64(), Some(-4));
    assert_eq!(Integer::zero().to_i64(), Some(0));
    assert_eq!(Integer::one().to_i64(), Some(1));
    assert_eq!(z(7).duplicate().to_i64(), Some(7));
    // beyond 64 bits
    let big = z(i64::MAX).mul(&z(i64::MAX));
    assert!(big.equals(&z(i64::MAX).mul(&z(i64::MAX))));
    assert!(!big.equals(&z(i64::MAX)));
    assert_eq!(big.to_i64(), None);
}

#[test]
fn integer_predicates() {
    assert!(z(0).is_zero());
    assert!(!z(1).is_zero());
    assert!(z(1).is_one());
    assert!(!z(-1).is_one());
    assert!(z(-3).is_negative());
    assert!(!z(0).is_negative());
    assert!(z(5).equals(&z(5)));
    assert!(!z(5).equals(&z(-5)));
    assert!(z(0).is_nilpotent());
    assert!(!z(2).is_nilpotent());
    assert_eq!(z(-5).abs().to_i64(), Some(5));
    assert_eq!(z(5).abs().to_i64(), Some(5));
}

#[test]
fn integer_units() {
    let u = z(-1).assert_is_unit();
    let inv = Integer::invert(&u);
    assert_eq!(inv.get().mul(u.get()).to_i64(), Some(1));
    assert_eq!(inv.into_inner().to_i64(), Some(-1));
    let u = z(1).assert_is_unit();
    assert_eq!(Integer::invert(&u).into_inner().to_i64(), Some(1));
}

#[test]
fn integer_unit_and_normal() {
    let (u, n) = z(-6).unit_and_normal();
    assert_eq!(u.into_inner().to_i64(), Some(-1));
    assert_eq!(n.to_i64(), Some(6));
    let (u, n) = z(6).unit_and_normal();
    assert_eq!(u.into_inner().to_i64(), Some(1));
    assert_eq!(n.to_i64(), Some(6));
    let (u, n) = z(0).unit_and_normal();
    assert_eq!(u.into_inner().to_i64(), Some(1));
    assert_eq!(n.to_i64(), Some(0));
}

#[test]
fn integer_gcd() {
    assert_eq!(z(12).gcd(&z(18)).to_i64(), Some(6));
    assert_eq!(z(-12).gcd(&z(18)).to_i64(), Some(6));
    assert_eq!(z(0).gcd(&z(-7)).to_i64(), Some(7));
    assert_eq!(z(5).gcd(&z(7)).to_i64(), Some(1));
    assert_eq!(z(18).gcd(&z(-12)).to_i64(), Some(6));
    assert_eq!(z(0).gcd(&z(0)).to_i64(), Some(0));
}

#[test]
fn machine_integer_unit_and_normal() {
    assert_eq!(i64_unit_and_normal(-6), (-1, 6));
    assert_eq!(i64_unit_and_normal(6), (1, 6));
    assert_eq!(i64_unit_and_normal(0), (1, 0));
    assert_eq!(i64_unit_and_normal(i64::MAX), (1, i64::MAX));
    assert_eq!(i64_unit_and_normal(i64::MIN + 1), (-1, i64::MAX));
}

#[test]
fn rational_is_kept_in_lowest_terms() {
    let q = r(2, 4);
    assert_eq!(q.numer().to_i64(), Some(1));
    assert_eq!(q.denom().to_i64(), Some(2));
    let q = r(3, -6);
    assert_eq!(q.numer().to_i64(), Some(-1));
    assert_eq!(q.denom().to_i64(), Some(2));
    let q = Rational::from_integer(z(-4));
    assert_eq!(q.numer().to_i64(), Some(-4));
    assert_eq!(q.denom().to_i64(), Some(1));
    let q = Rational::new(z(10), z(4));
    assert!(q.equals(&r(5, 2)));
    let q = Rational::from_usize(9);
    assert!(q.equals(&r(9, 1)));
    let (n, d) = r(-12, -18).parts();
    assert_eq!((n.to_i64(), d.to_i64()), (Some(2), Some(3)));
    let (n, d) = r(0, -5).parts();
    assert_eq!((n.to_i64(), d.to_i64()), (Some(0), Some(1)));
}

#[test]
fn rational_field_operations() {
    assert!(r(1, 2).add(&r(1, 3)).equals(&r(5, 6)));
    assert!(r(1, 2).mul(&r(2, 3)).equals(&r(1, 3)));
    assert!(r(1, 2).neg().equals(&r(-1, 2)));
    assert!(r(1, 2).sub(&r(1, 3)).equals(&r(1, 6)));
    assert!(Rational::zero().equals(&r(0, 5)));
    assert!(Rational::one().equals(&r(7, 7)));
    assert!(r(3, 4).duplicate().equals(&r(3, 4)));
    assert!(r(1, 2).div(r(1, 4)).unwrap().equals(&r(2, 1)));
    assert!(r(1, 2).div(r(0, 1)).is_none());
    assert!(r(-2, 3).checked_inv().unwrap().equals(&r(-3, 2)));
}

#[test]
fn rational_predicates() {
    assert!(r(0, 3).is_zero());
    assert!(!r(1, 3).is_zero());
    assert!(r(3, 3).is_one());
    assert!(!r(1, 3).is_one());
    assert!(r(-1, 3).is_negative());
    assert!(r(1, -3).is_negative());
    assert!(!r(1, 3).is_negative());
    assert!(r(0, 1).is_nilpotent());
    assert!(!r(1, 9).is_nilpotent());
    assert!(r(-1, 3).abs().equals(&r(1, 3)));
    assert!(!r(1, 3).equals(&r(1, 2)));
}

#[test]
fn rational_units() {
    let u = r(2, 3).assert_is_unit();
    let inv = Rational::invert(&u);
    assert!(inv.get().equals(&r(3, 2)));
    let (u, n) = r(2, 3).unit_and_normal();
    assert!(u.into_inner().equals(&r(2, 3)));
    assert!(n.is_one());
    let (u, n) = r(0, 1).unit_and_normal();
    assert!(u.into_inner().is_one());
    assert!(n.is_zero());
    assert!(r(2, 3).gcd(&r(0, 1)).is_one());
}

#[test]
fn polynomial_shape() {
    let p = zpoly(&[1, 2, 0, 0]);
    assert_eq!(p.coeffs.len(), 2);
    assert_eq!(p.degree(), Some(1));
    assert_eq!(p.leading_coefficient_cloned().to_i64(), Some(2));
    assert_eq!(p.coefficient(0).to_i64(), Some(1));
    assert_eq!(p.coefficient(5).to_i64(), Some(0));
    assert_eq!(zpoly(&[0, 0]).degree(), None);
    assert!(zpoly(&[0, 0]).is_zero());
    assert!(zpoly(&[]).equals(&zpoly(&[0])));
    assert!(zpoly(&[1]).is_one());
    assert!(!zpoly(&[1, 1]).is_one());
    assert!(Polynomial::<Integer>::zero().is_zero());
    assert!(Polynomial::<Integer>::one().is_one());
    assert!(Polynomial::constant(z(4)).equals(&zpoly(&[4])));
    // zeros stored at the end change nothing
    let raw = Polynomial { coeffs: vec![z(1), z(2), z(0)] };
    assert!(raw.equals(&p));
    assert_eq!(raw.degree(), Some(1));
    assert_eq!(raw.normalize().coeffs.len(), 2);
}

#[test]
fn polynomial_arithmetic() {
    let a = zpoly(&[1, 2, 3]);
    let b = zpoly(&[4, 0, -3]);
    assert!(a.add(&b).equals(&zpoly(&[5, 2])));
    assert!(a.sub(&b).equals(&zpoly(&[-3, 2, 6])));
    assert!(a.neg().equals(&zpoly(&[-1, -2, -3])));
    assert!(a.scalar_mul(&z(-2)).equals(&zpoly(&[-2, -4, -6])));
    assert!(a.scalar_mul(&z(0)).is_zero());
    assert!(a.shift(2).equals(&zpoly(&[0, 0, 1, 2, 3])));
    assert!(a.mul(&b).equals(&zpoly(&[4, 8, 9, -6, -9])));
    assert!(a.mul(&zpoly(&[])).is_zero());
    assert!(a.duplicate().equals(&a));
    assert!(zpoly(&[0, -1, 0, 1]).derivative().equals(&zpoly(&[-1, 0, 3])));
    assert!(zpoly(&[7]).derivative().is_zero());
    assert_eq!(a.eval(&z(2)).to_i64(), Some(17));
    assert_eq!(zpoly(&[]).eval(&z(2)).to_i64(), Some(0));
}

#[test]
fn polynomial_gcd_and_monic() {
    // gcd(x^2 - 1, x^2 - 2x + 1) by Euclid's algorithm is 2x - 2
    let g = rpoly(&[-1, 0, 1]).gcd(&rpoly(&[1, -2, 1]));
    assert!(g.equals(&rpoly(&[-2, 2])));
    assert!(g.monic().equals(&rpoly(&[-1, 1])));
    assert!(rpoly(&[3, 6]).gcd(&rpoly(&[])).equals(&rpoly(&[3, 6])));
    assert!(rpoly(&[]).gcd(&rpoly(&[0])).is_zero());
    assert!(rpoly(&[]).monic().is_zero());
}

#[test]
fn polynomial_units_over_a_domain() {
    let (u, n) = zpoly(&[4, -2]).unit_and_normal();
    assert!(u.into_inner().equals(&zpoly(&[-1])));
    assert!(n.equals(&zpoly(&[-4, 2])));
    let (u, n) = rpoly(&[4, 2]).unit_and_normal();
    assert!(u.into_inner().equals(&rpoly(&[2])));
    assert!(n.equals(&rpoly(&[2, 1])));
    let (u, n) = zpoly(&[]).unit_and_normal();
    assert!(u.into_inner().is_one());
    assert!(n.is_zero());
    let unit = rpoly(&[4]).assert_is_unit();
    let inv = Polynomial::invert(&unit);
    assert!(inv.into_inner().equals(&Polynomial::constant(r(1, 4))));
    assert!(zpoly(&[]).is_nilpotent());
    assert!(!zpoly(&[0, 1]).is_nilpotent());
}

#[test]
fn polynomials_over_polynomials() {
    // (y + x) * (y - x) == y^2 - x^2, with coefficients in x
    let x = rpoly(&[0, 1]);
    let a = Polynomial::new(vec![x.duplicate(), rpoly(&[1])]);
    let b = Polynomial::new(vec![x.neg(), rpoly(&[1])]);
    let want = Polynomial::new(vec![rpoly(&[0, 0, -1]), rpoly(&[]), rpoly(&[1])]);
    assert!(a.mul(&b).equals(&want));
    assert!(CommutativeRing::add(&a, &b).equals(&Polynomial::new(vec![rpoly(&[]), rpoly(&[2])])));
    let g = CoefficientDomain::gcd(&rpoly(&[-1, 0, 1]), &rpoly(&[-1, 1]));
    assert!(g.monic().equals(&rpoly(&[-1, 1])));
}

#[test]
fn divisors_of_integers() {
    let mut d = integer_divisors(12);
    d.sort_unstable();
    assert_eq!(d, vec![1, 2, 3, 4, 6, 12]);
    let mut d = integer_divisors(36);
    d.sort_unstable();
    assert_eq!(d, vec![1, 2, 3, 4, 6, 9, 12, 18, 36]);
    let mut d = integer_divisors(97);
    d.sort_unstable();
    assert_eq!(d, vec![1, 97]);
    assert_eq!(integer_divisors(1), vec![1]);
    assert_eq!(integer_divisors(0), vec![1, 0]);
    let mut d = integer_divisors(2);
    d.sort_unstable();
    assert_eq!(d, vec![1, 2]);
}

#[test]
fn interpolation_through_points() {
    let p = lagrange_interpolation(vec![(r(1, 1), r(1, 1)), (r(2, 1), r(-1, 1))]);
    assert!(p.equals(&rpoly(&[3, -2])));
    let points = [(0, 1), (1, 3), (2, 11), (-1, 5)];
    let p = lagrange_interpolation(points.iter().map(|&(x, y)| (r(x, 1), r(y, 1))).collect());
    assert!(p.degree().unwrap() <= 3);
    for &(x, y) in &points {
        assert!(p.eval(&r(x, 1)).equals(&r(y, 1)));
    }
    assert!(lagrange_interpolation::<Rational>(vec![]).is_zero());
    assert!(lagrange_interpolation(vec![(r(5, 1), r(7, 2))]).equals(&Polynomial::constant(r(7, 2))));
}

#[test]
fn multiplicities() {
    assert!(Multiplicity::new(0).is_none());
    assert_eq!(Multiplicity::new(3).unwrap().get(), 3);
    assert_eq!(Multiplicity::one().get(), 1);
    assert_eq!(Multiplicity::one().saturating_add(4).get(), 5);
    assert_eq!(Multiplicity::new(usize::MAX).unwrap().saturating_add(1).get(), usize::MAX);
}
