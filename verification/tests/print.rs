use math2::integer::Integer;
use math2::polynomial::Polynomial;
use math2::print::{print_as_factor, print_if_not_one, PrintableCoeff};
use math2::rational::Rational;
use math2::traits::CommutativeRing;

fn r(n: i64, d: i64) -> Rational {
    Rational::from_i64s(n, d)
}

fn zpoly(coeffs: &[i64]) -> Polynomial<Integer> {
    Polynomial::new(coeffs.iter().map(|&c| Integer::from_i64(c)).collect())
}

fn rpoly(coeffs: &[(i64, i64)]) -> Polynomial<Rational> {
    Polynomial::new(coeffs.iter().map(|&(n, d)| r(n, d)).collect())
}

#[test]
fn coefficient_texts() {
    assert_eq!(Integer::from_i64(0).to_text(), "0");
    assert_eq!(Integer::from_i64(-1205).to_text(), "-1205");
    assert_eq!(
        Integer::from_i64(i64::MAX).mul(&Integer::from_i64(10)).to_text(),
        "92233720368547758070"
    );
    assert_eq!(r(3, 1).to_text(), "3");
    assert_eq!(r(-6, 4).to_text(), "-3/2");
    assert!(PrintableCoeff::is_negative(&r(-6, 4)));
    assert_eq!(PrintableCoeff::abs(&r(-6, 4)).to_text(), "3/2");
}

#[test]
fn coefficients_before_a_product() {
    let mut out = String::from(">");
    print_if_not_one(&Integer::from_i64(1), &mut out);
    assert_eq!(out, ">");
    print_if_not_one(&Integer::from_i64(-1), &mut out);
    assert_eq!(out, ">-1");
    let mut out = String::new();
    print_as_factor(&Integer::from_i64(-1), &mut out);
    assert_eq!(out, "-");
    print_as_factor(&Integer::from_i64(1), &mut out);
    assert_eq!(out, "-");
    print_as_factor(&r(-5, 2), &mut out);
    assert_eq!(out, "--5/2");
    print_as_factor(&Integer::from_i64(12), &mut out);
    assert_eq!(out, "--5/212");
}

#[test]
fn polynomials_as_text() {
    assert_eq!(zpoly(&[1, -2, 1]).print_with_var("x").to_text(), "x^2 - 2x + 1");
    assert_eq!(zpoly(&[0, -1, 0, 1]).print_with_var("t").to_text(), "t^3 - t");
    assert_eq!(zpoly(&[]).print_with_var("x").to_text(), "");
    assert_eq!(zpoly(&[0, 0]).print_with_var("x").to_text(), "");
    assert_eq!(zpoly(&[-7]).print_with_var("x").to_text(), "-7");
    assert_eq!(zpoly(&[1, -1]).print_with_var("x").to_text(), "-1x + 1");
    assert_eq!(zpoly(&[0, 1]).print_with_var("x").to_text(), "x");
    assert_eq!(
        zpoly(&[5, 0, 0, 0, 0, 0, 0, 0, 0, 0, 0, 0, 3]).print_with_var("y").to_text(),
        "3y^12 + 5"
    );
    assert_eq!(
        rpoly(&[(3, 4), (1, 2)]).print_with_var("x").to_text(),
        "1/2x + 3/4"
    );
    let mut out = String::from("p = ");
    zpoly(&[2, 1]).print_with_var("x").write_to(&mut out);
    assert_eq!(out, "p = x + 2");
}

#[test]
fn factorizations_as_text() {
    let q = |n: i64| r(n, 1);
    let lin = |a: i64| Polynomial::new(vec![q(a), q(1)]);
    let p = lin(2)
        .mul(&lin(-1))
        .mul(&lin(-1))
        .mul(&lin(1))
        .mul(&lin(1))
        .mul(&lin(1))
        .scalar_mul(&q(3));
    let f = p.square_free_factorization();
    assert_eq!(f.print_with_var("x").to_text(), "3(x + 2)(x - 1)^2(x + 1)^3");
    let f = lin(-1).mul(&lin(-1)).square_free_factorization();
    assert_eq!(f.print_with_var("x").to_text(), "(x - 1)^2");
    let f = lin(5).scalar_mul(&r(-1, 2)).square_free_factorization();
    assert_eq!(f.print_with_var("z").to_text(), "-1/2(z + 5)");
    let f = lin(5).neg().square_free_factorization();
    assert_eq!(f.print_with_var("z").to_text(), "-(z + 5)");
    let mut p = lin(0);
    for _ in 0..11 {
        p = p.mul(&lin(0));
    }
    let f = p.square_free_factorization();
    assert_eq!(f.print_with_var("x").to_text(), "(x)^12");
    let f = Polynomial::<Rational>::zero().square_free_factorization();
    assert_eq!(f.print_with_var("x").to_text(), "0");
}
