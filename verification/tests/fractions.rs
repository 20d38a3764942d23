use embedded_algebra::poly::Fraction;
use embedded_algebra::{Monomial, Polynomial};

#[test]
fn division_cancels_shared_monomial() {
    // ("4a^2 + 2a") / ("2a") has numerator "2a + 1" and an identity
    // denominator after cancellation.
    let num = Polynomial::parse("4a^2 + 2a").unwrap();
    let den = Polynomial::parse("2a").unwrap();
    let frac = num.div(den);
    assert_eq!(frac.numerator, Polynomial::parse("2a + 1").unwrap());
    assert_eq!(frac.denominator, Polynomial::parse("1").unwrap());
}

#[test]
fn fraction_gcd_spans_both_sides() {
    let num = Polynomial::parse("6a^2b + 4ab").unwrap();
    let den = Polynomial::parse("2ab^2").unwrap();
    let frac = Fraction::new(num, den);
    assert_eq!(frac.gcd(), Monomial::parse("2ab").unwrap());
}

#[test]
fn simplify_is_idempotent() {
    let num = Polynomial::parse("4a^2 + 2a").unwrap();
    let den = Polynomial::parse("2a").unwrap();
    let once = Fraction::new(num, den).into_simplified();
    let twice = once.clone().into_simplified();
    assert_eq!(twice, once);
}

#[test]
fn coprime_sides_stay_unchanged() {
    // Dividing two already-coprime monomials leaves both sides as
    // they were.
    let num = Polynomial::parse("3a").unwrap();
    let den = Polynomial::parse("2b").unwrap();
    let frac = num.div(den);
    assert_eq!(frac.numerator, Polynomial::parse("3a").unwrap());
    assert_eq!(frac.denominator, Polynomial::parse("2b").unwrap());
}

#[test]
fn fraction_renders_both_sides() {
    let num = Polynomial::parse("2a + 1").unwrap();
    let den = Polynomial::parse("3b").unwrap();
    let frac = Fraction::new(num, den);
    assert_eq!(frac.render(), "(2a + 1) / (3b)");
}
