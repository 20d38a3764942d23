use embedded_algebra::poly::{gcd, Builder, Term};
use embedded_algebra::{Fraction, Gcd, Monomial, Polynomial};

#[test]
fn coefficient_gcd_is_euclids() {
    assert_eq!(gcd(6, 4), 2);
    assert_eq!(gcd(4, 6), 2);
    assert_eq!(gcd(0, 5), 5);
    assert_eq!(gcd(5, 0), 5);
    assert_eq!(gcd(0, 0), 0);
    assert_eq!(gcd(-6, 4), 2);
    assert_eq!(gcd(6, -4), 2);
    assert_eq!(gcd(-6, -4), 2);
    assert_eq!(gcd(7, 13), 1);
}

#[test]
fn monomial_gcd() {
    // gcd("6ab", "4a") is "2a".
    let a = Monomial::parse("6ab").unwrap();
    let b = Monomial::parse("4a").unwrap();
    assert_eq!(a.gcd(b), Monomial::parse("2a").unwrap());
}

#[test]
fn monomial_gcd_commutes() {
    let a = Monomial::new(6, [2, 1, 0, 3]);
    let b = Monomial::new(-4, [1, 2, 0, 0]);
    assert_eq!(a.gcd(b), b.gcd(a));
}

#[test]
fn monomial_self_gcd_normalizes_sign() {
    let m = Monomial::new(-6, [2, 1, 0, 0]);
    assert_eq!(m.gcd(m), Monomial::new(6, [2, 1, 0, 0]));
    let p = Monomial::new(6, [2, 1, 0, 0]);
    assert_eq!(p.gcd(p), p);
}

#[test]
fn monomial_multiply() {
    let mut m = Monomial::new(3, [1, 0, 2, 0]);
    m.mul_assign(Monomial::new(-2, [1, 1, 0, 0]));
    assert_eq!(m, Monomial::new(-6, [2, 1, 2, 0]));

    let p = Monomial::new(2, [1, 0, 0, 0]).mul(Monomial::new(5, [0, 3, 0, 0]));
    assert_eq!(p, Monomial::new(10, [1, 3, 0, 0]));
}

#[test]
fn monomial_divide() {
    let mut m = Monomial::new(-6, [2, 1, 0, 0]);
    m.div_assign(Monomial::new(2, [1, 0, 0, 0]));
    assert_eq!(m, Monomial::new(-3, [1, 1, 0, 0]));
}

#[test]
fn monomial_constructors() {
    assert_eq!(Monomial::coefficient(5), Monomial::new(5, [0, 0, 0, 0]));
    assert_eq!(Monomial::default(), Monomial::new(1, [0, 0, 0, 0]));
    let m = Monomial::coefficient(2).exponent(1, 3);
    assert_eq!(m, Monomial::new(2, [0, 3, 0, 0]));
}

#[test]
fn term_mirrors_monomial_algebra() {
    let a = Term::new(6, [2, 0, 0, 0]);
    let b = Term::new(4, [1, 0, 0, 0]);
    assert_eq!(a.gcd(b), Term::new(2, [1, 0, 0, 0]));

    let mut t = Term::new(3, [1, 0, 0, 0]);
    t.mul_assign(Term::new(2, [0, 1, 0, 0]));
    assert_eq!(t, Term::new(6, [1, 1, 0, 0]));

    let mut t = Term::new(6, [1, 1, 0, 0]);
    t.div_assign(Term::new(3, [1, 0, 0, 0]));
    assert_eq!(t, Term::new(2, [0, 1, 0, 0]));

    assert_eq!(Term::default(), Term::new(1, [0, 0, 0, 0]));
    assert_eq!(t.render(), "2b^1");
}

#[test]
fn term_product_folds() {
    let terms = vec![
        Term::new(2, [1, 0, 0, 0]),
        Term::new(3, [0, 1, 0, 0]),
        Term::new(4, [1, 0, 2, 0]),
    ];
    assert_eq!(Term::product(&terms), Term::new(24, [2, 1, 2, 0]));
    assert_eq!(Term::product(&Vec::new()), Term::new(1, [0, 0, 0, 0]));
}

#[test]
fn polynomial_gcf() {
    // gcf("6a^2 + 4a") is "2a": coefficient gcd(6,4)=2, exponent min(2,1)=1.
    let poly = Polynomial::parse("6a^2 + 4a").unwrap();
    assert_eq!(poly.gcf(), Monomial::parse("2a").unwrap());
}

#[test]
fn empty_polynomial_gcf_is_identity() {
    let poly = Polynomial::new(Vec::new());
    assert_eq!(poly.gcf(), Monomial::new(1, [0, 0, 0, 0]));
}

#[test]
fn gcd_trait_on_polynomials() {
    let a = Polynomial::parse("6a^2 + 4a").unwrap();
    let b = Polynomial::parse("2a^3").unwrap();
    assert_eq!(a.gcd(&b), Monomial::parse("2a").unwrap());
    let m = Monomial::parse("4a").unwrap();
    assert_eq!(a.gcd(&m), Monomial::parse("2a").unwrap());
}

#[test]
fn combine_like_terms() {
    // "2a" and "a" share the exponent vector and combine to "3a".
    let poly = Polynomial::parse("2a + 2a^2 + a").unwrap();
    let combined = poly.into_combined();
    assert_eq!(combined, Polynomial::parse("3a + 2a^2").unwrap());
}

#[test]
fn combine_is_idempotent() {
    let poly = Polynomial::parse("2a + 2a^2 + a + 3b").unwrap();
    let once = poly.into_combined();
    let twice = once.clone().into_combined();
    assert_eq!(twice, once);
}

#[test]
fn combine_skips_consumed_terms() {
    let mut c = Polynomial::parse("2a + b + a").unwrap().combine();
    assert_eq!(c.next(), Some(Monomial::new(3, [1, 0, 0, 0])));
    assert_eq!(c.next(), Some(Monomial::new(1, [0, 1, 0, 0])));
    assert_eq!(c.next(), None);
}

#[test]
fn nonzero_keeps_positive_monomials() {
    let poly = Polynomial::new(vec![
        Monomial::new(2, [1, 0, 0, 0]),
        Monomial::new(0, [0, 1, 0, 0]),
        Monomial::new(-3, [0, 0, 1, 0]),
        Monomial::new(5, [0, 0, 0, 1]),
    ]);
    assert_eq!(
        poly.nonzero(),
        vec![Monomial::new(2, [1, 0, 0, 0]), Monomial::new(5, [0, 0, 0, 1])]
    );
}

#[test]
fn polynomial_scaling_multiply() {
    // The right-hand side collapses to the single monomial "6ab" and
    // scales every left-hand monomial.
    let mut poly = Polynomial::parse("2a + 3b").unwrap();
    let rhs = Polynomial::parse("6ab").unwrap();
    poly.mul_assign(&rhs);
    assert_eq!(poly, Polynomial::parse("12a^2b + 18ab^2").unwrap());
}

#[test]
fn polynomial_divide_by_monomial() {
    let mut poly = Polynomial::parse("6a^2 + 4a").unwrap();
    poly.div_assign(Monomial::parse("2a").unwrap());
    assert_eq!(poly, Polynomial::parse("3a + 2").unwrap());
}

#[test]
fn builder_collects_monomials() {
    let poly = Polynomial::builder()
        .monomial(Monomial::new(2, [1, 0, 0, 0]))
        .monomial(Monomial::new(1, [0, 2, 0, 0]))
        .build();
    assert_eq!(poly, Polynomial::parse("2a + b^2").unwrap());

    let mut b = Builder::default();
    b.push(Monomial::coefficient(7));
    assert_eq!(b.build(), Polynomial::parse("7").unwrap());
}

#[test]
fn monomials_accessors() {
    let mut poly = Polynomial::parse("2a + 3b").unwrap();
    assert_eq!(poly.monomials().len(), 2);
    poly.monomials_mut()[0] = Monomial::coefficient(9);
    assert_eq!(poly.monomials()[0], Monomial::new(9, [0, 0, 0, 0]));
}

#[test]
fn mixed_fraction_simplifies() {
    // ("4a^2 + 2a") / ("2a") reduces to ("2a + 1") / (1).
    let poly = Polynomial::parse("4a^2 + 2a").unwrap();
    let mono = Monomial::parse("2a").unwrap();
    let mut frac = Fraction::new(poly, mono);
    frac.simplify();
    assert_eq!(frac.numerator, Polynomial::parse("2a + 1").unwrap());
    assert_eq!(frac.denominator, Monomial::new(1, [0, 0, 0, 0]));
    assert_eq!(frac.render(), "(2a + 1) / (1)");
}

#[test]
fn combine_drops_nonpositive_terms() {
    // Only strictly positive coefficients take part in grouping, so a
    // zero term vanishes and a negative one never leads a group.
    let zero = Polynomial::parse("0").unwrap().into_combined();
    assert_eq!(zero.monomials().len(), 0);

    let poly = Polynomial::new(vec![
        Monomial::new(-2, [1, 0, 0, 0]),
        Monomial::new(3, [0, 1, 0, 0]),
    ]);
    let combined = poly.into_combined();
    assert_eq!(combined, Polynomial::new(vec![Monomial::new(3, [0, 1, 0, 0])]));
}
