use embedded_algebra::render::{render_i64, render_u64};
use embedded_algebra::{Monomial, Polynomial};

#[test]
fn decimal_rendering() {
    assert_eq!(render_u64(0), "0");
    assert_eq!(render_u64(7), "7");
    assert_eq!(render_u64(12034), "12034");
    assert_eq!(render_i64(-5), "-5");
    assert_eq!(render_i64(9223372036854775807), "9223372036854775807");
    assert_eq!(render_i64(-9223372036854775808), "-9223372036854775808");
}

#[test]
fn monomial_rendering() {
    assert_eq!(Monomial::new(3, [0, 0, 0, 0]).render(), "3");
    assert_eq!(Monomial::new(-2, [1, 0, 3, 0]).render(), "-2ac^3");
    assert_eq!(Monomial::new(1, [0, 1, 0, 1]).render(), "1bd");
}

#[test]
fn polynomial_rendering() {
    assert_eq!(Polynomial::new(Vec::new()).render(), "");
    let p = Polynomial::parse("2a + 3b^2 + 4").unwrap();
    assert_eq!(p.render(), "2a + 3b^2 + 4");
}

#[test]
fn parse_then_render_round_trips() {
    // Canonical texts, no redundant implicit exponents: rendering the
    // combined parse gives the text back.
    for text in ["123a^123bc^123", "3a + 2a^2", "2a + 1", "7", "1ab + 1c"] {
        let combined = Polynomial::parse(text).unwrap().into_combined();
        assert_eq!(combined.render(), text);
    }
}
