use embedded_algebra::parse::{Item, ItemError, Items, Operator, Parser};
use embedded_algebra::poly::mono::{OverflowError, ParseError};
use embedded_algebra::poly::{parse_int, parse_vars};
use embedded_algebra::{Monomial, Polynomial};

#[test]
fn it_works() {
    let p = Monomial::parse("123a^123bc^123").unwrap();
    println!("{}", p.render());
}

#[test]
fn single_term_with_exponents() {
    // "123a^123bc^123": coefficient 123, a gets ^123, b defaults to 1,
    // c gets ^123, and the text renders back unchanged.
    let m = Monomial::parse("123a^123bc^123").unwrap();
    assert_eq!(m.coefficient, 123);
    assert_eq!(m.exponents, [123, 1, 123, 0]);
    assert_eq!(m.render(), "123a^123bc^123");

    let p = Polynomial::parse("123a^123bc^123").unwrap();
    assert_eq!(p.monomials().len(), 1);
    assert_eq!(p.monomials()[0], Monomial::new(123, [123, 1, 123, 0]));
    assert_eq!(p.render(), "123a^123bc^123");
}

#[test]
fn tokenizer_items() {
    let mut items = Items::new("12a + b^3");
    assert_eq!(items.next(), Ok(Some(Item::Integer(12))));
    assert_eq!(items.next(), Ok(Some(Item::Variable(0))));
    assert_eq!(items.next(), Ok(Some(Item::Operator(Operator::Add))));
    assert_eq!(items.next(), Ok(Some(Item::Variable(1))));
    assert_eq!(items.next(), Ok(Some(Item::Operator(Operator::Pow))));
    assert_eq!(items.next(), Ok(Some(Item::Integer(3))));
    assert_eq!(items.next(), Ok(None));
}

#[test]
fn tokenizer_space_ends_numeral() {
    let mut items = Items::new("1 2");
    assert_eq!(items.next(), Ok(Some(Item::Integer(1))));
    assert_eq!(items.next(), Ok(Some(Item::Integer(2))));
    assert_eq!(items.next(), Ok(None));
}

#[test]
fn tokenizer_rejects_bad_character() {
    // The bad character is reported before the pending numeral goes out.
    let mut items = Items::new("2*a");
    assert_eq!(items.next(), Err(ItemError::Symbol));
}

#[test]
fn tokenizer_rejects_huge_numeral() {
    let mut items = Items::new("99999999999999999999");
    assert_eq!(items.next(), Err(ItemError::Overflow));
}

#[test]
fn parser_emits_each_summand() {
    let mut parser = Parser::new("2a + 3b^2 + 4");
    assert_eq!(parser.next(), Ok(Some(Monomial::new(2, [1, 0, 0, 0]))));
    assert_eq!(parser.next(), Ok(Some(Monomial::new(3, [0, 2, 0, 0]))));
    assert_eq!(parser.next(), Ok(Some(Monomial::new(4, [0, 0, 0, 0]))));
    assert_eq!(parser.next(), Ok(None));
}

#[test]
fn parser_implicit_multiplication() {
    // "ab" means a^1 b^1; "a^2b" means a^2 b^1.
    let p = Polynomial::parse("ab").unwrap();
    assert_eq!(p.monomials()[0], Monomial::new(1, [1, 1, 0, 0]));
    let q = Polynomial::parse("a^2b").unwrap();
    assert_eq!(q.monomials()[0], Monomial::new(1, [2, 1, 0, 0]));
}

#[test]
fn parser_syntax_errors() {
    // A leading operator, a bare integer after a variable, a dangling
    // `^` at the end, and a doubled `^` are all syntax errors.
    assert_eq!(Polynomial::parse("+"), Err(ParseError::Syntax));
    assert_eq!(Polynomial::parse("a 2"), Err(ParseError::Syntax));
    assert_eq!(Polynomial::parse("a^"), Err(ParseError::Syntax));
    assert_eq!(Polynomial::parse("a^^2"), Err(ParseError::Syntax));
    assert_eq!(Polynomial::parse("a^+b"), Err(ParseError::Syntax));
}

#[test]
fn parser_symbol_errors() {
    // Only the letters of the four variable slots are accepted.
    assert_eq!(Polynomial::parse("z"), Err(ParseError::Symbol));
    assert_eq!(Polynomial::parse("e"), Err(ParseError::Symbol));
    assert_eq!(Polynomial::parse("2a + %"), Err(ParseError::Symbol));
}

#[test]
fn parser_overflow_errors() {
    assert_eq!(
        Polynomial::parse("99999999999999999999"),
        Err(ParseError::Overflow(OverflowError::Coefficient))
    );
    assert_eq!(
        Polynomial::parse("a^99999999999999999999"),
        Err(ParseError::Overflow(OverflowError::Exponent))
    );
    // An exponent numeral beyond the exponent type's range.
    assert_eq!(
        Polynomial::parse("a^70000"),
        Err(ParseError::Overflow(OverflowError::Exponent))
    );
}

#[test]
fn parser_empty_input_is_empty_polynomial() {
    let p = Polynomial::parse("").unwrap();
    assert_eq!(p.monomials().len(), 0);
}

#[test]
fn monomial_parse_errors() {
    assert_eq!(Monomial::parse(""), Err(ParseError::Empty));
    assert_eq!(Monomial::parse("z"), Err(ParseError::Symbol));
    assert_eq!(
        Monomial::parse("99999999999999999999"),
        Err(ParseError::Overflow(OverflowError::Coefficient))
    );
    assert_eq!(
        Monomial::parse("a^70000"),
        Err(ParseError::Overflow(OverflowError::Exponent))
    );
    assert_eq!(
        Monomial::parse("a^"),
        Err(ParseError::Overflow(OverflowError::Exponent))
    );
    // The single-monomial notation takes no spaces or plus signs.
    assert_eq!(Monomial::parse("2a + b"), Err(ParseError::Symbol));
}

#[test]
fn parse_int_scans_digit_runs() {
    let (value, end) = parse_int("123ab", 0);
    assert_eq!(value, Some(123));
    assert_eq!(end, 3);

    let (value, end) = parse_int("99999999999999999999", 0);
    assert_eq!(value, None);
    assert_eq!(end, 20);

    let (value, end) = parse_int("a12", 0);
    assert_eq!(value, Some(0));
    assert_eq!(end, 0);
}

#[test]
fn parse_vars_folds_factors() {
    let mut m = Monomial::coefficient(7);
    assert_eq!(parse_vars("a^2bc^3", 0, &mut m), Ok(()));
    assert_eq!(m, Monomial::new(7, [2, 1, 3, 0]));

    let mut m = Monomial::coefficient(1);
    assert_eq!(parse_vars("a^2+", 0, &mut m), Err(ParseError::Symbol));
}
