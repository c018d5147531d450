use newton_core::parse::try_zed_parse;
use newton_core::{ParseError, Polynomial, PolynomialTerm};

fn terms_to_vec(terms: &[PolynomialTerm]) -> Vec<(i64, u32)> {
    let mut pairs: Vec<(i64, u32)> = terms.iter().map(|t| (t.coefficient, t.power)).collect();
    pairs.sort_by_key(|&(_, p)| std::cmp::Reverse(p));
    pairs
}

#[test]
fn test_parse() {
    let fz = Polynomial::parse("z^5-z^2+3z^3-2z+5").unwrap();
    assert_eq!(
        terms_to_vec(&fz.function_terms()),
        vec![(1, 5), (3, 3), (-1, 2), (-2, 1), (5, 0)]
    );
    assert_eq!(
        terms_to_vec(&fz.derivative_terms()),
        vec![(5, 4), (9, 2), (-2, 1), (-2, 0)]
    );
    assert_eq!(
        terms_to_vec(&fz.derivative2_terms()),
        vec![(20, 3), (18, 1), (-2, 0)]
    );
    assert_eq!(terms_to_vec(&fz.derivative3_terms()), vec![(60, 2), (18, 0)]);
}

#[test]
fn test_leading_coefficient_negative() {
    let fz = Polynomial::parse("-3z^10 - 4z^4 + z^2 - 2z - 4").unwrap();
    assert_eq!(
        terms_to_vec(&fz.function_terms()),
        vec![(-3, 10), (-4, 4), (1, 2), (-2, 1), (-4, 0)]
    );
}

#[test]
fn test_zero_coefficients() {
    let fz = Polynomial::parse("0*z^5 - 4*z^4 - 9*z^3 + 0*z^2 + 30z - 30").unwrap();
    assert_eq!(
        terms_to_vec(&fz.function_terms()),
        vec![(-4, 4), (-9, 3), (30, 1), (-30, 0)]
    );
}

#[test]
fn test_plus_negative_coefficients() {
    let fz = Polynomial::parse("+-z^5 + 4*z^4 + -9*z^3 + -20").unwrap();
    assert_eq!(
        terms_to_vec(&fz.function_terms()),
        vec![(-1, 5), (4, 4), (-9, 3), (-20, 0)]
    );
}

#[test]
fn test_empty_term() {
    let fz = Polynomial::parse("2+").unwrap();
    assert_eq!(terms_to_vec(&fz.function_terms()), vec![(2, 0)]);
}

#[test]
fn test_empty() {
    let fz = Polynomial::parse("");
    assert!(fz.is_err());
}

#[test]
fn test_normal() {
    assert!(matches!(try_zed_parse("2z^3"), Ok((2, 3))));
}

#[test]
fn parse_empty_error_variant() {
    assert!(matches!(Polynomial::parse(""), Err(ParseError::Empty)));
    assert!(matches!(Polynomial::parse("0z^2 - 0"), Err(ParseError::Empty)));
    assert!(matches!(Polynomial::parse("z - z"), Err(ParseError::Empty)));
}

#[test]
fn parse_syntax_error_variant() {
    assert!(matches!(Polynomial::parse("2zz"), Err(ParseError::Syntax)));
    assert!(matches!(Polynomial::parse("z^-2"), Err(ParseError::Syntax)));
    assert!(matches!(Polynomial::parse("z + q"), Err(ParseError::Syntax)));
    assert!(matches!(Polynomial::parse("1.5z"), Err(ParseError::Syntax)));
    assert!(matches!(Polynomial::parse("2z3"), Err(ParseError::Syntax)));
    assert!(matches!(
        Polynomial::parse("99999999999z"),
        Err(ParseError::Syntax)
    ));
}

#[test]
fn normalize_sets_denominator_and_is_idempotent() {
    let mut fz = Polynomial::parse("3z^2 - 6").unwrap();
    assert_eq!(fz.denominator(), 1);
    fz.normalize();
    assert_eq!(fz.denominator(), 3);
    assert_eq!(terms_to_vec(&fz.function_terms()), vec![(3, 2), (-6, 0)]);

    let first_terms = fz.function_terms();
    let first_derivative = fz.derivative_terms();
    fz.normalize();
    assert_eq!(fz.denominator(), 3);
    assert_eq!(terms_to_vec(&fz.function_terms()), terms_to_vec(&first_terms));
    assert_eq!(
        terms_to_vec(&fz.derivative_terms()),
        terms_to_vec(&first_derivative)
    );
}

#[test]
fn normalize_monic_is_identity() {
    let mut fz = Polynomial::parse("z^2-1").unwrap();
    fz.normalize();
    assert_eq!(fz.denominator(), 1);
    assert_eq!(terms_to_vec(&fz.function_terms()), vec![(1, 2), (-1, 0)]);
}

#[test]
fn accessors() {
    let fz = Polynomial::parse("z^5-z^2+3z^3-2z+5").unwrap();
    assert_eq!(fz.order(), 5);
    assert!(!fz.is_constant());
    assert_eq!(fz.coefficients(), vec![5, -2, -1, 3, 0, 1]);

    let t = fz.term_of(3).unwrap();
    assert_eq!((t.coefficient, t.power), (3, 3));
    assert!(fz.term_of(4).is_none());

    let ascending = fz.terms();
    let powers: Vec<u32> = ascending.iter().map(|t| t.power).collect();
    assert_eq!(powers, vec![0, 1, 2, 3, 5]);

    let constant = Polynomial::parse("7").unwrap();
    assert!(constant.is_constant());
    assert_eq!(constant.order(), 0);
}

#[test]
fn term_derivatives() {
    let t = PolynomialTerm::new(6, 3);
    let d1 = t.derivative().unwrap();
    assert_eq!((d1.coefficient, d1.power), (18, 2));
    let d2 = t.derivative2().unwrap();
    assert_eq!((d2.coefficient, d2.power), (36, 1));
    let d3 = t.derivative3().unwrap();
    assert_eq!((d3.coefficient, d3.power), (36, 0));

    let constant = PolynomialTerm::new(5, 0);
    assert!(constant.derivative().is_none());
    assert!(PolynomialTerm::new(5, 1).derivative2().is_none());
    assert!(PolynomialTerm::new(5, 2).derivative3().is_none());
}

#[test]
fn term_parse_drops_zero_and_signs() {
    assert_eq!(PolynomialTerm::parse("0z^5", false), Ok(None));
    let t = PolynomialTerm::parse("4z^2", true).unwrap().unwrap();
    assert_eq!((t.coefficient, t.power), (-4, 2));
    let bare = PolynomialTerm::parse("z", false).unwrap().unwrap();
    assert_eq!((bare.coefficient, bare.power), (1, 1));
    assert_eq!(
        PolynomialTerm::parse("x", false),
        Err(ParseError::Syntax)
    );
}

#[test]
fn digit_only_parse() {
    assert!(matches!(newton_core::parse::try_digit_only_parse("42"), Ok((42, 0))));
    assert!(newton_core::parse::try_digit_only_parse("4a").is_err());
    assert!(newton_core::parse::try_digit_only_parse("").is_err());
}
