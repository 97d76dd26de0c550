use parametrizer::term::{create_parametrization, quick_parametrization, EvalError, FunctionTable, Term};
use parametrizer::{ErrorKind, Parametrizer};
use parametrizer::term::constantterm::ConstantTerm;
use parametrizer::term::fractionterm::FractionTerm;
use parametrizer::term::piecewiseterm::PiecewiseTerm;
use parametrizer::term::scalarterm::ScalarTerm;
use parametrizer::term::sequenceterm::{SequenceOperations, SequenceTerm};
use parametrizer::term::variableterm::VariableTerm;

struct NoFunctions;

impl FunctionTable for NoFunctions {
    fn applied(&self, index: usize, x: i64) -> Option<i64> {
        self.apply(index, x)
    }

    fn apply(&self, _index: usize, _x: i64) -> Option<i64> {
        None
    }
}

/// Index 0 is `x*x + 2x + 1`, index 1 doubles, index 2 always fails.
struct Polynomials;

impl FunctionTable for Polynomials {
    fn applied(&self, index: usize, x: i64) -> Option<i64> {
        self.apply(index, x)
    }

    fn apply(&self, index: usize, x: i64) -> Option<i64> {
        match index {
            0 => Some(x * x + 2 * x + 1),
            1 => Some(2 * x),
            _ => None,
        }
    }
}

fn compile(text: &str) -> Parametrizer {
    Parametrizer::new(text).expect("text should parse")
}

fn value(p: &Parametrizer, t: i64) -> i64 {
    p.evaluate(t, &NoFunctions).expect("evaluation should succeed")
}

fn kind_of(text: &str) -> ErrorKind {
    match Parametrizer::new(text) {
        Ok(_) => panic!("expected {} to fail", text),
        Err(e) => e.kind,
    }
}

#[test]
fn literals_are_constant() {
    for text in ["17", "-5", "+3", "0", "9223372036854775807", "-9223372036854775808"] {
        let p = compile(text);
        let expected: i64 = text.parse().unwrap();
        for x in [-100, 0, 1, 42] {
            assert_eq!(value(&p, x), expected);
        }
    }
}

#[test]
fn variable_is_identity() {
    let p = compile("t");
    for x in [-7, 0, 3, 1000] {
        assert_eq!(value(&p, x), x);
    }
}

#[test]
fn sums_and_products_fold_left_to_right() {
    assert_eq!(value(&compile("1+2+3"), 0), 6);
    assert_eq!(value(&compile("2*3*4"), 0), 24);
    assert_eq!(value(&compile("13+((2*t)+5)"), 1), 20);
    assert_eq!(value(&compile("13+((2*t)+5)"), 6), 30);
}

#[test]
fn multiplication_binds_tighter() {
    assert_eq!(value(&compile("1+2*3"), 0), 7);
    assert_eq!(value(&compile("1+5*t+25*t*t"), 2), 111);
}

#[test]
fn parentheses_override_precedence() {
    assert_eq!(value(&compile("(1+2)*3"), 0), 9);
}

#[test]
fn division_truncates_and_is_not_associative() {
    assert_eq!(value(&compile("6/t"), 3), 2);
    assert_eq!(value(&compile("6/t"), 2), 3);
    assert_eq!(value(&compile("7/2"), 0), 3);
    assert_eq!(value(&compile("-7/2"), 0), -3);
    assert_eq!(value(&compile("4\\2"), 8), 2);
    assert_eq!(kind_of("6/(t+1)/2"), ErrorKind::AmbiguousDivision);
}

#[test]
fn negation_and_subtraction() {
    assert_eq!(value(&compile("-t"), 9), -9);
    assert_eq!(value(&compile("13-t"), 3), 10);
    assert_eq!(value(&compile("15-3*t"), 3), 6);
    assert_eq!(value(&compile("t-1-1"), 5), 3);
}

#[test]
fn case_and_spaces_are_normalised() {
    assert_eq!(value(&compile("6 + T"), 2), 8);
    assert_eq!(value(&compile(" 2\t*\nt "), 4), 8);
}

#[test]
fn computed_random_is_stable() {
    let r = compile("rc(4<8)");
    let first = value(&r, 2);
    assert_eq!(first, value(&r, 99));
    assert!(4 <= first && first < 8);
}

#[test]
fn dynamic_random_respects_bounds() {
    let r = compile("rd(2+t<4*t)");
    for _ in 0..200 {
        let v = value(&r, 4);
        assert!(6 <= v && v < 16);
    }
    let narrow = compile("rd(t<t+1)");
    assert_eq!(value(&narrow, 5), 5);
}

#[test]
fn piecewise_selects_by_threshold() {
    let p = compile("p2>0|4>2|8>6");
    assert_eq!(value(&p, 1), 2);
    assert_eq!(value(&p, 5), 4);
    assert_eq!(value(&p, 7), 8);
    assert_eq!(value(&p, -3), 2);
}

#[test]
fn looping_piecewise_reduces_by_cycle() {
    let p = compile("p[10]18>0|23>4");
    assert_eq!(value(&p, 23), 18);
    assert_eq!(value(&p, 106), 23);
    assert_eq!(value(&p, 10), 23);
}

#[test]
fn registered_functions_apply() {
    match Parametrizer::new("foo(t)") {
        Ok(_) => panic!("an unregistered function should not parse"),
        Err(e) => assert_eq!(e.kind, ErrorKind::Unresolved),
    }
    let poly = Parametrizer::new_functions("poly(t)", vec!["poly".to_string()]).unwrap();
    assert_eq!(poly.evaluate(3, &Polynomials), Ok(16));
    let upper = Parametrizer::new_functions("Poly( t + 2 )", vec!["POLY".to_string(), "Twice".to_string()]).unwrap();
    assert_eq!(upper.evaluate(1, &Polynomials), Ok(16));
    let twice = Parametrizer::new_functions("twice(t)+1", vec!["POLY".to_string(), "Twice".to_string()]).unwrap();
    assert_eq!(twice.evaluate(5, &Polynomials), Ok(11));
    let quick = Parametrizer::quick_new("poly(t+1)", vec!["poly".to_string()]).unwrap();
    assert_eq!(quick.evaluate(0, &Polynomials), Ok(4));
}

#[test]
fn unregistered_name_starting_with_p_is_read_as_piecewise() {
    assert_eq!(kind_of("poly(t)"), ErrorKind::PiecewisePart);
}

#[test]
fn builtin_shorthands_are_sin_and_cos() {
    let p = Parametrizer::new("cos(t)*2").unwrap();
    // `cos` is function 1, which `Polynomials` doubles: 2 * 7, then * 2.
    assert_eq!(p.evaluate(7, &Polynomials), Ok(28));
}

#[test]
fn zero_denominator_fails_at_evaluation() {
    let p = compile("6/(t-2)");
    assert_eq!(p.evaluate(2, &NoFunctions), Err(EvalError::DivisionByZero));
    assert_eq!(p.evaluate(4, &NoFunctions), Ok(3));
    let cycle = compile("p[0]1>0");
    assert_eq!(cycle.evaluate(5, &NoFunctions), Err(EvalError::DivisionByZero));
}

#[test]
fn evaluation_errors() {
    assert_eq!(compile("9223372036854775807+t").evaluate(1, &NoFunctions), Err(EvalError::Overflow));
    assert_eq!(compile("-t").evaluate(i64::MIN, &NoFunctions), Err(EvalError::Overflow));
    assert_eq!(compile("rd(5<2)").evaluate(0, &NoFunctions), Err(EvalError::InvalidRandomBounds));
    let f = Parametrizer::new_functions("bad(t)", vec!["a".to_string(), "b".to_string(), "bad".to_string()]).unwrap();
    assert_eq!(f.evaluate(1, &Polynomials), Err(EvalError::Conversion));
}

#[test]
fn parse_errors() {
    assert_eq!(kind_of("t+1)"), ErrorKind::RightExceedsLeft);
    assert_eq!(kind_of("(t+1"), ErrorKind::LeftExceedsRight);
    assert_eq!(kind_of("rd(1)"), ErrorKind::RandomSplit);
    assert_eq!(kind_of("rc(a<2)"), ErrorKind::RandomMinimum);
    assert_eq!(kind_of("rc(1<b)"), ErrorKind::RandomMaximum);
    assert_eq!(kind_of("rc(5<2)"), ErrorKind::RandomBounds);
    assert_eq!(kind_of("p2"), ErrorKind::PiecewisePart);
    assert_eq!(kind_of("p2>x"), ErrorKind::PiecewiseThreshold);
    assert_eq!(kind_of("p[x]2>0"), ErrorKind::PiecewiseLoop);
    assert_eq!(kind_of("p[10"), ErrorKind::PiecewiseLoop);
    assert_eq!(kind_of("2t"), ErrorKind::Unresolved);
    assert_eq!(kind_of("92233720368547758070"), ErrorKind::Unresolved);
    match Parametrizer::new("2t") {
        Err(e) => assert_eq!(e.param, "2t"),
        Ok(_) => panic!("expected a failure"),
    }
}

#[test]
fn quick_entry_skips_normalisation() {
    let terms = quick_parametrization("15+(-3*t)", &Vec::new()).unwrap();
    assert_eq!(terms.evaluate(3, &NoFunctions), Ok(6));
    assert!(quick_parametrization("6 + t", &Vec::new()).is_err());
    let normal = create_parametrization("6 + T", &Vec::new()).unwrap();
    assert_eq!(normal.evaluate(2, &NoFunctions), Ok(8));
}

#[test]
fn terms_built_by_hand() {
    let sum = Term::Sequence(SequenceTerm::new(
        vec![Term::Constant(ConstantTerm::new(13)), Term::Constant(ConstantTerm::new(5)), Term::Variable(VariableTerm::new())],
        SequenceOperations::Addition,
    ));
    assert_eq!(sum.evaluate(1, &NoFunctions), Ok(19));
    let product = Term::Sequence(SequenceTerm::new(
        vec![Term::Constant(ConstantTerm::new(13)), Term::Constant(ConstantTerm::new(5)), Term::Variable(VariableTerm::new())],
        SequenceOperations::Multiplication,
    ));
    assert_eq!(product.evaluate(6, &NoFunctions), Ok(390));
    let scaled = Term::Scalar(ScalarTerm::new(Box::new(Term::Variable(VariableTerm::new())), 3));
    assert_eq!(scaled.evaluate(2, &NoFunctions), Ok(6));
    let fraction = Term::Fraction(FractionTerm::new(
        Box::new(Term::Constant(ConstantTerm::new(10))),
        Box::new(Term::Variable(VariableTerm::new())),
    ));
    assert_eq!(fraction.evaluate(5, &NoFunctions), Ok(2));
    assert_eq!(fraction.evaluate(0, &NoFunctions), Err(EvalError::DivisionByZero));

    let mut piecewise = PiecewiseTerm::new();
    piecewise.add_part(Term::Constant(ConstantTerm::new(3)), 0);
    piecewise.add_part(Term::Constant(ConstantTerm::new(5)), 5);
    piecewise.add_part(Term::Constant(ConstantTerm::new(9)), 10);
    let piecewise = Term::Piecewise(piecewise);
    assert_eq!(piecewise.evaluate(2, &NoFunctions), Ok(3));
    assert_eq!(piecewise.evaluate(8, &NoFunctions), Ok(5));
    assert_eq!(piecewise.evaluate(20, &NoFunctions), Ok(9));

    let mut looping = PiecewiseTerm::looping(10);
    looping.add_part(Term::Constant(ConstantTerm::new(2)), 1);
    looping.add_part(Term::Constant(ConstantTerm::new(4)), 5);
    looping.add_part(Term::Constant(ConstantTerm::new(6)), 9);
    let looping = Term::Piecewise(looping);
    assert_eq!(looping.evaluate(3, &NoFunctions), Ok(2));
    assert_eq!(looping.evaluate(16, &NoFunctions), Ok(4));
    assert_eq!(looping.evaluate(109, &NoFunctions), Ok(6));
    assert_eq!(PiecewiseTerm::new().parts.len(), 0);
}

#[test]
fn shorthands_are_lowercase_with_parenthesis() {
    assert_eq!(parametrizer::shorthand("Sin"), "sin(");
    assert_eq!(parametrizer::shorthand_list(&vec!["LOG".to_string(), "Exp".to_string()]), vec!["log(".to_string(), "exp(".to_string()]);
}

#[test]
fn single_value_random_ranges() {
    let frozen = compile("rc(10<11)");
    assert_eq!(value(&frozen, -4), 10);
    assert_eq!(value(&frozen, 4000), 10);
}

#[test]
fn unicode_white_space_is_dropped() {
    assert_eq!(value(&compile("2\u{3000}*\u{a0}t"), 5), 10);
    assert_eq!(kind_of("2\u{200b}*t"), ErrorKind::Unresolved);
}

#[test]
fn lowercase_entry_normalises_only() {
    let p = parametrizer::term::parametrize_lowercase("3 - t", &Vec::new()).unwrap();
    assert_eq!(p.evaluate(1, &NoFunctions), Ok(2));
    assert!(parametrizer::term::parametrize_lowercase("T", &Vec::new()).is_err());
}

#[test]
fn library_table_without_functions() {
    let p = Parametrizer::new("t+1").unwrap();
    assert_eq!(p.evaluate(2, &parametrizer::term::NoFunctions {}), Ok(3));
    let f = Parametrizer::new("sin(t)").unwrap();
    assert_eq!(f.evaluate(2, &parametrizer::term::NoFunctions {}), Err(EvalError::Conversion));
}

#[test]
fn function_term_applies_table_to_argument_value() {
    // `poly` is function 0 of `Polynomials`: (t*2)^2 + 2(t*2) + 1 at t = 3 is 49.
    let p = Parametrizer::new_functions("poly(t*2)", vec!["poly".to_string()]).unwrap();
    assert_eq!(p.evaluate(3, &Polynomials), Ok(49));
}
