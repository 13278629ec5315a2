use std::cmp::Ordering;
use ucalc::calculator::{Calculator, CalculatorError};
use ucalc::expr::{make_value, Expression};
use ucalc::float::Float;
use ucalc::host::Host;
use ucalc::rational::Rational;
use ucalc::unit::Unit;
use ucalc::uval::UnitValue;
use ucalc::value::{ArithmeticError, Value};

struct StdHost;

fn f(x: Float) -> f64 {
    f64::from_bits(x.0)
}

fn fl(x: f64) -> Float {
    Float(x.to_bits())
}

fn metre() -> UnitValue {
    let mut unit = Unit::zero();
    unit.length = 1;
    UnitValue { value: Value::Exact(Rational::from_integer(1).unwrap()), unit }
}

impl Host for StdHost {
    fn float_add(&self, a: Float, b: Float) -> Float {
        fl(f(a) + f(b))
    }
    fn float_sub(&self, a: Float, b: Float) -> Float {
        fl(f(a) - f(b))
    }
    fn float_mul(&self, a: Float, b: Float) -> Float {
        fl(f(a) * f(b))
    }
    fn float_div(&self, a: Float, b: Float) -> Float {
        fl(f(a) / f(b))
    }
    fn float_pow(&self, a: Float, b: Float) -> Float {
        fl(f(a).powf(f(b)))
    }
    fn float_cmp(&self, a: Float, b: Float) -> Ordering {
        f(a).partial_cmp(&f(b)).unwrap()
    }
    fn float_of_ratio(&self, num: i32, den: u32) -> Float {
        fl(num as f64 / den as f64)
    }
    fn parse_float(&self, text: &Vec<u8>) -> Float {
        fl(std::str::from_utf8(text).unwrap().parse::<f64>().unwrap())
    }
    fn constant(&self, name: &Vec<u8>) -> Option<Float> {
        match name.as_slice() {
            b"e" => Some(fl(std::f64::consts::E)),
            b"pi" => Some(fl(std::f64::consts::PI)),
            _ => None,
        }
    }
    fn unit(&self, name: &Vec<u8>) -> Option<UnitValue> {
        match name.as_slice() {
            b"m" => Some(metre()),
            _ => None,
        }
    }
    fn function(&self, name: &Vec<u8>) -> Option<usize> {
        match name.as_slice() {
            b"sin" => Some(0),
            b"cos" => Some(1),
            b"tan" => Some(2),
            b"atan2" => Some(3),
            _ => None,
        }
    }
    fn call(&self, function: usize, args: &Vec<Float>) -> Float {
        let a: Vec<f64> = args.iter().map(|x| f(*x)).collect();
        fl(match (function, a.len()) {
            (0, 1) => a[0].sin(),
            (1, 1) => a[0].cos(),
            (2, 1) => a[0].tan(),
            (3, 2) => a[0].atan2(a[1]),
            _ => f64::NAN,
        })
    }
}

fn calc(input: &str) -> Result<UnitValue, CalculatorError> {
    Calculator::calculate(input.as_bytes(), &StdHost).result
}

fn value_of(v: f64) -> Value {
    Value::from_float(fl(v)).unwrap()
}

fn same(a: &Value, b: &Value) -> bool {
    a.cmp(b, &StdHost) == Ordering::Equal
}

fn test_expr(input: &str, expected: f64) {
    match calc(input) {
        Ok(v) => {
            assert!(v.unitless(), "{}: unexpected unit", input);
            assert!(same(&v.value, &value_of(expected)), "{}: got {:?}", input, v.value);
        }
        Err(e) => panic!("{}: failed with {:?}", input, e),
    }
}

fn test_approx(input: &str, expected: f64) {
    match calc(input) {
        Ok(v) => assert!((f(v.value.as_float(&StdHost)) - expected).abs() < 1e-6),
        Err(e) => panic!("input not consumed: {:?}", e),
    }
}

fn fail_expr(input: &str) {
    if calc(input).is_ok() {
        panic!("should have failed");
    }
}

fn exact_parts(input: &str) -> Option<(i32, u32)> {
    match calc(input).unwrap().value {
        Value::Exact(q) => Some((q.numer(), q.denom())),
        Value::Inexact(_) => None,
    }
}

#[test]
fn test_exponents() {
    test_expr("2^1^5", 2.0);
}

#[test]
fn test_muldiv() {
    test_expr("2*3", 6.0);
    test_expr("3/2", 1.5);
    test_expr("3/2*4", 6.0);
    test_expr("2^2*3", 12.0);
    test_expr("2 2 2 ", 8.0);
}

#[test]
fn test_implied_mul() {
    test_expr("1/2(4)", 0.125);
    test_expr("1/2 (4)", 2.0);
    test_expr("1(2)3(4)5(6)7(8)9(10)", 3628800.0)
}

#[test]
fn test_addsub() {
    test_expr("1+1", 2.0);
    test_expr("3-2", 1.0);
    test_expr("3-2+3", 4.0);
    test_expr("2^3*4-5", 27.0);
}

#[test]
fn test_whitespace() {
    test_expr(" (2^39)* 122/2 + 80 -1023 ", 33535104646225.0);
    test_expr("(    2     ^   1   )   * 5    / 2 +   3    - 5", 3.0);
}

#[test]
fn test_huge() {
    test_expr("(((17 - 9 - 14) / 1 + 13 * 15) / 5 / 8 - 18) / 11 * 15 * 17 / (16 / 5 + 10 * 16 / ((5 / 14 - 3 - 4 - 6) * (9 * 7 / 2 - 7 - 16)))", -179.844926355302559466636533137465393525057912876433696);
}

#[test]
fn test_unary() {
    test_expr("1+-1(2)", -1.0);
    test_expr("1/2-2", -1.5);
    test_expr("1+1", 2.0);
    test_expr("1 + 1", 2.0);
    test_expr("1+1/-(3-2)", 0.0);
    test_expr("-2^2", -4.0);
    test_expr("2^-2", 0.25);
    test_expr("-2(5)", -10.0);
}

#[test]
fn test_thomas() {
    test_expr("1+1", 2.0);
    test_expr("2^(3*2-4)-4", 0.0);
}

#[test]
fn test_floating() {
    test_expr("5", 5.0);
    test_expr("2.3e2", 230.0);
    test_expr("5e-2", 0.05);
    test_expr("8_230_999", 8_230_999.0);
    fail_expr("_");
    test_expr(".2", 0.2);
    test_expr("123.0", 123.0f64);
    test_expr("0.1", 0.1f64);
    test_expr("12E+99", 12E+99_f64);
    test_expr("2.", 2.);
}

#[test]
fn test_num_const() {
    test_expr("pi", std::f64::consts::PI);
    test_expr("e", std::f64::consts::E);
}

#[test]
fn test_function() {
    test_approx("sin(pi/6)", 0.5);
    test_approx("atan2(1, 1)", std::f64::consts::FRAC_PI_4);
}

#[test]
fn test_as_float() {
    for a in vec![f64::INFINITY, -f64::INFINITY, 0.0, -0.0, 8.0, 0.125, 10e100] {
        assert_eq!(f(Value::from_float(fl(a)).unwrap().as_float(&StdHost)), a);
    }
}

#[test]
fn test_simple_arithmetic() {
    let h = StdHost;
    assert!(same(&value_of(4.0).add(&value_of(1.0), &h).unwrap(), &value_of(5.0)));
    assert!(same(&value_of(4.0).sub(&value_of(1.0), &h).unwrap(), &value_of(3.0)));
    assert!(same(&value_of(4.0).mul(&value_of(1.0), &h).unwrap(), &value_of(4.0)));
    assert!(same(&value_of(4.0).div(&value_of(2.0), &h).unwrap(), &value_of(2.0)));
}

#[test]
fn implied_product_binds_tighter_than_division() {
    test_approx("1/2pi", 1.0 / (2.0 * std::f64::consts::PI));
    test_approx("1/2 pi", std::f64::consts::PI / 2.0);
    test_expr("3 + 2", 5.0);
}

#[test]
fn errors_by_kind() {
    assert_eq!(calc("1/0").err(), Some(CalculatorError::DivideByZeroError));
    assert_eq!(calc("_").err(), Some(CalculatorError::SyntaxError));
    assert_eq!(calc("").err(), Some(CalculatorError::SyntaxError));
    assert_eq!(calc("   ").err(), Some(CalculatorError::SyntaxError));
    assert_eq!(calc("2 +").err(), Some(CalculatorError::SyntaxError));
    assert_eq!(calc("(1").err(), Some(CalculatorError::SyntaxError));
    assert_eq!(calc("1?").err(), Some(CalculatorError::SyntaxError));
    assert_eq!(calc("foo").err(), Some(CalculatorError::SyntaxError));
    assert_eq!(calc("atan2(1)").err(), Some(CalculatorError::DomainError));
    assert_eq!(calc("m + 1").err(), Some(CalculatorError::UnitError));
    assert_eq!(calc("2^m").err(), Some(CalculatorError::UnitError));
    assert_eq!(calc("m^0.5").err(), Some(CalculatorError::UnitError));
    assert_eq!(calc("sin(m)").err(), Some(CalculatorError::UnitError));
}

#[test]
fn first_error_reaches_the_top() {
    assert_eq!(calc("1/0 + m").err(), Some(CalculatorError::DivideByZeroError));
    assert_eq!(calc("(1/0) * (2^m)").err(), Some(CalculatorError::UnitError));
    assert_eq!(calc("(2^m) * (1/0)").err(), Some(CalculatorError::DivideByZeroError));
    assert_eq!(calc("-(1/0)").err(), Some(CalculatorError::DivideByZeroError));
    assert_eq!(calc("atan2(1/0, 2^m)").err(), Some(CalculatorError::DivideByZeroError));
}

#[test]
fn units_add_and_multiply() {
    let v = calc("2 m * 3 m").unwrap();
    assert_eq!(v.unit.length, 2);
    assert!(same(&v.value, &value_of(6.0)));
    let w = calc("m + m").unwrap();
    assert_eq!(w.unit.length, 1);
    let q = calc("m / m").unwrap();
    assert!(q.unitless());
    let c = calc("m^3").unwrap();
    assert_eq!(c.unit.length, 3);
    let d = calc("m^-2").unwrap();
    assert_eq!(d.unit.length, -2);
}

#[test]
fn unit_value_operations() {
    let h = StdHost;
    let m = metre();
    let one = UnitValue::from_float(fl(1.0)).unwrap();
    assert_eq!(m.add(&one, &h).err(), Some(ArithmeticError::UnitError));
    assert_eq!(m.sub(&one, &h).err(), Some(ArithmeticError::UnitError));
    assert_eq!(m.add(&m, &h).unwrap().unit, m.unit);
    assert_eq!(m.mul(&m, &h).unwrap().unit.length, 2);
    assert_eq!(one.div(&m, &h).unwrap().unit.length, -1);
    assert_eq!(m.neg().unit, m.unit);
}

#[test]
fn literals_that_are_eighths_are_exact() {
    assert_eq!(exact_parts("0.125"), Some((1, 8)));
    assert_eq!(exact_parts("2.5"), Some((5, 2)));
    assert_eq!(exact_parts("1_000"), Some((1000, 1)));
    assert_eq!(exact_parts("2.3e2"), Some((230, 1)));
    assert_eq!(exact_parts("12500e-5"), Some((1, 8)));
    assert_eq!(exact_parts("268435455"), Some((268435455, 1)));
    assert_eq!(exact_parts("0.1"), None);
    assert_eq!(exact_parts("268435456"), None);
    assert_eq!(exact_parts("12E+99"), None);
    assert_eq!(exact_parts("1e-4"), None);
}

#[test]
fn inexact_stays_inexact() {
    assert_eq!(exact_parts("0.1 * 10"), None);
    assert_eq!(exact_parts("pi - pi"), None);
    assert_eq!(exact_parts("3/4 + 1/4"), Some((1, 1)));
}

#[test]
fn double_negation() {
    assert_eq!(exact_parts("--3"), Some((3, 1)));
    assert_eq!(exact_parts("- -3"), Some((3, 1)));
    test_expr("--pi", std::f64::consts::PI);
    test_expr("1+-1", 0.0);
}

#[test]
fn exact_overflow_falls_back_to_float() {
    assert_eq!(exact_parts("2^31"), None);
    test_expr("2^31", 2147483648.0);
    test_expr("65536 * 65536", 4294967296.0);
    assert_eq!(exact_parts("2^30"), Some((1073741824, 1)));
}

#[test]
fn ordering_needs_equal_units() {
    let h = StdHost;
    let m = metre();
    let one = UnitValue::from_float(fl(1.0)).unwrap();
    let two = UnitValue::from_float(fl(2.0)).unwrap();
    assert_eq!(m.partial_cmp(&one, &h), None);
    assert_eq!(one.partial_cmp(&two, &h), Some(Ordering::Less));
    assert_eq!(m.partial_cmp(&m, &h), Some(Ordering::Equal));
}

#[test]
fn number_forms() {
    test_expr("1e10", 1e10);
    test_expr("1E+10", 1e10);
    test_expr("123.456", 123.456);
    test_expr("_.5", 0.5);
    test_expr("._", 0.0);
    test_approx("2e", 2.0 * std::f64::consts::E);
    fail_expr("1e_");
    fail_expr("_.");
    assert_eq!(exact_parts(".5"), Some((1, 2)));
    assert_eq!(exact_parts("1.e1"), Some((10, 1)));
}

#[test]
fn lexer_reads_a_literal() {
    let s = b"12_3.40e-1x";
    let (lit, end) = ucalc::parser::number(s, 0).unwrap();
    assert_eq!(end, 10);
    assert_eq!(lit.digits, b"12340".to_vec());
    assert_eq!(lit.frac_len, 2);
    assert!(lit.has_exp && lit.exp_negative);
    assert_eq!(lit.exp_digits, b"1".to_vec());
    assert_eq!(lit.exact_eighths(), None);
    let (lit, _) = ucalc::parser::number(b"0.375", 0).unwrap();
    assert_eq!(lit.exact_eighths(), Some(3));
    assert!(ucalc::parser::number(b"x1", 0).is_none());
    assert!(ucalc::parser::number(b".", 0).is_none());
}

#[test]
fn gcd_reduction_of_powers_of_two() {
    assert_eq!(exact_parts("48/64"), Some((3, 4)));
    assert_eq!(exact_parts("1024/4096"), Some((1, 4)));
    assert_eq!(exact_parts("-35/49"), Some((-5, 7)));
}

#[test]
fn expression_leaves() {
    let e = make_value(fl(2.5));
    assert!(e.is_known());
    assert!(!e.is_error());
    assert_eq!(f(e.extract_float(&StdHost)), 2.5);
    let bad = make_value(fl(f64::NAN));
    assert!(bad.is_error());
    let folded = Expression::Neg(Box::new(Expression::Neg(Box::new(bad)))).simplify1(&StdHost);
    assert!(folded.is_error());
    let known = Expression::Add(Box::new(make_value(metre())), Box::new(make_value(metre())))
        .simplify1(&StdHost);
    assert_eq!(known.extract_value().unit.length, 1);
}

#[test]
fn decimal_arithmetic_stays_exact() {
    assert_eq!(exact_parts("0.5 + 0.25"), Some((3, 4)));
    assert_eq!(exact_parts("1_0.5 * 2"), Some((21, 1)));
    assert_eq!(exact_parts("(1.5 - .5) ^ 3"), Some((1, 1)));
    assert_eq!(exact_parts("2 ^ -1 / 4"), Some((1, 8)));
    assert_eq!(exact_parts("7 - 2 - 1"), Some((4, 1)));
    assert_eq!(exact_parts("2 ^ 3 ^ 2"), Some((512, 1)));
    assert_eq!(exact_parts("-2 ^ 2"), Some((-4, 1)));
    assert_eq!(exact_parts("1/2 4"), Some((2, 1)));
    assert_eq!(exact_parts("1/2(4)"), Some((1, 8)));
}

#[test]
fn values_as_integers() {
    let cases: Vec<(f64, Option<i32>)> = vec![
        (3.0, Some(3)),
        (-0.0, Some(0)),
        (0.0, Some(0)),
        (2.5, None),
        (-7.0, Some(-7)),
        (2147483647.0, Some(2147483647)),
        (-2147483647.0, Some(-2147483647)),
        (2147483648.0, None),
        (-2147483648.0, None),
        (1e300, None),
        (f64::INFINITY, None),
        (f64::MIN_POSITIVE / 4.0, None),
        (4503599627370496.0, None),
        (0.5, None),
    ];
    for (x, expected) in cases {
        assert_eq!(Value::Inexact(fl(x)).as_integer(), expected, "{}", x);
    }
    assert_eq!(Value::Exact(Rational::new(-12, 3).unwrap()).as_integer(), Some(-4));
    assert_eq!(Value::Exact(Rational::new(1, 3).unwrap()).as_integer(), None);
}

#[test]
fn call_arguments_in_order() {
    let args = vec![make_value(fl(0.25)), make_value(fl(-3.5)), make_value(metre())];
    assert!(ucalc::expr::call_arguments(&args, &StdHost).is_none());
    let args = vec![make_value(fl(0.25)), make_value(fl(-3.5))];
    let floats = ucalc::expr::call_arguments(&args, &StdHost).unwrap();
    assert_eq!(floats.iter().map(|x| f(*x)).collect::<Vec<f64>>(), vec![0.25, -3.5]);
    let err = vec![make_value(fl(1.0)), Expression::Error(ArithmeticError::DomainError)];
    assert!(ucalc::expr::call_arguments(&err, &StdHost).is_none());
}

#[test]
fn literal_text_for_the_host() {
    let (lit, _) = ucalc::parser::number(b"12_3.40e-1", 0).unwrap();
    assert_eq!(lit.text(), b"123.40e-1".to_vec());
    let (lit, _) = ucalc::parser::number(b".5", 0).unwrap();
    assert_eq!(lit.text(), b"0.5".to_vec());
    let (lit, _) = ucalc::parser::number(b"7", 0).unwrap();
    assert_eq!(lit.text(), b"7.0".to_vec());
}

#[test]
fn exponent_literals_and_errors_without_names() {
    assert_eq!(exact_parts("2.3e2 * 2"), Some((460, 1)));
    assert_eq!(exact_parts("125e-3"), Some((1, 8)));
    assert_eq!(calc("1/0 + 2").err(), Some(CalculatorError::DivideByZeroError));
    assert_eq!(calc("2 + 1/0").err(), Some(CalculatorError::DivideByZeroError));
    assert_eq!(calc("(1/0)^2").err(), Some(CalculatorError::DivideByZeroError));
    assert_eq!(exact_parts("0.1 + 1"), None);
    assert_eq!(calc("1e999 - 1e999").err(), Some(CalculatorError::DomainError));
}
