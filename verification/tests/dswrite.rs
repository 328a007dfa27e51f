use simple_calculator::calculator::{Calculator, EvalError};
use simple_calculator::token::Token;
use simple_calculator::value::Value;

fn num(num: u128, den: u128) -> Token {
    Token::Number(Value { neg: false, num, den })
}

fn val_f64(v: &Value) -> f64 {
    let m = (v.num as f64) / (v.den as f64);
    if v.neg {
        -m
    } else {
        m
    }
}

fn calc_f64(calc: &mut Calculator) -> f64 {
    val_f64(&calc.calculate().unwrap())
}

#[test]
fn test_parse_tokens() {
    let tokens = Calculator::parse_tokens("1 + 2.5 * (3 - 4)".to_string());
    assert_eq!(
        tokens,
        vec![
            num(1, 1),
            Token::Add,
            num(25, 10),
            Token::Mul,
            Token::LParen,
            num(3, 1),
            Token::Sub,
            num(4, 1),
            Token::RParen,
        ]
    );

    let tokens = Calculator::parse_tokens("1.2.3".to_string());
    assert!(matches!(tokens[0], Token::Invalid(_)));
}

#[test]
fn test_simple_addition() {
    let mut calc = Calculator::new("1 + 2".to_string());
    assert_eq!(calc_f64(&mut calc), 3.0);

    let mut calc = Calculator::new("1 + 2 + 3 + 4".to_string());
    assert_eq!(calc_f64(&mut calc), 10.0);
}

#[test]
fn test_subtraction() {
    let mut calc = Calculator::new("5 - 3".to_string());
    assert_eq!(calc_f64(&mut calc), 2.0);

    let mut calc = Calculator::new("10 - 2 - 3".to_string());
    assert_eq!(calc_f64(&mut calc), 5.0);
}

#[test]
fn test_multiplication() {
    let mut calc = Calculator::new("2 * 3".to_string());
    assert_eq!(calc_f64(&mut calc), 6.0);

    let mut calc = Calculator::new("2 * 3 * 4".to_string());
    assert_eq!(calc_f64(&mut calc), 24.0);
}

#[test]
fn test_division() {
    let mut calc = Calculator::new("6 / 2".to_string());
    assert_eq!(calc_f64(&mut calc), 3.0);

    let mut calc = Calculator::new("10 / 2 / 5".to_string());
    assert_eq!(calc_f64(&mut calc), 1.0);
}

#[test]
fn test_division_by_zero() {
    let mut calc = Calculator::new("5 / 0".to_string());
    assert_eq!(calc.calculate(), Err(EvalError::DivisionByZero));
}

#[test]
fn test_modulo() {
    let mut calc = Calculator::new("5 % 2".to_string());
    assert_eq!(calc_f64(&mut calc), 1.0);

    let mut calc = Calculator::new("10 % 3 % 2".to_string());
    assert_eq!(calc_f64(&mut calc), 1.0);
}

#[test]
fn test_modulo_by_zero() {
    let mut calc = Calculator::new("5 % 0".to_string());
    assert_eq!(calc.calculate(), Err(EvalError::ModuloByZero));
}

#[test]
fn dswrite_test_operator_precedence() {
    let mut calc = Calculator::new("2 + 3 * 4".to_string());
    assert_eq!(calc_f64(&mut calc), 14.0);

    let mut calc = Calculator::new("(2 + 3) * 4".to_string());
    assert_eq!(calc_f64(&mut calc), 20.0);
}

#[test]
fn dswrite_test_parentheses() {
    let mut calc = Calculator::new("(1 + 2) * 3".to_string());
    assert_eq!(calc_f64(&mut calc), 9.0);

    let mut calc = Calculator::new("1 + (2 * 3) + 4".to_string());
    assert_eq!(calc_f64(&mut calc), 11.0);

    let mut calc = Calculator::new("((1 + 2) * (3 + 4))".to_string());
    assert_eq!(calc_f64(&mut calc), 21.0);
}

#[test]
fn test_unmatched_parentheses() {
    let mut calc = Calculator::new("(1 + 2".to_string());
    assert_eq!(calc.calculate(), Err(EvalError::UnmatchedParenthesis));

    let mut calc = Calculator::new("1 + 2)".to_string());
    assert!(calc.calculate().is_err());
}

#[test]
fn dswrite_test_negative_numbers() {
    let mut calc = Calculator::new("-5 + 3".to_string());
    assert_eq!(calc_f64(&mut calc), -2.0);

    let mut calc = Calculator::new("5 * -3".to_string());
    assert_eq!(calc_f64(&mut calc), -15.0);

    let mut calc = Calculator::new("-(-3)".to_string());
    assert_eq!(calc_f64(&mut calc), 3.0);
}

#[test]
fn dswrite_test_decimal_numbers() {
    let mut calc = Calculator::new("1.5 + 2.5".to_string());
    assert_eq!(calc_f64(&mut calc), 4.0);

    let mut calc = Calculator::new("0.1 + 0.2".to_string());
    assert!((calc_f64(&mut calc) - 0.3).abs() < f64::EPSILON);
}

#[test]
fn test_invalid_tokens() {
    let mut calc = Calculator::new("1 @ 2".to_string());
    assert!(calc.calculate().is_err());

    let mut calc = Calculator::new("abc".to_string());
    assert!(calc.calculate().is_err());
}

#[test]
fn test_whitespace_handling() {
    let mut calc = Calculator::new("  1   +   2   ".to_string());
    assert_eq!(calc_f64(&mut calc), 3.0);

    let mut calc = Calculator::new("\t1\n+\r2".to_string());
    assert_eq!(calc_f64(&mut calc), 3.0);
}

#[test]
fn test_complex_expressions() {
    let mut calc = Calculator::new("(3 + 5) * (7 - 2) / 4 % 3".to_string());
    assert_eq!(calc_f64(&mut calc), 1.0);

    let mut calc = Calculator::new("-2 * (3 + 4) - 5 / (1 + 1)".to_string());
    assert_eq!(calc_f64(&mut calc), -16.5);
}
