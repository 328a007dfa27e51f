use simple_calculator::calculator::Calculator;
use simple_calculator::value::Value;

fn val_f64(v: &Value) -> f64 {
    let m = (v.num as f64) / (v.den as f64);
    if v.neg {
        -m
    } else {
        m
    }
}

fn calc_f64(calc: &mut Calculator) -> f64 {
    val_f64(&calc.calculate().unwrap())
}

#[test]
fn test_basic_addition() {
    let mut calc = Calculator::new("1 + 2".to_string());
    assert_eq!(calc_f64(&mut calc), 3.0);
}

#[test]
fn test_basic_subtraction() {
    let mut calc = Calculator::new("5 - 3".to_string());
    assert_eq!(calc_f64(&mut calc), 2.0);
}

#[test]
fn test_basic_multiplication() {
    let mut calc = Calculator::new("2 * 3".to_string());
    assert_eq!(calc_f64(&mut calc), 6.0);
}

#[test]
fn test_basic_division() {
    let mut calc = Calculator::new("6 / 2".to_string());
    assert_eq!(calc_f64(&mut calc), 3.0);
}

#[test]
fn test_basic_modulo() {
    let mut calc = Calculator::new("7 % 3".to_string());
    assert_eq!(calc_f64(&mut calc), 1.0);
}

#[test]
fn evaluate_test_operator_precedence() {
    let mut calc = Calculator::new("2 + 3 * 4".to_string());
    assert_eq!(calc_f64(&mut calc), 14.0);
}

#[test]
fn evaluate_test_parentheses() {
    let mut calc = Calculator::new("(2 + 3) * 4".to_string());
    assert_eq!(calc_f64(&mut calc), 20.0);
}

#[test]
fn test_nested_parentheses() {
    let mut calc = Calculator::new("(2 + (3 * 2)) * 4".to_string());
    assert_eq!(calc_f64(&mut calc), 32.0);
}

#[test]
fn evaluate_test_negative_numbers() {
    let mut calc = Calculator::new("-3 + 5".to_string());
    assert_eq!(calc_f64(&mut calc), 2.0);
}

#[test]
fn evaluate_test_decimal_numbers() {
    let mut calc = Calculator::new("1.5 + 2.5".to_string());
    assert_eq!(calc_f64(&mut calc), 4.0);
}

#[test]
fn test_complex_expression() {
    let mut calc = Calculator::new("(3 + 5) * 2 - 8 / 4 + 10 % 3".to_string());
    assert_eq!(calc_f64(&mut calc), 15.0);
}
