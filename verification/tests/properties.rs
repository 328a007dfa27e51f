use simple_calculator::calculator::{evaluate, Calculator, EvalError};
use simple_calculator::token::Token;
use simple_calculator::value::Value;

fn rational(neg: bool, num: u128, den: u128) -> Value {
    Value { neg, num, den }
}

#[test]
fn tokenizing_twice_gives_identical_sequences() {
    let first = Calculator::parse_tokens("  1 + 2.5 * (3 - 4) @".to_string());
    let second = Calculator::parse_tokens("  1 + 2.5 * (3 - 4) @".to_string());
    assert_eq!(first, second);
}

#[test]
fn clean_literal_round_trips_to_its_exact_value() {
    assert_eq!(evaluate("2.5".to_string()), Ok(rational(false, 25, 10)));
    assert_eq!(evaluate("10".to_string()), Ok(rational(false, 10, 1)));
    assert_eq!(evaluate("1.".to_string()), Ok(rational(false, 1, 1)));
    assert_eq!(evaluate(".5".to_string()), Ok(rational(false, 5, 10)));
}

#[test]
fn whitespace_around_tokens_changes_nothing() {
    assert_eq!(
        evaluate("  1   +   2   ".to_string()),
        evaluate("1+2".to_string())
    );
    assert_eq!(evaluate("1+2".to_string()), Ok(rational(false, 3, 1)));
}

#[test]
fn unary_minus_composes() {
    assert_eq!(evaluate("-(-3)".to_string()), Ok(rational(false, 3, 1)));
    assert_eq!(evaluate("-5 + 3".to_string()), Ok(rational(true, 2, 1)));
    assert_eq!(evaluate("--3".to_string()), Ok(rational(false, 3, 1)));
}

#[test]
fn addition_is_exact_over_the_common_denominator() {
    assert_eq!(evaluate("0.1 + 0.2".to_string()), Ok(rational(false, 30, 100)));
}

#[test]
fn division_by_zero_is_checked_before_dividing() {
    assert_eq!(
        evaluate("5 / 0".to_string()),
        Err(EvalError::DivisionByZero)
    );
    assert_eq!(
        evaluate("5 / (3 - 3)".to_string()),
        Err(EvalError::DivisionByZero)
    );
}

#[test]
fn modulo_by_zero_is_checked_before_dividing() {
    assert_eq!(evaluate("5 % 0".to_string()), Err(EvalError::ModuloByZero));
    assert_eq!(
        evaluate("5 % 0.0".to_string()),
        Err(EvalError::ModuloByZero)
    );
}

#[test]
fn empty_input_reports_unexpected_end() {
    assert_eq!(
        evaluate("".to_string()),
        Err(EvalError::UnexpectedEndOfInput)
    );
    assert_eq!(
        evaluate("   ".to_string()),
        Err(EvalError::UnexpectedEndOfInput)
    );
    assert_eq!(
        evaluate("1 +".to_string()),
        Err(EvalError::UnexpectedEndOfInput)
    );
}

#[test]
fn unclassifiable_text_reports_the_offending_token() {
    assert_eq!(
        evaluate("abc".to_string()),
        Err(EvalError::UnexpectedToken(Token::Invalid('a')))
    );
    assert_eq!(
        evaluate("2 & 3".to_string()),
        Err(EvalError::TrailingTokens(1))
    );
}

#[test]
fn open_parenthesis_reports_unmatched() {
    assert_eq!(
        evaluate("(1 + 2".to_string()),
        Err(EvalError::UnmatchedParenthesis)
    );
}

#[test]
fn trailing_tokens_report_their_position() {
    assert_eq!(
        evaluate("1 + 2)".to_string()),
        Err(EvalError::TrailingTokens(3))
    );
}

#[test]
fn values_leaving_the_representation_report_overflow() {
    assert_eq!(
        evaluate("99999999999999999999 * 99999999999999999999".to_string()),
        Err(EvalError::Overflow)
    );
}

#[test]
fn malformed_literal_drops_the_rest_of_its_run() {
    // A run with two dots becomes one invalid token carrying the run's
    // first character; the remainder of the run is not re-scanned.
    let tokens = Calculator::parse_tokens("1.2.3".to_string());
    assert_eq!(tokens, vec![Token::Invalid('1')]);
    assert_eq!(
        evaluate("1.2.3".to_string()),
        Err(EvalError::UnexpectedToken(Token::Invalid('1')))
    );
    // A lone dot has no digit, so it is not a number either.
    let tokens = Calculator::parse_tokens(".".to_string());
    assert_eq!(tokens, vec![Token::Invalid('.')]);
}

#[test]
fn oversized_literal_is_invalid_rather_than_wrong() {
    // More digits than the exact representation can hold: the run
    // becomes one invalid token, never a truncated number.
    let text = "9999999999999999999999999999999999999999".to_string();
    let tokens = Calculator::parse_tokens(text);
    assert_eq!(tokens, vec![Token::Invalid('9')]);
}

#[test]
fn precedence_binds_term_operators_tighter() {
    assert_eq!(evaluate("2 + 3 * 4".to_string()), Ok(rational(false, 14, 1)));
    assert_eq!(
        evaluate("(2 + 3) * 4".to_string()),
        Ok(rational(false, 20, 1))
    );
    // Same-level operators associate to the left.
    assert_eq!(
        evaluate("10 - 2 - 3".to_string()),
        Ok(rational(false, 5, 1))
    );
    let v = evaluate("(3 + 5) * (7 - 2) / 4 % 3".to_string()).unwrap();
    assert_eq!((v.num as f64) / (v.den as f64), 1.0);
    assert!(!v.neg);
}
