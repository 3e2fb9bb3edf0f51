use calc::compute;
use calc::evaluator::evaluate;
use calc::token::CalcError;
use calc::token::Token;
use calc::tokenizer::tokenize;

#[test]
fn tokenize_basic_test() {
    let a = "42 + 0 % 13";
    assert_eq!(
        vec![
            Token::Number(42),
            Token::Plus,
            Token::Number(0),
            Token::Mod,
            Token::Number(13)
        ],
        tokenize(a).unwrap()
    );
}

#[test]
fn tokenize_negative_test() {
    let a = "-42 + 0 % 13";
    assert_eq!(
        vec![
            Token::Number(-42),
            Token::Plus,
            Token::Number(0),
            Token::Mod,
            Token::Number(13)
        ],
        tokenize(a).unwrap()
    );
}

#[test]
fn tokenize_fail_test() {
    let a = "-42 + 0 % 13 prout";
    assert!(tokenize(a).is_err());
}

#[test]
fn parse_basic_test() {
    let a = vec![Token::Number(42), Token::Plus, Token::Number(8)];
    assert_eq!(50, evaluate(&a).unwrap());
    // strictly left to right: (42 + 10) % 8
    let a = vec![
        Token::Number(42),
        Token::Plus,
        Token::Number(10),
        Token::Mod,
        Token::Number(8),
    ];
    assert_eq!(4, evaluate(&a).unwrap());
    let a = vec![Token::Number(42), Token::Plus, Token::Number(-50)];
    assert_eq!(-8, evaluate(&a).unwrap());
}

#[test]
fn parse_empty_test() {
    let a = vec![];
    assert!(evaluate(&a).is_err());
    let a = vec![Token::Plus];
    assert!(evaluate(&a).is_err());
    let a = vec![Token::Plus, Token::Number(12)];
    assert!(evaluate(&a).is_err());
    let a = vec![
        Token::Number(12),
        Token::Plus,
        Token::Number(8),
        Token::Number(3),
    ];
    assert!(evaluate(&a).is_err());
}

#[test]
fn real_parse_test() {
    // strictly left to right: ((735926 % 51245) + 735926) % 913
    let a = "735926 % 51245 + 735926 % 913";
    assert_eq!(compute(&a).unwrap(), 284);
}

#[test]
fn left_to_right_no_precedence() {
    // (42 + 8) % 10, not 42 + (8 % 10)
    let a = vec![
        Token::Number(42),
        Token::Plus,
        Token::Number(8),
        Token::Mod,
        Token::Number(10),
    ];
    assert_eq!(Ok(0), evaluate(&a));
}

#[test]
fn single_number() {
    assert_eq!(Ok(42), compute("42"));
    let a = vec![Token::Number(-3)];
    assert_eq!(Ok(-3), evaluate(&a));
}

#[test]
fn empty_input_is_tokenize_error() {
    assert_eq!(Err(CalcError::TokenizeError), compute(""));
    assert_eq!(Err(CalcError::TokenizeError), tokenize("").map(|_| ()));
}

#[test]
fn consecutive_spaces_are_tokenize_errors() {
    assert_eq!(Err(CalcError::TokenizeError), compute("1  2"));
    assert_eq!(Err(CalcError::TokenizeError), compute(" 1 + 2"));
    assert_eq!(Err(CalcError::TokenizeError), compute("1 + 2 "));
}

#[test]
fn bad_pieces_are_tokenize_errors() {
    assert_eq!(Err(CalcError::TokenizeError), compute("12x"));
    assert_eq!(Err(CalcError::TokenizeError), compute("1.5 + 2"));
    assert_eq!(Err(CalcError::TokenizeError), compute("--3"));
    assert_eq!(Err(CalcError::TokenizeError), compute("+5"));
    assert_eq!(Err(CalcError::TokenizeError), compute("1 ++ 2"));
    assert_eq!(Err(CalcError::TokenizeError), compute("-"));
}

#[test]
fn empty_expression_error() {
    let a = vec![];
    assert_eq!(Err(CalcError::EmptyExpressionError), evaluate(&a));
}

#[test]
fn leading_operator_error() {
    let a = vec![Token::Plus, Token::Number(12)];
    assert_eq!(Err(CalcError::LeadingOperatorError), evaluate(&a));
    let a = vec![Token::Mod];
    assert_eq!(Err(CalcError::LeadingOperatorError), evaluate(&a));
}

#[test]
fn malformed_sequence_errors() {
    // trailing unpaired token
    let a = vec![Token::Number(12), Token::Plus];
    assert_eq!(Err(CalcError::MalformedSequenceError), evaluate(&a));
    // two consecutive operators
    let a = vec![Token::Number(12), Token::Plus, Token::Mod];
    assert_eq!(Err(CalcError::MalformedSequenceError), evaluate(&a));
    // two consecutive numbers
    let a = vec![
        Token::Number(12),
        Token::Plus,
        Token::Number(8),
        Token::Number(3),
    ];
    assert_eq!(Err(CalcError::MalformedSequenceError), evaluate(&a));
}

#[test]
fn division_by_zero_error() {
    assert_eq!(Err(CalcError::DivisionByZeroError), compute("5 % 0"));
    let a = vec![Token::Number(5), Token::Mod, Token::Number(0)];
    assert_eq!(Err(CalcError::DivisionByZeroError), evaluate(&a));
}

#[test]
fn addition_wraps_around() {
    assert_eq!(Ok(i64::MIN), compute("9223372036854775807 + 1"));
    assert_eq!(Ok(i64::MAX), compute("-9223372036854775808 + -1"));
}

#[test]
fn extreme_literals() {
    assert_eq!(
        Ok(vec![Token::Number(i64::MIN)]),
        tokenize("-9223372036854775808")
    );
    assert_eq!(
        Ok(vec![Token::Number(i64::MAX)]),
        tokenize("9223372036854775807")
    );
    assert_eq!(
        Err(CalcError::TokenizeError),
        tokenize("9223372036854775808").map(|_| ())
    );
    assert_eq!(
        Err(CalcError::TokenizeError),
        tokenize("-9223372036854775809").map(|_| ())
    );
}

#[test]
fn remainder_takes_the_dividend_sign() {
    assert_eq!(Ok(-1), compute("-7 % 3"));
    assert_eq!(Ok(1), compute("7 % -3"));
    assert_eq!(Ok(-1), compute("-7 % -3"));
}

#[test]
fn min_mod_minus_one_is_zero() {
    let a = vec![Token::Number(i64::MIN), Token::Mod, Token::Number(-1)];
    assert_eq!(Ok(0), evaluate(&a));
}

#[test]
fn leading_zeros_are_accepted() {
    assert_eq!(Ok(8), compute("007 + 01"));
    assert_eq!(Ok(0), compute("-0"));
}

#[test]
fn compute_is_deterministic() {
    let a = "735926 % 51245 + 735926 % 913";
    assert_eq!(compute(a), compute(a));
    let b = "1 + + 2";
    assert_eq!(compute(b), compute(b));
}
