//! End-to-end scenarios for the expression engine.

use expr_eval::error::ExprError;
use expr_eval::postfix::infix_to_postfix;
use expr_eval::render::tokens_to_text;
use expr_eval::run_expression;
use expr_eval::token::Operand;
use expr_eval::token::Operator;
use expr_eval::token::Token;
use expr_eval::tokenizer::tokenize;
use expr_eval::variants::variable_bounds;

fn value(v: i32) -> Token {
    Token::Operand(Operand::Value(v))
}

fn variable(name: &str) -> Token {
    Token::Operand(Operand::Variable(String::from(name)))
}

fn op(o: Operator) -> Token {
    Token::Operator(o)
}

#[test]
fn tokenize_simple_expression() {
    let tokens = tokenize("3+4*2").unwrap();
    assert_eq!(
        tokens,
        vec![
            value(3),
            op(Operator::Sum),
            value(4),
            op(Operator::Mul),
            value(2),
        ]
    );
}

#[test]
fn postfix_and_eval_simple_expression() {
    let tokens = tokenize("3+4*2").unwrap();
    let post = infix_to_postfix(&tokens).unwrap();
    assert_eq!(
        post,
        vec![
            value(3),
            value(4),
            value(2),
            op(Operator::Mul),
            op(Operator::Sum),
        ]
    );
    assert_eq!(expr_eval::eval::calc(&post, &Vec::new()), Ok(11));
}

#[test]
fn bracketed_expression_evaluates() {
    let tokens = tokenize("(1+2)*3").unwrap();
    assert_eq!(
        tokens,
        vec![
            Token::BracketOpen,
            value(1),
            op(Operator::Sum),
            value(2),
            Token::BracketClose,
            op(Operator::Mul),
            value(3),
        ]
    );
    let post = infix_to_postfix(&tokens).unwrap();
    assert_eq!(
        post,
        vec![
            value(1),
            value(2),
            op(Operator::Sum),
            value(3),
            op(Operator::Mul),
        ]
    );
    assert_eq!(expr_eval::eval::calc(&post, &Vec::new()), Ok(9));
    assert_eq!(run_expression("(1+2)*3"), Ok(vec![9]));
}

#[test]
fn variable_expression_enumerates_in_order() {
    let tokens = tokenize("x2+1").unwrap();
    assert_eq!(tokens, vec![variable("x2"), op(Operator::Sum), value(1)]);
    let bounds = variable_bounds(&tokens).unwrap();
    assert_eq!(bounds, vec![2]);
    assert_eq!(run_expression("x2+1"), Ok(vec![2, 3]));
}

#[test]
fn division_by_zero_is_reported() {
    assert_eq!(run_expression("4/0"), Err(ExprError::DivisionByZero));
}

#[test]
fn unbalanced_open_bracket_is_reported() {
    let tokens = tokenize("(1+2").unwrap();
    assert_eq!(
        infix_to_postfix(&tokens),
        Err(ExprError::UnbalancedParentheses)
    );
    assert_eq!(
        run_expression("(1+2"),
        Err(ExprError::UnbalancedParentheses)
    );
}

#[test]
fn unbalanced_close_bracket_is_reported() {
    assert_eq!(
        run_expression("1+2)"),
        Err(ExprError::UnbalancedParentheses)
    );
}

#[test]
fn lex_error_carries_offset() {
    assert_eq!(run_expression("3%4"), Err(ExprError::LexError(1)));
    assert_eq!(run_expression("#"), Err(ExprError::LexError(0)));
}

#[test]
fn oversized_literal_is_a_lex_error() {
    assert_eq!(run_expression("99999999999"), Err(ExprError::LexError(0)));
    assert_eq!(run_expression("2147483647"), Ok(vec![2147483647]));
    assert_eq!(run_expression("2147483648"), Err(ExprError::LexError(0)));
}

#[test]
fn variable_without_suffix_is_invalid() {
    assert_eq!(run_expression("abc"), Err(ExprError::InvalidVariableRange));
    assert_eq!(
        run_expression("x2+y"),
        Err(ExprError::InvalidVariableRange)
    );
}

#[test]
fn arithmetic_overflow_is_reported() {
    assert_eq!(
        run_expression("2000000000+2000000000"),
        Err(ExprError::Overflow)
    );
    assert_eq!(run_expression("0-2147483647"), Ok(vec![-2147483647]));
}

#[test]
fn malformed_postfix_is_reported() {
    assert_eq!(run_expression(""), Err(ExprError::MalformedExpression));
    assert_eq!(run_expression("3+"), Err(ExprError::MalformedExpression));
    assert_eq!(run_expression("+3"), Err(ExprError::MalformedExpression));
}

#[test]
fn expression_without_variables_evaluates_once() {
    assert_eq!(run_expression("5"), Ok(vec![5]));
    assert_eq!(run_expression("10-4-3"), Ok(vec![3]));
    assert_eq!(run_expression("20/3"), Ok(vec![6]));
}

#[test]
fn each_occurrence_varies_independently() {
    // Two occurrences of the same name are two independent slots.
    let results = run_expression("x2+x2").unwrap();
    assert_eq!(results, vec![2, 3, 3, 4]);
}

#[test]
fn render_round_trip_reproduces_tokens() {
    let tokens = tokenize("3+x12*(7-2)").unwrap();
    let text = tokens_to_text(&tokens);
    assert_eq!(text, "3+x12*(7-2)");
    let again = tokenize(text.as_str()).unwrap();
    assert_eq!(again, tokens);
}

#[test]
fn render_single_value() {
    let tokens = vec![value(42)];
    assert_eq!(tokens_to_text(&tokens), "42");
    let zero = vec![value(0)];
    assert_eq!(tokens_to_text(&zero), "0");
}
