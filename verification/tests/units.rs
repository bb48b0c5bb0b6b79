//! Component-level tests: operators, the token cursor, bounds,
//! variables and the variant enumerator.

use expr_eval::error::ExprError;
use expr_eval::token::Operand;
use expr_eval::token::Operator;
use expr_eval::token::Token;
use expr_eval::tokenizer::TokenIterator;
use expr_eval::variants::bound_of_name;
use expr_eval::variants::get_variants;
use expr_eval::variants::Variable;

#[test]
fn operator_precedence_levels() {
    assert_eq!(Operator::Mul.precedence(), 2);
    assert_eq!(Operator::Div.precedence(), 2);
    assert_eq!(Operator::Sum.precedence(), 1);
    assert_eq!(Operator::Sub.precedence(), 1);
}

#[test]
fn operator_calc_exact_results() {
    assert_eq!(Operator::Mul.calc(6, 7), Ok(42));
    assert_eq!(Operator::Sum.calc(3, 4), Ok(7));
    assert_eq!(Operator::Sub.calc(3, 4), Ok(-1));
    assert_eq!(Operator::Div.calc(7, 2), Ok(3));
}

#[test]
fn operator_division_truncates_toward_zero() {
    assert_eq!(Operator::Div.calc(-7, 2), Ok(-3));
    assert_eq!(Operator::Div.calc(7, -2), Ok(-3));
    assert_eq!(Operator::Div.calc(-7, -2), Ok(3));
}

#[test]
fn operator_division_by_zero_fails() {
    assert_eq!(Operator::Div.calc(4, 0), Err(ExprError::DivisionByZero));
}

#[test]
fn operator_overflow_fails() {
    assert_eq!(
        Operator::Sum.calc(i32::MAX, 1),
        Err(ExprError::Overflow)
    );
    assert_eq!(
        Operator::Sub.calc(i32::MIN, 1),
        Err(ExprError::Overflow)
    );
    assert_eq!(
        Operator::Mul.calc(65536, 65536),
        Err(ExprError::Overflow)
    );
    assert_eq!(
        Operator::Div.calc(i32::MIN, -1),
        Err(ExprError::Overflow)
    );
}

#[test]
fn token_iterator_walks_tokens() {
    let mut it = TokenIterator::new("12+ab3");
    assert_eq!(
        it.next(),
        Some(Token::Operand(Operand::Value(12)))
    );
    assert_eq!(it.next(), Some(Token::Operator(Operator::Sum)));
    assert_eq!(
        it.next(),
        Some(Token::Operand(Operand::Variable(String::from("ab3"))))
    );
    assert_eq!(it.next(), None);
}

#[test]
fn token_iterator_stops_at_unrecognized_character() {
    let mut it = TokenIterator::new("a1$b");
    assert_eq!(
        it.next(),
        Some(Token::Operand(Operand::Variable(String::from("a1"))))
    );
    assert_eq!(it.next(), None);
    assert_eq!(it.offset, 2);
    assert_eq!(it.next(), None);
}

#[test]
fn bound_of_name_reads_trailing_suffix() {
    assert_eq!(bound_of_name("x5"), Ok(5));
    assert_eq!(bound_of_name("x05"), Ok(5));
    assert_eq!(bound_of_name("a1b22"), Ok(22));
    assert_eq!(bound_of_name("v2147483647"), Ok(2147483647));
}

#[test]
fn bound_of_name_rejects_bad_suffixes() {
    assert_eq!(bound_of_name("foo"), Err(ExprError::InvalidVariableRange));
    assert_eq!(bound_of_name(""), Err(ExprError::InvalidVariableRange));
    assert_eq!(
        bound_of_name("v2147483648"),
        Err(ExprError::InvalidVariableRange)
    );
}

#[test]
fn variable_new_and_inc_cycle() {
    let mut v = Variable::new(String::from("x3")).unwrap();
    assert_eq!(v.name, "x3");
    assert_eq!(v.val, 0);
    assert_eq!(v.start, 1);
    assert_eq!(v.end, 3);
    assert_eq!(v.inc(), 1);
    assert_eq!(v.inc(), 2);
    assert_eq!(v.inc(), 3);
    assert_eq!(v.inc(), 1);
}

#[test]
fn variable_new_rejects_missing_suffix() {
    assert!(matches!(
        Variable::new(String::from("x")),
        Err(ExprError::InvalidVariableRange)
    ));
}

#[test]
fn variants_of_empty_bounds_is_one_empty_variant() {
    let vs = get_variants(&[]);
    assert_eq!(vs, vec![Vec::<i32>::new()]);
}

#[test]
fn variants_of_zero_bound_is_empty() {
    assert_eq!(get_variants(&[0]), Vec::<Vec<i32>>::new());
    assert_eq!(get_variants(&[2, 0]), Vec::<Vec<i32>>::new());
}

#[test]
fn variants_single_bound() {
    assert_eq!(get_variants(&[2]), vec![vec![1], vec![2]]);
}

#[test]
fn variants_full_product_in_order() {
    let vs = get_variants(&[2, 3]);
    assert_eq!(
        vs,
        vec![
            vec![1, 1],
            vec![1, 2],
            vec![1, 3],
            vec![2, 1],
            vec![2, 2],
            vec![2, 3],
        ]
    );
}

#[test]
fn variants_count_is_product_and_distinct() {
    let vs = get_variants(&[2, 3, 2]);
    assert_eq!(vs.len(), 12);
    for i in 0..vs.len() {
        for j in 0..vs.len() {
            if i != j {
                assert_ne!(vs[i], vs[j]);
            }
        }
    }
}
