//! End-to-end tests of the dice-notation engine: conversion, evaluation and
//! rendering, on fixed expressions.

use dicebot::error::RollError;
use dicebot::eval::evaluate;

#[test]
fn mul_binds_tighter_than_add() {
    assert_eq!(evaluate("2+3*4"), Ok("14".to_string()));
}

#[test]
fn parentheses_group() {
    assert_eq!(evaluate("(2+3)*4"), Ok("20".to_string()));
}

#[test]
fn integer_renders_as_itself() {
    assert_eq!(evaluate("5"), Ok("5".to_string()));
}

#[test]
fn float_literal_renders_as_float() {
    assert_eq!(evaluate("5.0"), Ok("5.0".to_string()));
}

#[test]
fn division_never_truncates() {
    assert_eq!(evaluate("1/3"), Ok("0.3333333333".to_string()));
}

#[test]
fn division_of_divisible_integers_is_float() {
    assert_eq!(evaluate("10/4"), Ok("2.5".to_string()));
    assert_eq!(evaluate("8/2"), Ok("4.0".to_string()));
}

#[test]
fn float_arithmetic_is_exact() {
    assert_eq!(evaluate("1.5+1.5"), Ok("3.0".to_string()));
    assert_eq!(evaluate("2.5*2"), Ok("5.0".to_string()));
    assert_eq!(evaluate("5.5-0.5"), Ok("5.0".to_string()));
    assert_eq!(evaluate("0.1+0.2"), Ok("0.3".to_string()));
}

#[test]
fn negative_results_render_signed() {
    assert_eq!(evaluate("1-3"), Ok("-2".to_string()));
    assert_eq!(evaluate("3-5.5"), Ok("-2.5".to_string()));
}

#[test]
fn spaces_are_ignored() {
    assert_eq!(evaluate("2 + 2"), Ok("4".to_string()));
}

#[test]
fn empty_expression_is_malformed() {
    assert_eq!(evaluate(""), Err(RollError::MalformedExpression));
}

#[test]
fn lone_operator_lacks_operands() {
    assert_eq!(evaluate("+"), Err(RollError::InsufficientOperands));
}

#[test]
fn keep_prefix_needs_direction() {
    assert_eq!(evaluate("k9"), Err(RollError::InvalidToken));
}

#[test]
fn trailing_keep_prefix_is_invalid() {
    assert_eq!(evaluate("1k"), Err(RollError::InvalidToken));
}

#[test]
fn zero_dice_are_rejected() {
    assert_eq!(evaluate("0d6"), Err(RollError::InvalidRollParameters));
}

#[test]
fn zero_sides_are_rejected() {
    assert_eq!(evaluate("1d0"), Err(RollError::InvalidRollParameters));
}

#[test]
fn unknown_characters_are_rejected() {
    assert_eq!(evaluate("2^3"), Err(RollError::InvalidToken));
}

#[test]
fn division_by_zero_is_rejected() {
    assert_eq!(evaluate("1/0"), Err(RollError::DivisionByZero));
}

#[test]
fn integer_overflow_is_rejected() {
    assert_eq!(evaluate("2000000000+2000000000"), Err(RollError::Overflow));
}

#[test]
fn oversized_literal_is_rejected() {
    assert_eq!(evaluate("99999999999"), Err(RollError::InvalidRollParameters));
}

#[test]
fn unmatched_closing_parenthesis_is_ignored() {
    assert_eq!(evaluate(")5"), Ok("5".to_string()));
    assert_eq!(evaluate("5)"), Ok("5".to_string()));
}

#[test]
fn unmatched_opening_parenthesis_reaches_the_evaluator() {
    assert_eq!(evaluate("(5"), Err(RollError::InsufficientOperands));
}

#[test]
fn extra_operands_are_malformed() {
    assert_eq!(evaluate("1 2"), Err(RollError::MalformedExpression));
}

#[test]
fn simple_roll_is_in_range() {
    for _ in 0..50 {
        let rendered = evaluate("2d6").expect("a plain roll evaluates");
        let total: i32 = rendered.parse().expect("a roll renders as an integer");
        assert!((2..=12).contains(&total));
    }
}

#[test]
fn bare_die_rolls_one_die() {
    for _ in 0..50 {
        let rendered = evaluate("d6").expect("a bare die evaluates");
        let total: i32 = rendered.parse().expect("a roll renders as an integer");
        assert!((1..=6).contains(&total));
    }
}

#[test]
fn explicit_one_die_matches_bare_die_range() {
    for _ in 0..50 {
        let rendered = evaluate("1d6").expect("one die evaluates");
        let total: i32 = rendered.parse().expect("a roll renders as an integer");
        assert!((1..=6).contains(&total));
    }
}

#[test]
fn keep_highest_keeps_three_of_four() {
    for _ in 0..50 {
        let rendered = evaluate("4d6kh3").expect("a keep filter evaluates");
        let total: i32 = rendered.parse().expect("a kept roll renders as an integer");
        assert!((3..=18).contains(&total));
    }
}

#[test]
fn keep_lowest_keeps_three_of_four() {
    for _ in 0..50 {
        let rendered = evaluate("4d6kl3").expect("a keep filter evaluates");
        let total: i32 = rendered.parse().expect("a kept roll renders as an integer");
        assert!((3..=18).contains(&total));
    }
}

#[test]
fn keep_filter_needs_a_roll() {
    assert_eq!(evaluate("3kh2"), Err(RollError::NotAnOperand));
}

#[test]
fn dice_count_must_be_integer() {
    assert_eq!(evaluate("1.5d6"), Err(RollError::NotAnOperand));
}

#[test]
fn roll_can_stand_in_arithmetic() {
    for _ in 0..20 {
        let rendered = evaluate("2d6+10").expect("a roll adds to an integer");
        let total: i32 = rendered.parse().expect("an integer rendering");
        assert!((12..=22).contains(&total));
    }
}

#[test]
fn error_messages_describe_the_kinds() {
    assert_eq!(RollError::InvalidToken.message(), "unknown token");
    assert_eq!(RollError::MalformedExpression.message(), "invalid expression");
    assert_eq!(
        RollError::InsufficientOperands.message(),
        "not enough operands for operator"
    );
}
