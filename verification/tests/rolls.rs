//! Tests of the roll entity: rolling, the invariant between results and
//! total, and the keep filters on fixed results.

use dicebot::error::RollError;
use dicebot::roll::Roll;
use dicebot::token::Token;

#[test]
fn roll_total_matches_results() {
    for _ in 0..50 {
        let roll = Roll::mdn(4, 6).expect("four dice of six sides roll");
        let results = roll.results().clone();
        assert_eq!(results.len(), 4);
        for &r in &results {
            assert!((1..=6).contains(&r));
        }
        let sum: i32 = results.iter().sum();
        assert_eq!(roll.total(), sum);
        assert!((4..=24).contains(&roll.total()));
    }
}

#[test]
fn zero_count_is_rejected() {
    assert_eq!(Roll::mdn(0, 6).unwrap_err(), RollError::InvalidRollParameters);
}

#[test]
fn negative_sides_are_rejected() {
    assert_eq!(Roll::mdn(2, -3).unwrap_err(), RollError::InvalidRollParameters);
}

#[test]
fn one_one_sided_die_rolls_one() {
    let roll = Roll::mdn(1, 1).expect("one die of one side rolls");
    assert_eq!(roll.total(), 1);
    assert_eq!(roll.results().as_slice(), &[1]);
}

#[test]
fn keep_highest_keeps_the_largest() {
    let mut roll = Roll::from_results(vec![3, 5, 2, 6]).expect("fixed results build a roll");
    let token = roll.keep_highest(3);
    assert!(matches!(token, Token::Int(14)));
    assert_eq!(roll.total(), 14);
    assert_eq!(roll.results().as_slice(), &[6, 5, 3]);
}

#[test]
fn keep_lowest_keeps_the_smallest() {
    let mut roll = Roll::from_results(vec![3, 5, 2, 6]).expect("fixed results build a roll");
    let token = roll.keep_lowest(3);
    assert!(matches!(token, Token::Int(10)));
    assert_eq!(roll.total(), 10);
    assert_eq!(roll.results().as_slice(), &[2, 3, 5]);
}

#[test]
fn keeping_more_than_rolled_keeps_all() {
    let mut roll = Roll::from_results(vec![2, 4]).expect("fixed results build a roll");
    let token = roll.keep_highest(5);
    assert!(matches!(token, Token::Int(6)));
    assert_eq!(roll.results().as_slice(), &[4, 2]);
}

#[test]
fn keeping_none_collapses_to_zero() {
    let mut roll = Roll::from_results(vec![2, 4]).expect("fixed results build a roll");
    let token = roll.keep_highest(0);
    assert!(matches!(token, Token::Int(0)));
    assert!(roll.results().is_empty());
}

#[test]
fn ties_keep_equal_values() {
    let mut roll = Roll::from_results(vec![4, 4, 1, 4]).expect("fixed results build a roll");
    let token = roll.keep_highest(2);
    assert!(matches!(token, Token::Int(8)));
}

#[test]
fn results_below_one_build_no_roll() {
    assert!(Roll::from_results(vec![]).is_none());
    assert!(Roll::from_results(vec![3, 0]).is_none());
    assert!(Roll::from_results(vec![-2]).is_none());
}

#[test]
fn overflowing_results_build_no_roll() {
    assert!(Roll::from_results(vec![i32::MAX, 1]).is_none());
}
