//! Tests of the Markov chain's pure core: word splitting, training, lookup
//! and the generated walk.

use dicebot::markov::join_words;
use dicebot::markov::split_words;
use dicebot::markov::Markov;

fn words(items: &[&str]) -> Vec<String> {
    items.iter().map(|s| s.to_string()).collect()
}

#[test]
fn lines_split_into_words() {
    assert_eq!(split_words("the quick brown fox"), words(&["the", "quick", "brown", "fox"]));
    assert_eq!(split_words("  spaced   out  "), words(&["spaced", "out"]));
    assert_eq!(split_words(""), words(&[]));
    assert_eq!(split_words("   "), words(&[]));
    assert_eq!(split_words("one"), words(&["one"]));
}

#[test]
fn words_join_with_single_spaces() {
    assert_eq!(join_words(&words(&["a", "b", "c"])), "a b c");
    assert_eq!(join_words(&words(&["a"])), "a");
    assert_eq!(join_words(&words(&[])), "");
}

#[test]
fn training_records_followers_per_run() {
    let mut m = Markov::new(2);
    m.train_words(&words(&["the", "quick", "brown", "fox"]));
    assert_eq!(
        m.continuations(&words(&["the", "quick"])),
        Some(&words(&["brown"]))
    );
    assert_eq!(
        m.continuations(&words(&["quick", "brown"])),
        Some(&words(&["fox"]))
    );
    assert_eq!(m.continuations(&words(&["brown", "fox"])), None);
    assert_eq!(m.continuations(&words(&["fox", "the"])), None);
}

#[test]
fn repeated_runs_accumulate_followers() {
    let mut m = Markov::new(1);
    m.train_words(&words(&["a", "b"]));
    m.train_words(&words(&["a", "c"]));
    assert_eq!(m.continuations(&words(&["a"])), Some(&words(&["b", "c"])));
}

#[test]
fn short_lines_teach_nothing() {
    let mut m = Markov::new(2);
    m.train_words(&words(&["too", "short"]));
    assert_eq!(m.continuations(&words(&["too", "short"])), None);
}

#[test]
fn training_lines_splits_them() {
    let mut m = Markov::new(1);
    m.train_lines(&words(&["a b", "b c"]));
    assert_eq!(m.continuations(&words(&["a"])), Some(&words(&["b"])));
    assert_eq!(m.continuations(&words(&["b"])), Some(&words(&["c"])));
}

#[test]
fn a_single_path_walks_deterministically() {
    let mut m = Markov::new(1);
    m.train_words(&words(&["a", "b", "c"]));
    assert_eq!(m.generate_string(), "a b c");
}

#[test]
fn a_two_word_key_walks_its_line() {
    let mut m = Markov::new(2);
    m.train_words(&words(&["the", "quick", "brown", "fox"]));
    assert_eq!(m.generate_string(), "the quick brown fox");
}
