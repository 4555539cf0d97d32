//! The alignment scorer, driven through the caller-supplied scratch grid.

use rover::scoring::{score, ScoringCriteria};

#[test]
fn search_test_missing_chars_invalid() {
    let mut opt = vec![0i16; 50];

    assert_eq!(0, score("Hello", "Halo", &ScoringCriteria::default(), &mut opt));
}

#[test]
fn search_test_missing_wrong_order_invalid() {
    let mut opt = vec![0i16; 50];

    assert_eq!(0, score("Hello", "elH", &ScoringCriteria::default(), &mut opt));
}

#[test]
fn search_test_all_match_score() {
    let mut opt = vec![0i16; 50];

    assert_eq!(80, score("Hello", "Hello", &ScoringCriteria::default(), &mut opt));
}

#[test]
fn search_test_partial_match_front() {
    let mut opt = vec![0i16; 50];

    assert_eq!(32, score("Hello", "He", &ScoringCriteria::default(), &mut opt));
}

#[test]
fn search_test_partial_match_end() {
    let mut opt = vec![0i16; 50];

    assert_eq!(48, score("Hello", "llo", &ScoringCriteria::default(), &mut opt));
}

#[test]
fn search_test_partial_match_gap() {
    let mut opt = vec![0i16; 50];

    assert_eq!(44, score("Hello", "Hlo", &ScoringCriteria::default(), &mut opt));
}
