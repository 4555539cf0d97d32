//! The fuzzy leaf scorer as the engine drives it.

use rover::search::algs::fuzzy::Fuzzy;
use rover::search::algs::Algorithm;

#[test]
fn fuzzy_test_missing_chars_invalid() {
    let alg = Fuzzy::default();
    assert_eq!(0, alg.score("Hello", "Halo"));
}

#[test]
fn fuzzy_test_missing_wrong_order_invalid() {
    let alg = Fuzzy::default();

    assert_eq!(0, alg.score("Hello", "elH"));
}

#[test]
fn fuzzy_test_all_match_score() {
    let alg = Fuzzy::default();

    assert_eq!(80, alg.score("Hello", "Hello"));
}

#[test]
fn fuzzy_test_partial_match_front() {
    let alg = Fuzzy::default();

    assert_eq!(32, alg.score("Hello", "He"));
}

#[test]
fn fuzzy_test_partial_match_end() {
    let alg = Fuzzy::default();

    assert_eq!(48, alg.score("Hello", "llo"));
}

#[test]
fn fuzzy_test_partial_match_gap() {
    let alg = Fuzzy::default();

    assert_eq!(44, alg.score("Hello", "Hlo"));
}

#[test]
fn fuzzy_test_single_char_case_insensitive() {
    let alg = Fuzzy::default();

    assert_eq!(16, alg.score("A", "a"));
    assert_eq!(16, alg.score("a", "A"));
    assert_eq!(0, alg.score("b", "a"));
}
