use automata::dfa::{DFAEvaluationError, DFA};
use automata::dfa_gen::{
    all_strings, begins_with, contains_substring, empty, ends_wtih, exact_length, length_or_less,
    modulo_n, only_string,
};

const BIN: [char; 2] = ['0', '1'];

#[test]
fn modulo_n_counts_ones() {
    let d = modulo_n(&BIN, &['1'], 0, 2).unwrap();
    assert_eq!(d.evaluate("1010"), Ok(true));
    assert_eq!(d.evaluate("100"), Ok(false));
    assert_eq!(d.evaluate("101"), Ok(true));
    assert_eq!(d.evaluate("1"), Ok(false));
    assert_eq!(d.evaluate(""), Ok(true));
}

#[test]
fn modulo_n_rejects_bad_remainder() {
    assert!(modulo_n(&BIN, &['1'], 2, 2).is_err());
    assert!(modulo_n(&BIN, &['1'], -1, 2).is_err());
    assert!(modulo_n(&BIN, &['1'], 1, 3).is_ok());
}

#[test]
fn modulo_three() {
    let d = modulo_n(&BIN, &['1'], 1, 3).unwrap();
    assert_eq!(d.evaluate("1"), Ok(true));
    assert_eq!(d.evaluate("0100"), Ok(true));
    assert_eq!(d.evaluate("0100110"), Ok(false));
    assert_eq!(d.evaluate("11"), Ok(false));
}

#[test]
fn exact_length_three() {
    let d = exact_length(&BIN, &BIN, 3).unwrap();
    assert_eq!(d.evaluate("010"), Ok(true));
    assert_eq!(d.evaluate("01"), Ok(false));
    assert_eq!(d.evaluate("0101"), Ok(false));
    assert_eq!(d.states, 5);
}

#[test]
fn exact_length_negative() {
    assert!(exact_length(&BIN, &BIN, -1).is_err());
}

#[test]
fn length_or_less_counts_selected() {
    let d = length_or_less(&BIN, &['1'], 1).unwrap();
    assert_eq!(d.evaluate("0100"), Ok(true));
    assert_eq!(d.evaluate(""), Ok(true));
    assert_eq!(d.evaluate("11"), Ok(false));
    assert!(length_or_less(&BIN, &['1'], -2).is_err());
}

#[test]
fn only_string_exact() {
    let d = only_string(&BIN, "101").unwrap();
    assert_eq!(d.evaluate("101"), Ok(true));
    assert_eq!(d.evaluate(""), Ok(false));
    assert_eq!(d.evaluate("1011"), Ok(false));
    assert_eq!(d.evaluate("10"), Ok(false));
    assert_eq!(d.evaluate("001"), Ok(false));
}

#[test]
fn only_string_foreign_symbol() {
    assert!(only_string(&BIN, "102").is_err());
}

#[test]
fn begins_with_prefix() {
    let d = begins_with(&BIN, "10").unwrap();
    assert_eq!(d.evaluate("10"), Ok(true));
    assert_eq!(d.evaluate("101"), Ok(true));
    assert_eq!(d.evaluate("1000"), Ok(true));
    assert_eq!(d.evaluate("01"), Ok(false));
    assert_eq!(d.evaluate("1"), Ok(false));
}

#[test]
fn ends_with_suffix() {
    let d = ends_wtih(&BIN, "01").unwrap();
    assert_eq!(d.evaluate("01"), Ok(true));
    assert_eq!(d.evaluate("1101"), Ok(true));
    assert_eq!(d.evaluate("0001"), Ok(true));
    assert_eq!(d.evaluate("10"), Ok(false));
    assert_eq!(d.evaluate("011"), Ok(false));
    assert_eq!(d.evaluate(""), Ok(false));
}

#[test]
fn contains_substring_abc() {
    let d = contains_substring(&['a', 'b', 'c'], "ab").unwrap();
    assert_eq!(d.evaluate("cab"), Ok(true));
    assert_eq!(d.evaluate("abab"), Ok(true));
    assert_eq!(d.evaluate("cacbcaab"), Ok(true));
    assert_eq!(d.evaluate("ba"), Ok(false));
    assert_eq!(d.evaluate("aa"), Ok(false));
    assert_eq!(d.evaluate("acb"), Ok(false));
}

#[test]
fn contains_substring_overlap() {
    let d = contains_substring(&['a', 'b'], "aab").unwrap();
    assert_eq!(d.evaluate("aaab"), Ok(true));
    assert_eq!(d.evaluate("abaab"), Ok(true));
    assert_eq!(d.evaluate("abab"), Ok(false));
}

#[test]
fn symbol_outside_alphabet_is_an_error() {
    let d = modulo_n(&BIN, &['1'], 0, 2).unwrap();
    assert_eq!(d.evaluate("102"), Err(DFAEvaluationError::InvalidChar('2')));
    let e = exact_length(&BIN, &BIN, 1).unwrap();
    assert_eq!(e.evaluate("x"), Err(DFAEvaluationError::InvalidChar('x')));
}

#[test]
fn empty_and_all_strings() {
    let e = empty(&BIN);
    let a = all_strings(&BIN);
    for s in ["", "0", "1101"] {
        assert_eq!(e.evaluate(s), Ok(false));
        assert_eq!(a.evaluate(s), Ok(true));
    }
    assert_eq!(e.states, 1);
}

#[test]
fn placeholder_has_no_state() {
    let d = DFA::new();
    assert_eq!(d.evaluate(""), Err(DFAEvaluationError::InvalidState(0)));
    assert_eq!(d.states, 0);
    let e = DFA::default();
    assert_eq!(e.states, 0);
}

#[test]
fn pattern_generators_reject_foreign_symbols() {
    assert!(begins_with(&BIN, "1x").is_err());
    assert!(ends_wtih(&BIN, "x").is_err());
    assert!(contains_substring(&BIN, "2").is_err());
    assert!(contains_substring(&BIN, "").is_ok());
}

#[test]
fn empty_pattern_matches_everything() {
    let d = contains_substring(&BIN, "").unwrap();
    assert_eq!(d.evaluate(""), Ok(true));
    assert_eq!(d.evaluate("0110"), Ok(true));
    let e = ends_wtih(&BIN, "").unwrap();
    assert_eq!(e.evaluate("1"), Ok(true));
}
