use automata::dfa::{DFAEvaluationError, DFA};
use automata::dfa_gen::{contains_substring, modulo_n};

const BIN: [char; 2] = ['0', '1'];

#[test]
fn serialize_layout() {
    let d = modulo_n(&BIN, &['1'], 0, 2).unwrap();
    let text = d.to_string();
    assert_eq!(
        text,
        "2 %states\n0 %accepting states\n0,1 %alphabet\n0,1 %0:\n1,0 %1:\n"
    );
}

#[test]
fn serialize_no_accepting_state() {
    let d = DFA {
        alphabet: vec!['a'],
        states: 1,
        accepting: vec![false],
        transition: vec![vec![Some(0)]],
    };
    assert_eq!(d.to_string(), "1 %states\n %accepting states\na %alphabet\n0 %0:\n");
}

#[test]
fn parse_fields() {
    let d = DFA::from_string(String::from("3 % states\n1, 2,x\na, b\n1,2\n2,2\n0\n"));
    assert_eq!(d.states, 3);
    assert_eq!(d.accepting, vec![false, true, true]);
    assert_eq!(d.alphabet, vec!['a', 'b']);
    assert_eq!(d.transition[0], vec![Some(1), Some(2)]);
    assert_eq!(d.transition[2], vec![Some(0), None]);
    assert_eq!(d.evaluate("ab"), Ok(true));
    assert_eq!(d.evaluate("bb"), Err(DFAEvaluationError::NoTransition((2, 'b'))));
}

#[test]
fn parse_garbage_count() {
    let d = DFA::from_string(String::from("many\n"));
    assert_eq!(d.states, 0);
    assert_eq!(d.evaluate(""), Err(DFAEvaluationError::InvalidState(0)));
}

#[test]
fn round_trip() {
    let d = contains_substring(&['a', 'b', 'c'], "ab").unwrap();
    let e = DFA::from_string(d.to_string());
    assert_eq!(e.states, d.states);
    assert_eq!(e.alphabet, d.alphabet);
    assert_eq!(e.accepting, d.accepting);
    assert_eq!(e.transition, d.transition);
    for w in ["", "ab", "cab", "ba", "abc"] {
        assert_eq!(e.evaluate(w), d.evaluate(w));
    }
}

#[test]
fn messages() {
    let d = modulo_n(&BIN, &['1'], 0, 2).unwrap();
    assert_eq!(d.evaluate_to_string("11"), "true");
    assert_eq!(d.evaluate_to_string("1"), "false");
    assert_eq!(d.evaluate_to_string("12"), "invalid character: 2");
    assert_eq!(DFA::new().evaluate_to_string(""), "invalid state: 0");
    let p = DFA::from_string(String::from("2\n1\na\n\n"));
    assert_eq!(p.evaluate_to_string("a"), "no transition found for character a and state 0");
    let q = DFA::from_string(String::from("2\n1\na\n-5\n"));
    assert_eq!(q.evaluate_to_string("a"), "invalid state: -5");
}

#[test]
fn evaluate_non_ascii() {
    let d = DFA {
        alphabet: vec!['é', 'ß'],
        states: 1,
        accepting: vec![true],
        transition: vec![vec![Some(0), Some(0)]],
    };
    assert_eq!(d.evaluate("éßé"), Ok(true));
    assert_eq!(d.evaluate("éx"), Err(DFAEvaluationError::InvalidChar('x')));
}
