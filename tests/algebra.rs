use automata::dfa::{DFAEvaluationError, DFA};
use automata::dfa_gen::{begins_with, contains_substring, ends_wtih, exact_length, modulo_n};

const BIN: [char; 2] = ['0', '1'];
const WORDS: [&str; 10] = ["", "0", "1", "01", "10", "11", "010", "101", "0110", "1101"];

fn even_ones() -> DFA {
    modulo_n(&BIN, &['1'], 0, 2).unwrap()
}

fn starts_one() -> DFA {
    begins_with(&BIN, "1").unwrap()
}

#[test]
fn double_negation_keeps_language() {
    let a = ends_wtih(&BIN, "10").unwrap();
    let n = a.negation().negation();
    for w in WORDS {
        assert_eq!(a.evaluate(w), n.evaluate(w));
    }
}

#[test]
fn negation_flips() {
    let a = even_ones();
    let n = a.negation();
    for w in WORDS {
        assert_eq!(n.evaluate(w), Ok(!a.evaluate(w).unwrap()));
    }
}

#[test]
fn intersect_is_and() {
    let a = even_ones();
    let b = starts_one();
    let r = a.intersect(&b);
    for w in WORDS {
        let x = a.evaluate(w).unwrap() && b.evaluate(w).unwrap();
        assert_eq!(r.evaluate(w), Ok(x));
    }
    assert_eq!(r.evaluate("11"), Ok(true));
    assert_eq!(r.evaluate("0"), Ok(false));
}

#[test]
fn union_is_or() {
    let a = even_ones();
    let b = starts_one();
    let r = a.union(&b);
    for w in WORDS {
        let x = a.evaluate(w).unwrap() || b.evaluate(w).unwrap();
        assert_eq!(r.evaluate(w), Ok(x));
    }
}

#[test]
fn difference_is_and_not() {
    let a = even_ones();
    let b = starts_one();
    let r = a.difference(&b);
    for w in WORDS {
        let x = a.evaluate(w).unwrap() && !b.evaluate(w).unwrap();
        assert_eq!(r.evaluate(w), Ok(x));
    }
}

#[test]
fn xor_is_exactly_one() {
    let a = even_ones();
    let b = starts_one();
    let r = a.xor(&b);
    for w in WORDS {
        let x = a.evaluate(w).unwrap() != b.evaluate(w).unwrap();
        assert_eq!(r.evaluate(w), Ok(x));
    }
}

#[test]
fn intersect_merges_alphabets() {
    let a = exact_length(&['a', 'b'], &['a', 'b'], 1).unwrap();
    let b = exact_length(&['b', 'c'], &['b', 'c'], 1).unwrap();
    let r = a.intersect(&b);
    assert_eq!(r.alphabet, vec!['a', 'b', 'c']);
    assert_eq!(r.evaluate("b"), Ok(true));
    assert_eq!(r.evaluate("a"), Ok(false));
    assert_eq!(r.evaluate("c"), Ok(false));
    assert_eq!(r.evaluate("d"), Err(DFAEvaluationError::InvalidChar('d')));
}

#[test]
fn intersect_with_placeholder_is_identity() {
    let b = starts_one();
    let r = DFA::new().intersect(&b);
    assert_eq!(r.states, b.states);
    assert_eq!(r.accepting, b.accepting);
    assert_eq!(r.transition, b.transition);
}

#[test]
fn big_intersect_all() {
    let ds = vec![even_ones(), starts_one(), exact_length(&BIN, &BIN, 4).unwrap()];
    let r = DFA::big_intersect(&ds);
    assert_eq!(r.evaluate("1100"), Ok(true));
    assert_eq!(r.evaluate("1000"), Ok(false));
    assert_eq!(r.evaluate("0110"), Ok(false));
    assert_eq!(DFA::big_intersect(&[]).states, 0);
}

#[test]
fn big_union_any() {
    let ds = vec![only_zero(), starts_one()];
    let r = DFA::big_union(&ds);
    assert_eq!(r.evaluate("0"), Ok(true));
    assert_eq!(r.evaluate("10"), Ok(true));
    assert_eq!(r.evaluate("00"), Ok(false));
    assert_eq!(DFA::big_union(&[]).states, 0);
}

fn only_zero() -> DFA {
    automata::dfa_gen::only_string(&BIN, "0").unwrap()
}

#[test]
fn optimize_keeps_language_and_shrinks() {
    let t = automata::dfa_gen::only_string(&BIN, "11").unwrap();
    let o = t.optimize();
    for w in WORDS {
        assert_eq!(o.evaluate(w), t.evaluate(w));
    }
    assert!(o.states <= t.states);
    let c = contains_substring(&BIN, "11").unwrap().optimize();
    assert_eq!(c.evaluate("0110"), Ok(true));
}

#[test]
fn modulo_is_minimal_after_optimize() {
    let d = modulo_n(&BIN, &['0', '1'], 0, 4).unwrap();
    assert_eq!(d.states, 4);
    let e = modulo_n(&BIN, &['1'], 0, 1).unwrap();
    assert_eq!(e.states, 1);
}

#[test]
fn xor_with_placeholder() {
    let b = starts_one();
    let r = DFA::new().xor(&b);
    assert!(r.is_well_formed());
}
