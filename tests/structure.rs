use automata::dfa::DFA;
use automata::dfa_gen::{exact_length, only_string};

const BIN: [char; 2] = ['0', '1'];

fn chain() -> DFA {
    // 0 -> 1 -> 2 -> 2, with an unreachable state 3 that loops to itself.
    DFA {
        alphabet: vec!['a'],
        states: 4,
        accepting: vec![false, false, true, true],
        transition: vec![vec![Some(1)], vec![Some(2)], vec![Some(2)], vec![Some(3)]],
    }
}

#[test]
fn remove_state_renumbers() {
    let d = chain();
    let r = d.remove_state(1, 2).unwrap();
    assert_eq!(r.states, 3);
    assert_eq!(r.accepting, vec![false, true, true]);
    assert_eq!(r.transition, vec![vec![Some(1)], vec![Some(1)], vec![Some(2)]]);
}

#[test]
fn remove_state_refusals() {
    let d = chain();
    assert!(d.remove_state(4, 0).is_err());
    assert!(d.remove_state(-1, 0).is_err());
    assert!(d.remove_state(1, 4).is_err());
    assert!(d.remove_state(2, 2).is_err());
    assert!(d.remove_state(0, 2).is_err());
    assert!(d.remove_state(0, 1).is_ok());
}

#[test]
fn remove_unreachable_state_keeps_language() {
    let d = chain();
    let r = d.remove_state(3, 0).unwrap();
    for w in ["", "a", "aa", "aaa"] {
        assert_eq!(r.evaluate(w), d.evaluate(w));
    }
}

#[test]
fn reachability() {
    let d = chain();
    assert_eq!(d.states_reachable_from(0), vec![0, 1, 2]);
    assert_eq!(d.states_reachable_from(3), vec![3]);
    assert_eq!(d.get_unreachable_states(), vec![3]);
    let r = d.remove_unreachable_states();
    assert_eq!(r.states, 3);
    assert!(r.get_unreachable_states().is_empty());
}

#[test]
fn permanent_states() {
    let d = chain();
    assert!(d.is_permanently_accepting(2));
    assert!(d.is_permanently_accepting(3));
    assert!(!d.is_permanently_accepting(1));
    assert!(!d.is_permanently_rejecting(0));
    let r = d.reduce_accepting_states();
    assert_eq!(r.states, 3);
    let e = exact_length(&BIN, &BIN, 1).unwrap();
    assert!(e.is_permanently_rejecting(2));
}

#[test]
fn indistinguishable_pairs() {
    let d = DFA {
        alphabet: vec!['a'],
        states: 3,
        accepting: vec![false, true, true],
        transition: vec![vec![Some(1)], vec![Some(2)], vec![Some(1)]],
    };
    assert!(d.states_indistinguishable(2, 1));
    assert!(!d.states_indistinguishable(1, 0));
    let r = d.remove_indistinguishable_states();
    assert_eq!(r.states, 2);
    assert_eq!(r.evaluate("aaa"), Ok(true));
}

#[test]
fn optimize_pipeline() {
    let d = chain().optimize();
    assert_eq!(d.states, 3);
    assert_eq!(d.evaluate("aa"), Ok(true));
    assert_eq!(d.evaluate("a"), Ok(false));
}

#[test]
fn extension_ignore() {
    let d = only_string(&BIN, "1").unwrap();
    let e = d.add_char_ignore('x');
    assert_eq!(e.alphabet, vec!['0', '1', 'x']);
    assert_eq!(e.evaluate("x1x"), Ok(true));
    assert_eq!(e.evaluate("x0"), Ok(false));
    let same = e.add_char_ignore('x');
    assert_eq!(same.alphabet, e.alphabet);
}

#[test]
fn extension_imitate() {
    let d = only_string(&BIN, "1").unwrap();
    let e = d.add_char_imitate('y', '1');
    assert_eq!(e.evaluate("y"), Ok(true));
    assert_eq!(e.evaluate("yy"), Ok(false));
    let unchanged = d.add_char_imitate('y', 'z');
    assert_eq!(unchanged.alphabet, d.alphabet);
}

#[test]
fn extension_accept() {
    let d = only_string(&BIN, "1").unwrap();
    let e = d.add_char_accept('z', true);
    assert_eq!(e.states, d.states + 1);
    assert_eq!(e.evaluate("z"), Ok(true));
    assert_eq!(e.evaluate("0z1"), Ok(true));
    assert_eq!(e.evaluate("1"), Ok(true));
    let f = d.add_char_accept('z', false);
    assert_eq!(f.evaluate("1z"), Ok(false));
}

#[test]
fn well_formedness_check() {
    assert!(chain().is_well_formed());
    let mut d = chain();
    d.transition[0][0] = Some(9);
    assert!(!d.is_well_formed());
    let mut e = chain();
    e.alphabet = vec!['a', 'a'];
    assert!(!e.is_well_formed());
}

#[test]
fn three_self_loops_collapse_to_one() {
    let d = DFA::from_string(String::from("3\n\na\n0\n1\n2\n"));
    assert!(d.is_well_formed());
    let r = d.remove_indistinguishable_states();
    assert_eq!(r.states, 1);
    assert_eq!(r.evaluate("aa"), Ok(false));
}

#[test]
fn no_indistinguishable_pair_keeps_automaton() {
    let d = chain();
    let r = d.remove_state(3, 0).unwrap();
    let s = r.remove_indistinguishable_states();
    assert_eq!(s.states, r.states);
    assert_eq!(s.transition, r.transition);
    assert_eq!(s.accepting, r.accepting);
}

#[test]
fn reduce_rejecting_counts() {
    // states 1, 2 and 3 are permanently rejecting; 0 accepts
    let d = DFA {
        alphabet: vec!['a', 'b'],
        states: 4,
        accepting: vec![true, false, false, false],
        transition: vec![
            vec![Some(1), Some(2)],
            vec![Some(3), Some(1)],
            vec![Some(2), Some(3)],
            vec![Some(3), Some(3)],
        ],
    };
    let r = d.reduce_rejecting_states();
    assert_eq!(r.states, 2);
    assert!(r.is_permanently_rejecting(1));
    assert_eq!(r.evaluate(""), Ok(true));
    assert_eq!(r.evaluate("ab"), Ok(false));
    let same = d.reduce_accepting_states();
    assert_eq!(same.states, 4);
}

#[test]
fn unreachable_removal_keeps_reachable_count() {
    let d = DFA {
        alphabet: vec!['a'],
        states: 5,
        accepting: vec![false, true, false, true, false],
        transition: vec![vec![Some(3)], vec![Some(0)], vec![Some(2)], vec![Some(0)], vec![Some(1)]],
    };
    let r = d.remove_unreachable_states();
    assert_eq!(r.states, 2);
    assert_eq!(r.accepting, vec![false, true]);
    assert_eq!(r.transition, vec![vec![Some(1)], vec![Some(0)]]);
}

#[test]
fn clone_copies() {
    let d = chain();
    let e = d.clone();
    assert_eq!(e.transition, d.transition);
}
