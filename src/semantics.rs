//! Facts about runs of well-formed automata.
use vstd::prelude::*;
use crate::dfa::{DFA, in_alpha};

verus! {

/// In a sequence without repetitions, the first column of `alph[k]` is `k`.
pub proof fn lemma_first_col(alph: Seq<char>, k: int)
    requires
        alph.no_duplicates(),
        0 <= k < alph.len(),
    ensures
        alph.index_of_first(alph[k]) == Some(k),
{
    alph.index_of_first_ensures(alph[k]);
}

/// The column of a symbol that occurs in the alphabet.
pub proof fn lemma_col_of(alph: Seq<char>, c: char) -> (k: int)
    requires
        alph.contains(c),
    ensures
        alph.index_of_first(c) == Some(k),
        0 <= k < alph.len(),
        alph[k] == c,
{
    alph.index_of_first_ensures(c);
    alph.index_of_first(c).unwrap()
}

/// In a well-formed automaton, the lookup of a symbol of the alphabet reads its column.
pub proof fn lemma_lookup(d: &DFA, q: i32, c: char) -> (k: int)
    requires
        d.wf(),
        0 <= q < d.states,
        d.alphabet@.contains(c),
    ensures
        0 <= k < d.alphabet@.len(),
        d.alphabet@[k] == c,
        d.alphabet@.index_of_first(c) == Some(k),
        d.lookup(q, c) == Some(d.delta(q as int, k) as i32),
        0 <= d.delta(q as int, k) < d.states,
{
    let k = lemma_col_of(d.alphabet@, c);
    assert(d.transition@[q as int]@.len() == d.alphabet@.len());
    assert(d.transition@[q as int]@[k] is Some);
    k
}

/// A run of a well-formed automaton stays among its states.
pub proof fn lemma_run_range(d: &DFA, q: i32, w: Seq<char>)
    requires
        d.wf(),
        0 <= q < d.states,
    ensures
        0 <= d.run(q, w) < d.states,
    decreases w.len(),
{
    if w.len() > 0 {
        if d.alphabet@.contains(w[0]) {
            let k = lemma_lookup(d, q, w[0]);
            lemma_run_range(d, d.delta(q as int, k) as i32, w.drop_first());
        } else {
            d.alphabet@.index_of_first_ensures(w[0]);
        }
    }
}

/// Running `w` and then one more symbol.
pub proof fn lemma_run_push(d: &DFA, q: i32, w: Seq<char>, c: char)
    requires
        d.wf(),
        0 <= q < d.states,
        in_alpha(d.alphabet@, w),
        d.alphabet@.contains(c),
    ensures
        d.lookup(d.run(q, w), c) is Some,
        d.run(q, w.push(c)) == d.lookup(d.run(q, w), c).unwrap(),
    decreases w.len(),
{
    lemma_run_range(d, q, w);
    lemma_lookup(d, d.run(q, w), c);
    if w.len() == 0 {
        assert(w.push(c).drop_first() =~= Seq::<char>::empty());
        assert(w.push(c)[0] == c);
        assert(d.run(q, w) == q);
        let t = d.lookup(q, c).unwrap();
        assert(d.run(t, w.push(c).drop_first()) == t);
    } else {
        assert(d.alphabet@.contains(w[0]));
        let k = lemma_lookup(d, q, w[0]);
        let t = d.delta(q as int, k) as i32;
        assert(w.push(c).drop_first() =~= w.drop_first().push(c));
        assert(w.push(c)[0] == w[0]);
        assert(in_alpha(d.alphabet@, w.drop_first())) by {
            assert forall|i: int| 0 <= i < w.drop_first().len() implies d.alphabet@.contains(
                #[trigger] w.drop_first()[i],
            ) by {
                assert(w.drop_first()[i] == w[i + 1]);
            }
        }
        lemma_run_push(d, t, w.drop_first(), c);
        assert(d.run(q, w) == d.run(t, w.drop_first()));
        assert(d.run(q, w.push(c)) == d.run(t, w.drop_first().push(c)));
    }
}

/// A set of states closed under every transition holds every run that starts in it.
pub proof fn lemma_closed_holds_runs(d: &DFA, marks: Seq<bool>, q: i32, w: Seq<char>)
    requires
        d.wf(),
        marks.len() == d.states,
        0 <= q < d.states,
        marks[q as int],
        forall|x: int, k: int|
            0 <= x < d.states && 0 <= k < d.alphabet@.len() && marks[x] ==> marks[#[trigger] d.delta(
                x,
                k,
            )],
    ensures
        marks[d.run(q, w) as int],
    decreases w.len(),
{
    if w.len() > 0 {
        if d.alphabet@.contains(w[0]) {
            let k = lemma_lookup(d, q, w[0]);
            lemma_closed_holds_runs(d, marks, d.delta(q as int, k) as i32, w.drop_first());
        } else {
            d.alphabet@.index_of_first_ensures(w[0]);
        }
    }
}

/// How many entries of `s` are `true`.
pub open spec fn count_true(s: Seq<bool>) -> nat
    decreases s.len(),
{
    if s.len() == 0 {
        0
    } else {
        count_true(s.drop_last()) + if s.last() {
            1nat
        } else {
            0nat
        }
    }
}

pub proof fn lemma_count_true_bound(s: Seq<bool>)
    ensures
        count_true(s) <= s.len(),
    decreases s.len(),
{
    if s.len() > 0 {
        lemma_count_true_bound(s.drop_last());
    }
}

pub proof fn lemma_count_true_set(s: Seq<bool>, i: int)
    requires
        0 <= i < s.len(),
        !s[i],
    ensures
        count_true(s.update(i, true)) == count_true(s) + 1,
    decreases s.len(),
{
    let u = s.update(i, true);
    if i == s.len() - 1 {
        assert(u.drop_last() =~= s.drop_last());
    } else {
        assert(u.drop_last() =~= s.drop_last().update(i, true));
        lemma_count_true_set(s.drop_last(), i);
    }
}

pub proof fn lemma_count_true_zero(s: Seq<bool>)
    requires
        forall|i: int| 0 <= i < s.len() ==> !s[i],
    ensures
        count_true(s) == 0,
    decreases s.len(),
{
    if s.len() > 0 {
        lemma_count_true_zero(s.drop_last());
    }
}

} // verus!
