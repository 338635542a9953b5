//! Ready-made automata for common languages.
use vstd::prelude::*;
use crate::dfa::{DFA, DFAEvaluationError, in_alpha};
use crate::semantics::{lemma_lookup, lemma_run_range, lemma_run_push};
use crate::algebra::lemma_wf_eval_ok;
use crate::text::chars_of;
use vstd::arithmetic::div_mod::{lemma_small_mod, lemma_mod_add_multiples_vanish};

verus! {

/// Whether `c` occurs in `chars`.
fn has_char(chars: &[char], c: char) -> (r: bool)
    ensures
        r == chars@.contains(c),
{
    let mut i: usize = 0;
    while i < chars.len()
        invariant
            i <= chars@.len(),
            forall|j: int| 0 <= j < i ==> chars@[j] != c,
        decreases chars@.len() - i,
    {
        if chars[i] == c {
            assert(chars@[i as int] == c);
            return true;
        }
        i += 1;
    }
    false
}

/// An owned copy of the symbols.
fn symbols_of(alph: &[char]) -> (r: Vec<char>)
    ensures
        r@ == alph@,
{
    let mut r: Vec<char> = Vec::new();
    let mut i: usize = 0;
    while i < alph.len()
        invariant
            i <= alph@.len(),
            r@ == alph@.subrange(0, i as int),
        decreases alph@.len() - i,
    {
        r.push(alph[i]);
        i += 1;
    }
    r
}

/// The automaton whose target from state `i` on column `k` is `f(i, k)`.
fn table<F: Fn(i32, usize) -> i32>(alph: &[char], states: i32, accepting: Vec<bool>, f: F) -> (r: DFA)
    requires
        alph@.no_duplicates(),
        states >= 0,
        accepting@.len() == states,
        forall|i: i32, k: usize| 0 <= i < states && k < alph@.len() ==> call_requires(f, (i, k)),
        forall|i: i32, k: usize, t: i32|
            0 <= i < states && k < alph@.len() && call_ensures(f, (i, k), t) ==> 0 <= t < states,
    ensures
        r.wf(),
        r.alphabet@ == alph@,
        r.states == states,
        r.accepting@ == accepting@,
        forall|i: int, k: int|
            0 <= i < states && 0 <= k < alph@.len() ==> call_ensures(
                f,
                (i as i32, k as usize),
                (#[trigger] r.transition@[i]@[k]).unwrap(),
            ),
{
    let mut transition: Vec<Vec<Option<i32>>> = Vec::new();
    let mut i: i32 = 0;
    while i < states
        invariant
            0 <= i <= states,
            transition@.len() == i,
            forall|i: i32, k: usize| 0 <= i < states && k < alph@.len() ==> call_requires(f, (i, k)),
            forall|i: i32, k: usize, t: i32|
                0 <= i < states && k < alph@.len() && call_ensures(f, (i, k), t) ==> 0 <= t < states,
            forall|q: int| 0 <= q < i ==> #[trigger] transition@[q]@.len() == alph@.len(),
            forall|q: int, k: int|
                0 <= q < i && 0 <= k < alph@.len() ==> (#[trigger] transition@[q]@[k]) is Some
                    && call_ensures(f, (q as i32, k as usize), transition@[q]@[k].unwrap()),
        decreases states - i,
    {
        let mut row: Vec<Option<i32>> = Vec::new();
        let mut k: usize = 0;
        while k < alph.len()
            invariant
                0 <= i < states,
                k <= alph@.len(),
                row@.len() == k,
                forall|i: i32, k: usize| 0 <= i < states && k < alph@.len() ==> call_requires(f, (i, k)),
                forall|kk: int|
                    0 <= kk < k ==> (#[trigger] row@[kk]) is Some && call_ensures(
                        f,
                        (i, kk as usize),
                        row@[kk].unwrap(),
                    ),
            decreases alph@.len() - k,
        {
            let t = f(i, k);
            row.push(Some(t));
            k += 1;
        }
        transition.push(row);
        i += 1;
    }
    let r = DFA { alphabet: symbols_of(alph), states, accepting, transition };
    proof {
        assert forall|q: int, k: int| 0 <= q < r.states && 0 <= k < r.alphabet@.len() implies {
            let t = #[trigger] r.transition@[q]@[k];
            t is Some && 0 <= t.unwrap() < r.states
        } by {
            assert(call_ensures(f, (q as i32, k as usize), r.transition@[q]@[k].unwrap()));
        }
    }
    r
}

/// `n` flags, all `false` but the one at `on` (none where `on` is out of range).
fn flags(n: i32, on: i32) -> (r: Vec<bool>)
    requires
        n >= 0,
    ensures
        r@.len() == n,
        forall|i: int| 0 <= i < n ==> #[trigger] r@[i] == (i == on),
{
    let mut r: Vec<bool> = Vec::new();
    let mut i: i32 = 0;
    while i < n
        invariant
            0 <= i <= n,
            r@.len() == i,
            forall|j: int| 0 <= j < i ==> #[trigger] r@[j] == (j == on),
        decreases n - i,
    {
        r.push(i == on);
        i += 1;
    }
    r
}

/// The one-state automaton that rejects every string over `alph`.
pub fn empty(alph: &[char]) -> (r: DFA)
    requires
        alph@.no_duplicates(),
    ensures
        r.wf(),
        r.alphabet@ == alph@,
        r.states == 1,
        r.accepting@ == seq![false],
        forall|k: int| 0 <= k < alph@.len() ==> #[trigger] r.transition@[0]@[k] == Some(0i32),
        forall|w: Seq<char>|
            in_alpha(alph@, w) ==> #[trigger] r.eval(w) == Ok::<bool, DFAEvaluationError>(false),
{
    let mut acc: Vec<bool> = Vec::new();
    acc.push(false);
    let r = table(alph, 1, acc, |i: i32, k: usize| -> (t: i32) ensures t == 0 { 0 });
    proof {
        assert(r.accepting@ =~= seq![false]);
        assert forall|w: Seq<char>| in_alpha(alph@, w) implies #[trigger] r.eval(w) == Ok::<bool, DFAEvaluationError>(false) by {
            lemma_single_state(&r, w);
        }
        assert forall|k: int| 0 <= k < alph@.len() implies #[trigger] r.transition@[0]@[k] == Some(0i32) by {
            assert(r.transition@[0]@[k] is Some);
        }
    }
    r
}

/// The one-state automaton that accepts every string over `alph`.
pub fn all_strings(alph: &[char]) -> (r: DFA)
    requires
        alph@.no_duplicates(),
    ensures
        r.wf(),
        r.alphabet@ == alph@,
        r.states == 1,
        r.accepting@ == seq![true],
        forall|k: int| 0 <= k < alph@.len() ==> #[trigger] r.transition@[0]@[k] == Some(0i32),
        forall|w: Seq<char>|
            in_alpha(alph@, w) ==> #[trigger] r.eval(w) == Ok::<bool, DFAEvaluationError>(true),
{
    let mut acc: Vec<bool> = Vec::new();
    acc.push(true);
    let r = table(alph, 1, acc, |i: i32, k: usize| -> (t: i32) ensures t == 0 { 0 });
    proof {
        assert(r.accepting@ =~= seq![true]);
        assert forall|w: Seq<char>| in_alpha(alph@, w) implies #[trigger] r.eval(w) == Ok::<bool, DFAEvaluationError>(true) by {
            lemma_single_state(&r, w);
        }
        assert forall|k: int| 0 <= k < alph@.len() implies #[trigger] r.transition@[0]@[k] == Some(0i32) by {
            assert(r.transition@[0]@[k] is Some);
        }
    }
    r
}

/// How many symbols of `w` are in `chars`.
pub open spec fn count_in(w: Seq<char>, chars: Seq<char>) -> nat
    decreases w.len(),
{
    if w.len() == 0 {
        0
    } else {
        count_in(w.drop_first(), chars) + if chars.contains(w[0]) {
            1nat
        } else {
            0nat
        }
    }
}

/// The counting table: states up to `n` move up on a symbol of `chars`, and
/// state `n + 1` keeps every string that went past `n`.
pub open spec fn counting_target(alph: Seq<char>, chars: Seq<char>, n: int, i: int, k: int) -> int {
    if i <= n {
        if chars.contains(alph[k]) {
            i + 1
        } else {
            i
        }
    } else {
        n + 1
    }
}

/// The remainder table: a symbol of `chars` moves state `i` to `(i + 1) % n`.
pub open spec fn modulo_target(alph: Seq<char>, chars: Seq<char>, n: int, i: int, k: int) -> int {
    if chars.contains(alph[k]) {
        (i + 1) % n
    } else {
        i
    }
}

/// Matching `s` symbol by symbol; any other symbol leads to the dead state `s.len() + 1`.
pub open spec fn only_target(s: Seq<char>, alph: Seq<char>, i: int, k: int) -> int {
    if i < s.len() && alph[k] == s[i] {
        i + 1
    } else {
        s.len() + 1int
    }
}

/// As `only_target`, except that state `s.len()` keeps every string.
pub open spec fn begins_target(s: Seq<char>, alph: Seq<char>, i: int, k: int) -> int {
    if i == s.len() {
        s.len() as int
    } else {
        only_target(s, alph, i, k)
    }
}

/// The longest `i`, `0 < i < m`, such that the first `i` symbols of `b` end `e`; else 0.
pub open spec fn overlap_below(b: Seq<char>, e: Seq<char>, m: int) -> int
    decreases m,
{
    if m <= 1 {
        0
    } else if b.subrange(0, m - 1) == e.subrange(e.len() - (m - 1), e.len() as int) {
        m - 1
    } else {
        overlap_below(b, e, m - 1)
    }
}

/// Matching `s` symbol by symbol; on a mismatch, fall back to the longest
/// prefix of `s` that ends what was read.
pub open spec fn ends_target(s: Seq<char>, alph: Seq<char>, i: int, k: int) -> int {
    if i < s.len() && alph[k] == s[i] {
        i + 1
    } else {
        let e = s.subrange(0, i).push(alph[k]);
        overlap_below(s, e, e.len() as int)
    }
}

/// As `ends_target`, except that state `s.len()` keeps every string.
pub open spec fn contains_target(s: Seq<char>, alph: Seq<char>, i: int, k: int) -> int {
    if i == s.len() {
        s.len() as int
    } else {
        ends_target(s, alph, i, k)
    }
}

/// In the counting table, a run from `i` stops at `i` plus the count, or at the sink `n + 1`.
proof fn lemma_counting_run(d: &DFA, chars: Seq<char>, n: int, i: i32, w: Seq<char>)
    requires
        d.wf(),
        n >= 0,
        d.states == n + 2,
        0 <= i <= n + 1,
        forall|q: int, k: int|
            0 <= q < d.states && 0 <= k < d.alphabet@.len() ==> #[trigger] d.transition@[q]@[k]
                == Some(counting_target(d.alphabet@, chars, n, q, k) as i32),
        in_alpha(d.alphabet@, w),
    ensures
        d.run(i, w) == if i + count_in(w, chars) <= n + 1 {
            i + count_in(w, chars)
        } else {
            n + 1
        },
    decreases w.len(),
{
    if w.len() > 0 {
        let c = w[0];
        assert(d.alphabet@.contains(c));
        let k = lemma_lookup(d, i, c);
        let t = d.delta(i as int, k) as i32;
        assert(in_alpha(d.alphabet@, w.drop_first())) by {
            assert forall|m: int| 0 <= m < w.drop_first().len() implies d.alphabet@.contains(
                #[trigger] w.drop_first()[m],
            ) by {
                assert(w.drop_first()[m] == w[m + 1]);
            }
        }
        lemma_counting_run(d, chars, n, t, w.drop_first());
    }
}

/// A one-state automaton gives its single flag to every string over its alphabet.
proof fn lemma_single_state(d: &DFA, w: Seq<char>)
    requires
        d.wf(),
        d.states == 1,
        in_alpha(d.alphabet@, w),
    ensures
        d.eval(w) == Ok::<bool, DFAEvaluationError>(d.accepting@[0]),
{
    lemma_wf_eval_ok(d, 0, w);
    lemma_run_range(d, 0, w);
}

/// Strings over `alph` with exactly `n` symbols from `chars`.
pub fn exact_length(alph: &[char], chars: &[char], n: i32) -> (r: Result<DFA, ()>)
    requires
        alph@.no_duplicates(),
        n < i32::MAX - 1,
    ensures
        r is Err <==> n < 0,
        r matches Ok(d) ==> {
            &&& d.wf()
            &&& d.alphabet@ == alph@
            &&& d.states == n + 2
            &&& forall|i: int| 0 <= i < d.states ==> #[trigger] d.accepting@[i] == (i == n)
            &&& forall|i: int, k: int|
                0 <= i < d.states && 0 <= k < alph@.len() ==> #[trigger] d.transition@[i]@[k]
                    == Some(counting_target(alph@, chars@, n as int, i, k) as i32)
            &&& forall|w: Seq<char>|
                in_alpha(alph@, w) ==> #[trigger] d.eval(w) == Ok::<bool, DFAEvaluationError>(
                    count_in(w, chars@) == n,
                )
        },
{
    if n < 0 {
        return Err(());
    }
    let acc = flags(n + 2, n);
    let f = |i: i32, k: usize| -> (t: i32)
        requires
            0 <= i < n + 2,
            k < alph@.len(),
        ensures
            t == counting_target(alph@, chars@, n as int, i as int, k as int),
    {
        if i <= n {
            if has_char(chars, alph[k]) {
                i + 1
            } else {
                i
            }
        } else {
            n + 1
        }
    };
    let alen = alph.len();
    let d = table(alph, n + 2, acc, f);
    proof {
        assert forall|i: int, k: int| 0 <= i < d.states && 0 <= k < alph@.len() implies #[trigger] d.transition@[i]@[k]
            == Some(counting_target(alph@, chars@, n as int, i, k) as i32) by {
            assert(d.transition@[i]@[k] is Some);
            let t = d.transition@[i]@[k].unwrap();
            assert(call_ensures(f, (i as i32, k as usize), t));
            assert(t == counting_target(alph@, chars@, n as int, i, k));
        }
        assert forall|w: Seq<char>| in_alpha(alph@, w) implies #[trigger] d.eval(w) == Ok::<bool, DFAEvaluationError>(
            count_in(w, chars@) == n) by {
            lemma_counting_run(&d, chars@, n as int, 0, w);
            lemma_wf_eval_ok(&d, 0, w);
        }
    }
    Ok(d)
}

/// Strings over `alph` with at most `n` symbols from `chars`.
pub fn length_or_less(alph: &[char], chars: &[char], n: i32) -> (r: Result<DFA, ()>)
    requires
        alph@.no_duplicates(),
        n < i32::MAX - 1,
    ensures
        r is Err <==> n < 0,
        r matches Ok(d) ==> {
            &&& d.wf()
            &&& d.alphabet@ == alph@
            &&& d.states == n + 2
            &&& forall|i: int| 0 <= i < d.states ==> #[trigger] d.accepting@[i] == (i <= n)
            &&& forall|i: int, k: int|
                0 <= i < d.states && 0 <= k < alph@.len() ==> #[trigger] d.transition@[i]@[k]
                    == Some(counting_target(alph@, chars@, n as int, i, k) as i32)
            &&& forall|w: Seq<char>|
                in_alpha(alph@, w) ==> #[trigger] d.eval(w) == Ok::<bool, DFAEvaluationError>(
                    count_in(w, chars@) <= n,
                )
        },
{
    if n < 0 {
        return Err(());
    }
    let mut acc: Vec<bool> = Vec::new();
    let mut q: i32 = 0;
    while q < n + 2
        invariant
            0 <= q <= n + 2,
            n < i32::MAX - 1,
            acc@.len() == q,
            forall|j: int| 0 <= j < q ==> #[trigger] acc@[j] == (j <= n),
        decreases n + 2 - q,
    {
        acc.push(q <= n);
        q += 1;
    }
    let f = |i: i32, k: usize| -> (t: i32)
        requires
            0 <= i < n + 2,
            k < alph@.len(),
        ensures
            t == counting_target(alph@, chars@, n as int, i as int, k as int),
    {
        if i <= n {
            if has_char(chars, alph[k]) {
                i + 1
            } else {
                i
            }
        } else {
            n + 1
        }
    };
    let alen = alph.len();
    let d = table(alph, n + 2, acc, f);
    proof {
        assert forall|i: int, k: int| 0 <= i < d.states && 0 <= k < alph@.len() implies #[trigger] d.transition@[i]@[k]
            == Some(counting_target(alph@, chars@, n as int, i, k) as i32) by {
            assert(d.transition@[i]@[k] is Some);
            let t = d.transition@[i]@[k].unwrap();
            assert(call_ensures(f, (i as i32, k as usize), t));
            assert(t == counting_target(alph@, chars@, n as int, i, k));
        }
        assert forall|w: Seq<char>| in_alpha(alph@, w) implies #[trigger] d.eval(w) == Ok::<bool, DFAEvaluationError>(
            count_in(w, chars@) <= n) by {
            lemma_counting_run(&d, chars@, n as int, 0, w);
            lemma_wf_eval_ok(&d, 0, w);
        }
    }
    Ok(d)
}

/// A run of the remainder table from `i` ends in the state of the count's remainder.
proof fn lemma_modulo_eval(d: &DFA, chars: Seq<char>, accept: int, n: int, i: i32, w: Seq<char>)
    requires
        d.wf(),
        d.states == n,
        n > 0,
        0 <= i < n,
        forall|q: int| 0 <= q < n ==> #[trigger] d.accepting@[q] == (q == accept),
        forall|q: int, k: int|
            0 <= q < n && 0 <= k < d.alphabet@.len() ==> #[trigger] d.transition@[q]@[k]
                == Some(modulo_target(d.alphabet@, chars, n, q, k) as i32),
        in_alpha(d.alphabet@, w),
    ensures
        d.eval_from(i, w) == Ok::<bool, DFAEvaluationError>((i + count_in(w, chars) as int) % n == accept),
    decreases w.len(),
{
    if w.len() == 0 {
        lemma_small_mod(i as nat, n as nat);
    } else {
        let c = w[0];
        assert(d.alphabet@.contains(c));
        let k = lemma_lookup(d, i, c);
        let t = d.delta(i as int, k) as i32;
        assert(in_alpha(d.alphabet@, w.drop_first())) by {
            assert forall|m: int| 0 <= m < w.drop_first().len() implies d.alphabet@.contains(
                #[trigger] w.drop_first()[m],
            ) by {
                assert(w.drop_first()[m] == w[m + 1]);
            }
        }
        lemma_modulo_eval(d, chars, accept, n, t, w.drop_first());
        let m = count_in(w.drop_first(), chars) as int;
        if chars.contains(c) && i + 1 == n {
            lemma_small_mod(0, n as nat);
            lemma_mod_add_multiples_vanish(0, n);
            assert(t == 0);
            lemma_mod_add_multiples_vanish(m, n);
            assert(i + count_in(w, chars) == n + m);
        } else if chars.contains(c) {
            lemma_small_mod((i + 1) as nat, n as nat);
        }
    }
}

/// Strings over `alph` whose number of symbols from `chars` leaves the
/// remainder `accept` modulo `n`, minimized.
pub fn modulo_n(alph: &[char], chars: &[char], accept: i32, n: i32) -> (r: Result<DFA, ()>)
    requires
        alph@.no_duplicates(),
    ensures
        r is Err <==> accept >= n || accept < 0,
        r matches Ok(d) ==> {
            &&& d.wf()
            &&& d.alphabet@ == alph@
            &&& d.states > 0
            &&& forall|w: Seq<char>|
                in_alpha(alph@, w) ==> #[trigger] d.eval(w) == Ok::<bool, DFAEvaluationError>(
                    (count_in(w, chars@) as int) % (n as int) == accept,
                )
        },
{
    if accept >= n || accept < 0 {
        return Err(());
    }
    let acc = flags(n, accept);
    let f = |i: i32, k: usize| -> (t: i32)
        requires
            0 <= i < n,
            k < alph@.len(),
        ensures
            t == modulo_target(alph@, chars@, n as int, i as int, k as int),
    {
        if has_char(chars, alph[k]) {
            (i + 1) % n
        } else {
            i
        }
    };
    let t = table(alph, n, acc, f);
    proof {
        assert forall|i: int, k: int| 0 <= i < n && 0 <= k < alph@.len() implies #[trigger] t.transition@[i]@[k]
            == Some(modulo_target(alph@, chars@, n as int, i, k) as i32) by {
            assert(t.transition@[i]@[k] is Some);
        }
    }
    let d = t.optimize();
    proof {
        assert forall|w: Seq<char>| in_alpha(alph@, w) implies #[trigger] d.eval(w) == Ok::<bool, DFAEvaluationError>(
            (count_in(w, chars@) as int) % (n as int) == accept) by {
            lemma_modulo_eval(&t, chars@, accept as int, n as int, 0, w);
            assert(t.eval(w) == d.eval(w));
        }
    }
    Ok(d)
}

/// The characters of `string`, or `Err` when one of them is not in `alph`.
fn symbols_in(alph: &[char], string: &str) -> (r: Result<Vec<char>, ()>)
    ensures
        r is Err <==> !in_alpha(alph@, string@),
        r matches Ok(cs) ==> cs@ == string@,
{
    let cs = chars_of(string);
    let mut i: usize = 0;
    while i < cs.len()
        invariant
            i <= cs@.len(),
            cs@ == string@,
            forall|j: int| 0 <= j < i ==> alph@.contains(#[trigger] cs@[j]),
        decreases cs@.len() - i,
    {
        if !has_char(alph, cs[i]) {
            return Err(());
        }
        i += 1;
    }
    Ok(cs)
}

/// The first `i` symbols of `b` are the last `i` symbols of `e`.
fn prefix_ends(b: &Vec<char>, e: &Vec<char>, i: usize) -> (r: bool)
    requires
        i <= b@.len(),
        i <= e@.len(),
    ensures
        r == (b@.subrange(0, i as int) == e@.subrange(e@.len() - i, e@.len() as int)),
{
    let off = e.len() - i;
    let mut j: usize = 0;
    while j < i
        invariant
            j <= i,
            i <= b@.len(),
            i <= e@.len(),
            off == e@.len() - i,
            e@.len() <= usize::MAX,
            forall|m: int| 0 <= m < j ==> b@[m] == e@[off + m],
        decreases i - j,
    {
        if b[j] != e[off + j] {
            proof {
                assert(b@.subrange(0, i as int)[j as int] != e@.subrange(e@.len() - i, e@.len() as int)[j as int]);
            }
            return false;
        }
        j += 1;
    }
    proof {
        assert(b@.subrange(0, i as int) =~= e@.subrange(e@.len() - i, e@.len() as int));
    }
    true
}

/// The longest `i`, `0 < i < end.len()`, such that the first `i` symbols of
/// `begin` end `end`; 0 if there is none.
fn substring_compare(begin: &Vec<char>, end: &Vec<char>) -> (r: i32)
    requires
        end@.len() <= begin@.len() + 1,
        begin@.len() < i32::MAX,
    ensures
        r == overlap_below(begin@, end@, end@.len() as int),
        0 <= r < end@.len() || (r == 0 && end@.len() == 0),
{
    let mut result: i32 = 0;
    if end.len() == 0 {
        return 0;
    }
    let mut i: usize = 1;
    while i < end.len()
        invariant
            1 <= i <= end@.len(),
            end@.len() <= begin@.len() + 1,
            begin@.len() < i32::MAX,
            result == overlap_below(begin@, end@, i as int),
            0 <= result < i,
        decreases end@.len() - i,
    {
        if prefix_ends(begin, end, i) {
            result = i as i32;
        }
        i += 1;
    }
    result
}

/// `p` is a prefix of `w`.
pub open spec fn is_prefix(p: Seq<char>, w: Seq<char>) -> bool {
    p.len() <= w.len() && w.subrange(0, p.len() as int) == p
}

/// Tables that match `s` symbol by symbol from state 0, with the dead state
/// `s.len() + 1`; `keep` says whether state `s.len()` keeps every string.
pub open spec fn matcher(d: &DFA, s: Seq<char>, keep: bool) -> bool {
    &&& d.wf()
    &&& d.states == s.len() + 2
    &&& forall|i: int| 0 <= i < d.states ==> #[trigger] d.accepting@[i] == (i == s.len())
    &&& forall|i: int, k: int|
        0 <= i < d.states && 0 <= k < d.alphabet@.len() ==> #[trigger] d.transition@[i]@[k] == Some(
            (if keep { begins_target(s, d.alphabet@, i, k) } else { only_target(s, d.alphabet@, i, k) }) as i32,
        )
}

proof fn lemma_in_alpha_rest(alph: Seq<char>, w: Seq<char>)
    requires
        in_alpha(alph, w),
        w.len() > 0,
    ensures
        in_alpha(alph, w.drop_first()),
        alph.contains(w[0]),
{
    assert forall|m: int| 0 <= m < w.drop_first().len() implies alph.contains(#[trigger] w.drop_first()[m]) by {
        assert(w.drop_first()[m] == w[m + 1]);
    }
}

/// A state whose every transition loops gives its flag to every string.
proof fn lemma_loop_state(d: &DFA, q: i32, w: Seq<char>)
    requires
        d.wf(),
        0 <= q < d.states,
        forall|k: int| 0 <= k < d.alphabet@.len() ==> #[trigger] d.delta(q as int, k) == q,
        in_alpha(d.alphabet@, w),
    ensures
        d.eval_from(q, w) == Ok::<bool, DFAEvaluationError>(d.accepting@[q as int]),
    decreases w.len(),
{
    if w.len() > 0 {
        lemma_in_alpha_rest(d.alphabet@, w);
        let k = lemma_lookup(d, q, w[0]);
        lemma_loop_state(d, q, w.drop_first());
    }
}

proof fn lemma_matcher_eval(d: &DFA, s: Seq<char>, keep: bool, i: i32, w: Seq<char>)
    requires
        matcher(d, s, keep),
        0 <= i <= s.len(),
        in_alpha(d.alphabet@, w),
    ensures
        d.eval_from(i, w) == Ok::<bool, DFAEvaluationError>(
            if keep { is_prefix(s.subrange(i as int, s.len() as int), w) } else { w == s.subrange(i as int, s.len() as int) },
        ),
    decreases w.len(),
{
    let len = s.len() as int;
    let rest_s = s.subrange(i as int, len);
    let dead = (len + 1) as i32;
    assert forall|k: int| 0 <= k < d.alphabet@.len() implies #[trigger] d.delta(dead as int, k) == dead by {
        assert(d.transition@[dead as int]@[k] is Some);
    }
    if keep && i == len {
        assert forall|k: int| 0 <= k < d.alphabet@.len() implies #[trigger] d.delta(i as int, k) == i by {
            assert(d.transition@[i as int]@[k] is Some);
        }
        lemma_loop_state(d, i, w);
        assert(rest_s =~= Seq::<char>::empty());
        assert(w.subrange(0, 0) =~= Seq::<char>::empty());
    } else if w.len() == 0 {
        if i < len {
            assert(rest_s.len() > 0);
            assert(w != rest_s);
        } else {
            assert(rest_s =~= w);
        }
    } else {
        lemma_in_alpha_rest(d.alphabet@, w);
        let c = w[0];
        let k = lemma_lookup(d, i, c);
        assert(d.transition@[i as int]@[k] is Some);
        let t = d.delta(i as int, k) as i32;
        if i < len && c == s[i as int] {
            assert(t == i + 1);
            lemma_matcher_eval(d, s, keep, t, w.drop_first());
            let rs1 = s.subrange(i + 1, len);
            assert(rest_s.drop_first() =~= rs1);
            if keep {
                if is_prefix(rs1, w.drop_first()) {
                    assert forall|m: int| 0 <= m < rest_s.len() implies w.subrange(0, rest_s.len() as int)[m] == rest_s[m] by {
                        if m > 0 {
                            assert(w.drop_first().subrange(0, rs1.len() as int)[m - 1] == rs1[m - 1]);
                        }
                    }
                    assert(w.subrange(0, rest_s.len() as int) =~= rest_s);
                }
                if is_prefix(rest_s, w) {
                    assert(w.drop_first().subrange(0, rs1.len() as int) =~= rs1) by {
                        assert forall|m: int| 0 <= m < rs1.len() implies w.drop_first().subrange(0, rs1.len() as int)[m] == rs1[m] by {
                            assert(w.subrange(0, rest_s.len() as int)[m + 1] == rest_s[m + 1]);
                        }
                    }
                }
            } else {
                if w.drop_first() == rs1 {
                    assert(w =~= rest_s) by {
                        assert(w[0] == rest_s[0]);
                        assert forall|m: int| 1 <= m < w.len() implies w[m] == rest_s[m] by {
                            assert(w.drop_first()[m - 1] == rs1[m - 1]);
                        }
                    }
                }
                if w == rest_s {
                    assert(w.drop_first() =~= rs1);
                }
            }
        } else {
            assert(t == dead);
            lemma_loop_state(d, dead, w.drop_first());
            if i < len {
                assert(rest_s[0] == s[i as int]);
                if keep {
                    if is_prefix(rest_s, w) {
                        assert(w.subrange(0, rest_s.len() as int)[0] == rest_s[0]);
                    }
                } else {
                    if w == rest_s {
                        assert(w[0] == rest_s[0]);
                    }
                }
            } else {
                assert(rest_s.len() == 0);
            }
        }
    }
}

/// Strings equal to `string`; `Err` when `string` has a symbol outside `alph`.
pub fn only_string(alph: &[char], string: &str) -> (r: Result<DFA, ()>)
    requires
        alph@.no_duplicates(),
        string@.len() + 2 <= i32::MAX,
    ensures
        r is Err <==> !in_alpha(alph@, string@),
        r matches Ok(d) ==> {
            &&& d.wf()
            &&& d.alphabet@ == alph@
            &&& d.states == string@.len() + 2
            &&& forall|i: int| 0 <= i < d.states ==> #[trigger] d.accepting@[i] == (i == string@.len())
            &&& forall|i: int, k: int|
                0 <= i < d.states && 0 <= k < alph@.len() ==> #[trigger] d.transition@[i]@[k]
                    == Some(only_target(string@, alph@, i, k) as i32)
            &&& forall|w: Seq<char>|
                in_alpha(alph@, w) ==> #[trigger] d.eval(w) == Ok::<bool, DFAEvaluationError>(w == string@)
        },
{
    let cs = match symbols_in(alph, string) {
        Ok(cs) => cs,
        Err(()) => {
            return Err(());
        },
    };
    let len = cs.len() as i32;
    let acc = flags(len + 2, len);
    let f = |i: i32, k: usize| -> (t: i32)
        requires
            0 <= i < len + 2,
            k < alph@.len(),
        ensures
            t == only_target(cs@, alph@, i as int, k as int),
    {
        if i < len && alph[k] == cs[i as usize] {
            i + 1
        } else {
            len + 1
        }
    };
    let alen = alph.len();
    let d = table(alph, len + 2, acc, f);
    proof {
        assert forall|i: int, k: int| 0 <= i < d.states && 0 <= k < alph@.len() implies #[trigger] d.transition@[i]@[k]
            == Some(only_target(string@, alph@, i, k) as i32) by {
            assert(d.transition@[i]@[k] is Some);
            let t = d.transition@[i]@[k].unwrap();
            assert(call_ensures(f, (i as i32, k as usize), t));
        }
        assert forall|w: Seq<char>| in_alpha(alph@, w) implies #[trigger] d.eval(w) == Ok::<bool, DFAEvaluationError>(w == string@) by {
            lemma_matcher_eval(&d, string@, false, 0, w);
            assert(string@.subrange(0, string@.len() as int) =~= string@);
        }
    }
    Ok(d)
}

/// Strings that start with `string`; `Err` when `string` has a symbol outside `alph`.
pub fn begins_with(alph: &[char], string: &str) -> (r: Result<DFA, ()>)
    requires
        alph@.no_duplicates(),
        string@.len() + 2 <= i32::MAX,
    ensures
        r is Err <==> !in_alpha(alph@, string@),
        r matches Ok(d) ==> {
            &&& d.wf()
            &&& d.alphabet@ == alph@
            &&& d.states == string@.len() + 2
            &&& forall|i: int| 0 <= i < d.states ==> #[trigger] d.accepting@[i] == (i == string@.len())
            &&& forall|i: int, k: int|
                0 <= i < d.states && 0 <= k < alph@.len() ==> #[trigger] d.transition@[i]@[k]
                    == Some(begins_target(string@, alph@, i, k) as i32)
            &&& forall|w: Seq<char>|
                in_alpha(alph@, w) ==> #[trigger] d.eval(w) == Ok::<bool, DFAEvaluationError>(
                    is_prefix(string@, w),
                )
        },
{
    let cs = match symbols_in(alph, string) {
        Ok(cs) => cs,
        Err(()) => {
            return Err(());
        },
    };
    let len = cs.len() as i32;
    let acc = flags(len + 2, len);
    let f = |i: i32, k: usize| -> (t: i32)
        requires
            0 <= i < len + 2,
            k < alph@.len(),
        ensures
            t == begins_target(cs@, alph@, i as int, k as int),
    {
        if i == len {
            len
        } else if i < len && alph[k] == cs[i as usize] {
            i + 1
        } else {
            len + 1
        }
    };
    let alen = alph.len();
    let d = table(alph, len + 2, acc, f);
    proof {
        assert forall|i: int, k: int| 0 <= i < d.states && 0 <= k < alph@.len() implies #[trigger] d.transition@[i]@[k]
            == Some(begins_target(string@, alph@, i, k) as i32) by {
            assert(d.transition@[i]@[k] is Some);
            let t = d.transition@[i]@[k].unwrap();
            assert(call_ensures(f, (i as i32, k as usize), t));
        }
        assert forall|w: Seq<char>| in_alpha(alph@, w) implies #[trigger] d.eval(w) == Ok::<bool, DFAEvaluationError>(
            is_prefix(string@, w)) by {
            lemma_matcher_eval(&d, string@, true, 0, w);
            assert(string@.subrange(0, string@.len() as int) =~= string@);
        }
    }
    Ok(d)
}

/// The target of state `i` on column `k` in the automaton for strings ending with `cs`.
fn ends_step(cs: &Vec<char>, alph: &[char], i: i32, k: usize) -> (t: i32)
    requires
        0 <= i <= cs@.len(),
        cs@.len() + 2 <= i32::MAX,
        k < alph@.len(),
    ensures
        t == ends_target(cs@, alph@, i as int, k as int),
        0 <= t <= cs@.len(),
{
    if i < cs.len() as i32 && alph[k] == cs[i as usize] {
        return i + 1;
    }
    let mut e: Vec<char> = Vec::new();
    let mut j: usize = 0;
    while j < i as usize
        invariant
            0 <= i <= cs@.len(),
            j <= i,
            e@ == cs@.subrange(0, j as int),
        decreases i - j,
    {
        e.push(cs[j]);
        j += 1;
    }
    e.push(alph[k]);
    proof {
        assert(e@ =~= cs@.subrange(0, i as int).push(alph@[k as int]));
    }
    substring_compare(cs, &e)
}

/// The first `i` symbols of `s` are the last `i` symbols of `w`.
pub open spec fn suffix_match(s: Seq<char>, w: Seq<char>, i: int) -> bool {
    0 <= i <= s.len() && i <= w.len() && s.subrange(0, i) == w.subrange(w.len() - i, w.len() as int)
}

/// The longest `i <= m` such that the first `i` symbols of `s` end `w`.
pub open spec fn longest_upto(s: Seq<char>, w: Seq<char>, m: int) -> int
    decreases m,
{
    if m <= 0 {
        0
    } else if suffix_match(s, w, m) {
        m
    } else {
        longest_upto(s, w, m - 1)
    }
}

/// `w` ends with `s`.
pub open spec fn ends_with(s: Seq<char>, w: Seq<char>) -> bool {
    s.len() <= w.len() && w.subrange(w.len() - s.len(), w.len() as int) == s
}

proof fn lemma_longest_upto(s: Seq<char>, w: Seq<char>, m: int)
    requires
        0 <= m <= s.len(),
    ensures
        0 <= longest_upto(s, w, m) <= m,
        suffix_match(s, w, longest_upto(s, w, m)),
        forall|i: int| 0 <= i <= m && suffix_match(s, w, i) ==> i <= longest_upto(s, w, m),
    decreases m,
{
    if m <= 0 {
        assert(s.subrange(0, 0) =~= w.subrange(w.len() as int, w.len() as int));
    } else if !suffix_match(s, w, m) {
        lemma_longest_upto(s, w, m - 1);
    }
}

proof fn lemma_overlap_below(b: Seq<char>, e: Seq<char>, m: int)
    requires
        m <= e.len(),
        m - 1 <= b.len(),
    ensures
        0 <= overlap_below(b, e, m),
        overlap_below(b, e, m) > 0 ==> overlap_below(b, e, m) < m && b.subrange(0, overlap_below(b, e, m)) == e.subrange(e.len() - overlap_below(b, e, m), e.len() as int),
        forall|i: int| 1 <= i < m && b.subrange(0, i) == e.subrange(e.len() - i, e.len() as int) ==> i <= overlap_below(b, e, m),
    decreases m,
{
    if m > 1 {
        lemma_overlap_below(b, e, m - 1);
    }
}

/// One step of the suffix automaton keeps the longest prefix of `s` that ends what was read.
proof fn lemma_kmp_step(s: Seq<char>, w: Seq<char>, c: char)
    ensures
        longest_upto(s, w.push(c), s.len() as int) == ({
            let m = longest_upto(s, w, s.len() as int);
            if m < s.len() && c == s[m] {
                m + 1
            } else {
                let e = s.subrange(0, m).push(c);
                overlap_below(s, e, e.len() as int)
            }
        }),
{
    let n = s.len() as int;
    let wc = w.push(c);
    lemma_longest_upto(s, w, n);
    lemma_longest_upto(s, wc, n);
    let m = longest_upto(s, w, n);
    let l = longest_upto(s, wc, n);
    let e = s.subrange(0, m).push(c);
    lemma_overlap_below(s, e, e.len() as int);
    let o = overlap_below(s, e, e.len() as int);
    let t = if m < n && c == s[m] { m + 1 } else { o };
    // t is a candidate
    if m < n && c == s[m] {
        assert(s.subrange(0, m + 1) =~= wc.subrange(wc.len() - (m + 1), wc.len() as int)) by {
            assert forall|k: int| 0 <= k < m + 1 implies #[trigger] s.subrange(0, m + 1)[k] == wc.subrange(wc.len() - (m + 1), wc.len() as int)[k] by {
                if k < m {
                    assert(s.subrange(0, m)[k] == w.subrange(w.len() - m, w.len() as int)[k]);
                }
            }
        }
        assert(suffix_match(s, wc, m + 1));
    } else if o > 0 {
        assert(s.subrange(0, o) =~= wc.subrange(wc.len() - o, wc.len() as int)) by {
            assert forall|k: int| 0 <= k < o implies #[trigger] s.subrange(0, o)[k] == wc.subrange(wc.len() - o, wc.len() as int)[k] by {
                assert(s.subrange(0, o)[k] == e.subrange(e.len() - o, e.len() as int)[k]);
                let idx = e.len() - o + k;
                if idx < m {
                    assert(e[idx] == s.subrange(0, m)[idx]);
                    assert(s.subrange(0, m)[idx] == w.subrange(w.len() - m, w.len() as int)[idx]);
                }
            }
        }
        assert(suffix_match(s, wc, o));
    } else {
        assert(suffix_match(s, wc, 0)) by {
            assert(s.subrange(0, 0) =~= wc.subrange(wc.len() as int, wc.len() as int));
        }
    }
    assert(t <= l);
    // l is no larger
    if l > 0 {
        let p = l - 1;
        assert(suffix_match(s, w, p)) by {
            assert(s.subrange(0, p) =~= w.subrange(w.len() - p, w.len() as int)) by {
                assert forall|k: int| 0 <= k < p implies #[trigger] s.subrange(0, p)[k] == w.subrange(w.len() - p, w.len() as int)[k] by {
                    assert(s.subrange(0, l)[k] == wc.subrange(wc.len() - l, wc.len() as int)[k]);
                }
            }
        }
        assert(p <= m);
        assert(s[p] == c) by {
            assert(s.subrange(0, l)[p] == wc.subrange(wc.len() - l, wc.len() as int)[p]);
        }
        if !(m < n && c == s[m]) {
            if p == m {
                assert(m < n);
            }
            assert(l <= m);
            assert(s.subrange(0, l) =~= e.subrange(e.len() - l, e.len() as int)) by {
                assert forall|k: int| 0 <= k < l implies #[trigger] s.subrange(0, l)[k] == e.subrange(e.len() - l, e.len() as int)[k] by {
                    if k < p {
                        assert(s.subrange(0, p)[k] == w.subrange(w.len() - p, w.len() as int)[k]);
                        let widx = w.len() - p + k;
                        assert(s.subrange(0, m)[m - p + k] == w.subrange(w.len() - m, w.len() as int)[m - p + k]);
                    } else {
                        assert(s.subrange(0, l)[k] == wc.subrange(wc.len() - l, wc.len() as int)[k]);
                    }
                }
            }
        }
    }
}

/// `s` occurs in `w` as a contiguous part.
pub open spec fn contains_part(s: Seq<char>, w: Seq<char>) -> bool {
    exists|i: int| 0 <= i && i + s.len() <= w.len() && #[trigger] w.subrange(i, i + s.len()) == s
}

/// The suffix tables: `keep` says whether state `s.len()` keeps every string.
pub open spec fn suffix_table(d: &DFA, s: Seq<char>, keep: bool) -> bool {
    &&& d.wf()
    &&& d.states == s.len() + 1
    &&& forall|i: int| 0 <= i < d.states ==> #[trigger] d.accepting@[i] == (i == s.len())
    &&& forall|i: int, k: int|
        0 <= i < d.states && 0 <= k < d.alphabet@.len() ==> #[trigger] d.transition@[i]@[k] == Some(
            (if keep { contains_target(s, d.alphabet@, i, k) } else { ends_target(s, d.alphabet@, i, k) }) as i32,
        )
}

proof fn lemma_in_alpha_init(alph: Seq<char>, w: Seq<char>)
    requires
        in_alpha(alph, w),
        w.len() > 0,
    ensures
        in_alpha(alph, w.drop_last()),
        alph.contains(w.last()),
{
    assert(w.last() == w[w.len() - 1]);
    assert forall|m: int| 0 <= m < w.drop_last().len() implies alph.contains(#[trigger] w.drop_last()[m]) by {
        assert(w.drop_last()[m] == w[m]);
    }
}

proof fn lemma_suffix_run(d: &DFA, s: Seq<char>, keep: bool, w: Seq<char>)
    requires
        suffix_table(d, s, keep),
        in_alpha(d.alphabet@, w),
    ensures
        d.run(0, w) == if keep && contains_part(s, w) {
            s.len() as int
        } else {
            longest_upto(s, w, s.len() as int)
        },
        keep && !contains_part(s, w) ==> longest_upto(s, w, s.len() as int) < s.len(),
    decreases w.len(),
{
    let n = s.len() as int;
    lemma_longest_upto(s, w, n);
    if keep && !contains_part(s, w) && longest_upto(s, w, n) == n {
        assert(w.subrange(w.len() - n, w.len() - n + n) == s);
    }
    if w.len() == 0 {
        if keep && contains_part(s, w) {
            let i = choose|i: int| 0 <= i && i + s.len() <= w.len() && #[trigger] w.subrange(i, i + s.len()) == s;
        }
    } else {
        let w1 = w.drop_last();
        let c = w.last();
        lemma_in_alpha_init(d.alphabet@, w);
        lemma_suffix_run(d, s, keep, w1);
        lemma_longest_upto(s, w1, n);
        assert(w1.push(c) =~= w);
        lemma_run_push(d, 0, w1, c);
        let m = d.run(0, w1);
        let k = lemma_lookup(d, m, c);
        assert(d.transition@[m as int]@[k] is Some);
        lemma_kmp_step(s, w1, c);
        if keep && contains_part(s, w1) {
            let i = choose|i: int| 0 <= i && i + s.len() <= w1.len() && #[trigger] w1.subrange(i, i + s.len()) == s;
            assert(w.subrange(i, i + n) =~= w1.subrange(i, i + n));
            assert(contains_part(s, w));
        } else if keep {
            if contains_part(s, w) {
                let i = choose|i: int| 0 <= i && i + s.len() <= w.len() && #[trigger] w.subrange(i, i + s.len()) == s;
                if i + n < w.len() {
                    assert(w1.subrange(i, i + n) =~= w.subrange(i, i + n));
                }
                assert(i + n == w.len());
                assert(suffix_match(s, w, n)) by {
                    assert(s.subrange(0, n) =~= s);
                }
            }
        }
    }
}

/// Strings that end with `string`; `Err` when `string` has a symbol outside `alph`.
pub fn ends_wtih(alph: &[char], string: &str) -> (r: Result<DFA, ()>)
    requires
        alph@.no_duplicates(),
        string@.len() + 2 <= i32::MAX,
    ensures
        r is Err <==> !in_alpha(alph@, string@),
        r matches Ok(d) ==> {
            &&& d.wf()
            &&& d.alphabet@ == alph@
            &&& d.states == string@.len() + 1
            &&& forall|i: int| 0 <= i < d.states ==> #[trigger] d.accepting@[i] == (i == string@.len())
            &&& forall|i: int, k: int|
                0 <= i < d.states && 0 <= k < alph@.len() ==> #[trigger] d.transition@[i]@[k]
                    == Some(ends_target(string@, alph@, i, k) as i32)
            &&& forall|w: Seq<char>|
                in_alpha(alph@, w) ==> #[trigger] d.eval(w) == Ok::<bool, DFAEvaluationError>(
                    ends_with(string@, w),
                )
        },
{
    let cs = match symbols_in(alph, string) {
        Ok(cs) => cs,
        Err(()) => {
            return Err(());
        },
    };
    let len = cs.len() as i32;
    let acc = flags(len + 1, len);
    let f = |i: i32, k: usize| -> (t: i32)
        requires
            0 <= i < len + 1,
            k < alph@.len(),
        ensures
            t == ends_target(cs@, alph@, i as int, k as int),
            0 <= t <= len,
    {
        ends_step(&cs, alph, i, k)
    };
    let alen = alph.len();
    let d = table(alph, len + 1, acc, f);
    proof {
        assert forall|i: int, k: int| 0 <= i < d.states && 0 <= k < alph@.len() implies #[trigger] d.transition@[i]@[k]
            == Some(ends_target(string@, alph@, i, k) as i32) by {
            assert(d.transition@[i]@[k] is Some);
            let t = d.transition@[i]@[k].unwrap();
            assert(call_ensures(f, (i as i32, k as usize), t));
        }
        assert forall|w: Seq<char>| in_alpha(alph@, w) implies #[trigger] d.eval(w) == Ok::<bool, DFAEvaluationError>(
            ends_with(string@, w)) by {
            lemma_suffix_run(&d, string@, false, w);
            lemma_wf_eval_ok(&d, 0, w);
            let n = string@.len() as int;
            lemma_longest_upto(string@, w, n);
            assert(string@.subrange(0, n) =~= string@);
        }
    }
    Ok(d)
}

/// Strings that contain `string` as a contiguous part; `Err` when `string` has
/// a symbol outside `alph`.
pub fn contains_substring(alph: &[char], string: &str) -> (r: Result<DFA, ()>)
    requires
        alph@.no_duplicates(),
        string@.len() + 2 <= i32::MAX,
    ensures
        r is Err <==> !in_alpha(alph@, string@),
        r matches Ok(d) ==> {
            &&& d.wf()
            &&& d.alphabet@ == alph@
            &&& d.states == string@.len() + 1
            &&& forall|i: int| 0 <= i < d.states ==> #[trigger] d.accepting@[i] == (i == string@.len())
            &&& forall|i: int, k: int|
                0 <= i < d.states && 0 <= k < alph@.len() ==> #[trigger] d.transition@[i]@[k]
                    == Some(contains_target(string@, alph@, i, k) as i32)
            &&& forall|w: Seq<char>|
                in_alpha(alph@, w) ==> #[trigger] d.eval(w) == Ok::<bool, DFAEvaluationError>(
                    contains_part(string@, w),
                )
        },
{
    let cs = match symbols_in(alph, string) {
        Ok(cs) => cs,
        Err(()) => {
            return Err(());
        },
    };
    let len = cs.len() as i32;
    let acc = flags(len + 1, len);
    let f = |i: i32, k: usize| -> (t: i32)
        requires
            0 <= i < len + 1,
            k < alph@.len(),
        ensures
            t == contains_target(cs@, alph@, i as int, k as int),
            0 <= t <= len,
    {
        if i == len {
            len
        } else {
            ends_step(&cs, alph, i, k)
        }
    };
    let alen = alph.len();
    let d = table(alph, len + 1, acc, f);
    proof {
        assert forall|i: int, k: int| 0 <= i < d.states && 0 <= k < alph@.len() implies #[trigger] d.transition@[i]@[k]
            == Some(contains_target(string@, alph@, i, k) as i32) by {
            assert(d.transition@[i]@[k] is Some);
            let t = d.transition@[i]@[k].unwrap();
            assert(call_ensures(f, (i as i32, k as usize), t));
        }
        assert forall|w: Seq<char>| in_alpha(alph@, w) implies #[trigger] d.eval(w) == Ok::<bool, DFAEvaluationError>(
            contains_part(string@, w)) by {
            lemma_suffix_run(&d, string@, true, w);
            lemma_wf_eval_ok(&d, 0, w);
            lemma_run_range(&d, 0, w);
        }
    }
    Ok(d)
}

} // verus!
