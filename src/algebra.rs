//! Alphabet extension, product construction and the boolean operations.
use vstd::prelude::*;
use crate::dfa::{DFA, DFAEvaluationError, in_alpha, flip};
use crate::semantics::lemma_lookup;
use vstd::arithmetic::div_mod::{lemma_fundamental_div_mod, lemma_fundamental_div_mod_converse, lemma_mod_pos_bound};
use crate::minimize::{lemma_same_as_eval, lemma_rows_wf, lemma_same_as_wf, optimized_through};

verus! {

/// The symbols of `a`, followed by those of `b` that `a` lacks, in their order in `b`.
pub open spec fn merged_alphabet(a: Seq<char>, b: Seq<char>) -> Seq<char> {
    a + b.filter(missing_from(a))
}

/// Holds of the symbols that `a` lacks.
pub open spec fn missing_from(a: Seq<char>) -> spec_fn(char) -> bool {
    |c: char| !a.contains(c)
}

/// `r` is what `optimize` returns for some automaton.
pub open spec fn is_minimized(r: &DFA) -> bool {
    exists|p: DFA, a: DFA, b: DFA, c: DFA| #[trigger] optimized_through(&p, a, b, c, r)
}

/// A state count that leaves room for the product of `a` and `b`, each grown
/// by a sink state and by the symbols of the other.
pub open spec fn product_bound(a: &DFA, b: &DFA) -> int {
    (a.states + b.alphabet@.len() + 1) * (b.states + a.alphabet@.len() + 1)
}

/// A run that yields a result reads only symbols of the alphabet.
pub proof fn lemma_ok_in_alpha(d: &DFA, q: i32, w: Seq<char>)
    requires
        d.eval_from(q, w) is Ok,
    ensures
        in_alpha(d.alphabet@, w),
    decreases w.len(),
{
    if w.len() > 0 {
        let t = d.lookup(q, w[0]).unwrap();
        lemma_ok_in_alpha(d, t, w.drop_first());
        assert forall|i: int| 0 <= i < w.len() implies d.alphabet@.contains(#[trigger] w[i]) by {
            if i > 0 {
                assert(w[i] == w.drop_first()[i - 1]);
            }
        }
    }
}

/// In a well-formed automaton a string over the alphabet always yields a result.
pub proof fn lemma_wf_eval_ok(d: &DFA, q: i32, w: Seq<char>)
    requires
        d.wf(),
        0 <= q < d.states,
        in_alpha(d.alphabet@, w),
    ensures
        d.eval_from(q, w) == Ok::<bool, DFAEvaluationError>(d.accepting@[d.run(q, w) as int]),
    decreases w.len(),
{
    if w.len() > 0 {
        assert(d.alphabet@.contains(w[0]));
        let k = lemma_lookup(d, q, w[0]);
        assert(in_alpha(d.alphabet@, w.drop_first())) by {
            assert forall|i: int| 0 <= i < w.drop_first().len() implies d.alphabet@.contains(
                #[trigger] w.drop_first()[i],
            ) by {
                assert(w.drop_first()[i] == w[i + 1]);
            }
        }
        lemma_wf_eval_ok(d, d.delta(q as int, k) as i32, w.drop_first());
    }
}

/// Swapping every accept flag swaps every result.
proof fn lemma_flip_eval(d: &DFA, n: &DFA, q: i32, w: Seq<char>)
    requires
        n.alphabet@ == d.alphabet@,
        n.states == d.states,
        n.transition@.len() == d.transition@.len(),
        forall|i: int| 0 <= i < d.transition@.len() ==> #[trigger] n.transition@[i]@ == d.transition@[i]@,
        n.accepting@.len() == d.accepting@.len(),
        forall|i: int| 0 <= i < d.accepting@.len() ==> #[trigger] n.accepting@[i] == !d.accepting@[i],
    ensures
        n.eval_from(q, w) == flip(d.eval_from(q, w)),
    decreases w.len(),
{
    if w.len() > 0 && 0 <= q < d.transition@.len() {
        assert(n.transition@[q as int]@ == d.transition@[q as int]@);
        if let Some(t) = d.lookup(q, w[0]) {
            lemma_flip_eval(d, n, t, w.drop_first());
        }
    }
}

impl DFA {
    /// Swaps accepting and rejecting states, then minimizes.
    pub fn negation(&self) -> (r: DFA)
        requires
            self.wf(),
        ensures
            r.wf(),
            r.alphabet@ == self.alphabet@,
            r.states <= self.states,
            r.states > 0 <==> self.states > 0,
            forall|w: Seq<char>| #[trigger] r.eval(w) == flip(self.eval(w)),
            is_minimized(&r),
    {
        let mut accepting: Vec<bool> = Vec::new();
        let mut i: usize = 0;
        while i < self.accepting.len()
            invariant
                i <= self.accepting@.len(),
                accepting@.len() == i,
                forall|j: int| 0 <= j < i ==> #[trigger] accepting@[j] == !self.accepting@[j],
            decreases self.accepting@.len() - i,
        {
            accepting.push(!self.accepting[i]);
            i += 1;
        }
        let mut flipped = self.duplicate();
        flipped.accepting = accepting;
        proof {
            lemma_rows_wf(self, &flipped);
        }
        let r = flipped.optimize();
        proof {
            let (a, b, c) = choose|a: DFA, b: DFA, c: DFA| optimized_through(&flipped, a, b, c, &r);
            assert(optimized_through(&flipped, a, b, c, &r));
            assert forall|w: Seq<char>| #[trigger] r.eval(w) == flip(self.eval(w)) by {
                lemma_flip_eval(self, &flipped, 0, w);
                assert(flipped.eval(w) == r.eval(w));
            }
        }
        r
    }
}

impl DFA {
    /// Each row of the table, with `extra(q)` pushed on the row of state `q`.
    fn rows_with(&self, extra: &Vec<Option<i32>>) -> (rows: Vec<Vec<Option<i32>>>)
        requires
            self.wf(),
            extra@.len() == self.states,
        ensures
            rows@.len() == self.states,
            forall|q: int| 0 <= q < self.states ==> #[trigger] rows@[q]@ == self.transition@[q]@.push(extra@[q]),
    {
        let mut rows: Vec<Vec<Option<i32>>> = Vec::new();
        let mut q: usize = 0;
        while q < self.transition.len()
            invariant
                self.wf(),
                extra@.len() == self.states,
                q <= self.states,
                rows@.len() == q,
                forall|i: int| 0 <= i < q ==> #[trigger] rows@[i]@ == self.transition@[i]@.push(extra@[i]),
            decreases self.states - q,
        {
            let mut row = self.transition[q].clone();
            assert(row@ =~= self.transition@[q as int]@);
            row.push(extra[q]);
            rows.push(row);
            q += 1;
        }
        rows
    }

    /// Adds `c` as a symbol that loops on every state; a copy if `c` is present.
    pub fn add_char_ignore(&self, c: char) -> (r: DFA)
        requires
            self.wf(),
        ensures
            r.wf(),
            self.alphabet@.contains(c) ==> r.same_as(self),
            !self.alphabet@.contains(c) ==> {
                &&& r.alphabet@ == self.alphabet@.push(c)
                &&& r.states == self.states
                &&& r.accepting@ == self.accepting@
                &&& r.transition@.len() == self.states
                &&& forall|q: int| 0 <= q < self.states ==> #[trigger] r.transition@[q]@
                    == self.transition@[q]@.push(Some(q as i32))
            },
    {
        if self.find_col(c).is_some() {
            let r = self.duplicate();
            proof { lemma_same_as_wf(self, &r); }
            return r;
        }
        let mut extra: Vec<Option<i32>> = Vec::new();
        let mut q: i32 = 0;
        while q < self.states
            invariant
                0 <= q <= self.states,
                extra@.len() == q,
                forall|i: int| 0 <= i < q ==> #[trigger] extra@[i] == Some(i as i32),
            decreases self.states - q,
        {
            extra.push(Some(q));
            q += 1;
        }
        let transition = self.rows_with(&extra);
        let mut alphabet = self.alphabet.clone();
        alphabet.push(c);
        let r = DFA { alphabet, states: self.states, accepting: self.accepting.clone(), transition };
        proof {
            assert(r.accepting@ =~= self.accepting@);
            lemma_pushed_column_wf(self, &r, c);
        }
        r
    }

    /// Adds `c` as a symbol that goes, from every state, where `other` goes; a
    /// copy if `c` is present or `other` is absent.
    pub fn add_char_imitate(&self, c: char, other: char) -> (r: DFA)
        requires
            self.wf(),
        ensures
            r.wf(),
            self.alphabet@.contains(c) || !self.alphabet@.contains(other) ==> r.same_as(self),
            !self.alphabet@.contains(c) && self.alphabet@.contains(other) ==> {
                &&& r.alphabet@ == self.alphabet@.push(c)
                &&& r.states == self.states
                &&& r.accepting@ == self.accepting@
                &&& r.transition@.len() == self.states
                &&& forall|q: int| 0 <= q < self.states ==> #[trigger] r.transition@[q]@
                    == self.transition@[q]@.push(self.lookup(q as i32, other))
            },
    {
        let k = match self.find_col(other) {
            Some(k) => k,
            None => {
                let r = self.duplicate();
                proof { lemma_same_as_wf(self, &r); }
                return r;
            },
        };
        proof {
            self.alphabet@.index_of_first_ensures(other);
        }
        if self.find_col(c).is_some() {
            let r = self.duplicate();
            proof { lemma_same_as_wf(self, &r); }
            return r;
        }
        let mut extra: Vec<Option<i32>> = Vec::new();
        let mut q: usize = 0;
        while q < self.transition.len()
            invariant
                self.wf(),
                k < self.alphabet@.len(),
                self.alphabet@.index_of_first(other) == Some(k as int),
                q <= self.states,
                extra@.len() == q,
                forall|i: int| 0 <= i < q ==> #[trigger] extra@[i] == self.lookup(i as i32, other),
                forall|i: int| 0 <= i < q ==> #[trigger] extra@[i] == self.transition@[i]@[k as int],
            decreases self.states - q,
        {
            assert(self.transition@[q as int]@.len() == self.alphabet@.len());
            extra.push(self.transition[q][k]);
            q += 1;
        }
        let transition = self.rows_with(&extra);
        let mut alphabet = self.alphabet.clone();
        alphabet.push(c);
        let r = DFA { alphabet, states: self.states, accepting: self.accepting.clone(), transition };
        proof {
            assert(r.accepting@ =~= self.accepting@);
            lemma_pushed_column_wf(self, &r, c);
        }
        r
    }

    /// Adds `c` together with a new sink state flagged `accept`: `c` leads every
    /// old state to the sink, and the sink loops on every symbol. A copy if `c`
    /// is present.
    pub fn add_char_accept(&self, c: char, accept: bool) -> (r: DFA)
        requires
            self.wf(),
            self.states < i32::MAX,
        ensures
            r.wf(),
            self.alphabet@.contains(c) ==> r.same_as(self),
            !self.alphabet@.contains(c) ==> self.is_sink_extension(c, accept, &r),
    {
        if self.find_col(c).is_some() {
            let r = self.duplicate();
            proof { lemma_same_as_wf(self, &r); }
            return r;
        }
        let n = self.states;
        let mut extra: Vec<Option<i32>> = Vec::new();
        let mut q: i32 = 0;
        while q < n
            invariant
                0 <= q <= n,
                n == self.states,
                extra@.len() == q,
                forall|i: int| 0 <= i < q ==> #[trigger] extra@[i] == Some(n),
            decreases n - q,
        {
            extra.push(Some(n));
            q += 1;
        }
        let mut transition = self.rows_with(&extra);
        let mut sink: Vec<Option<i32>> = Vec::new();
        let mut k: usize = 0;
        while k < self.alphabet.len()
            invariant
                k <= self.alphabet@.len(),
                sink@.len() == k,
                forall|i: int| 0 <= i < k ==> #[trigger] sink@[i] == Some(n),
            decreases self.alphabet@.len() - k,
        {
            sink.push(Some(n));
            k += 1;
        }
        sink.push(Some(n));
        transition.push(sink);
        let mut alphabet = self.alphabet.clone();
        alphabet.push(c);
        let mut accepting = self.accepting.clone();
        accepting.push(accept);
        let r = DFA { alphabet, states: n + 1, accepting, transition };
        proof {
            assert(r.alphabet@ =~= self.alphabet@.push(c));
            assert(r.accepting@ =~= self.accepting@.push(accept));
            assert(r.alphabet@.no_duplicates()) by {
                assert forall|i: int, j: int| 0 <= i < j < r.alphabet@.len() implies r.alphabet@[i] != r.alphabet@[j] by {
                    if j == self.alphabet@.len() {
                        assert(self.alphabet@.contains(self.alphabet@[i]));
                    }
                }
            }
            assert forall|q: int| 0 <= q < r.states implies #[trigger] r.transition@[q]@.len() == r.alphabet@.len() by {
                if q < n {
                    assert(r.transition@[q]@ == self.transition@[q]@.push(Some(n)));
                }
            }
            assert forall|q: int, kk: int| 0 <= q < r.states && 0 <= kk < r.alphabet@.len() implies {
                let t = #[trigger] r.transition@[q]@[kk];
                t is Some && 0 <= t.unwrap() < r.states
            } by {
                if q < n {
                    assert(r.transition@[q]@ == self.transition@[q]@.push(Some(n)));
                    if kk < self.alphabet@.len() {
                        assert(self.transition@[q]@[kk] is Some);
                    }
                }
            }
        }
        r
    }
}

impl DFA {
    /// `r` is `self` with the new symbol `c` and a new sink state flagged `accept`.
    pub open spec fn is_sink_extension(&self, c: char, accept: bool, r: &DFA) -> bool {
        &&& r.alphabet@ == self.alphabet@.push(c)
        &&& r.states == self.states + 1
        &&& r.accepting@ == self.accepting@.push(accept)
        &&& r.transition@.len() == r.states
        &&& forall|q: int| 0 <= q < self.states ==> #[trigger] r.transition@[q]@
            == self.transition@[q]@.push(Some(self.states))
        &&& r.transition@[self.states as int]@.len() == r.alphabet@.len()
        &&& forall|k: int| 0 <= k < r.alphabet@.len() ==> #[trigger] r.transition@[self.states as int]@[k]
            == Some(self.states)
    }
}

/// A new symbol whose column holds states is well formed.
proof fn lemma_pushed_column_wf(d: &DFA, r: &DFA, c: char)
    requires
        d.wf(),
        !d.alphabet@.contains(c),
        r.alphabet@ == d.alphabet@.push(c),
        r.states == d.states,
        r.accepting@ == d.accepting@,
        r.transition@.len() == d.states,
        forall|q: int| 0 <= q < d.states ==> {
            let e = (#[trigger] r.transition@[q])@.last();
            &&& r.transition@[q]@ == d.transition@[q]@.push(e)
            &&& e is Some && 0 <= e.unwrap() < d.states
        },
    ensures
        r.wf(),
{
    assert(r.alphabet@.no_duplicates()) by {
        assert forall|i: int, j: int| 0 <= i < j < r.alphabet@.len() implies r.alphabet@[i] != r.alphabet@[j] by {
            if j == d.alphabet@.len() {
                assert(d.alphabet@.contains(d.alphabet@[i]));
            }
        }
    }
    assert forall|q: int, k: int| 0 <= q < r.states && 0 <= k < r.alphabet@.len() implies {
        let t = #[trigger] r.transition@[q]@[k];
        t is Some && 0 <= t.unwrap() < r.states
    } by {
        let e = r.transition@[q]@.last();
        assert(r.transition@[q]@ == d.transition@[q]@.push(e));
        if k < d.alphabet@.len() {
            assert(d.transition@[q]@[k] is Some);
        }
    }
}

/// The sink of an extension accepts, or rejects, everything over the new alphabet.
proof fn lemma_sink_eval(d: &DFA, r: &DFA, c: char, accept: bool, w: Seq<char>)
    requires
        d.wf(),
        r.wf(),
        d.is_sink_extension(c, accept, r),
        in_alpha(r.alphabet@, w),
    ensures
        r.eval_from(d.states, w) == Ok::<bool, DFAEvaluationError>(accept),
    decreases w.len(),
{
    if w.len() > 0 {
        assert(r.alphabet@.contains(w[0]));
        let k = lemma_lookup(r, d.states, w[0]);
        assert(in_alpha(r.alphabet@, w.drop_first())) by {
            assert forall|i: int| 0 <= i < w.drop_first().len() implies r.alphabet@.contains(
                #[trigger] w.drop_first()[i],
            ) by {
                assert(w.drop_first()[i] == w[i + 1]);
            }
        }
        lemma_sink_eval(d, r, c, accept, w.drop_first());
    }
}

/// After a rejecting sink extension, a string over the new alphabet is accepted
/// exactly when the old automaton accepts it.
proof fn lemma_sink_extension_eval(d: &DFA, r: &DFA, c: char, q: i32, w: Seq<char>)
    requires
        d.wf(),
        r.wf(),
        !d.alphabet@.contains(c),
        d.is_sink_extension(c, false, r),
        0 <= q < d.states,
        in_alpha(r.alphabet@, w),
    ensures
        r.eval_from(q, w) == Ok::<bool, DFAEvaluationError>(d.eval_from(q, w) == Ok::<bool, DFAEvaluationError>(true)),
    decreases w.len(),
{
    if w.len() > 0 {
        let c1 = w[0];
        assert(r.alphabet@.contains(c1));
        let kr = lemma_lookup(r, q, c1);
        assert(in_alpha(r.alphabet@, w.drop_first())) by {
            assert forall|i: int| 0 <= i < w.drop_first().len() implies r.alphabet@.contains(
                #[trigger] w.drop_first()[i],
            ) by {
                assert(w.drop_first()[i] == w[i + 1]);
            }
        }
        assert(r.transition@[q as int]@ == d.transition@[q as int]@.push(Some(d.states)));
        if kr == d.alphabet@.len() {
            lemma_sink_eval(d, r, c, false, w.drop_first());
        } else {
            assert(d.alphabet@.contains(c1)) by {
                assert(d.alphabet@[kr] == c1);
            }
            let kd = lemma_lookup(d, q, c1);
            assert(r.alphabet@[kd] == c1);
            lemma_sink_extension_eval(d, r, c, d.delta(q as int, kd) as i32, w.drop_first());
        }
    }
}

/// The column of `R` that holds the symbol of column `k` of `L`.
pub open spec fn rcol(l: &DFA, r: &DFA, k: int) -> int {
    r.alphabet@.index_of_first(l.alphabet@[k]).unwrap()
}

/// `p` is the product of `l` and `r`: state `x` stands for the pair
/// `(x / r.states, x % r.states)`.
pub open spec fn is_product(l: &DFA, r: &DFA, p: &DFA) -> bool {
    let n = r.states as int;
    &&& p.alphabet@ == l.alphabet@
    &&& p.states == l.states * r.states
    &&& p.accepting@.len() == p.states
    &&& p.transition@.len() == p.states
    &&& forall|x: int| 0 <= x < p.states ==> #[trigger] p.accepting@[x] == (l.accepting@[x / n]
        && r.accepting@[x % n])
    &&& forall|x: int| 0 <= x < p.states ==> #[trigger] p.transition@[x]@.len() == l.alphabet@.len()
    &&& forall|x: int, k: int|
        0 <= x < p.states && 0 <= k < l.alphabet@.len() ==> #[trigger] p.transition@[x]@[k] == Some(
            (l.delta(x / n, k) * n + r.delta(x % n, rcol(l, r, k))) as i32,
        )
}

proof fn lemma_pair_index(a: int, b: int, na: int, nb: int)
    requires
        0 <= a < na,
        0 <= b < nb,
    ensures
        0 <= a * nb + b < na * nb,
        (a * nb + b) / nb == a,
        (a * nb + b) % nb == b,
{
    assert(0 <= a * nb + b < na * nb) by (nonlinear_arith)
        requires
            0 <= a < na,
            0 <= b < nb,
    ;
    lemma_fundamental_div_mod_converse(a * nb + b, nb, a, b);
}

proof fn lemma_unpair_index(x: int, na: int, nb: int)
    requires
        0 <= x < na * nb,
        nb > 0,
    ensures
        0 <= x / nb < na,
        0 <= x % nb < nb,
        x == (x / nb) * nb + x % nb,
{
    lemma_fundamental_div_mod(x, nb);
    lemma_mod_pos_bound(x, nb);
    let q = x / nb;
    let m = x % nb;
    assert(0 <= q < na) by (nonlinear_arith)
        requires
            x == nb * q + m,
            0 <= m < nb,
            0 <= x < na * nb,
            nb > 0,
    ;
    assert(x == q * nb + m) by (nonlinear_arith)
        requires
            x == nb * q + m,
    ;
}

/// The product accepts a string exactly when both factors accept it.
proof fn lemma_product_eval(l: &DFA, r: &DFA, p: &DFA, i: int, j: int, w: Seq<char>)
    requires
        l.wf(),
        r.wf(),
        p.wf(),
        forall|c: char| l.alphabet@.contains(c) <==> r.alphabet@.contains(c),
        is_product(l, r, p),
        0 <= i < l.states,
        0 <= j < r.states,
        in_alpha(l.alphabet@, w),
    ensures
        p.eval_from((i * r.states + j) as i32, w) == Ok::<bool, DFAEvaluationError>(
            l.eval_from(i as i32, w) == Ok::<bool, DFAEvaluationError>(true) && r.eval_from(j as i32, w)
                == Ok::<bool, DFAEvaluationError>(true),
        ),
    decreases w.len(),
{
    let n = r.states as int;
    lemma_pair_index(i, j, l.states as int, n);
    let x = i * n + j;
    lemma_wf_eval_ok(l, i as i32, w);
    lemma_wf_eval_ok(r, j as i32, w);
    if w.len() > 0 {
        let c = w[0];
        assert(l.alphabet@.contains(c));
        let k = lemma_lookup(p, x as i32, c);
        let kl = lemma_lookup(l, i as i32, c);
        let kr = lemma_lookup(r, j as i32, c);
        assert(in_alpha(l.alphabet@, w.drop_first())) by {
            assert forall|m: int| 0 <= m < w.drop_first().len() implies l.alphabet@.contains(
                #[trigger] w.drop_first()[m],
            ) by {
                assert(w.drop_first()[m] == w[m + 1]);
            }
        }
        let a = l.delta(i, k);
        let b = r.delta(j, kr);
        assert(p.transition@[x]@[k] == Some((a * n + b) as i32));
        lemma_product_eval(l, r, p, a, b, w.drop_first());
    }
}

impl DFA {
    /// The product automaton of two automata over the same symbols.
    fn product(l: &DFA, r: &DFA) -> (p: DFA)
        requires
            l.wf(),
            r.wf(),
            l.states * r.states <= i32::MAX,
            forall|c: char| l.alphabet@.contains(c) <==> r.alphabet@.contains(c),
        ensures
            p.wf(),
            is_product(l, r, &p),
    {
        let total = l.states * r.states;
        let n = r.states;
        let mut accepting: Vec<bool> = Vec::new();
        let mut transition: Vec<Vec<Option<i32>>> = Vec::new();
        let mut x: i32 = 0;
        while x < total
            invariant
                l.wf(),
                r.wf(),
                total == l.states * r.states,
                total <= i32::MAX,
                n == r.states,
                forall|c: char| l.alphabet@.contains(c) <==> r.alphabet@.contains(c),
                0 <= x <= total,
                accepting@.len() == x,
                transition@.len() == x,
                forall|y: int| 0 <= y < x ==> #[trigger] accepting@[y] == (l.accepting@[y / n as int]
                    && r.accepting@[y % n as int]),
                forall|y: int| 0 <= y < x ==> #[trigger] transition@[y]@.len() == l.alphabet@.len(),
                forall|y: int, k: int|
                    0 <= y < x && 0 <= k < l.alphabet@.len() ==> #[trigger] transition@[y]@[k] == Some(
                        (l.delta(y / n as int, k) * n + r.delta(y % n as int, rcol(l, r, k))) as i32,
                    ),
                forall|y: int, k: int|
                    0 <= y < x && 0 <= k < l.alphabet@.len() ==> 0 <= (#[trigger] transition@[y]@[k]).unwrap() < total,
            decreases total - x,
        {
            proof {
                assert(n > 0) by (nonlinear_arith)
                    requires
                        0 <= x < total,
                        total == l.states * n,
                        l.states >= 0,
                ;
                lemma_unpair_index(x as int, l.states as int, n as int);
            }
            let i = x / n;
            let j = x % n;
            accepting.push(l.accepting[i as usize] && r.accepting[j as usize]);
            let mut row: Vec<Option<i32>> = Vec::new();
            let mut k: usize = 0;
            while k < l.alphabet.len()
                invariant
                    l.wf(),
                    r.wf(),
                    total == l.states * r.states,
                    total <= i32::MAX,
                    n == r.states,
                    n > 0,
                    forall|c: char| l.alphabet@.contains(c) <==> r.alphabet@.contains(c),
                    0 <= i < l.states,
                    0 <= j < n,
                    k <= l.alphabet@.len(),
                    row@.len() == k,
                    forall|kk: int|
                        0 <= kk < k ==> #[trigger] row@[kk] == Some(
                            (l.delta(i as int, kk) * n + r.delta(j as int, rcol(l, r, kk))) as i32,
                        ),
                    forall|kk: int| 0 <= kk < k ==> 0 <= (#[trigger] row@[kk]).unwrap() < total,
                decreases l.alphabet@.len() - k,
            {
                let c = l.alphabet[k];
                proof {
                    assert(l.alphabet@.contains(c));
                    assert(r.alphabet@.contains(c));
                    r.alphabet@.index_of_first_ensures(c);
                }
                let k2 = r.find_col(c).unwrap();
                assert(l.transition@[i as int]@.len() == l.alphabet@.len());
                assert(r.transition@[j as int]@.len() == r.alphabet@.len());
                let a = l.transition[i as usize][k].unwrap();
                let b = r.transition[j as usize][k2].unwrap();
                proof {
                    lemma_pair_index(a as int, b as int, l.states as int, n as int);
                }
                row.push(Some(a * n + b));
                k += 1;
            }
            transition.push(row);
            x += 1;
        }
        let p = DFA { alphabet: l.alphabet.clone(), states: total, accepting, transition };
        proof {
            assert(p.alphabet@ =~= l.alphabet@);
        }
        p
    }
}

impl DFA {
    /// Adds each symbol of `extra` that is missing, each with its own rejecting sink.
    fn extend_with_sinks(&self, extra: &Vec<char>) -> (r: DFA)
        requires
            self.wf(),
            extra@.no_duplicates(),
            self.states + extra@.len() < i32::MAX,
        ensures
            r.wf(),
            r.alphabet@ == merged_alphabet(self.alphabet@, extra@),
            self.states <= r.states <= self.states + extra@.len(),
            self.states > 0 ==> forall|w: Seq<char>|
                in_alpha(r.alphabet@, w) ==> #[trigger] r.eval(w) == Ok::<bool, DFAEvaluationError>(
                    self.accepts(w),
                ),
    {
        let mut cur = self.duplicate();
        proof {
            lemma_same_as_wf(self, &cur);
            assert(extra@.subrange(0, 0).filter(missing_from(self.alphabet@)) =~= Seq::<char>::empty()) by {
                reveal(Seq::filter);
            }
            assert(cur.alphabet@ =~= merged_alphabet(self.alphabet@, extra@.subrange(0, 0)));
            if self.states > 0 {
                assert forall|w: Seq<char>| in_alpha(cur.alphabet@, w) implies #[trigger] cur.eval(w)
                    == Ok::<bool, DFAEvaluationError>(self.accepts(w)) by {
                    lemma_same_as_eval(self, &cur, 0, w);
                    lemma_wf_eval_ok(self, 0, w);
                }
            }
        }
        let mut j: usize = 0;
        while j < extra.len()
            invariant
                self.wf(),
                cur.wf(),
                extra@.no_duplicates(),
                self.states + extra@.len() < i32::MAX,
                j <= extra@.len(),
                cur.alphabet@ == merged_alphabet(self.alphabet@, extra@.subrange(0, j as int)),
                self.states <= cur.states <= self.states + j,
                self.states > 0 ==> forall|w: Seq<char>|
                    in_alpha(cur.alphabet@, w) ==> #[trigger] cur.eval(w) == Ok::<bool, DFAEvaluationError>(
                        self.accepts(w),
                    ),
            decreases extra@.len() - j,
        {
            let c = extra[j];
            let ghost pre = extra@.subrange(0, j as int);
            let ghost f = pre.filter(missing_from(self.alphabet@));
            proof {
                assert(extra@.subrange(0, j + 1) =~= pre.push(c));
                pre.lemma_filter_push(c, missing_from(self.alphabet@));
                if f.contains(c) {
                    pre.lemma_filter_contains_rev(missing_from(self.alphabet@), c);
                    let m = choose|m: int| 0 <= m < pre.len() && pre[m] == c;
                    assert(extra@[m] == extra@[j as int]);
                }
                assert(cur.alphabet@.contains(c) <==> self.alphabet@.contains(c)) by {
                    if cur.alphabet@.contains(c) && !self.alphabet@.contains(c) {
                        let m = choose|m: int| 0 <= m < cur.alphabet@.len() && cur.alphabet@[m] == c;
                        assert(f[m - self.alphabet@.len()] == c);
                    }
                    if self.alphabet@.contains(c) {
                        let m = choose|m: int| 0 <= m < self.alphabet@.len() && self.alphabet@[m] == c;
                        assert(cur.alphabet@[m] == c);
                    }
                }
            }
            let next = cur.add_char_accept(c, false);
            proof {
                if cur.alphabet@.contains(c) {
                    assert(next.alphabet@ =~= merged_alphabet(self.alphabet@, extra@.subrange(0, j + 1)));
                    if self.states > 0 {
                        assert forall|w: Seq<char>| in_alpha(next.alphabet@, w) implies #[trigger] next.eval(w)
                            == Ok::<bool, DFAEvaluationError>(self.accepts(w)) by {
                            lemma_same_as_eval(&cur, &next, 0, w);
                            assert(in_alpha(cur.alphabet@, w));
                            assert(cur.eval(w) == Ok::<bool, DFAEvaluationError>(self.accepts(w)));
                        }
                    }
                } else {
                    assert(next.alphabet@ =~= merged_alphabet(self.alphabet@, extra@.subrange(0, j + 1)));
                    if self.states > 0 {
                        assert forall|w: Seq<char>| in_alpha(next.alphabet@, w) implies #[trigger] next.eval(w)
                            == Ok::<bool, DFAEvaluationError>(self.accepts(w)) by {
                            lemma_sink_extension_eval(&cur, &next, c, 0, w);
                            if in_alpha(cur.alphabet@, w) {
                                assert(cur.eval(w) == Ok::<bool, DFAEvaluationError>(self.accepts(w)));
                            } else {
                                if cur.eval(w) is Ok {
                                    lemma_ok_in_alpha(&cur, 0, w);
                                }
                                if self.eval(w) is Ok {
                                    lemma_ok_in_alpha(self, 0, w);
                                    assert(in_alpha(cur.alphabet@, w)) by {
                                        assert forall|m: int| 0 <= m < w.len() implies cur.alphabet@.contains(#[trigger] w[m]) by {
                                            assert(self.alphabet@.contains(w[m]));
                                            let t = choose|t: int| 0 <= t < self.alphabet@.len() && self.alphabet@[t] == w[m];
                                            assert(cur.alphabet@[t] == w[m]);
                                        }
                                    }
                                }
                            }
                        }
                    }
                }
            }
            cur = next;
            j += 1;
        }
        proof {
            assert(extra@.subrange(0, extra@.len() as int) =~= extra@);
        }
        cur
    }

    /// The automaton accepting what both accept, over the merged alphabet, minimized.
    /// An automaton without states on the left gives the right one unchanged.
    pub fn intersect(&self, rhs: &DFA) -> (r: DFA)
        requires
            self.wf(),
            rhs.wf(),
            product_bound(self, rhs) <= i32::MAX,
        ensures
            r.wf(),
            self.states == 0 ==> r.same_as(rhs),
            self.states > 0 ==> r.alphabet@ == merged_alphabet(self.alphabet@, rhs.alphabet@),
            self.states > 0 ==> r.states <= (self.states + rhs.alphabet@.len()) * (rhs.states
                + self.alphabet@.len()),
            self.states > 0 && rhs.states > 0 ==> r.states > 0,
            self.states > 0 && rhs.states > 0 ==> forall|w: Seq<char>|
                in_alpha(r.alphabet@, w) ==> #[trigger] r.eval(w) == Ok::<bool, DFAEvaluationError>(
                    self.accepts(w) && rhs.accepts(w),
                ),
            self.states > 0 ==> is_minimized(&r),
    {
        if self.states == 0 {
            let r = rhs.duplicate();
            proof { lemma_same_as_wf(rhs, &r); }
            return r;
        }
        proof {
            assert(self.states + rhs.alphabet@.len() < i32::MAX) by (nonlinear_arith)
                requires
                    (self.states + rhs.alphabet@.len() + 1) * (rhs.states + self.alphabet@.len() + 1) <= i32::MAX,
                    self.states >= 0,
                    rhs.states >= 0,
            ;
            assert(rhs.states + self.alphabet@.len() < i32::MAX) by (nonlinear_arith)
                requires
                    (self.states + rhs.alphabet@.len() + 1) * (rhs.states + self.alphabet@.len() + 1) <= i32::MAX,
                    self.states >= 0,
                    rhs.states >= 0,
            ;
        }
        let l = self.extend_with_sinks(&rhs.alphabet);
        let rr = rhs.extend_with_sinks(&self.alphabet);
        proof {
            let a = self.alphabet@;
            let b = rhs.alphabet@;
            assert forall|c: char| l.alphabet@.contains(c) <==> rr.alphabet@.contains(c) by {
                lemma_merged_contains(a, b, c);
                lemma_merged_contains(b, a, c);
            }
            let x = l.states as int;
            let y = rr.states as int;
            assert(x * y <= (self.states + b.len()) * (rhs.states + a.len())) by (nonlinear_arith)
                requires
                    0 <= x <= self.states + b.len(),
                    0 <= y <= rhs.states + a.len(),
            ;
            let s1 = self.states + b.len();
            let s2 = rhs.states + a.len();
            assert(s1 * s2 <= (s1 + 1) * (s2 + 1)) by (nonlinear_arith)
                requires
                    s1 >= 0,
                    s2 >= 0,
            ;
        }
        let p = DFA::product(&l, &rr);
        let r = p.optimize();
        proof {
            let (a, b, c) = choose|a: DFA, b: DFA, c: DFA| optimized_through(&p, a, b, c, &r);
            assert(optimized_through(&p, a, b, c, &r));
            if rhs.states > 0 {
                assert(p.states > 0) by (nonlinear_arith)
                    requires
                        p.states == l.states * rr.states,
                        l.states > 0,
                        rr.states > 0,
                ;
                assert forall|w: Seq<char>| in_alpha(r.alphabet@, w) implies #[trigger] r.eval(w)
                    == Ok::<bool, DFAEvaluationError>(self.accepts(w) && rhs.accepts(w)) by {
                    assert(in_alpha(rr.alphabet@, w)) by {
                        assert forall|m: int| 0 <= m < w.len() implies rr.alphabet@.contains(#[trigger] w[m]) by {
                            assert(l.alphabet@.contains(w[m]));
                        }
                    }
                    lemma_product_eval(&l, &rr, &p, 0, 0, w);
                    assert(p.eval(w) == r.eval(w));
                    assert(l.eval(w) == Ok::<bool, DFAEvaluationError>(self.accepts(w)));
                    assert(rr.eval(w) == Ok::<bool, DFAEvaluationError>(rhs.accepts(w)));
                }
            }
        }
        r
    }
}

/// A symbol is in the merged alphabet exactly when it is in either one.
pub proof fn lemma_merged_contains(a: Seq<char>, b: Seq<char>, c: char)
    ensures
        merged_alphabet(a, b).contains(c) <==> a.contains(c) || b.contains(c),
{
    let f = b.filter(missing_from(a));
    let m = merged_alphabet(a, b);
    if m.contains(c) && !a.contains(c) {
        let i = choose|i: int| 0 <= i < m.len() && m[i] == c;
        assert(f[i - a.len()] == c);
        assert(f.contains(c));
        b.lemma_filter_contains_rev(missing_from(a), c);
    }
    if a.contains(c) {
        let i = choose|i: int| 0 <= i < a.len() && a[i] == c;
        assert(m[i] == c);
    }
    if b.contains(c) && !a.contains(c) {
        let i = choose|i: int| 0 <= i < b.len() && b[i] == c;
        b.lemma_filter_contains(missing_from(a), i);
        let t = choose|t: int| 0 <= t < f.len() && f[t] == c;
        assert(m[a.len() + t] == c);
    }
}

/// A state count that leaves room for the products that exclusive-or builds.
pub open spec fn xor_bound(a: &DFA, b: &DFA) -> int {
    let p = (a.states + b.alphabet@.len()) * (b.states + a.alphabet@.len());
    let l = a.alphabet@.len() + b.alphabet@.len();
    (p + l + a.states + b.states + 1) * (p + l + a.states + b.states + 1)
}

/// A string over a smaller alphabet is a string over a larger one.
pub proof fn lemma_in_alpha_sub(a: Seq<char>, b: Seq<char>, w: Seq<char>)
    requires
        in_alpha(a, w),
        forall|c: char| a.contains(c) ==> b.contains(c),
    ensures
        in_alpha(b, w),
{
    assert forall|i: int| 0 <= i < w.len() implies b.contains(#[trigger] w[i]) by {
        assert(a.contains(w[i]));
    }
}

/// A well-formed automaton with states accepts or rejects each string over its alphabet.
pub proof fn lemma_decides(d: &DFA, w: Seq<char>)
    requires
        d.wf(),
        d.states > 0,
        in_alpha(d.alphabet@, w),
    ensures
        d.accepts(w) != d.rejects(w),
{
    lemma_wf_eval_ok(d, 0, w);
}

/// The merged alphabet is no longer than both together.
pub proof fn lemma_merged_len(a: Seq<char>, b: Seq<char>)
    ensures
        merged_alphabet(a, b).len() <= a.len() + b.len(),
{
    b.lemma_filter_len(missing_from(a));
}

/// Merging an alphabet with itself changes nothing.
pub proof fn lemma_merged_self(a: Seq<char>)
    ensures
        merged_alphabet(a, a) == a,
{
    a.lemma_all_neg_filter_empty(missing_from(a));
    assert forall|i: int| 0 <= i < a.len() implies !missing_from(a)(a[i]) by {
        assert(a.contains(a[i]));
    }
    a.lemma_all_neg_filter_empty(missing_from(a));
    assert(merged_alphabet(a, a) =~= a);
}

impl DFA {
    /// The automaton accepting what either accepts: the negation of the
    /// intersection of the negations.
    pub fn union(&self, rhs: &DFA) -> (r: DFA)
        requires
            self.wf(),
            rhs.wf(),
            product_bound(self, rhs) <= i32::MAX,
        ensures
            r.wf(),
            self.states > 0 ==> r.alphabet@ == merged_alphabet(self.alphabet@, rhs.alphabet@),
            self.states > 0 ==> r.states <= (self.states + rhs.alphabet@.len()) * (rhs.states
                + self.alphabet@.len()),
            self.states == 0 ==> r.alphabet@ == rhs.alphabet@ && r.states <= rhs.states,
            self.states > 0 && rhs.states > 0 ==> r.states > 0,
            self.states > 0 && rhs.states > 0 ==> forall|w: Seq<char>|
                in_alpha(r.alphabet@, w) ==> #[trigger] r.eval(w) == Ok::<bool, DFAEvaluationError>(
                    !(self.rejects(w) && rhs.rejects(w)),
                ),
            self.states > 0 && rhs.states > 0 ==> forall|w: Seq<char>|
                in_alpha(self.alphabet@, w) && in_alpha(rhs.alphabet@, w) ==> #[trigger] r.eval(w)
                    == Ok::<bool, DFAEvaluationError>(self.accepts(w) || rhs.accepts(w)),
            is_minimized(&r),
    {
        let na = self.negation();
        let nb = rhs.negation();
        proof {
            lemma_product_bound_mono(&na, &nb, self, rhs);
        }
        let i = na.intersect(&nb);
        let r = i.negation();
        proof {
            if self.states == 0 {
                assert(i.alphabet@ == nb.alphabet@);
            }
            lemma_mul_mono(na.states + rhs.alphabet@.len(), nb.states + self.alphabet@.len(),
                self.states + rhs.alphabet@.len(), rhs.states + self.alphabet@.len());
            if self.states > 0 && rhs.states > 0 {
                assert forall|w: Seq<char>| in_alpha(r.alphabet@, w) implies #[trigger] r.eval(w)
                    == Ok::<bool, DFAEvaluationError>(!(self.rejects(w) && rhs.rejects(w))) by {
                    assert(i.eval(w) == Ok::<bool, DFAEvaluationError>(na.accepts(w) && nb.accepts(w)));
                    assert(na.eval(w) == flip(self.eval(w)));
                    assert(nb.eval(w) == flip(rhs.eval(w)));
                }
                assert forall|w: Seq<char>| in_alpha(self.alphabet@, w) && in_alpha(rhs.alphabet@, w) implies #[trigger] r.eval(w)
                    == Ok::<bool, DFAEvaluationError>(self.accepts(w) || rhs.accepts(w)) by {
                    lemma_decides(self, w);
                    lemma_decides(rhs, w);
                    assert forall|c: char| self.alphabet@.contains(c) implies r.alphabet@.contains(c) by {
                        lemma_merged_contains(self.alphabet@, rhs.alphabet@, c);
                    }
                    lemma_in_alpha_sub(self.alphabet@, r.alphabet@, w);
                    assert(r.eval(w) == Ok::<bool, DFAEvaluationError>(!(self.rejects(w) && rhs.rejects(w))));
                }
            }
        }
        r
    }

    /// The automaton accepting what `self` accepts and `rhs` rejects.
    pub fn difference(&self, rhs: &DFA) -> (r: DFA)
        requires
            self.wf(),
            rhs.wf(),
            product_bound(self, rhs) <= i32::MAX,
        ensures
            r.wf(),
            self.states > 0 ==> r.alphabet@ == merged_alphabet(self.alphabet@, rhs.alphabet@),
            self.states > 0 ==> r.states <= (self.states + rhs.alphabet@.len()) * (rhs.states
                + self.alphabet@.len()),
            self.states > 0 && rhs.states > 0 ==> r.states > 0,
            self.states > 0 && rhs.states > 0 ==> forall|w: Seq<char>|
                in_alpha(r.alphabet@, w) ==> #[trigger] r.eval(w) == Ok::<bool, DFAEvaluationError>(
                    self.accepts(w) && rhs.rejects(w),
                ),
            self.states > 0 && rhs.states > 0 ==> forall|w: Seq<char>|
                in_alpha(self.alphabet@, w) && in_alpha(rhs.alphabet@, w) ==> #[trigger] r.eval(w)
                    == Ok::<bool, DFAEvaluationError>(self.accepts(w) && !rhs.accepts(w)),
            self.states > 0 ==> is_minimized(&r),
    {
        let nb = rhs.negation();
        proof {
            lemma_product_bound_mono(self, &nb, self, rhs);
        }
        let r = self.intersect(&nb);
        proof {
            lemma_mul_mono(self.states + rhs.alphabet@.len(), nb.states + self.alphabet@.len(),
                self.states + rhs.alphabet@.len(), rhs.states + self.alphabet@.len());
            if self.states > 0 && rhs.states > 0 {
                assert forall|w: Seq<char>| in_alpha(r.alphabet@, w) implies #[trigger] r.eval(w)
                    == Ok::<bool, DFAEvaluationError>(self.accepts(w) && rhs.rejects(w)) by {
                    assert(nb.eval(w) == flip(rhs.eval(w)));
                }
                assert forall|w: Seq<char>| in_alpha(self.alphabet@, w) && in_alpha(rhs.alphabet@, w) implies #[trigger] r.eval(w)
                    == Ok::<bool, DFAEvaluationError>(self.accepts(w) && !rhs.accepts(w)) by {
                    lemma_decides(rhs, w);
                    assert forall|c: char| self.alphabet@.contains(c) implies r.alphabet@.contains(c) by {
                        lemma_merged_contains(self.alphabet@, rhs.alphabet@, c);
                    }
                    lemma_in_alpha_sub(self.alphabet@, r.alphabet@, w);
                    assert(r.eval(w) == Ok::<bool, DFAEvaluationError>(self.accepts(w) && rhs.rejects(w)));
                }
            }
        }
        r
    }
}

/// Fewer states, and the same alphabets, leave the bound no larger.
proof fn lemma_product_bound_mono(a: &DFA, b: &DFA, a0: &DFA, b0: &DFA)
    requires
        0 <= a.states <= a0.states,
        0 <= b.states <= b0.states,
        a.alphabet@ == a0.alphabet@,
        b.alphabet@ == b0.alphabet@,
    ensures
        product_bound(a, b) <= product_bound(a0, b0),
{
    let x = a.states + b.alphabet@.len() + 1;
    let y = b.states + a.alphabet@.len() + 1;
    let x0 = a0.states + b0.alphabet@.len() + 1;
    let y0 = b0.states + a0.alphabet@.len() + 1;
    assert(x * y <= x0 * y0) by (nonlinear_arith)
        requires
            0 <= x <= x0,
            0 <= y <= y0,
    ;
}

pub proof fn lemma_mul_mono(x: int, y: int, x0: int, y0: int)
    requires
        0 <= x <= x0,
        0 <= y <= y0,
    ensures
        x * y <= x0 * y0,
{
    assert(x * y <= x0 * y0) by (nonlinear_arith)
        requires
            0 <= x <= x0,
            0 <= y <= y0,
    ;
}

impl DFA {
    /// The automaton accepting what exactly one of the two accepts: the union
    /// minus the intersection.
    pub fn xor(&self, rhs: &DFA) -> (r: DFA)
        requires
            self.wf(),
            rhs.wf(),
            product_bound(self, rhs) <= i32::MAX,
            xor_bound(self, rhs) <= i32::MAX,
        ensures
            r.wf(),
            self.states > 0 && rhs.states > 0 ==> r.states > 0,
            self.states > 0 && rhs.states > 0 ==> r.alphabet@ == merged_alphabet(self.alphabet@, rhs.alphabet@),
            self.states > 0 && rhs.states > 0 ==> forall|w: Seq<char>|
                in_alpha(r.alphabet@, w) ==> #[trigger] r.eval(w) == Ok::<bool, DFAEvaluationError>(
                    !(self.rejects(w) && rhs.rejects(w)) && !(self.accepts(w) && rhs.accepts(w)),
                ),
            self.states > 0 && rhs.states > 0 ==> forall|w: Seq<char>|
                in_alpha(self.alphabet@, w) && in_alpha(rhs.alphabet@, w) ==> #[trigger] r.eval(w)
                    == Ok::<bool, DFAEvaluationError>(self.accepts(w) != rhs.accepts(w)),
            self.states > 0 && rhs.states > 0 ==> is_minimized(&r),
    {
        let u = self.union(rhs);
        let i = self.intersect(rhs);
        proof {
            let m = merged_alphabet(self.alphabet@, rhs.alphabet@);
            lemma_merged_len(self.alphabet@, rhs.alphabet@);
            lemma_merged_self(m);
            let p = (self.states + rhs.alphabet@.len()) * (rhs.states + self.alphabet@.len());
            let l = self.alphabet@.len() + rhs.alphabet@.len();
            let big = p + l + self.states + rhs.states + 1;
            assert(p >= 0) by (nonlinear_arith)
                requires
                    p == (self.states + rhs.alphabet@.len()) * (rhs.states + self.alphabet@.len()),
                    self.states >= 0,
                    rhs.states >= 0,
            ;
            if self.states > 0 {
                lemma_mul_mono(u.states + m.len() + 1, i.states + m.len() + 1, big, big);
            } else {
                lemma_mul_mono(u.states + rhs.alphabet@.len() + 1, i.states + rhs.alphabet@.len() + 1, big, big);
            }
        }
        let r = u.difference(&i);
        proof {
            if self.states > 0 && rhs.states > 0 {
                let m = merged_alphabet(self.alphabet@, rhs.alphabet@);
                assert forall|w: Seq<char>| in_alpha(r.alphabet@, w) implies #[trigger] r.eval(w)
                    == Ok::<bool, DFAEvaluationError>(
                        !(self.rejects(w) && rhs.rejects(w)) && !(self.accepts(w) && rhs.accepts(w))) by {
                    assert(r.eval(w) == Ok::<bool, DFAEvaluationError>(u.accepts(w) && i.rejects(w)));
                    assert(u.eval(w) == Ok::<bool, DFAEvaluationError>(!(self.rejects(w) && rhs.rejects(w))));
                    assert(i.eval(w) == Ok::<bool, DFAEvaluationError>(self.accepts(w) && rhs.accepts(w)));
                }
                assert forall|w: Seq<char>| in_alpha(self.alphabet@, w) && in_alpha(rhs.alphabet@, w) implies #[trigger] r.eval(w)
                    == Ok::<bool, DFAEvaluationError>(self.accepts(w) != rhs.accepts(w)) by {
                    lemma_decides(self, w);
                    lemma_decides(rhs, w);
                    assert forall|c: char| self.alphabet@.contains(c) implies r.alphabet@.contains(c) by {
                        lemma_merged_contains(self.alphabet@, rhs.alphabet@, c);
                    }
                    lemma_in_alpha_sub(self.alphabet@, r.alphabet@, w);
                    assert(r.eval(w) == Ok::<bool, DFAEvaluationError>(
                        !(self.rejects(w) && rhs.rejects(w)) && !(self.accepts(w) && rhs.accepts(w))));
                }
            }
        }
        r
    }
}

/// The summed alphabet lengths of the first `n` automata.
pub open spec fn alpha_upto(s: Seq<DFA>, n: int) -> int
    decreases n,
{
    if n <= 0 {
        0
    } else {
        alpha_upto(s, n - 1) + s[n - 1].alphabet@.len()
    }
}

/// A bound on the state count of a fold of `intersect` over the first `n` automata.
pub open spec fn fold_bound(s: Seq<DFA>, n: int) -> int
    decreases n,
{
    let k = alpha_upto(s, s.len() as int);
    if n <= 0 {
        0
    } else if n == 1 {
        s[0].states as int
    } else {
        (fold_bound(s, n - 1) + k + 1) * (s[n - 1].states + k + 1)
    }
}

/// Every automaton of `s` is well formed and has states.
pub open spec fn all_usable(s: Seq<DFA>) -> bool {
    forall|i: int| 0 <= i < s.len() ==> #[trigger] s[i].wf() && s[i].states > 0
}

proof fn lemma_alpha_upto_mono(s: Seq<DFA>, i: int, n: int)
    requires
        0 <= i <= n,
    ensures
        0 <= alpha_upto(s, i) <= alpha_upto(s, n),
    decreases n - i,
{
    if i < n {
        lemma_alpha_upto_mono(s, i, n - 1);
    } else {
        lemma_alpha_upto_nonneg(s, n);
    }
}

proof fn lemma_alpha_upto_nonneg(s: Seq<DFA>, n: int)
    ensures
        0 <= alpha_upto(s, n),
    decreases n,
{
    if n > 0 {
        lemma_alpha_upto_nonneg(s, n - 1);
    }
}

proof fn lemma_fold_bound_mono(s: Seq<DFA>, i: int, n: int)
    requires
        1 <= i <= n <= s.len(),
        all_usable(s),
    ensures
        0 <= fold_bound(s, i) <= fold_bound(s, n),
    decreases n - i,
{
    lemma_alpha_upto_nonneg(s, s.len() as int);
    lemma_fold_bound_nonneg(s, i);
    if i < n {
        lemma_fold_bound_mono(s, i, n - 1);
        let f = fold_bound(s, n - 1);
        let k = alpha_upto(s, s.len() as int);
        let x = s[n - 1].states as int;
        assert(s[n - 1].wf());
        assert(f <= (f + k + 1) * (x + k + 1)) by (nonlinear_arith)
            requires
                f >= 0,
                k >= 0,
                x >= 0,
        ;
    }
}

proof fn lemma_fold_bound_nonneg(s: Seq<DFA>, n: int)
    requires
        1 <= n <= s.len(),
        all_usable(s),
    ensures
        0 <= fold_bound(s, n),
    decreases n,
{
    lemma_alpha_upto_nonneg(s, s.len() as int);
    assert(s[0].wf());
    assert(s[n - 1].wf());
    if n > 1 {
        lemma_fold_bound_nonneg(s, n - 1);
        let f = fold_bound(s, n - 1);
        let k = alpha_upto(s, s.len() as int);
        let x = s[n - 1].states as int;
        assert(0 <= (f + k + 1) * (x + k + 1)) by (nonlinear_arith)
            requires
                f >= 0,
                k >= 0,
                x >= 0,
        ;
    }
}

impl DFA {
    /// The intersection of all the automata, folded from the left; the
    /// automaton without states when there are none.
    pub fn big_intersect(dfas: &[DFA]) -> (r: DFA)
        requires
            all_usable(dfas@),
            fold_bound(dfas@, dfas@.len() as int) <= i32::MAX,
        ensures
            r.wf(),
            dfas@.len() == 0 ==> r.states == 0,
            dfas@.len() > 0 ==> r.states > 0,
            forall|c: char| #[trigger] r.alphabet@.contains(c) <==> exists|j: int| 0 <= j < dfas@.len() && #[trigger] dfas@[j].alphabet@.contains(c),
            dfas@.len() > 0 ==> forall|w: Seq<char>|
                in_alpha(r.alphabet@, w) ==> #[trigger] r.eval(w) == Ok::<bool, DFAEvaluationError>(
                    forall|j: int| 0 <= j < dfas@.len() ==> #[trigger] dfas@[j].accepts(w),
                ),
            dfas@.len() > 1 ==> is_minimized(&r),
    {
        if dfas.len() == 0 {
            return DFA::new();
        }
        let ghost s = dfas@;
        let ghost k = alpha_upto(s, s.len() as int);
        proof {
            assert(s[0].wf());
        }
        let mut acc = dfas[0].copy_wf();
        proof {
            lemma_alpha_upto_mono(s, 1, s.len() as int);
            assert(alpha_upto(s, 0) == 0);
            assert forall|w: Seq<char>| in_alpha(acc.alphabet@, w) implies #[trigger] acc.eval(w)
                == Ok::<bool, DFAEvaluationError>(forall|j: int| 0 <= j < 1 ==> #[trigger] s[j].accepts(w)) by {
                lemma_wf_eval_ok(&acc, 0, w);
                assert(s[0].eval(w) == acc.eval(w));
                assert((forall|j: int| 0 <= j < 1 ==> #[trigger] s[j].accepts(w)) == s[0].accepts(w));
            }
            assert forall|c: char| #[trigger] acc.alphabet@.contains(c) <==> exists|j: int| 0 <= j < 1 && #[trigger] s[j].alphabet@.contains(c) by {
                if acc.alphabet@.contains(c) {
                    assert(s[0].alphabet@.contains(c));
                }
            }
        }
        let mut i: usize = 1;
        while i < dfas.len()
            invariant
                s == dfas@,
                k == alpha_upto(s, s.len() as int),
                all_usable(s),
                fold_bound(s, s.len() as int) <= i32::MAX,
                1 <= i <= s.len(),
                acc.wf(),
                acc.states > 0,
                i > 1 ==> is_minimized(&acc),
                acc.states <= fold_bound(s, i as int),
                acc.alphabet@.len() <= alpha_upto(s, i as int),
                forall|c: char| #[trigger] acc.alphabet@.contains(c) <==> exists|j: int| 0 <= j < i && #[trigger] s[j].alphabet@.contains(c),
                forall|w: Seq<char>|
                    in_alpha(acc.alphabet@, w) ==> #[trigger] acc.eval(w) == Ok::<bool, DFAEvaluationError>(
                        forall|j: int| 0 <= j < i ==> #[trigger] s[j].accepts(w),
                    ),
            decreases s.len() - i,
        {
            let d = &dfas[i];
            proof {
                assert(d.wf());
                lemma_alpha_upto_mono(s, i + 1, s.len() as int);
                lemma_fold_bound_mono(s, i as int + 1, s.len() as int);
                lemma_fold_bound_mono(s, i as int, s.len() as int);
                assert(d.alphabet@.len() <= k);
                lemma_mul_mono(acc.states + d.alphabet@.len() + 1, d.states + acc.alphabet@.len() + 1,
                    fold_bound(s, i as int) + k + 1, d.states + k + 1);
                assert(fold_bound(s, i + 1) == (fold_bound(s, i as int) + k + 1) * (d.states + k + 1));
            }
            let next = acc.intersect(d);
            proof {
                lemma_mul_mono(acc.states + d.alphabet@.len(), d.states + acc.alphabet@.len(),
                    fold_bound(s, i as int) + k + 1, d.states + k + 1);
                lemma_merged_len(acc.alphabet@, d.alphabet@);
                assert forall|c: char| #[trigger] next.alphabet@.contains(c) <==> exists|j: int| 0 <= j < i + 1 && #[trigger] s[j].alphabet@.contains(c) by {
                    lemma_merged_contains(acc.alphabet@, d.alphabet@, c);
                    if acc.alphabet@.contains(c) {
                        let j = choose|j: int| 0 <= j < i && #[trigger] s[j].alphabet@.contains(c);
                    }
                    if exists|j: int| 0 <= j < i + 1 && #[trigger] s[j].alphabet@.contains(c) {
                        let j = choose|j: int| 0 <= j < i + 1 && #[trigger] s[j].alphabet@.contains(c);
                        if j < i {
                            assert(acc.alphabet@.contains(c));
                        }
                    }
                }
                assert forall|w: Seq<char>| in_alpha(next.alphabet@, w) implies #[trigger] next.eval(w)
                    == Ok::<bool, DFAEvaluationError>(forall|j: int| 0 <= j < i + 1 ==> #[trigger] s[j].accepts(w)) by {
                    assert(next.eval(w) == Ok::<bool, DFAEvaluationError>(acc.accepts(w) && d.accepts(w)));
                    if in_alpha(acc.alphabet@, w) {
                        assert(acc.eval(w) == Ok::<bool, DFAEvaluationError>(forall|j: int| 0 <= j < i ==> #[trigger] s[j].accepts(w)));
                    } else {
                        if acc.eval(w) is Ok {
                            lemma_ok_in_alpha(&acc, 0, w);
                        }
                        assert(s[0].wf());
                        if s[0].accepts(w) {
                            lemma_ok_in_alpha(&s[0], 0, w);
                            assert forall|c: char| s[0].alphabet@.contains(c) implies acc.alphabet@.contains(c) by {
                                assert(exists|j: int| 0 <= j < i && #[trigger] s[j].alphabet@.contains(c)) by {
                                    assert(s[0].alphabet@.contains(c));
                                }
                            }
                            lemma_in_alpha_sub(s[0].alphabet@, acc.alphabet@, w);
                        }
                    }
                }
            }
            acc = next;
            i += 1;
        }
        acc
    }
}

impl DFA {
    /// The union of all the automata: the negation of the fold of `intersect`
    /// over their negations; the automaton without states when there are none.
    pub fn big_union(dfas: &[DFA]) -> (r: DFA)
        requires
            all_usable(dfas@),
            fold_bound(dfas@, dfas@.len() as int) <= i32::MAX,
        ensures
            r.wf(),
            dfas@.len() == 0 ==> r.states == 0,
            dfas@.len() > 0 ==> r.states > 0,
            forall|c: char| #[trigger] r.alphabet@.contains(c) <==> exists|j: int| 0 <= j < dfas@.len() && #[trigger] dfas@[j].alphabet@.contains(c),
            dfas@.len() > 0 ==> forall|w: Seq<char>|
                in_alpha(r.alphabet@, w) ==> #[trigger] r.eval(w) == Ok::<bool, DFAEvaluationError>(
                    !forall|j: int| 0 <= j < dfas@.len() ==> #[trigger] dfas@[j].rejects(w),
                ),
            dfas@.len() > 0 ==> forall|w: Seq<char>|
                (forall|j: int| 0 <= j < dfas@.len() ==> in_alpha(#[trigger] dfas@[j].alphabet@, w)) ==> #[trigger] r.eval(w) == Ok::<bool, DFAEvaluationError>(
                    exists|j: int| 0 <= j < dfas@.len() && #[trigger] dfas@[j].accepts(w),
                ),
            is_minimized(&r),
    {
        if dfas.len() == 0 {
            let e = DFA::new();
            let r = e.negation();
            proof {
                assert forall|c: char| #[trigger] r.alphabet@.contains(c) implies false by {
                    assert(r.alphabet@.len() == 0);
                }
            }
            return r;
        }
        let ghost s = dfas@;
        let ghost k = alpha_upto(s, s.len() as int);
        proof {
            assert(s[0].wf());
        }
        let mut acc = dfas[0].negation();
        proof {
            lemma_alpha_upto_mono(s, 1, s.len() as int);
            assert(alpha_upto(s, 0) == 0);
            assert forall|w: Seq<char>| in_alpha(acc.alphabet@, w) implies #[trigger] acc.eval(w)
                == Ok::<bool, DFAEvaluationError>(forall|j: int| 0 <= j < 1 ==> #[trigger] s[j].rejects(w)) by {
                lemma_wf_eval_ok(&s[0], 0, w);
                assert(acc.eval(w) == flip(s[0].eval(w)));
                assert((forall|j: int| 0 <= j < 1 ==> #[trigger] s[j].rejects(w)) == s[0].rejects(w));
            }
            assert forall|c: char| #[trigger] acc.alphabet@.contains(c) <==> exists|j: int| 0 <= j < 1 && #[trigger] s[j].alphabet@.contains(c) by {
                if acc.alphabet@.contains(c) {
                    assert(s[0].alphabet@.contains(c));
                }
            }
        }
        let mut i: usize = 1;
        while i < dfas.len()
            invariant
                s == dfas@,
                k == alpha_upto(s, s.len() as int),
                all_usable(s),
                fold_bound(s, s.len() as int) <= i32::MAX,
                1 <= i <= s.len(),
                acc.wf(),
                acc.states > 0,
                acc.states <= fold_bound(s, i as int),
                acc.alphabet@.len() <= alpha_upto(s, i as int),
                forall|c: char| #[trigger] acc.alphabet@.contains(c) <==> exists|j: int| 0 <= j < i && #[trigger] s[j].alphabet@.contains(c),
                forall|w: Seq<char>|
                    in_alpha(acc.alphabet@, w) ==> #[trigger] acc.eval(w) == Ok::<bool, DFAEvaluationError>(
                        forall|j: int| 0 <= j < i ==> #[trigger] s[j].rejects(w),
                    ),
            decreases s.len() - i,
        {
            proof {
                assert(s[i as int].wf());
            }
            let d = dfas[i].negation();
            proof {
                let di = s[i as int];
                lemma_alpha_upto_mono(s, i + 1, s.len() as int);
                lemma_fold_bound_mono(s, i as int + 1, s.len() as int);
                lemma_fold_bound_mono(s, i as int, s.len() as int);
                assert(d.alphabet@.len() <= k);
                lemma_mul_mono(acc.states + d.alphabet@.len() + 1, d.states + acc.alphabet@.len() + 1,
                    fold_bound(s, i as int) + k + 1, di.states + k + 1);
                assert(fold_bound(s, i + 1) == (fold_bound(s, i as int) + k + 1) * (di.states + k + 1));
            }
            let next = acc.intersect(&d);
            proof {
                let di = s[i as int];
                lemma_mul_mono(acc.states + d.alphabet@.len(), d.states + acc.alphabet@.len(),
                    fold_bound(s, i as int) + k + 1, di.states + k + 1);
                lemma_merged_len(acc.alphabet@, d.alphabet@);
                assert forall|c: char| #[trigger] next.alphabet@.contains(c) <==> exists|j: int| 0 <= j < i + 1 && #[trigger] s[j].alphabet@.contains(c) by {
                    lemma_merged_contains(acc.alphabet@, d.alphabet@, c);
                    if acc.alphabet@.contains(c) {
                        let j = choose|j: int| 0 <= j < i && #[trigger] s[j].alphabet@.contains(c);
                    }
                    if exists|j: int| 0 <= j < i + 1 && #[trigger] s[j].alphabet@.contains(c) {
                        let j = choose|j: int| 0 <= j < i + 1 && #[trigger] s[j].alphabet@.contains(c);
                        if j < i {
                            assert(acc.alphabet@.contains(c));
                        }
                    }
                }
                assert forall|w: Seq<char>| in_alpha(next.alphabet@, w) implies #[trigger] next.eval(w)
                    == Ok::<bool, DFAEvaluationError>(forall|j: int| 0 <= j < i + 1 ==> #[trigger] s[j].rejects(w)) by {
                    assert(next.eval(w) == Ok::<bool, DFAEvaluationError>(acc.accepts(w) && d.accepts(w)));
                    assert(d.eval(w) == flip(di.eval(w)));
                    assert(d.accepts(w) == di.rejects(w));
                    assert((forall|j: int| 0 <= j < i + 1 ==> #[trigger] s[j].rejects(w)) == ((forall|j: int| 0 <= j < i ==> #[trigger] s[j].rejects(w)) && di.rejects(w))) by {
                        if (forall|j: int| 0 <= j < i ==> #[trigger] s[j].rejects(w)) && di.rejects(w) {
                            assert forall|j: int| 0 <= j < i + 1 implies #[trigger] s[j].rejects(w) by {
                                if j == i {
                                    assert(s[j] == di);
                                }
                            }
                        }
                    }
                    if in_alpha(acc.alphabet@, w) {
                        assert(acc.eval(w) == Ok::<bool, DFAEvaluationError>(forall|j: int| 0 <= j < i ==> #[trigger] s[j].rejects(w)));
                    } else {
                        if acc.eval(w) is Ok {
                            lemma_ok_in_alpha(&acc, 0, w);
                        }
                        assert(s[0].wf());
                        if s[0].rejects(w) {
                            lemma_ok_in_alpha(&s[0], 0, w);
                            assert forall|c: char| s[0].alphabet@.contains(c) implies acc.alphabet@.contains(c) by {
                                assert(exists|j: int| 0 <= j < i && #[trigger] s[j].alphabet@.contains(c)) by {
                                    assert(s[0].alphabet@.contains(c));
                                }
                            }
                            lemma_in_alpha_sub(s[0].alphabet@, acc.alphabet@, w);
                        }
                    }
                }
            }
            acc = next;
            i += 1;
        }
        let r = acc.negation();
        proof {
            assert forall|w: Seq<char>| in_alpha(r.alphabet@, w) implies #[trigger] r.eval(w)
                == Ok::<bool, DFAEvaluationError>(!forall|j: int| 0 <= j < s.len() ==> #[trigger] s[j].rejects(w)) by {
                assert(r.eval(w) == flip(acc.eval(w)));
            }
            assert forall|w: Seq<char>| (forall|j: int| 0 <= j < s.len() ==> in_alpha(#[trigger] s[j].alphabet@, w)) implies #[trigger] r.eval(w)
                == Ok::<bool, DFAEvaluationError>(exists|j: int| 0 <= j < s.len() && #[trigger] s[j].accepts(w)) by {
                assert(in_alpha(s[0].alphabet@, w));
                assert forall|c: char| s[0].alphabet@.contains(c) implies r.alphabet@.contains(c) by {
                    assert(exists|j: int| 0 <= j < s.len() && #[trigger] s[j].alphabet@.contains(c)) by {
                        assert(s[0].alphabet@.contains(c));
                    }
                }
                lemma_in_alpha_sub(s[0].alphabet@, r.alphabet@, w);
                assert(r.eval(w) == Ok::<bool, DFAEvaluationError>(!forall|j: int| 0 <= j < s.len() ==> #[trigger] s[j].rejects(w)));
                assert forall|j: int| 0 <= j < s.len() implies (#[trigger] s[j].rejects(w) <==> !s[j].accepts(w)) by {
                    assert(s[j].wf());
                    assert(in_alpha(s[j].alphabet@, w));
                    lemma_decides(&s[j], w);
                }
                if !forall|j: int| 0 <= j < s.len() ==> #[trigger] s[j].rejects(w) {
                    let j = choose|j: int| 0 <= j < s.len() && !#[trigger] s[j].rejects(w);
                    assert(s[j].accepts(w));
                }
                if exists|j: int| 0 <= j < s.len() && #[trigger] s[j].accepts(w) {
                    let j = choose|j: int| 0 <= j < s.len() && #[trigger] s[j].accepts(w);
                    assert(!s[j].rejects(w));
                }
            }
        }
        r
    }
}

/// `n` is what `negation` returns for `a`.
pub open spec fn is_negation_of(a: &DFA, n: &DFA) -> bool {
    &&& n.wf()
    &&& n.alphabet@ == a.alphabet@
    &&& forall|w: Seq<char>| #[trigger] n.eval(w) == flip(a.eval(w))
}

/// Negating twice gives back the outcome of every string.
pub proof fn lemma_double_negation(a: &DFA, n1: &DFA, n2: &DFA)
    requires
        a.wf(),
        is_negation_of(a, n1),
        is_negation_of(n1, n2),
    ensures
        a.same_behavior(n2),
{
    assert forall|w: Seq<char>| #[trigger] a.eval(w) == n2.eval(w) by {
        assert(n2.eval(w) == flip(n1.eval(w)));
        assert(n1.eval(w) == flip(a.eval(w)));
    }
}

/// In a well-formed automaton with states, a string holding a symbol outside
/// the alphabet fails with `InvalidChar`, naming the first such symbol.
pub proof fn lemma_foreign_symbol_fails(d: &DFA, q: i32, w: Seq<char>)
    requires
        d.wf(),
        0 <= q < d.states,
        !in_alpha(d.alphabet@, w),
    ensures
        d.eval_from(q, w) matches Err(DFAEvaluationError::InvalidChar(c)) && !d.alphabet@.contains(
            c,
        ) && w.contains(c),
    decreases w.len(),
{
    if w.len() > 0 && d.alphabet@.contains(w[0]) {
        let k = lemma_lookup(d, q, w[0]);
        assert(!in_alpha(d.alphabet@, w.drop_first())) by {
            if in_alpha(d.alphabet@, w.drop_first()) {
                assert forall|i: int| 0 <= i < w.len() implies d.alphabet@.contains(#[trigger] w[i]) by {
                    if i > 0 {
                        assert(w[i] == w.drop_first()[i - 1]);
                    }
                }
            }
        }
        lemma_foreign_symbol_fails(d, d.delta(q as int, k) as i32, w.drop_first());
        if let Err(DFAEvaluationError::InvalidChar(c)) = d.eval_from(q, w) {
            let i = choose|i: int| 0 <= i < w.drop_first().len() && w.drop_first()[i] == c;
            assert(w[i + 1] == c);
        }
    } else if w.len() > 0 {
        assert(w[0] == w[0]);
    }
}

} // verus!
