//! Deleting states, reachability, and the minimization pipeline.
use vstd::prelude::*;
use crate::dfa::{DFA, in_alpha};
use crate::semantics::{
    lemma_lookup, lemma_run_push, lemma_run_range, lemma_closed_holds_runs, count_true,
    lemma_count_true_bound, lemma_count_true_set, lemma_count_true_zero,
};

verus! {

/// The index that state `x` takes once state `r` is gone.
pub open spec fn shift_down(x: int, r: int) -> int {
    if x > r {
        x - 1
    } else {
        x
    }
}

/// The index, before the removal of state `r`, of what is state `i` after it.
pub open spec fn old_index(i: int, r: int) -> int {
    if i < r {
        i
    } else {
        i + 1
    }
}

/// A target `t`, sent to `p` where it was the removed state `r`.
pub open spec fn retarget(t: int, r: int, p: int) -> int {
    if t == r {
        p
    } else {
        t
    }
}

impl DFA {
    /// The arguments that `remove_state` refuses.
    pub open spec fn removal_refused(&self, state: i32, replacement: i32) -> bool {
        ||| state < 0
        ||| state >= self.states
        ||| replacement < 0
        ||| replacement >= self.states
        ||| replacement == state
        ||| (state == 0 && replacement > 1)
    }

    /// `out` is `self` with state `r` deleted, its inbound edges sent to `p`,
    /// and every state above `r` renumbered one lower.
    pub open spec fn is_removal(&self, r: int, p: int, out: &DFA) -> bool {
        &&& out.alphabet@ == self.alphabet@
        &&& out.states == self.states - 1
        &&& out.accepting@.len() == out.states
        &&& out.transition@.len() == out.states
        &&& forall|i: int|
            0 <= i < out.states ==> #[trigger] out.accepting@[i] == self.accepting@[old_index(
                i,
                r,
            )]
        &&& forall|i: int|
            0 <= i < out.states ==> #[trigger] out.transition@[i]@.len() == self.alphabet@.len()
        &&& forall|i: int, k: int|
            0 <= i < out.states && 0 <= k < self.alphabet@.len() ==> #[trigger] out.transition@[i]@[k]
                == Some(shift_down(retarget(self.delta(old_index(i, r), k), r, p), r) as i32)
    }

    /// Deletes `state`, sending the edges into it to `replacement` (numbered as
    /// before the deletion), and renumbers the states above it one lower.
    pub fn remove_state(&self, state: i32, replacement: i32) -> (r: Result<DFA, ()>)
        requires
            self.wf(),
        ensures
            r is Err <==> self.removal_refused(state, replacement),
            r matches Ok(out) ==> self.is_removal(state as int, replacement as int, &out)
                && out.wf(),
    {
        if state < 0 || state >= self.states || replacement < 0 || replacement >= self.states
            || replacement == state {
            return Err(());
        }
        if state == 0 && replacement > 1 {
            return Err(());
        }
        let n = self.states as usize;
        let ghost r = state as int;
        let ghost p = replacement as int;
        let mut accepting: Vec<bool> = Vec::new();
        let mut transition: Vec<Vec<Option<i32>>> = Vec::new();
        let mut i: usize = 0;
        while i < n
            invariant
                self.wf(),
                n == self.states,
                r == state as int,
                p == replacement as int,
                0 <= r < n,
                0 <= p < n,
                p != r,
                i <= n,
                accepting@.len() == transition@.len(),
                accepting@.len() == if i <= r { i as int } else { i - 1 },
                forall|j: int|
                    0 <= j < accepting@.len() ==> #[trigger] accepting@[j]
                        == self.accepting@[old_index(j, r)],
                forall|j: int|
                    0 <= j < transition@.len() ==> #[trigger] transition@[j]@.len()
                        == self.alphabet@.len(),
                forall|j: int, k: int|
                    0 <= j < transition@.len() && 0 <= k < self.alphabet@.len()
                        ==> #[trigger] transition@[j]@[k] == Some(
                        shift_down(retarget(self.delta(old_index(j, r), k), r, p), r) as i32,
                    ),
            decreases n - i,
        {
            if i != state as usize {
                let mut row: Vec<Option<i32>> = Vec::new();
                let mut k: usize = 0;
                while k < self.alphabet.len()
                    invariant
                        self.wf(),
                        n == self.states,
                        r == state as int,
                        p == replacement as int,
                        0 <= r < n,
                        0 <= p < n,
                        p != r,
                        i < n,
                        k <= self.alphabet@.len(),
                        row@.len() == k,
                        forall|kk: int|
                            0 <= kk < k ==> #[trigger] row@[kk] == Some(
                                shift_down(retarget(self.delta(i as int, kk), r, p), r) as i32,
                            ),
                    decreases self.alphabet@.len() - k,
                {
                    assert(self.transition@[i as int]@.len() == self.alphabet@.len());
                    let t = self.transition[i][k].unwrap();
                    let t1 = if t == state {
                        replacement
                    } else {
                        t
                    };
                    let t2 = if t1 > state {
                        t1 - 1
                    } else {
                        t1
                    };
                    row.push(Some(t2));
                    k += 1;
                }
                proof {
                    assert(old_index(accepting@.len() as int, r) == i);
                }
                accepting.push(self.accepting[i]);
                transition.push(row);
            }
            i += 1;
        }
        let out = DFA {
            alphabet: self.alphabet.clone(),
            states: self.states - 1,
            accepting,
            transition,
        };
        proof {
            assert(out.alphabet@ =~= self.alphabet@);
            assert forall|q: int, k: int|
                0 <= q < out.states && 0 <= k < out.alphabet@.len() implies {
                let t = #[trigger] out.transition@[q]@[k];
                t is Some && 0 <= t.unwrap() < out.states
            } by {
                let o = old_index(q, r);
                assert(0 <= o < self.states);
                assert(self.transition@[o]@[k] is Some);
            }
        }
        Ok(out)
    }
}

/// A state `t` reached in one step from `q` on a symbol of the alphabet.
proof fn lemma_step_reachable(d: &DFA, q: i32, c: char, t: i32, x: i32)
    requires
        d.wf(),
        0 <= q < d.states,
        d.alphabet@.contains(c),
        d.lookup(q, c) == Some(t),
        d.reachable(t, x),
    ensures
        d.reachable(q, x),
{
    let w = choose|w: Seq<char>| in_alpha(d.alphabet@, w) && #[trigger] d.run(t, w) == x;
    let w2 = seq![c] + w;
    assert(w2.drop_first() =~= w);
    assert(w2[0] == c);
    assert(d.run(q, w2) == x);
    assert(in_alpha(d.alphabet@, w2)) by {
        assert forall|i: int| 0 <= i < w2.len() implies d.alphabet@.contains(#[trigger] w2[i]) by {
            if i > 0 {
                assert(w2[i] == w[i - 1]);
            }
        }
    }
}

/// Every state reaches itself by the empty string.
pub proof fn lemma_reachable_self(d: &DFA, q: i32)
    ensures
        d.reachable(q, q),
{
    let w = Seq::<char>::empty();
    assert(d.run(q, w) == q);
    assert(in_alpha(d.alphabet@, w));
}

/// A state of the automaton after a removal runs as the state it was before,
/// where the removed state is equivalent to its replacement or cannot be reached.
proof fn lemma_removal_from(d: &DFA, r: i32, p: i32, out: &DFA, q: i32, w: Seq<char>)
    requires
        d.wf(),
        !d.removal_refused(r, p),
        d.is_removal(r as int, p as int, out),
        0 <= q < d.states,
        q != r,
        d.equivalent(r, p) || !d.reachable(q, r),
    ensures
        out.eval_from(shift_down(q as int, r as int) as i32, w) == d.eval_from(q, w),
    decreases w.len(),
{
    let sq = shift_down(q as int, r as int);
    assert(old_index(sq, r as int) == q);
    if w.len() == 0 {
    } else if !d.alphabet@.contains(w[0]) {
    } else {
        let c = w[0];
        let k = lemma_lookup(d, q, c);
        let t = d.delta(q as int, k) as i32;
        let t1 = retarget(t as int, r as int, p as int) as i32;
        assert(out.transition@[sq]@[k] == Some(shift_down(t1 as int, r as int) as i32));
        assert(out.lookup(sq as i32, c) == Some(shift_down(t1 as int, r as int) as i32));
        if !d.equivalent(r, p) {
            if t == r {
                lemma_reachable_self(d, r);
                lemma_step_reachable(d, q, c, t, r);
            }
            if d.reachable(t, r) {
                lemma_step_reachable(d, q, c, t, r);
            }
        }
        lemma_removal_from(d, r, p, out, t1, w.drop_first());
        if t == r {
            assert(d.eval_from(r, w.drop_first()) == d.eval_from(p, w.drop_first()));
        }
    }
}

/// Deleting a state that cannot be reached, or one equivalent to its
/// replacement, keeps the outcome of every string.
pub proof fn lemma_remove_state_preserves_behavior(d: &DFA, state: i32, replacement: i32, out: &DFA)
    requires
        d.wf(),
        !d.removal_refused(state, replacement),
        d.is_removal(state as int, replacement as int, out),
        d.equivalent(state, replacement) || !d.reachable(0, state),
    ensures
        d.same_behavior(out),
{
    if state == 0 {
        lemma_reachable_self(d, 0);
        assert forall|w: Seq<char>| #[trigger] d.eval(w) == out.eval(w) by {
            lemma_removal_from(d, state, replacement, out, 1, w);
            assert(d.eval_from(0, w) == d.eval_from(1, w));
        }
    } else {
        assert forall|w: Seq<char>| #[trigger] d.eval(w) == out.eval(w) by {
            lemma_removal_from(d, state, replacement, out, 0, w);
        }
    }
}

impl DFA {
    /// Marks, for each state, whether it can be reached from `state`.
    fn reach_marks(&self, state: i32) -> (marks: Vec<bool>)
        requires
            self.wf(),
            0 <= state < self.states,
        ensures
            marks@.len() == self.states,
            forall|x: int| 0 <= x < self.states ==> #[trigger] marks@[x] == self.reachable(state, x as i32),
    {
        let n = self.states as usize;
        let mut marks: Vec<bool> = Vec::new();
        let mut x: usize = 0;
        while x < n
            invariant
                x <= n,
                marks@.len() == x,
                forall|y: int| 0 <= y < x ==> !#[trigger] marks@[y],
            decreases n - x,
        {
            marks.push(false);
            x += 1;
        }
        proof {
            lemma_reachable_self(self, state);
            assert(marks@ =~= Seq::new(n as nat, |y: int| false));
            lemma_count_true_zero(marks@);
        }
        let ghost before = marks@;
        marks.set(state as usize, true);
        proof {
            lemma_count_true_set(before, state as int);
        }
        let ghost seed = seq![state];
        let mut queue: Vec<i32> = Vec::new();
        queue.push(state);
        proof {
            assert(queue@ =~= seed);
            assert forall|y: int| 0 <= y < n && #[trigger] marks@[y] implies queue@.contains(y as i32) by {
                if y != state {
                    assert(marks@[y] == before[y]);
                }
                assert(queue@[0] == state);
            }
        }
        let mut idx: usize = 0;
        while idx < queue.len()
            invariant
                self.wf(),
                n == self.states,
                0 <= state < n,
                marks@.len() == n,
                marks@[state as int],
                idx <= queue@.len(),
                queue@.len() == count_true(marks@),
                forall|i: int|
                    0 <= i < queue@.len() ==> 0 <= #[trigger] queue@[i] < n && marks@[queue@[i] as int]
                        && self.reachable(state, queue@[i]),
                forall|y: int| 0 <= y < n && #[trigger] marks@[y] ==> queue@.contains(y as i32),
                forall|i: int, k: int|
                    0 <= i < idx && 0 <= k < self.alphabet@.len() ==> marks@[#[trigger] self.delta(
                        queue@[i] as int,
                        k,
                    )],
            decreases n - idx,
        {
            proof {
                lemma_count_true_bound(marks@);
            }
            let q = queue[idx];
            let mut k: usize = 0;
            while k < self.alphabet.len()
                invariant
                    self.wf(),
                    n == self.states,
                    0 <= state < n,
                    marks@.len() == n,
                    marks@[state as int],
                    idx < queue@.len(),
                    q == queue@[idx as int],
                    k <= self.alphabet@.len(),
                    queue@.len() == count_true(marks@),
                    forall|i: int|
                        0 <= i < queue@.len() ==> 0 <= #[trigger] queue@[i] < n && marks@[queue@[i] as int]
                            && self.reachable(state, queue@[i]),
                    forall|y: int| 0 <= y < n && #[trigger] marks@[y] ==> queue@.contains(y as i32),
                    forall|i: int, kk: int|
                        0 <= i < idx && 0 <= kk < self.alphabet@.len() ==> marks@[#[trigger] self.delta(
                            queue@[i] as int,
                            kk,
                        )],
                    forall|kk: int| 0 <= kk < k ==> marks@[#[trigger] self.delta(q as int, kk)],
                decreases self.alphabet@.len() - k,
            {
                assert(self.transition@[q as int]@.len() == self.alphabet@.len());
                let t = self.transition[q as usize][k].unwrap();
                if !marks[t as usize] {
                    proof {
                        let w = choose|w: Seq<char>|
                            in_alpha(self.alphabet@, w) && #[trigger] self.run(state, w) == q;
                        let c = self.alphabet@[k as int];
                        assert(self.alphabet@.contains(c));
                        lemma_run_push(self, state, w, c);
                        crate::semantics::lemma_first_col(self.alphabet@, k as int);
                        assert(in_alpha(self.alphabet@, w.push(c))) by {
                            assert forall|i: int| 0 <= i < w.push(c).len() implies self.alphabet@.contains(
                                #[trigger] w.push(c)[i],
                            ) by {
                                if i < w.len() {
                                    assert(w.push(c)[i] == w[i]);
                                }
                            }
                        }
                        assert(self.run(state, w.push(c)) == t);
                        lemma_count_true_set(marks@, t as int);
                    }
                    let ghost old_queue = queue@;
                    marks.set(t as usize, true);
                    queue.push(t);
                    proof {
                        assert forall|y: int| 0 <= y < n && #[trigger] marks@[y] implies queue@.contains(
                            y as i32,
                        ) by {
                            if y != t {
                                assert(old_queue.contains(y as i32));
                                let j = choose|j: int| 0 <= j < old_queue.len() && old_queue[j] == y as i32;
                                assert(queue@[j] == y as i32);
                            } else {
                                assert(queue@[old_queue.len() as int] == t);
                            }
                        }
                    }
                }
                k += 1;
            }
            idx += 1;
        }
        proof {
            assert forall|x: int| 0 <= x < self.states implies #[trigger] marks@[x] == self.reachable(
                state,
                x as i32,
            ) by {
                if marks@[x] {
                    let j = choose|j: int| 0 <= j < queue@.len() && queue@[j] == x as i32;
                    assert(self.reachable(state, queue@[j]));
                }
                if self.reachable(state, x as i32) {
                    let w = choose|w: Seq<char>| in_alpha(self.alphabet@, w) && #[trigger] self.run(state, w) == x as i32;
                    assert forall|y: int, kk: int|
                        0 <= y < self.states && 0 <= kk < self.alphabet@.len() && marks@[y] implies marks@[#[trigger] self.delta(y, kk)] by {
                        let j = choose|j: int| 0 <= j < queue@.len() && queue@[j] == y as i32;
                        assert(marks@[self.delta(queue@[j] as int, kk)]);
                    }
                    lemma_closed_holds_runs(self, marks@, state, w);
                }
            }
        }
        marks
    }

    /// The states that can be reached from `state`, in increasing order.
    pub fn states_reachable_from(&self, state: i32) -> (r: Vec<i32>)
        requires
            self.wf(),
            0 <= state < self.states,
        ensures
            forall|x: i32| r@.contains(x) <==> 0 <= x < self.states && self.reachable(state, x),
            forall|i: int, j: int| 0 <= i < j < r@.len() ==> r@[i] < r@[j],
    {
        let marks = self.reach_marks(state);
        let mut r: Vec<i32> = Vec::new();
        let mut x: i32 = 0;
        while x < self.states
            invariant
                0 <= x <= self.states,
                marks@.len() == self.states,
                forall|y: int| 0 <= y < self.states ==> #[trigger] marks@[y] == self.reachable(state, y as i32),
                forall|y: i32| r@.contains(y) <==> 0 <= y < x && self.reachable(state, y),
                forall|i: int| 0 <= i < r@.len() ==> 0 <= #[trigger] r@[i] < x,
                forall|i: int, j: int| 0 <= i < j < r@.len() ==> r@[i] < r@[j],
            decreases self.states - x,
        {
            if marks[x as usize] {
                let ghost old_r = r@;
                r.push(x);
                proof {
                    assert forall|y: i32| r@.contains(y) <==> 0 <= y < x + 1 && self.reachable(state, y) by {
                        if y == x {
                            assert(r@[old_r.len() as int] == x);
                        }
                        if r@.contains(y) && y != x {
                            let j = choose|j: int| 0 <= j < r@.len() && r@[j] == y;
                            assert(old_r[j] == y);
                        }
                        if 0 <= y < x && self.reachable(state, y) {
                            let j = choose|j: int| 0 <= j < old_r.len() && old_r[j] == y;
                            assert(r@[j] == y);
                        }
                    }
                }
            } else {
                proof {
                    assert(!self.reachable(state, x));
                }
            }
            x += 1;
        }
        r
    }

    /// The states that cannot be reached from the initial state, in decreasing order.
    pub fn get_unreachable_states(&self) -> (r: Vec<i32>)
        requires
            self.wf(),
        ensures
            forall|x: i32| r@.contains(x) <==> 0 <= x < self.states && !self.reachable(0, x),
            forall|i: int, j: int| 0 <= i < j < r@.len() ==> r@[i] > r@[j],
    {
        let mut r: Vec<i32> = Vec::new();
        if self.states == 0 {
            return r;
        }
        let marks = self.reach_marks(0);
        let mut x: i32 = self.states;
        while x > 0
            invariant
                0 <= x <= self.states,
                marks@.len() == self.states,
                forall|y: int| 0 <= y < self.states ==> #[trigger] marks@[y] == self.reachable(0, y as i32),
                forall|y: i32| r@.contains(y) <==> x <= y < self.states && !self.reachable(0, y),
                forall|i: int| 0 <= i < r@.len() ==> x <= #[trigger] r@[i] < self.states,
                forall|i: int, j: int| 0 <= i < j < r@.len() ==> r@[i] > r@[j],
            decreases x,
        {
            x -= 1;
            if !marks[x as usize] {
                let ghost old_r = r@;
                r.push(x);
                proof {
                    assert forall|y: i32| r@.contains(y) <==> x <= y < self.states && !self.reachable(0, y) by {
                        if y == x {
                            assert(r@[old_r.len() as int] == x);
                        }
                        if r@.contains(y) && y != x {
                            let j = choose|j: int| 0 <= j < r@.len() && r@[j] == y;
                            assert(old_r[j] == y);
                        }
                        if x < y < self.states && !self.reachable(0, y) {
                            let j = choose|j: int| 0 <= j < old_r.len() && old_r[j] == y;
                            assert(r@[j] == y);
                        }
                    }
                }
            } else {
                proof {
                    assert(self.reachable(0, x));
                }
            }
        }
        r
    }
}

/// Every state reachable from `q` has the accept flag `accept`.
pub open spec fn permanently(d: &DFA, q: i32, accept: bool) -> bool {
    forall|x: i32| 0 <= x < d.states && #[trigger] d.reachable(q, x) ==> d.accepting@[x as int] == accept
}

/// Two states with the same local pattern: equal flags, and on each symbol the
/// same target, a self-loop on each, or a swap of the two.
pub open spec fn locally_indistinguishable(d: &DFA, i: int, j: int) -> bool {
    &&& d.accepting@[i] == d.accepting@[j]
    &&& forall|k: int|
        0 <= k < d.alphabet@.len() ==> {
            let a = #[trigger] d.delta(i, k);
            let b = d.delta(j, k);
            a == b || (a == i && b == j) || (a == j && b == i)
        }
}

/// What removing unreachable states guarantees: every state is reachable, and
/// the states kept are exactly the reachable ones of `d`, in their order.
pub open spec fn unreachable_removed(d: &DFA, r: &DFA) -> bool {
    &&& r.states <= d.states
    &&& forall|x: i32| 0 <= x < r.states ==> #[trigger] r.reachable(0, x)
    &&& exists|orig: Seq<int>| #[trigger] keeps_reachable(d, r, orig)
}

/// `r` comes out of the four passes of `optimize` run on `d`, through the
/// intermediate results `a`, `b` and `c`.
pub open spec fn optimized_through(d: &DFA, a: DFA, b: DFA, c: DFA, r: &DFA) -> bool {
    &&& a.wf() && b.wf() && c.wf()
    &&& a.alphabet@ == d.alphabet@ && b.alphabet@ == d.alphabet@ && c.alphabet@ == d.alphabet@
    &&& d.same_behavior(&a) && a.same_behavior(&b) && b.same_behavior(&c) && c.same_behavior(r)
    &&& unreachable_removed(d, &a)
    &&& permanents_merged(&a, &b, true)
    &&& permanents_merged(&b, &c, false)
    &&& locally_merged(&c, r)
}

/// `orig` lists, in increasing order, the states of `d` that `r` keeps: exactly
/// those reachable from the initial state.
pub open spec fn keeps_reachable(d: &DFA, r: &DFA, orig: Seq<int>) -> bool {
    &&& orig.len() == r.states
    &&& forall|a: int, b: int| 0 <= a < b < orig.len() ==> orig[a] < orig[b]
    &&& forall|x: int| 0 <= x < orig.len() ==> 0 <= #[trigger] orig[x] < d.states
    &&& forall|y: i32| 0 <= y < d.states ==> (#[trigger] d.reachable(0, y) <==> orig.contains(y as int))
}

/// How many of the states from `y` on are permanently `accept`.
pub open spec fn count_permanent(d: &DFA, accept: bool, y: int) -> int
    decreases d.states - y,
{
    if y >= d.states || y < 0 {
        0
    } else {
        count_permanent(d, accept, y + 1) + if permanently(d, y as i32, accept) {
            1int
        } else {
            0int
        }
    }
}

/// At most one state is permanently `accept`.
pub open spec fn at_most_one_permanent(d: &DFA, accept: bool) -> bool {
    forall|x: i32, z: i32|
        0 <= x < d.states && 0 <= z < d.states && permanently(d, x, accept) && permanently(d, z, accept)
            ==> x == z
}

/// `orig` sends each state of `r`, in increasing order, to a state of `d` that
/// gives the same outcome on every string.
pub open spec fn embeds(d: &DFA, r: &DFA, orig: Seq<int>) -> bool {
    &&& orig.len() == r.states
    &&& forall|a: int, b: int| 0 <= a < b < orig.len() ==> orig[a] < orig[b]
    &&& forall|x: int| 0 <= x < orig.len() ==> 0 <= #[trigger] orig[x] < d.states
    &&& forall|x: int, w: Seq<char>| 0 <= x < r.states ==> #[trigger] r.eval_from(x as i32, w) == d.eval_from(orig[x] as i32, w)
}

/// What merging the permanently `accept` states guarantees: one of them is
/// left where there were any, no other state goes, and the others run as before.
pub open spec fn permanents_merged(d: &DFA, r: &DFA, accept: bool) -> bool {
    let c = count_permanent(d, accept, 0);
    &&& r.states == d.states - (if c > 1 { c - 1 } else { 0 })
    &&& at_most_one_permanent(r, accept)
    &&& exists|orig: Seq<int>| #[trigger] embeds(d, r, orig)
}

/// What merging locally indistinguishable states guarantees: the automaton is
/// unchanged when no pair of states has the same local pattern, and smaller
/// otherwise; the states left run as states of `d` did.
pub open spec fn locally_merged(d: &DFA, r: &DFA) -> bool {
    &&& exists|orig: Seq<int>| #[trigger] embeds(d, r, orig)
    &&& (forall|i: int, j: int| 0 <= j < i < d.states ==> !locally_indistinguishable(d, i, j))
        ==> r.same_as(d)
    &&& (exists|i: int, j: int| 0 <= j < i < d.states && locally_indistinguishable(d, i, j))
        ==> r.states < d.states
}

/// Two states that are permanently accepting (or both permanently rejecting)
/// are equivalent.
pub proof fn lemma_permanent_equivalent(d: &DFA, a: i32, b: i32, accept: bool, w: Seq<char>)
    requires
        d.wf(),
        0 <= a < d.states,
        0 <= b < d.states,
        permanently(d, a, accept),
        permanently(d, b, accept),
    ensures
        d.eval_from(a, w) == d.eval_from(b, w),
    decreases w.len(),
{
    lemma_reachable_self(d, a);
    lemma_reachable_self(d, b);
    if w.len() > 0 && d.alphabet@.contains(w[0]) {
        let k = lemma_lookup(d, a, w[0]);
        let k2 = lemma_lookup(d, b, w[0]);
        let ta = d.delta(a as int, k) as i32;
        let tb = d.delta(b as int, k) as i32;
        assert forall|x: i32| 0 <= x < d.states && #[trigger] d.reachable(ta, x) implies d.accepting@[x as int] == accept by {
            lemma_step_reachable(d, a, w[0], ta, x);
        }
        assert forall|x: i32| 0 <= x < d.states && #[trigger] d.reachable(tb, x) implies d.accepting@[x as int] == accept by {
            lemma_step_reachable(d, b, w[0], tb, x);
        }
        lemma_permanent_equivalent(d, ta, tb, accept, w.drop_first());
    }
}

/// Two states with the same local pattern are equivalent.
pub proof fn lemma_local_equivalent(d: &DFA, i: i32, j: i32, w: Seq<char>)
    requires
        d.wf(),
        0 <= i < d.states,
        0 <= j < d.states,
        locally_indistinguishable(d, i as int, j as int),
    ensures
        d.eval_from(i, w) == d.eval_from(j, w),
    decreases w.len(),
{
    if w.len() > 0 && d.alphabet@.contains(w[0]) {
        let k = lemma_lookup(d, i, w[0]);
        let k2 = lemma_lookup(d, j, w[0]);
        let a = d.delta(i as int, k) as i32;
        let b = d.delta(j as int, k) as i32;
        if a != b {
            lemma_local_equivalent(d, i, j, w.drop_first());
        }
    }
}

impl DFA {
    fn is_permanently(&self, state: i32, accept: bool) -> (r: bool)
        requires
            self.wf(),
            0 <= state < self.states,
        ensures
            r == permanently(self, state, accept),
    {
        let marks = self.reach_marks(state);
        let mut x: usize = 0;
        while x < marks.len()
            invariant
                x <= marks@.len(),
                marks@.len() == self.states,
                self.accepting@.len() == self.states,
                forall|y: int| 0 <= y < self.states ==> #[trigger] marks@[y] == self.reachable(state, y as i32),
                forall|y: int| 0 <= y < x && marks@[y] ==> self.accepting@[y] == accept,
            decreases marks@.len() - x,
        {
            if marks[x] && self.accepting[x] != accept {
                return false;
            }
            x += 1;
        }
        proof {
            assert forall|y: i32| 0 <= y < self.states && #[trigger] self.reachable(state, y) implies self.accepting@[y as int] == accept by {
                assert(marks@[y as int]);
            }
        }
        true
    }

    /// Every state reachable from `state` is accepting.
    pub fn is_permanently_accepting(&self, state: i32) -> (r: bool)
        requires
            self.wf(),
            0 <= state < self.states,
        ensures
            r == permanently(self, state, true),
    {
        self.is_permanently(state, true)
    }

    /// Every state reachable from `state` is rejecting.
    pub fn is_permanently_rejecting(&self, state: i32) -> (r: bool)
        requires
            self.wf(),
            0 <= state < self.states,
        ensures
            r == permanently(self, state, false),
    {
        self.is_permanently(state, false)
    }

    /// Keeps the lowest of the states that are permanently `accept`, and merges
    /// every other one into the next lower such state.
    fn reduce_like_states(&self, accept: bool) -> (r: DFA)
        requires
            self.wf(),
        ensures
            r.wf(),
            r.alphabet@ == self.alphabet@,
            r.states <= self.states,
            r.states > 0 <==> self.states > 0,
            self.same_behavior(&r),
            permanents_merged(self, &r, accept),
    {
        let n = self.states;
        let mut permanent: Vec<i32> = Vec::new();
        let mut y: i32 = n;
        while y > 0
            invariant
                self.wf(),
                n == self.states,
                0 <= y <= n,
                permanent@.len() <= n - y,
                permanent@.len() == count_permanent(self, accept, y as int),
                forall|j: int| 0 <= j < permanent@.len() ==> y <= #[trigger] permanent@[j] < n && permanent@[j] + j <= n - 1,
                forall|j: int| 0 <= j < permanent@.len() ==> permanently(self, #[trigger] permanent@[j], accept),
                forall|x: i32| y <= x < n && permanently(self, x, accept) ==> permanent@.contains(x),
                forall|i: int, j: int| 0 <= i < j < permanent@.len() ==> permanent@[i] > permanent@[j],
            decreases y,
        {
            y -= 1;
            let ghost before = permanent@;
            if self.is_permanently(y, accept) {
                permanent.push(y);
                proof {
                    assert forall|x: i32| y <= x < n && permanently(self, x, accept) implies permanent@.contains(x) by {
                        if x == y {
                            assert(permanent@[before.len() as int] == x);
                        } else {
                            let j = choose|j: int| 0 <= j < before.len() && before[j] == x;
                            assert(permanent@[j] == x);
                        }
                    }
                }
            }
        }
        let mut result = self.copy_wf();
        let ghost mut orig: Seq<int> = Seq::new(n as nat, |x: int| x);
        proof {
            assert forall|x: int, w: Seq<char>| 0 <= x < result.states implies #[trigger] result.eval_from(x as i32, w) == self.eval_from(orig[x] as i32, w) by {
                lemma_same_as_eval(self, &result, x as i32, w);
            }
        }
        let mut i: usize = 0;
        if permanent.len() > 1 {
            while i < permanent.len() - 1
                invariant
                    self.wf(),
                    result.wf(),
                    n == self.states,
                    permanent@.len() > 1,
                    i <= permanent@.len() - 1,
                    result.alphabet@ == self.alphabet@,
                    result.states == n - i,
                    self.same_behavior(&result),
                    forall|j: int| 0 <= j < permanent@.len() ==> 0 <= #[trigger] permanent@[j] < n && permanent@[j] + j <= n - 1,
                    forall|j: int| 0 <= j < permanent@.len() ==> permanently(self, #[trigger] permanent@[j], accept),
                    forall|a: int, b: int| 0 <= a < b < permanent@.len() ==> permanent@[a] > permanent@[b],
                    orig.len() == result.states,
                    forall|x: int| 0 <= x < orig.len() ==> 0 <= #[trigger] orig[x] < n,
                    forall|a: int, b: int| 0 <= a < b < orig.len() ==> orig[a] < orig[b],
                    forall|x: int, w: Seq<char>| 0 <= x < result.states ==> #[trigger] result.eval_from(x as i32, w) == self.eval_from(orig[x] as i32, w),
                    forall|x: int, j: int| 0 <= x < orig.len() && 0 <= j < i ==> orig[x] != permanent@[j],
                    forall|j: int| i <= j < permanent@.len() ==> #[trigger] orig[permanent@[j] as int] == permanent@[j],
                decreases permanent@.len() - 1 - i,
            {
                let a = permanent[i];
                let b = permanent[i + 1];
                proof {
                    assert(orig[a as int] == a);
                    assert(orig[b as int] == b);
                    assert forall|w: Seq<char>| #[trigger] result.eval_from(a, w) == result.eval_from(b, w) by {
                        lemma_permanent_equivalent(self, a, b, accept, w);
                        assert(result.eval_from(a, w) == self.eval_from(orig[a as int] as i32, w));
                        assert(result.eval_from(b, w) == self.eval_from(orig[b as int] as i32, w));
                    }
                }
                let next = result.remove_state(a, b).unwrap();
                let ghost next_orig = Seq::new(next.states as nat, |x: int| orig[old_index(x, a as int)]);
                proof {
                    lemma_remove_state_preserves_behavior(&result, a, b, &next);
                    assert forall|w: Seq<char>| #[trigger] self.eval(w) == next.eval(w) by {
                        assert(self.eval(w) == result.eval(w));
                        assert(result.eval(w) == next.eval(w));
                    }
                    assert forall|x: int, w: Seq<char>| 0 <= x < next.states implies #[trigger] next.eval_from(x as i32, w) == self.eval_from(next_orig[x] as i32, w) by {
                        let q = old_index(x, a as int);
                        lemma_removal_from(&result, a, b, &next, q as i32, w);
                        assert(result.eval_from(q as i32, w) == self.eval_from(orig[q] as i32, w));
                    }
                    assert forall|x: int, j: int| 0 <= x < next_orig.len() && 0 <= j < i + 1 implies next_orig[x] != permanent@[j] by {
                        let q = old_index(x, a as int);
                        if j == i {
                            assert(orig[q] != orig[a as int]);
                        }
                    }
                    assert forall|j: int| i + 1 <= j < permanent@.len() implies #[trigger] next_orig[permanent@[j] as int] == permanent@[j] by {
                        assert(permanent@[j] < a);
                    }
                }
                result = next;
                proof {
                    orig = next_orig;
                }
                i += 1;
            }
        }
        proof {
            lemma_count_permanent_bound(self, accept, 0);
            assert forall|x: i32, z: i32|
                0 <= x < result.states && 0 <= z < result.states && permanently(&result, x, accept)
                    && permanently(&result, z, accept) implies x == z by {
                assert forall|w: Seq<char>| #[trigger] result.eval_from(x, w) == self.eval_from(orig[x as int] as i32, w) by {
                    assert(result.eval_from((x as int) as i32, w) == self.eval_from(orig[x as int] as i32, w));
                }
                assert forall|w: Seq<char>| #[trigger] result.eval_from(z, w) == self.eval_from(orig[z as int] as i32, w) by {
                    assert(result.eval_from((z as int) as i32, w) == self.eval_from(orig[z as int] as i32, w));
                }
                lemma_permanent_back(self, &result, accept, x, orig[x as int] as i32);
                lemma_permanent_back(self, &result, accept, z, orig[z as int] as i32);
                let jx = choose|j: int| 0 <= j < permanent@.len() && permanent@[j] == orig[x as int] as i32;
                let jz = choose|j: int| 0 <= j < permanent@.len() && permanent@[j] == orig[z as int] as i32;
                if permanent@.len() > 1 {
                    assert(jx >= i);
                    assert(jz >= i);
                }
                assert(jx == jz);
                if x < z {
                    assert(orig[x as int] < orig[z as int]);
                } else if z < x {
                    assert(orig[z as int] < orig[x as int]);
                }
            }
            assert(embeds(self, &result, orig));
        }
        result
    }

    /// Merges all permanently accepting states into one.
    pub fn reduce_accepting_states(&self) -> (r: DFA)
        requires
            self.wf(),
        ensures
            r.wf(),
            r.alphabet@ == self.alphabet@,
            r.states <= self.states,
            r.states > 0 <==> self.states > 0,
            self.same_behavior(&r),
            permanents_merged(self, &r, true),
    {
        self.reduce_like_states(true)
    }

    /// Merges all permanently rejecting states into one.
    pub fn reduce_rejecting_states(&self) -> (r: DFA)
        requires
            self.wf(),
        ensures
            r.wf(),
            r.alphabet@ == self.alphabet@,
            r.states <= self.states,
            r.states > 0 <==> self.states > 0,
            self.same_behavior(&r),
            permanents_merged(self, &r, false),
    {
        self.reduce_like_states(false)
    }
}

/// Automata with the same contents give the same outcomes.
pub proof fn lemma_same_as_eval(a: &DFA, b: &DFA, q: i32, w: Seq<char>)
    requires
        a.same_as(b),
    ensures
        a.eval_from(q, w) == b.eval_from(q, w),
    decreases w.len(),
{
    if w.len() > 0 && 0 <= q < a.transition@.len() {
        assert(a.transition@[q as int]@ == b.transition@[q as int]@);
        if let Some(t) = a.lookup(q, w[0]) {
            lemma_same_as_eval(a, b, t, w.drop_first());
        }
    }
}

/// A copy of a well-formed automaton is well formed.
pub proof fn lemma_same_as_wf(a: &DFA, b: &DFA)
    requires
        a.wf(),
        b.same_as(a),
    ensures
        b.wf(),
{
    lemma_rows_wf(a, b);
}

/// An automaton with the rows of a well-formed one, and one flag per state, is
/// well formed.
pub proof fn lemma_rows_wf(a: &DFA, b: &DFA)
    requires
        a.wf(),
        b.alphabet@ == a.alphabet@,
        b.states == a.states,
        b.accepting@.len() == b.states,
        b.transition@.len() == a.transition@.len(),
        forall|q: int| 0 <= q < a.transition@.len() ==> #[trigger] b.transition@[q]@ == a.transition@[q]@,
    ensures
        b.wf(),
{
    assert forall|q: int| 0 <= q < b.states implies #[trigger] b.transition@[q]@.len() == b.alphabet@.len() by {
        assert(b.transition@[q]@ == a.transition@[q]@);
    }
    assert forall|q: int, k: int| 0 <= q < b.states && 0 <= k < b.alphabet@.len() implies {
        let t = #[trigger] b.transition@[q]@[k];
        t is Some && 0 <= t.unwrap() < b.states
    } by {
        assert(b.transition@[q]@ == a.transition@[q]@);
        assert(a.transition@[q]@[k] is Some);
    }
}

impl DFA {
    /// A copy, with the facts that a copy keeps.
    pub(crate) fn copy_wf(&self) -> (r: DFA)
        requires
            self.wf(),
        ensures
            r.wf(),
            r.same_as(self),
            self.same_behavior(&r),
    {
        let r = self.duplicate();
        proof {
            lemma_same_as_wf(self, &r);
            assert forall|w: Seq<char>| #[trigger] self.eval(w) == r.eval(w) by {
                lemma_same_as_eval(self, &r, 0, w);
            }
        }
        r
    }

    /// Deletes, highest first, every state that the initial state cannot reach.
    pub fn remove_unreachable_states(&self) -> (r: DFA)
        requires
            self.wf(),
        ensures
            r.wf(),
            r.alphabet@ == self.alphabet@,
            r.states <= self.states,
            r.states > 0 <==> self.states > 0,
            self.same_behavior(&r),
            forall|x: i32| 0 <= x < r.states ==> #[trigger] r.reachable(0, x),
            exists|orig: Seq<int>| #[trigger] keeps_reachable(self, &r, orig),
    {
        let mut result = self.copy_wf();
        let ghost mut orig: Seq<int> = Seq::new(self.states as nat, |x: int| x);
        proof {
            assert forall|x: int| 0 <= x < orig.len() implies (#[trigger] result.reachable(0, x as i32) <==> self.reachable(0, orig[x] as i32)) by {
                if result.reachable(0, x as i32) {
                    let w = choose|w: Seq<char>| in_alpha(result.alphabet@, w) && #[trigger] result.run(0, w) == x as i32;
                    lemma_same_as_run(self, &result, 0, w);
                }
                if self.reachable(0, x as i32) {
                    let w = choose|w: Seq<char>| in_alpha(self.alphabet@, w) && #[trigger] self.run(0, w) == x as i32;
                    lemma_same_as_run(self, &result, 0, w);
                }
            }
            assert forall|y: i32| 0 <= y < self.states && #[trigger] self.reachable(0, y) implies orig.contains(y as int) by {
                assert(orig[y as int] == y as int);
            }
        }
        let mut done = false;
        while !done
            invariant
                self.wf(),
                result.wf(),
                result.alphabet@ == self.alphabet@,
                result.states <= self.states,
                result.states > 0 <==> self.states > 0,
                self.same_behavior(&result),
                done ==> forall|x: i32| 0 <= x < result.states ==> #[trigger] result.reachable(0, x),
                orig.len() == result.states,
                forall|x: int| 0 <= x < orig.len() ==> 0 <= #[trigger] orig[x] < self.states,
                forall|a: int, b: int| 0 <= a < b < orig.len() ==> orig[a] < orig[b],
                forall|x: int| 0 <= x < orig.len() ==> (#[trigger] result.reachable(0, x as i32) <==> self.reachable(0, orig[x] as i32)),
                forall|y: i32| 0 <= y < self.states && #[trigger] self.reachable(0, y) ==> orig.contains(y as int),
            decreases result.states * 2 + if done { 0int } else { 1int },
        {
            let unreachable = result.get_unreachable_states();
            if unreachable.len() == 0 {
                proof {
                    assert forall|x: i32| 0 <= x < result.states implies #[trigger] result.reachable(0, x) by {
                        if !result.reachable(0, x) {
                            assert(unreachable@.contains(x));
                        }
                    }
                }
                done = true;
            } else {
                let s = unreachable[0];
                proof {
                    assert(unreachable@.contains(s));
                    lemma_reachable_self(&result, 0);
                }
                let next = result.remove_state(s, 0).unwrap();
                let ghost next_orig = Seq::new(next.states as nat, |x: int| orig[old_index(x, s as int)]);
                proof {
                    lemma_remove_state_preserves_behavior(&result, s, 0, &next);
                    assert forall|w: Seq<char>| #[trigger] self.eval(w) == next.eval(w) by {
                        assert(self.eval(w) == result.eval(w));
                        assert(result.eval(w) == next.eval(w));
                    }
                    assert forall|x: int| 0 <= x < next_orig.len() implies (#[trigger] next.reachable(0, x as i32) <==> self.reachable(0, next_orig[x] as i32)) by {
                        lemma_removal_reach(&result, s, 0, &next, x as i32);
                        let q = old_index(x, s as int);
                        assert(result.reachable(0, q as i32) <==> self.reachable(0, orig[q] as i32));
                    }
                    assert forall|y: i32| 0 <= y < self.states && #[trigger] self.reachable(0, y) implies next_orig.contains(y as int) by {
                        let k = choose|k: int| 0 <= k < orig.len() && orig[k] == y as int;
                        assert(result.reachable(0, k as i32) <==> self.reachable(0, orig[k] as i32));
                        assert(!result.reachable(0, s));
                        assert(k != s);
                        let x = shift_down(k, s as int);
                        assert(next_orig[x] == y as int);
                    }
                }
                result = next;
                proof {
                    orig = next_orig;
                }
            }
        }
        proof {
            assert forall|y: i32| 0 <= y < self.states implies (#[trigger] self.reachable(0, y) <==> orig.contains(y as int)) by {
                if orig.contains(y as int) {
                    let k = choose|k: int| 0 <= k < orig.len() && orig[k] == y as int;
                    assert(result.reachable(0, k as i32));
                    assert(result.reachable(0, k as i32) <==> self.reachable(0, orig[k] as i32));
                }
            }
            assert(keeps_reachable(self, &result, orig));
        }
        result
    }

    /// States `i` and `j` have equal flags, and on each symbol the same target,
    /// a self-loop on each, or a swap of the two.
    pub fn states_indistinguishable(&self, i: i32, j: i32) -> (r: bool)
        requires
            self.wf(),
            0 <= i < self.states,
            0 <= j < self.states,
        ensures
            r == locally_indistinguishable(self, i as int, j as int),
    {
        if self.accepting[i as usize] != self.accepting[j as usize] {
            return false;
        }
        let mut k: usize = 0;
        while k < self.alphabet.len()
            invariant
                self.wf(),
                0 <= i < self.states,
                0 <= j < self.states,
                k <= self.alphabet@.len(),
                forall|kk: int|
                    0 <= kk < k ==> {
                        let a = #[trigger] self.delta(i as int, kk);
                        let b = self.delta(j as int, kk);
                        a == b || (a == i && b == j) || (a == j && b == i)
                    },
            decreases self.alphabet@.len() - k,
        {
            assert(self.transition@[i as int]@.len() == self.alphabet@.len());
            assert(self.transition@[j as int]@.len() == self.alphabet@.len());
            let a = self.transition[i as usize][k].unwrap();
            let b = self.transition[j as usize][k].unwrap();
            if !(a == b || (a == i && b == j) || (a == j && b == i)) {
                proof {
                    assert(self.delta(i as int, k as int) == a as int);
                    assert(self.delta(j as int, k as int) == b as int);
                }
                return false;
            }
            k += 1;
        }
        true
    }

    /// The first pair `(i, j)`, `highest > i > j`, scanning `i` and then `j`
    /// downwards, whose states have the same local pattern.
    fn find_indistinguishable_pair(&self, highest: i32) -> (r: Option<(i32, i32)>)
        requires
            self.wf(),
            0 <= highest <= self.states,
        ensures
            r matches Some((i, j)) ==> 0 <= j < i < highest && locally_indistinguishable(
                self,
                i as int,
                j as int,
            ),
            r is None ==> forall|i: int, j: int|
                0 <= j < i < highest ==> !locally_indistinguishable(self, i, j),
    {
        let mut i: i32 = highest;
        while i > 0
            invariant
                self.wf(),
                0 <= i <= highest <= self.states,
                forall|a: int, b: int| 0 <= b < a < highest && a >= i ==> !locally_indistinguishable(self, a, b),
            decreases i,
        {
            i -= 1;
            let mut j: i32 = i;
            while j > 0
                invariant
                    self.wf(),
                    0 <= j <= i < highest <= self.states,
                    forall|a: int, b: int| 0 <= b < a < highest && a > i ==> !locally_indistinguishable(self, a, b),
                    forall|b: int| j <= b < i ==> !locally_indistinguishable(self, i as int, b),
                decreases j,
            {
                j -= 1;
                if self.states_indistinguishable(i, j) {
                    return Some((i, j));
                }
            }
        }
        None
    }

    /// Repeatedly merges the higher state of the first pair with the same local
    /// pattern into the lower one, resuming the scan just below the merged state.
    pub fn remove_indistinguishable_states(&self) -> (r: DFA)
        requires
            self.wf(),
        ensures
            r.wf(),
            r.alphabet@ == self.alphabet@,
            r.states <= self.states,
            r.states > 0 <==> self.states > 0,
            self.same_behavior(&r),
            locally_merged(self, &r),
    {
        let mut result = self.copy_wf();
        let ghost mut orig: Seq<int> = Seq::new(self.states as nat, |x: int| x);
        proof {
            assert forall|x: int, w: Seq<char>| 0 <= x < result.states implies #[trigger] result.eval_from(x as i32, w) == self.eval_from(orig[x] as i32, w) by {
                lemma_same_as_eval(self, &result, x as i32, w);
            }
        }
        let mut highest = result.states;
        let mut done = false;
        let mut merged = false;
        while !done
            invariant
                result.wf(),
                result.alphabet@ == self.alphabet@,
                result.states <= self.states,
                result.states > 0 <==> self.states > 0,
                self.same_behavior(&result),
                0 <= highest <= result.states,
                !merged ==> result.same_as(self) && highest == self.states,
                self.wf(),
                embeds(self, &result, orig),
                merged ==> result.states < self.states,
                merged ==> exists|i: int, j: int| 0 <= j < i < self.states && locally_indistinguishable(self, i, j),
                done && !merged ==> forall|i: int, j: int|
                    0 <= j < i < self.states ==> !locally_indistinguishable(self, i, j),
            decreases highest * 2 + if done { 0int } else { 1int },
        {
            match result.find_indistinguishable_pair(highest) {
                None => {
                    proof {
                        if !merged {
                            assert forall|i: int, j: int| 0 <= j < i < self.states implies !locally_indistinguishable(self, i, j) by {
                                assert(!locally_indistinguishable(&result, i, j));
                                assert(result.transition@[i]@ == self.transition@[i]@);
                                assert(result.transition@[j]@ == self.transition@[j]@);
                                if locally_indistinguishable(self, i, j) {
                                    assert forall|k: int| 0 <= k < result.alphabet@.len() implies {
                                        let a = #[trigger] result.delta(i, k);
                                        let b = result.delta(j, k);
                                        a == b || (a == i && b == j) || (a == j && b == i)
                                    } by {
                                        assert(self.delta(i, k) == result.delta(i, k));
                                    }
                                }
                            }
                        }
                    }
                    done = true;
                },
                Some((i, j)) => {
                    proof {
                        assert forall|w: Seq<char>| #[trigger] result.eval_from(i, w) == result.eval_from(j, w) by {
                            lemma_local_equivalent(&result, i, j, w);
                        }
                        if !merged {
                            lemma_same_as_local(&result, self, i as int, j as int);
                        }
                    }
                    let next = result.remove_state(i, j).unwrap();
                    proof {
                        lemma_remove_state_preserves_behavior(&result, i, j, &next);
                        assert forall|w: Seq<char>| #[trigger] self.eval(w) == next.eval(w) by {
                            assert(self.eval(w) == result.eval(w));
                            assert(result.eval(w) == next.eval(w));
                        }
                    }
                    let ghost next_orig = Seq::new(next.states as nat, |x: int| orig[old_index(x, i as int)]);
                    proof {
                        assert forall|x: int, w: Seq<char>| 0 <= x < next.states implies #[trigger] next.eval_from(x as i32, w) == self.eval_from(next_orig[x] as i32, w) by {
                            let q = old_index(x, i as int);
                            lemma_removal_from(&result, i, j, &next, q as i32, w);
                            assert(result.eval_from(q as i32, w) == self.eval_from(orig[q] as i32, w));
                        }
                        assert(embeds(self, &next, next_orig));
                    }
                    result = next;
                    proof {
                        orig = next_orig;
                    }
                    highest = i;
                    merged = true;
                },
            }
        }
        result
    }

    /// Removes unreachable states, merges permanently accepting and then
    /// permanently rejecting states, and merges states with the same local
    /// pattern, once each and in this order.
    pub fn optimize(&self) -> (r: DFA)
        requires
            self.wf(),
        ensures
            r.wf(),
            r.alphabet@ == self.alphabet@,
            r.states <= self.states,
            r.states > 0 <==> self.states > 0,
            self.same_behavior(&r),
            exists|a: DFA, b: DFA, c: DFA| #[trigger] optimized_through(self, a, b, c, &r),
            at_most_one_permanent(&r, true),
            at_most_one_permanent(&r, false),
    {
        let a = self.remove_unreachable_states();
        let b = a.reduce_accepting_states();
        let c = b.reduce_rejecting_states();
        let d = c.remove_indistinguishable_states();
        proof {
            assert forall|w: Seq<char>| #[trigger] self.eval(w) == d.eval(w) by {
                assert(self.eval(w) == a.eval(w));
                assert(a.eval(w) == b.eval(w));
                assert(b.eval(w) == c.eval(w));
                assert(c.eval(w) == d.eval(w));
            }
            assert(optimized_through(self, a, b, c, &d));
            let oc = choose|o: Seq<int>| embeds(&b, &c, o);
            let od = choose|o: Seq<int>| embeds(&c, &d, o);
            lemma_at_most_one_embedded(&b, &c, oc, true);
            lemma_at_most_one_embedded(&c, &d, od, true);
            lemma_at_most_one_embedded(&c, &d, od, false);
        }
        d
    }
}

/// Automata with the same contents have the same local patterns.
proof fn lemma_same_as_local(a: &DFA, b: &DFA, i: int, j: int)
    requires
        a.wf(),
        a.same_as(b),
        0 <= i < a.states,
        0 <= j < a.states,
        locally_indistinguishable(a, i, j),
    ensures
        locally_indistinguishable(b, i, j),
{
    assert(a.transition@[i]@ == b.transition@[i]@);
    assert(a.transition@[j]@ == b.transition@[j]@);
    assert forall|k: int| 0 <= k < b.alphabet@.len() implies {
        let x = #[trigger] b.delta(i, k);
        let y = b.delta(j, k);
        x == y || (x == i && y == j) || (x == j && y == i)
    } by {
        assert(a.delta(i, k) == b.delta(i, k));
    }
}

proof fn lemma_count_permanent_bound(d: &DFA, accept: bool, y: int)
    requires
        0 <= y <= d.states,
    ensures
        0 <= count_permanent(d, accept, y) <= d.states - y,
    decreases d.states - y,
{
    if y < d.states {
        lemma_count_permanent_bound(d, accept, y + 1);
    }
}

/// A permanently `accept` state of an automaton that runs like state `q` of
/// `d` (with the same alphabet) makes `q` permanently `accept`.
proof fn lemma_permanent_back(d: &DFA, r: &DFA, accept: bool, x: i32, q: i32)
    requires
        d.wf(),
        r.wf(),
        r.alphabet@ == d.alphabet@,
        0 <= x < r.states,
        0 <= q < d.states,
        forall|w: Seq<char>| #[trigger] r.eval_from(x, w) == d.eval_from(q, w),
        permanently(r, x, accept),
    ensures
        permanently(d, q, accept),
{
    assert forall|z: i32| 0 <= z < d.states && #[trigger] d.reachable(q, z) implies d.accepting@[z as int] == accept by {
        let w = choose|w: Seq<char>| in_alpha(d.alphabet@, w) && #[trigger] d.run(q, w) == z;
        crate::algebra::lemma_wf_eval_ok(d, q, w);
        crate::algebra::lemma_wf_eval_ok(r, x, w);
        lemma_run_range(r, x, w);
        assert(r.reachable(x, r.run(x, w)));
        assert(r.eval_from(x, w) == d.eval_from(q, w));
    }
}

/// After deleting a state that `q` cannot reach, runs from `q` are renumbered
/// but otherwise unchanged.
proof fn lemma_removal_run(d: &DFA, r: i32, p: i32, out: &DFA, q: i32, w: Seq<char>)
    requires
        d.wf(),
        !d.removal_refused(r, p),
        d.is_removal(r as int, p as int, out),
        0 <= q < d.states,
        q != r,
        !d.reachable(q, r),
        in_alpha(d.alphabet@, w),
    ensures
        d.run(q, w) != r,
        out.run(shift_down(q as int, r as int) as i32, w) == shift_down(d.run(q, w) as int, r as int),
    decreases w.len(),
{
    let sq = shift_down(q as int, r as int);
    assert(old_index(sq, r as int) == q);
    if w.len() > 0 {
        let c = w[0];
        assert(d.alphabet@.contains(c));
        let k = lemma_lookup(d, q, c);
        let t = d.delta(q as int, k) as i32;
        assert(out.transition@[sq]@[k] == Some(shift_down(retarget(t as int, r as int, p as int), r as int) as i32));
        if t == r {
            lemma_reachable_self(d, r);
            lemma_step_reachable(d, q, c, t, r);
        }
        assert(out.lookup(sq as i32, c) == Some(shift_down(t as int, r as int) as i32));
        if d.reachable(t, r) {
            lemma_step_reachable(d, q, c, t, r);
        }
        assert(in_alpha(d.alphabet@, w.drop_first())) by {
            assert forall|m: int| 0 <= m < w.drop_first().len() implies d.alphabet@.contains(#[trigger] w.drop_first()[m]) by {
                assert(w.drop_first()[m] == w[m + 1]);
            }
        }
        lemma_removal_run(d, r, p, out, t, w.drop_first());
    }
}

/// Deleting a state that the initial state cannot reach keeps what it reaches.
proof fn lemma_removal_reach(d: &DFA, r: i32, p: i32, out: &DFA, x: i32)
    requires
        d.wf(),
        out.wf(),
        !d.removal_refused(r, p),
        d.is_removal(r as int, p as int, out),
        !d.reachable(0, r),
        0 <= x < out.states,
    ensures
        out.reachable(0, x) <==> d.reachable(0, old_index(x as int, r as int) as i32),
{
    lemma_reachable_self(d, 0);
    let q = old_index(x as int, r as int) as i32;
    if out.reachable(0, x) {
        let w = choose|w: Seq<char>| in_alpha(out.alphabet@, w) && #[trigger] out.run(0, w) == x;
        lemma_removal_run(d, r, p, out, 0, w);
        crate::semantics::lemma_run_range(d, 0, w);
        assert(d.run(0, w) == q);
    }
    if d.reachable(0, q) {
        let w = choose|w: Seq<char>| in_alpha(d.alphabet@, w) && #[trigger] d.run(0, w) == q;
        lemma_removal_run(d, r, p, out, 0, w);
        assert(out.run(0, w) == x);
    }
}

/// Automata with the same contents run alike.
proof fn lemma_same_as_run(a: &DFA, b: &DFA, q: i32, w: Seq<char>)
    requires
        a.same_as(b),
    ensures
        a.run(q, w) == b.run(q, w),
    decreases w.len(),
{
    if w.len() > 0 && 0 <= q < a.transition@.len() {
        assert(a.transition@[q as int]@ == b.transition@[q as int]@);
        if let Some(t) = a.lookup(q, w[0]) {
            lemma_same_as_run(a, b, t, w.drop_first());
        }
    }
}

/// At most one permanent state carries over to an automaton embedded in it.
pub proof fn lemma_at_most_one_embedded(d: &DFA, r: &DFA, orig: Seq<int>, accept: bool)
    requires
        d.wf(),
        r.wf(),
        r.alphabet@ == d.alphabet@,
        embeds(d, r, orig),
        at_most_one_permanent(d, accept),
    ensures
        at_most_one_permanent(r, accept),
{
    assert forall|x: i32, z: i32|
        0 <= x < r.states && 0 <= z < r.states && permanently(r, x, accept) && permanently(r, z, accept) implies x == z by {
        assert forall|w: Seq<char>| #[trigger] r.eval_from(x, w) == d.eval_from(orig[x as int] as i32, w) by {
            assert(r.eval_from((x as int) as i32, w) == d.eval_from(orig[x as int] as i32, w));
        }
        assert forall|w: Seq<char>| #[trigger] r.eval_from(z, w) == d.eval_from(orig[z as int] as i32, w) by {
            assert(r.eval_from((z as int) as i32, w) == d.eval_from(orig[z as int] as i32, w));
        }
        lemma_permanent_back(d, r, accept, x, orig[x as int] as i32);
        lemma_permanent_back(d, r, accept, z, orig[z as int] as i32);
        if x < z {
            assert(orig[x as int] < orig[z as int]);
        } else if z < x {
            assert(orig[z as int] < orig[x as int]);
        }
    }
}

} // verus!
