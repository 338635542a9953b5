use vstd::prelude::*;

verus! {

/// A deterministic finite automaton. State `0` is the initial state.
///
/// `transition[q][k]` is the target of state `q` on the symbol `alphabet[k]`;
/// `None` marks a missing transition (only possible in automata read from text).
#[derive(Debug, Clone)]
pub struct DFA {
    pub alphabet: Vec<char>,
    pub states: i32,
    pub accepting: Vec<bool>,
    pub transition: Vec<Vec<Option<i32>>>,
}

/// Why a string could not be run through an automaton.
#[derive(Debug, PartialEq, Eq)]
pub enum DFAEvaluationError {
    InvalidChar(char),
    InvalidState(i32),
    NoTransition((i32, char)),
}

/// Every symbol of `w` belongs to `alph`.
pub open spec fn in_alpha(alph: Seq<char>, w: Seq<char>) -> bool {
    forall|i: int| 0 <= i < w.len() ==> alph.contains(#[trigger] w[i])
}

/// The behaviour of a run, with accepting and rejecting swapped.
pub open spec fn flip(r: Result<bool, DFAEvaluationError>) -> Result<bool, DFAEvaluationError> {
    match r {
        Ok(b) => Ok(!b),
        Err(e) => Err(e),
    }
}

impl DFA {
    /// The automaton is total and consistent: one accept flag and one row per
    /// state, one target per symbol, every target a state, no repeated symbol.
    pub open spec fn wf(&self) -> bool {
        &&& self.states >= 0
        &&& self.accepting@.len() == self.states
        &&& self.transition@.len() == self.states
        &&& self.alphabet@.no_duplicates()
        &&& forall|q: int| 0 <= q < self.states ==> #[trigger] self.transition@[q]@.len()
            == self.alphabet@.len()
        &&& forall|q: int, k: int|
            0 <= q < self.states && 0 <= k < self.alphabet@.len() ==> {
                let t = #[trigger] self.transition@[q]@[k];
                t is Some && 0 <= t.unwrap() < self.states
            }
    }

    /// Target of state `q` on column `k` of a well-formed automaton.
    pub open spec fn delta(&self, q: int, k: int) -> int {
        self.transition@[q]@[k].unwrap() as int
    }

    /// A state index that can be read.
    pub open spec fn valid_state(&self, q: i32) -> bool {
        0 <= q < self.states && q < self.accepting@.len()
    }

    /// The transition of `q` on `c`, looked up in the first column holding `c`.
    pub open spec fn lookup(&self, q: i32, c: char) -> Option<i32> {
        match self.alphabet@.index_of_first(c) {
            Some(k) => if 0 <= q < self.transition@.len() && k < self.transition@[q as int]@.len() {
                self.transition@[q as int]@[k]
            } else {
                None
            },
            None => None,
        }
    }

    /// The outcome of running `w` from state `q`.
    pub open spec fn eval_from(&self, q: i32, w: Seq<char>) -> Result<bool, DFAEvaluationError>
        decreases w.len(),
    {
        if w.len() == 0 {
            if self.valid_state(q) {
                Ok(self.accepting@[q as int])
            } else {
                Err(DFAEvaluationError::InvalidState(q))
            }
        } else if !self.alphabet@.contains(w[0]) {
            Err(DFAEvaluationError::InvalidChar(w[0]))
        } else if !self.valid_state(q) {
            Err(DFAEvaluationError::InvalidState(q))
        } else {
            match self.lookup(q, w[0]) {
                Some(t) => self.eval_from(t, w.drop_first()),
                None => Err(DFAEvaluationError::NoTransition((q, w[0]))),
            }
        }
    }

    /// The outcome of running `w` from the initial state.
    pub open spec fn eval(&self, w: Seq<char>) -> Result<bool, DFAEvaluationError> {
        self.eval_from(0, w)
    }

    /// `w` is accepted.
    pub open spec fn accepts(&self, w: Seq<char>) -> bool {
        self.eval(w) == Ok::<bool, DFAEvaluationError>(true)
    }

    /// `w` is read to its end and rejected.
    pub open spec fn rejects(&self, w: Seq<char>) -> bool {
        self.eval(w) == Ok::<bool, DFAEvaluationError>(false)
    }

    /// The state reached from `q` after `w` (stops where a transition is missing).
    pub open spec fn run(&self, q: i32, w: Seq<char>) -> i32
        decreases w.len(),
    {
        if w.len() == 0 {
            q
        } else {
            match self.lookup(q, w[0]) {
                Some(t) => self.run(t, w.drop_first()),
                None => q,
            }
        }
    }

    /// State `b` can be reached from state `a` by some string over the alphabet.
    pub open spec fn reachable(&self, a: i32, b: i32) -> bool {
        exists|w: Seq<char>| in_alpha(self.alphabet@, w) && #[trigger] self.run(a, w) == b
    }

    /// States `a` and `b` give the same outcome on every string.
    pub open spec fn equivalent(&self, a: i32, b: i32) -> bool {
        forall|w: Seq<char>| #[trigger] self.eval_from(a, w) == self.eval_from(b, w)
    }

    /// Two automata give the same outcome on every string.
    pub open spec fn same_behavior(&self, other: &DFA) -> bool {
        forall|w: Seq<char>| #[trigger] self.eval(w) == other.eval(w)
    }

    /// Field-wise equality of the mathematical contents.
    pub open spec fn same_as(&self, other: &DFA) -> bool {
        &&& self.alphabet@ == other.alphabet@
        &&& self.states == other.states
        &&& self.accepting@ == other.accepting@
        &&& self.transition@.len() == other.transition@.len()
        &&& forall|q: int|
            0 <= q < self.transition@.len() ==> #[trigger] self.transition@[q]@
                == other.transition@[q]@
    }
}

} // verus!

verus! {

impl DFA {
    /// The automaton with no state and no symbol, the neutral start of folds.
    pub fn new() -> (r: DFA)
        ensures
            r.wf(),
            r.states == 0,
            r.alphabet@.len() == 0,
    {
        DFA { alphabet: Vec::new(), states: 0, accepting: Vec::new(), transition: Vec::new() }
    }

    /// A copy with the same contents.
    pub fn duplicate(&self) -> (r: DFA)
        ensures
            r.same_as(self),
    {
        let mut transition: Vec<Vec<Option<i32>>> = Vec::new();
        let mut q: usize = 0;
        while q < self.transition.len()
            invariant
                q <= self.transition@.len(),
                transition@.len() == q,
                forall|i: int| 0 <= i < q ==> #[trigger] transition@[i]@ == self.transition@[i]@,
            decreases self.transition@.len() - q,
        {
            let row = self.transition[q].clone();
            assert(row@ =~= self.transition@[q as int]@);
            transition.push(row);
            q += 1;
        }
        let r = DFA {
            alphabet: self.alphabet.clone(),
            states: self.states,
            accepting: self.accepting.clone(),
            transition,
        };
        assert(r.alphabet@ =~= self.alphabet@);
        assert(r.accepting@ =~= self.accepting@);
        r
    }

    /// The first column that holds `c`.
    pub fn find_col(&self, c: char) -> (r: Option<usize>)
        ensures
            r matches Some(k) ==> self.alphabet@.index_of_first(c) == Some(k as int),
            r is None ==> self.alphabet@.index_of_first(c) is None,
            r is None <==> !self.alphabet@.contains(c),
    {
        proof {
            self.alphabet@.index_of_first_ensures(c);
        }
        let mut i: usize = 0;
        while i < self.alphabet.len()
            invariant
                i <= self.alphabet@.len(),
                forall|j: int| 0 <= j < i ==> self.alphabet@[j] != c,
            decreases self.alphabet@.len() - i,
        {
            if self.alphabet[i] == c {
                proof {
                    assert(self.alphabet@.contains(c));
                    self.alphabet@.index_of_first_ensures(c);
                }
                return Some(i);
            }
            i += 1;
        }
        None
    }

    /// Runs `string` from the initial state and reports whether it is accepted.
    pub fn evaluate(&self, string: &str) -> (r: Result<bool, DFAEvaluationError>)
        ensures
            r == self.eval(string@),
    {
        let cs = crate::text::chars_of(string);
        let mut state: i32 = 0;
        let mut i: usize = 0;
        assert(cs@.subrange(0, cs@.len() as int) =~= cs@);
        while i < cs.len()
            invariant
                i <= cs@.len(),
                cs@ == string@,
                self.eval(cs@) == self.eval_from(state, cs@.subrange(i as int, cs@.len() as int)),
            decreases cs@.len() - i,
        {
            let c = cs[i];
            let ghost rest = cs@.subrange(i as int, cs@.len() as int);
            assert(rest.drop_first() =~= cs@.subrange(i + 1, cs@.len() as int));
            let col = self.find_col(c);
            let k = match col {
                Some(k) => k,
                None => {
                    return Err(DFAEvaluationError::InvalidChar(c));
                },
            };
            if state < 0 || state >= self.states || state as usize >= self.accepting.len() {
                return Err(DFAEvaluationError::InvalidState(state));
            }
            let su = state as usize;
            if su >= self.transition.len() || k >= self.transition[su].len() {
                return Err(DFAEvaluationError::NoTransition((state, c)));
            }
            match self.transition[su][k] {
                Some(t) => {
                    state = t;
                },
                None => {
                    return Err(DFAEvaluationError::NoTransition((state, c)));
                },
            }
            i += 1;
        }
        if state < 0 || state >= self.states || state as usize >= self.accepting.len() {
            return Err(DFAEvaluationError::InvalidState(state));
        }
        Ok(self.accepting[state as usize])
    }
}

impl DFA {
    /// Whether the automaton is well formed (see `wf`); automata read from
    /// text need not be.
    pub fn is_well_formed(&self) -> (r: bool)
        ensures
            r == self.wf(),
    {
        if self.states < 0 || self.accepting.len() != self.states as usize || self.transition.len()
            != self.states as usize {
            return false;
        }
        let n = self.alphabet.len();
        let mut i: usize = 0;
        while i < n
            invariant
                n == self.alphabet@.len(),
                i <= n,
                forall|a: int, b: int| 0 <= a < b < n && a < i ==> self.alphabet@[a] != self.alphabet@[b],
            decreases n - i,
        {
            let mut j: usize = i + 1;
            while j < n
                invariant
                    n == self.alphabet@.len(),
                    i < n,
                    i + 1 <= j <= n,
                    forall|a: int, b: int| 0 <= a < b < n && a < i ==> self.alphabet@[a] != self.alphabet@[b],
                    forall|b: int| i < b < j ==> self.alphabet@[i as int] != self.alphabet@[b],
                decreases n - j,
            {
                if self.alphabet[i] == self.alphabet[j] {
                    return false;
                }
                j += 1;
            }
            i += 1;
        }
        let mut q: usize = 0;
        while q < self.transition.len()
            invariant
                self.states >= 0,
                n == self.alphabet@.len(),
                self.transition@.len() == self.states,
                self.accepting@.len() == self.states,
                self.alphabet@.no_duplicates(),
                q <= self.transition@.len(),
                forall|p: int| 0 <= p < q ==> #[trigger] self.transition@[p]@.len() == self.alphabet@.len(),
                forall|p: int, k: int|
                    0 <= p < q && 0 <= k < self.alphabet@.len() ==> {
                        let t = #[trigger] self.transition@[p]@[k];
                        t is Some && 0 <= t.unwrap() < self.states
                    },
            decreases self.transition@.len() - q,
        {
            if self.transition[q].len() != n {
                proof {
                    assert(self.transition@[q as int]@.len() != self.alphabet@.len());
                }
                return false;
            }
            let mut k: usize = 0;
            while k < n
                invariant
                    n == self.alphabet@.len(),
                    q < self.transition@.len(),
                    self.transition@[q as int]@.len() == n,
                    k <= n,
                    forall|kk: int|
                        0 <= kk < k ==> {
                            let t = #[trigger] self.transition@[q as int]@[kk];
                            t is Some && 0 <= t.unwrap() < self.states
                        },
                decreases n - k,
            {
                match self.transition[q][k] {
                    Some(t) => {
                        if t < 0 || t >= self.states {
                            proof {
                                assert(self.transition@[q as int]@[k as int] == Some(t));
                            }
                            return false;
                        }
                    },
                    None => {
                        proof {
                            assert(self.transition@[q as int]@[k as int] is None);
                        }
                        return false;
                    },
                }
                k += 1;
            }
            q += 1;
        }
        true
    }
}

impl Default for DFA {
    fn default() -> (r: DFA)
        ensures
            r.wf(),
            r.states == 0,
            r.alphabet@.len() == 0,
    {
        DFA::new()
    }
}

} // verus!
