//! Reading and writing automata in their line-based text form.
use vstd::prelude::*;
use crate::dfa::{DFA, DFAEvaluationError};
use crate::text::{
    decimal, join, push_decimal, push_text, string_of, chars_of, split, split_on, trim,
    trim_chars, parse_i32, parse_i32_chars, parse_unsigned, parse_index_chars, signed_decimal,
    push_signed_decimal, is_ws, is_digit, lemma_split_plain, lemma_split_push_sep, lemma_split_append,
    lemma_split_join, lemma_decimal_digits, lemma_decimal_has_no, lemma_parse_decimal,
    lemma_trim_plain, lemma_trim_space, lemma_digit_plain, lemma_split_nonempty,
};

verus! {

/// The decimal indices of the accepting flags that are set, in increasing order.
pub open spec fn accepting_parts(acc: Seq<bool>) -> Seq<Seq<char>>
    decreases acc.len(),
{
    if acc.len() == 0 {
        Seq::empty()
    } else {
        let p = accepting_parts(acc.drop_last());
        if acc.last() {
            p.push(decimal((acc.len() - 1) as nat))
        } else {
            p
        }
    }
}

/// Each symbol as a piece of its own.
pub open spec fn symbol_parts(alph: Seq<char>) -> Seq<Seq<char>> {
    Seq::new(alph.len(), |i: int| seq![alph[i]])
}

/// The decimal targets of one row.
pub open spec fn target_parts(row: Seq<Option<i32>>) -> Seq<Seq<char>> {
    Seq::new(row.len(), |i: int| decimal(row[i].unwrap() as nat))
}

/// The lines of the first `q` states, each ending with its annotation.
pub open spec fn state_lines(d: &DFA, q: int) -> Seq<char>
    decreases q,
{
    if q <= 0 {
        Seq::empty()
    } else {
        state_lines(d, q - 1) + join(target_parts(d.transition@[q - 1]@), ',') + " %"@ + decimal(
            (q - 1) as nat,
        ) + ":\n"@
    }
}

/// The text form: the state count, the accepting states, the alphabet, and one
/// line of targets per state, each line annotated after a `%`.
pub open spec fn serialized(d: &DFA) -> Seq<char> {
    decimal(d.states as nat) + " %states\n"@ + join(accepting_parts(d.accepting@), ',')
        + " %accepting states\n"@ + join(symbol_parts(d.alphabet@), ',') + " %alphabet\n"@
        + state_lines(d, d.states as int)
}

pub proof fn lemma_join_push(parts: Seq<Seq<char>>, p: Seq<char>, sep: char)
    ensures
        join(parts.push(p), sep) == if parts.len() == 0 {
            p
        } else {
            join(parts, sep).push(sep) + p
        },
{
    assert(parts.push(p).drop_last() =~= parts);
}

impl DFA {
    /// The text form of a well-formed automaton.
    pub fn to_string(&self) -> (r: String)
        requires
            self.wf(),
        ensures
            r@ == serialized(self),
    {
        let mut out: Vec<char> = Vec::new();
        push_decimal(&mut out, self.states as i64);
        push_text(&mut out, " %states\n");
        let ghost base = out@;
        let mut first = true;
        let mut i: usize = 0;
        proof {
            assert(self.accepting@.subrange(0, 0) =~= Seq::<bool>::empty());
        }
        while i < self.accepting.len()
            invariant
                self.wf(),
                i <= self.accepting@.len(),
                out@ == base + join(accepting_parts(self.accepting@.subrange(0, i as int)), ','),
                first == (accepting_parts(self.accepting@.subrange(0, i as int)).len() == 0),
            decreases self.accepting@.len() - i,
        {
            let ghost pre = self.accepting@.subrange(0, i as int);
            proof {
                assert(self.accepting@.subrange(0, i + 1).drop_last() =~= pre);
            }
            if self.accepting[i] {
                proof {
                    lemma_join_push(accepting_parts(pre), decimal(i as nat), ',');
                }
                if !first {
                    out.push(',');
                }
                push_decimal(&mut out, i as i64);
                first = false;
                proof {
                    assert(out@ =~= base + join(accepting_parts(self.accepting@.subrange(0, i + 1)), ','));
                }
            }
            i += 1;
        }
        proof {
            assert(self.accepting@.subrange(0, self.accepting@.len() as int) =~= self.accepting@);
        }
        push_text(&mut out, " %accepting states\n");
        let ghost base2 = out@;
        let mut k: usize = 0;
        proof {
            assert(symbol_parts(self.alphabet@.subrange(0, 0)) =~= Seq::<Seq<char>>::empty());
        }
        while k < self.alphabet.len()
            invariant
                k <= self.alphabet@.len(),
                out@ == base2 + join(symbol_parts(self.alphabet@.subrange(0, k as int)), ','),
            decreases self.alphabet@.len() - k,
        {
            let ghost pre = symbol_parts(self.alphabet@.subrange(0, k as int));
            proof {
                assert(symbol_parts(self.alphabet@.subrange(0, k + 1)) =~= pre.push(seq![self.alphabet@[k as int]]));
                lemma_join_push(pre, seq![self.alphabet@[k as int]], ',');
            }
            if k > 0 {
                out.push(',');
            }
            out.push(self.alphabet[k]);
            proof {
                assert(out@ =~= base2 + join(symbol_parts(self.alphabet@.subrange(0, k + 1)), ','));
            }
            k += 1;
        }
        proof {
            assert(self.alphabet@.subrange(0, self.alphabet@.len() as int) =~= self.alphabet@);
        }
        push_text(&mut out, " %alphabet\n");
        let ghost base3 = out@;
        let mut q: i32 = 0;
        while q < self.states
            invariant
                self.wf(),
                0 <= q <= self.states,
                out@ == base3 + state_lines(self, q as int),
            decreases self.states - q,
        {
            let ghost row = self.transition@[q as int]@;
            let ghost before = out@;
            let mut c: usize = 0;
            proof {
                assert(row.len() == self.alphabet@.len());
                assert(target_parts(row.subrange(0, 0)) =~= Seq::<Seq<char>>::empty());
            }
            while c < self.transition[q as usize].len()
                invariant
                    self.wf(),
                    0 <= q < self.states,
                    row == self.transition@[q as int]@,
                    row.len() == self.alphabet@.len(),
                    c <= row.len(),
                    out@ == before + join(target_parts(row.subrange(0, c as int)), ','),
                decreases row.len() - c,
            {
                let t = self.transition[q as usize][c].unwrap();
                let ghost pre = target_parts(row.subrange(0, c as int));
                proof {
                    assert(row[c as int] is Some);
                    assert(target_parts(row.subrange(0, c + 1)) =~= pre.push(decimal(t as nat)));
                    lemma_join_push(pre, decimal(t as nat), ',');
                }
                if c > 0 {
                    out.push(',');
                }
                push_decimal(&mut out, t as i64);
                proof {
                    assert(out@ =~= before + join(target_parts(row.subrange(0, c + 1)), ','));
                }
                c += 1;
            }
            proof {
                assert(row.subrange(0, row.len() as int) =~= row);
            }
            push_text(&mut out, " %");
            push_decimal(&mut out, q as i64);
            push_text(&mut out, ":\n");
            proof {
                assert(out@ =~= base3 + state_lines(self, q + 1));
            }
            q += 1;
        }
        proof {
            assert(out@ =~= serialized(self));
        }
        string_of(&out)
    }
}

/// The part of a line before its first `%`.
pub open spec fn payload(line: Seq<char>) -> Seq<char> {
    split(line, '%')[0]
}

/// The comma-separated fields of a line's payload.
pub open spec fn fields(line: Seq<char>) -> Seq<Seq<char>> {
    split(payload(line), ',')
}

/// The state count that the first line gives; 0 where it gives none.
pub open spec fn parsed_count(lines: Seq<Seq<char>>) -> i32 {
    if lines.len() > 0 {
        match parse_i32(trim(payload(lines[0]))) {
            Some(a) => if a >= 0 {
                a
            } else {
                0i32
            },
            None => 0i32,
        }
    } else {
        0i32
    }
}

/// The first character of each non-blank field.
pub open spec fn parsed_symbols(fs: Seq<Seq<char>>) -> Seq<char>
    decreases fs.len(),
{
    if fs.len() == 0 {
        Seq::empty()
    } else {
        let p = parsed_symbols(fs.drop_last());
        let t = trim(fs.last());
        if t.len() > 0 {
            p.push(t[0])
        } else {
            p
        }
    }
}

/// The alphabet that the third line gives.
pub open spec fn parsed_alphabet(lines: Seq<Seq<char>>) -> Seq<char> {
    if lines.len() > 2 {
        parsed_symbols(fields(lines[2]))
    } else {
        Seq::empty()
    }
}

/// The second line lists state `i` among the accepting states.
pub open spec fn listed_accepting(lines: Seq<Seq<char>>, i: int) -> bool {
    lines.len() > 1 && exists|j: int|
        0 <= j < fields(lines[1]).len() && parse_unsigned(trim(#[trigger] fields(lines[1])[j]))
            == Some(i)
}

/// A row after reading its first `m` fields: each readable field `j` sets the
/// first column of symbol `j`, later fields overwriting earlier ones.
pub open spec fn filled(fs: Seq<Seq<char>>, alph: Seq<char>, m: int) -> Seq<Option<i32>>
    decreases m,
{
    if m <= 0 {
        Seq::new(alph.len(), |k: int| None::<i32>)
    } else {
        let r = filled(fs, alph, m - 1);
        let j = m - 1;
        if j < alph.len() && j < fs.len() && parse_i32(trim(fs[j])) is Some {
            r.update(alph.index_of_first(alph[j]).unwrap(), parse_i32(trim(fs[j])))
        } else {
            r
        }
    }
}

/// The row of state `q`, read from line `q + 3` where there is one.
pub open spec fn parsed_row(lines: Seq<Seq<char>>, alph: Seq<char>, q: int) -> Seq<Option<i32>> {
    if q + 3 < lines.len() {
        filled(fields(lines[q + 3]), alph, fields(lines[q + 3]).len() as int)
    } else {
        Seq::new(alph.len(), |k: int| None::<i32>)
    }
}

/// `r` is what the text `s` describes.
pub open spec fn is_parse_of(s: Seq<char>, r: &DFA) -> bool {
    let lines = split(s, '\n');
    &&& r.states == parsed_count(lines)
    &&& r.alphabet@ == parsed_alphabet(lines)
    &&& r.accepting@.len() == r.states
    &&& forall|i: int| 0 <= i < r.states ==> #[trigger] r.accepting@[i] == listed_accepting(lines, i)
    &&& r.transition@.len() == r.states
    &&& forall|q: int| 0 <= q < r.states ==> #[trigger] r.transition@[q]@ == parsed_row(lines, r.alphabet@, q)
}

impl DFA {
    /// The payload fields of a line.
    fn line_fields(line: &Vec<char>) -> (r: Vec<Vec<char>>)
        ensures
            r@.len() == fields(line@).len(),
            forall|j: int| 0 <= j < r@.len() ==> #[trigger] r@[j]@ == fields(line@)[j],
    {
        let parts = split_on(line, '%');
        proof {
            crate::text::lemma_split_nonempty(line@, '%');
        }
        split_on(&parts[0], ',')
    }

    /// Reads an automaton from its text form. Unreadable numbers are skipped,
    /// as are accepting indices that are not states; a missing target stays
    /// absent.
    pub fn from_string(s: String) -> (r: DFA)
        ensures
            is_parse_of(s@, &r),
    {
        let cs = chars_of(s.as_str());
        let lines = split_on(&cs, '\n');
        let ghost ls = split(s@, '\n');
        proof {
            crate::text::lemma_split_nonempty(s@, '\n');
        }
        let f0 = DFA::line_fields(&lines[0]);
        let parts0 = split_on(&lines[0], '%');
        proof {
            crate::text::lemma_split_nonempty(lines@[0]@, '%');
        }
        let n: i32 = match parse_i32_chars(&trim_chars(&parts0[0])) {
            Some(a) => if a >= 0 {
                a
            } else {
                0
            },
            None => 0,
        };
        let mut accepting: Vec<bool> = Vec::new();
        let mut i: i32 = 0;
        while i < n
            invariant
                0 <= i <= n,
                accepting@.len() == i,
                forall|j: int| 0 <= j < i ==> !#[trigger] accepting@[j],
            decreases n - i,
        {
            accepting.push(false);
            i += 1;
        }
        if lines.len() > 1 {
            let f1 = DFA::line_fields(&lines[1]);
            let mut j: usize = 0;
            while j < f1.len()
                invariant
                    n >= 0,
                    lines@.len() == ls.len(),
                    ls.len() > 1,
                    lines@[1]@ == ls[1],
                    f1@.len() == fields(ls[1]).len(),
                    forall|m: int| 0 <= m < f1@.len() ==> #[trigger] f1@[m]@ == fields(ls[1])[m],
                    j <= f1@.len(),
                    accepting@.len() == n,
                    forall|x: int| 0 <= x < n ==> #[trigger] accepting@[x] == exists|m: int|
                        0 <= m < j && parse_unsigned(trim(#[trigger] fields(ls[1])[m])) == Some(x),
                decreases f1@.len() - j,
            {
                let tj = trim_chars(&f1[j]);
                let idx = parse_index_chars(&tj, n);
                let ghost old_acc = accepting@;
                proof {
                    assert(tj@ == trim(fields(ls[1])[j as int]));
                }
                match idx {
                    Some(x) => {
                        accepting.set(x as usize, true);
                    },
                    None => {},
                }
                proof {
                    assert forall|x: int| 0 <= x < n implies #[trigger] accepting@[x] == exists|m: int|
                        0 <= m < j + 1 && parse_unsigned(trim(#[trigger] fields(ls[1])[m])) == Some(x) by {
                        if parse_unsigned(trim(fields(ls[1])[j as int])) == Some(x) {
                            assert(idx == Some(x as i32));
                            assert(accepting@[x]);
                        } else {
                            if let Some(y) = idx {
                                assert(parse_unsigned(tj@) == Some(y as int));
                                assert(y as int != x);
                            }
                            assert(accepting@[x] == old_acc[x]);
                        }
                        if old_acc[x] {
                            let m = choose|m: int| 0 <= m < j && parse_unsigned(trim(#[trigger] fields(ls[1])[m])) == Some(x);
                            assert(0 <= m < j + 1);
                        }
                        if exists|m: int| 0 <= m < j + 1 && parse_unsigned(trim(#[trigger] fields(ls[1])[m])) == Some(x) {
                            let m = choose|m: int| 0 <= m < j + 1 && parse_unsigned(trim(#[trigger] fields(ls[1])[m])) == Some(x);
                            if m < j {
                                assert(old_acc[x]);
                            }
                        }
                    }
                }
                j += 1;
            }
        }
        let mut alphabet: Vec<char> = Vec::new();
        if lines.len() > 2 {
            let f2 = DFA::line_fields(&lines[2]);
            let mut j: usize = 0;
            proof {
                assert(fields(ls[2]).subrange(0, 0) =~= Seq::<Seq<char>>::empty());
            }
            while j < f2.len()
                invariant
                    lines@.len() == ls.len(),
                    ls.len() > 2,
                    f2@.len() == fields(ls[2]).len(),
                    forall|m: int| 0 <= m < f2@.len() ==> #[trigger] f2@[m]@ == fields(ls[2])[m],
                    j <= f2@.len(),
                    alphabet@ == parsed_symbols(fields(ls[2]).subrange(0, j as int)),
                decreases f2@.len() - j,
            {
                let t = trim_chars(&f2[j]);
                proof {
                    assert(fields(ls[2]).subrange(0, j + 1).drop_last() =~= fields(ls[2]).subrange(0, j as int));
                }
                if t.len() > 0 {
                    alphabet.push(t[0]);
                }
                j += 1;
            }
            proof {
                assert(fields(ls[2]).subrange(0, f2@.len() as int) =~= fields(ls[2]));
            }
        }
        let mut transition: Vec<Vec<Option<i32>>> = Vec::new();
        let mut q: i32 = 0;
        while q < n
            invariant
                0 <= q <= n,
                lines@.len() == ls.len(),
                forall|m: int| 0 <= m < lines@.len() ==> #[trigger] lines@[m]@ == ls[m],
                alphabet@ == parsed_alphabet(ls),
                transition@.len() == q,
                forall|x: int| 0 <= x < q ==> #[trigger] transition@[x]@ == parsed_row(ls, alphabet@, x),
            decreases n - q,
        {
            let mut row: Vec<Option<i32>> = Vec::new();
            let mut k: usize = 0;
            while k < alphabet.len()
                invariant
                    k <= alphabet@.len(),
                    row@.len() == k,
                    forall|m: int| 0 <= m < k ==> #[trigger] row@[m] == None::<i32>,
                decreases alphabet@.len() - k,
            {
                row.push(None);
                k += 1;
            }
            proof {
                assert(row@ =~= Seq::new(alphabet@.len(), |k: int| None::<i32>));
            }
            if (q as usize) + 3 < lines.len() {
                let line = &lines[q as usize + 3];
                let fq = DFA::line_fields(line);
                let ghost fs = fields(ls[q + 3]);
                let mut j: usize = 0;
                while j < fq.len()
                    invariant
                        fq@.len() == fs.len(),
                        forall|m: int| 0 <= m < fq@.len() ==> #[trigger] fq@[m]@ == fs[m],
                        j <= fq@.len(),
                        row@ == filled(fs, alphabet@, j as int),
                        row@.len() == alphabet@.len(),
                    decreases fq@.len() - j,
                {
                    if j < alphabet.len() {
                        match parse_i32_chars(&trim_chars(&fq[j])) {
                            Some(v) => {
                                let col = DFA::first_col_of(&alphabet, alphabet[j]);
                                row.set(col, Some(v));
                            },
                            None => {},
                        }
                    }
                    j += 1;
                }
            }
            transition.push(row);
            q += 1;
        }
        DFA { alphabet, states: n, accepting, transition }
    }

    /// The first column of `alph` holding `c`, which occurs in it.
    fn first_col_of(alph: &Vec<char>, c: char) -> (k: usize)
        requires
            alph@.contains(c),
        ensures
            alph@.index_of_first(c) == Some(k as int),
            k < alph@.len(),
    {
        proof {
            alph@.index_of_first_ensures(c);
        }
        let mut i: usize = 0;
        while i < alph.len()
            invariant
                i <= alph@.len(),
                alph@.contains(c),
                alph@.index_of_first(c) is Some,
                forall|j: int| 0 <= j < i ==> alph@[j] != c,
                alph@.index_of_first(c).unwrap() >= i,
                alph@.index_of_first(c).unwrap() < alph@.len(),
                alph@[alph@.index_of_first(c).unwrap()] == c,
            decreases alph@.len() - i,
        {
            if alph[i] == c {
                proof {
                    alph@.index_of_first_ensures(c);
                }
                return i;
            }
            i += 1;
        }
        0
    }
}

/// The message that reports an outcome of a run.
pub open spec fn outcome_text(r: Result<bool, DFAEvaluationError>) -> Seq<char> {
    match r {
        Ok(true) => "true"@,
        Ok(false) => "false"@,
        Err(DFAEvaluationError::InvalidChar(c)) => "invalid character: "@.push(c),
        Err(DFAEvaluationError::InvalidState(i)) => "invalid state: "@ + signed_decimal(i as int),
        Err(DFAEvaluationError::NoTransition((i, c))) => "no transition found for character "@.push(
            c,
        ) + " and state "@ + signed_decimal(i as int),
    }
}

impl DFA {
    /// Runs `s` and reports the outcome in words.
    pub fn evaluate_to_string(&self, s: &str) -> (r: String)
        ensures
            r@ == outcome_text(self.eval(s@)),
    {
        let mut out: Vec<char> = Vec::new();
        match self.evaluate(s) {
            Ok(true) => push_text(&mut out, "true"),
            Ok(false) => push_text(&mut out, "false"),
            Err(DFAEvaluationError::InvalidChar(c)) => {
                push_text(&mut out, "invalid character: ");
                out.push(c);
            },
            Err(DFAEvaluationError::InvalidState(i)) => {
                push_text(&mut out, "invalid state: ");
                push_signed_decimal(&mut out, i);
            },
            Err(DFAEvaluationError::NoTransition((i, c))) => {
                push_text(&mut out, "no transition found for character ");
                out.push(c);
                push_text(&mut out, " and state ");
                push_signed_decimal(&mut out, i);
            },
        }
        proof {
            assert(out@ =~= outcome_text(self.eval(s@)));
        }
        string_of(&out)
    }
}

/// A symbol that the text form carries unchanged: no white space, no `,`, `%` or line break.
pub open spec fn plain_symbol(c: char) -> bool {
    !is_ws(c) && c != ',' && c != '%' && c != '\n'
}

/// The first line of the text form, without its line break.
pub open spec fn count_line(d: &DFA) -> Seq<char> {
    decimal(d.states as nat) + " %states"@
}

pub open spec fn accepting_line(d: &DFA) -> Seq<char> {
    join(accepting_parts(d.accepting@), ',') + " %accepting states"@
}

pub open spec fn alphabet_line(d: &DFA) -> Seq<char> {
    join(symbol_parts(d.alphabet@), ',') + " %alphabet"@
}

pub open spec fn state_line(d: &DFA, q: int) -> Seq<char> {
    join(target_parts(d.transition@[q]@), ',') + " %"@ + decimal(q as nat) + ":"@
}

/// The lines of the text form.
pub open spec fn text_lines(d: &DFA) -> Seq<Seq<char>> {
    seq![count_line(d), accepting_line(d), alphabet_line(d)] + Seq::new(
        d.states as nat,
        |q: int| state_line(d, q),
    ) + seq![Seq::<char>::empty()]
}

/// Joined pieces hold a character only where a piece does or it is the separator.
proof fn lemma_join_has_no(parts: Seq<Seq<char>>, sep: char, c: char)
    requires
        c != sep,
        forall|i: int| 0 <= i < parts.len() ==> !(#[trigger] parts[i]).contains(c),
    ensures
        !join(parts, sep).contains(c),
    decreases parts.len(),
{
    if parts.len() >= 2 {
        let init = parts.drop_last();
        lemma_join_has_no(init, sep, c);
        let j = join(parts, sep);
        let a = join(init, sep).push(sep);
        assert(parts.last() == parts[parts.len() - 1]);
        if j.contains(c) {
            let i = choose|i: int| 0 <= i < j.len() && j[i] == c;
            if i < a.len() {
                if i < a.len() - 1 {
                    assert(join(init, sep)[i] == c);
                }
            } else {
                assert(parts.last()[i - a.len()] == c);
            }
        }
    } else if parts.len() == 1 {
        assert(parts[0] == join(parts, sep));
    }
}

proof fn lemma_text_parts_plain(d: &DFA, c: char)
    requires
        d.wf(),
        forall|i: int| 0 <= i < d.alphabet@.len() ==> plain_symbol(#[trigger] d.alphabet@[i]),
        c == '\n' || c == '%',
    ensures
        !join(accepting_parts(d.accepting@), ',').contains(c),
        !join(symbol_parts(d.alphabet@), ',').contains(c),
        forall|q: int| 0 <= q < d.states ==> !join(target_parts(#[trigger] d.transition@[q]@), ',').contains(c),
{
    assert(!is_digit(c));
    lemma_accepting_parts_digits(d.accepting@, c);
    lemma_join_has_no(accepting_parts(d.accepting@), ',', c);
    assert forall|i: int| 0 <= i < symbol_parts(d.alphabet@).len() implies !(#[trigger] symbol_parts(d.alphabet@)[i]).contains(c) by {
        assert(plain_symbol(d.alphabet@[i]));
        assert(symbol_parts(d.alphabet@)[i] == seq![d.alphabet@[i]]);
        if seq![d.alphabet@[i]].contains(c) {
            let t = choose|t: int| 0 <= t < 1 && seq![d.alphabet@[i]][t] == c;
        }
    }
    lemma_join_has_no(symbol_parts(d.alphabet@), ',', c);
    assert forall|q: int| 0 <= q < d.states implies !join(target_parts(#[trigger] d.transition@[q]@), ',').contains(c) by {
        let tp = target_parts(d.transition@[q]@);
        assert forall|i: int| 0 <= i < tp.len() implies !(#[trigger] tp[i]).contains(c) by {
            lemma_decimal_has_no(d.transition@[q]@[i].unwrap() as nat, c);
        }
        lemma_join_has_no(tp, ',', c);
    }
}

proof fn lemma_accepting_parts_digits(acc: Seq<bool>, c: char)
    requires
        !is_digit(c),
    ensures
        forall|i: int| 0 <= i < accepting_parts(acc).len() ==> !(#[trigger] accepting_parts(acc)[i]).contains(c),
    decreases acc.len(),
{
    if acc.len() > 0 {
        lemma_accepting_parts_digits(acc.drop_last(), c);
        lemma_decimal_has_no((acc.len() - 1) as nat, c);
        let p = accepting_parts(acc.drop_last());
        assert forall|i: int| 0 <= i < accepting_parts(acc).len() implies !(#[trigger] accepting_parts(acc)[i]).contains(c) by {
            if i < p.len() {
                assert(accepting_parts(acc)[i] == p[i]);
            }
        }
    }
}

proof fn lemma_state_lines_split(d: &DFA, pre: Seq<char>, q: int)
    requires
        d.wf(),
        forall|i: int| 0 <= i < d.alphabet@.len() ==> plain_symbol(#[trigger] d.alphabet@[i]),
        0 <= q <= d.states,
        split(pre, '\n').len() >= 1,
        split(pre, '\n').last() == Seq::<char>::empty(),
    ensures
        split(pre + state_lines(d, q), '\n') == split(pre, '\n').drop_last() + Seq::new(
            q as nat,
            |i: int| state_line(d, i),
        ) + seq![Seq::<char>::empty()],
    decreases q,
{
    let p = split(pre, '\n');
    if q == 0 {
        assert(pre + state_lines(d, q) =~= pre);
        assert(p.drop_last() + Seq::new(0, |i: int| state_line(d, i)) + seq![Seq::<char>::empty()] =~= p);
    } else {
        lemma_state_lines_split(d, pre, q - 1);
        let x = pre + state_lines(d, q - 1);
        let line = state_line(d, q - 1);
        reveal_strlit(":\n");
        reveal_strlit(":");
        reveal_strlit(" %");
        assert(pre + state_lines(d, q) =~= (x + line).push('\n'));
        lemma_text_parts_plain(d, '\n');
        lemma_decimal_has_no((q - 1) as nat, '\n');
        assert(!line.contains('\n')) by {
            let j = join(target_parts(d.transition@[q - 1]@), ',');
            if line.contains('\n') {
                let i = choose|i: int| 0 <= i < line.len() && line[i] == '\n';
                if i < j.len() {
                    assert(j[i] == '\n');
                } else if i >= j.len() + 2 && i < line.len() - 1 {
                    assert(decimal((q - 1) as nat)[i - j.len() - 2] == '\n');
                }
            }
        }
        lemma_split_push_sep(x + line, '\n');
        lemma_split_append(x, line, '\n');
        let sx = split(x, '\n');
        assert(sx.last() + line =~= line);
        assert(sx.update(sx.len() - 1, line).push(Seq::<char>::empty()) =~= p.drop_last() + Seq::new(
            q as nat,
            |i: int| state_line(d, i),
        ) + seq![Seq::<char>::empty()]);
    }
}

/// Text of two pieces holds a character only where one of them does.
proof fn lemma_concat_has_no(a: Seq<char>, b: Seq<char>, c: char)
    requires
        !a.contains(c),
        !b.contains(c),
    ensures
        !(a + b).contains(c),
{
    if (a + b).contains(c) {
        let i = choose|i: int| 0 <= i < (a + b).len() && (a + b)[i] == c;
        if i < a.len() {
            assert(a[i] == c);
        } else {
            assert(b[i - a.len()] == c);
        }
    }
}

/// Splitting the text form at line breaks gives its lines.
proof fn lemma_text_lines(d: &DFA)
    requires
        d.wf(),
        forall|i: int| 0 <= i < d.alphabet@.len() ==> plain_symbol(#[trigger] d.alphabet@[i]),
    ensures
        split(serialized(d), '\n') == text_lines(d),
{
    reveal_strlit(" %states\n");
    reveal_strlit(" %states");
    reveal_strlit(" %accepting states\n");
    reveal_strlit(" %accepting states");
    reveal_strlit(" %alphabet\n");
    reveal_strlit(" %alphabet");
    let nl = '\n';
    let e = Seq::<char>::empty();
    let c0 = count_line(d);
    let c1 = accepting_line(d);
    let c2 = alphabet_line(d);
    lemma_text_parts_plain(d, nl);
    lemma_decimal_has_no(d.states as nat, nl);
    lemma_concat_has_no(decimal(d.states as nat), " %states"@, nl);
    lemma_concat_has_no(join(accepting_parts(d.accepting@), ','), " %accepting states"@, nl);
    lemma_concat_has_no(join(symbol_parts(d.alphabet@), ','), " %alphabet"@, nl);
    let x0 = c0.push(nl);
    let x1 = (x0 + c1).push(nl);
    let x2 = (x1 + c2).push(nl);
    assert(serialized(d) =~= x2 + state_lines(d, d.states as int));
    lemma_split_plain(c0, nl);
    lemma_split_push_sep(c0, nl);
    assert(split(x0, nl) == seq![c0, e]);
    lemma_split_append(x0, c1, nl);
    lemma_split_push_sep(x0 + c1, nl);
    assert(e + c1 =~= c1);
    assert(seq![c0, e].update(1, c1).push(e) =~= seq![c0, c1, e]);
    assert(split(x1, nl) == seq![c0, c1, e]);
    lemma_split_append(x1, c2, nl);
    lemma_split_push_sep(x1 + c2, nl);
    assert(e + c2 =~= c2);
    assert(seq![c0, c1, e].update(2, c2).push(e) =~= seq![c0, c1, c2, e]);
    assert(split(x2, nl) == seq![c0, c1, c2, e]);
    lemma_state_lines_split(d, x2, d.states as int);
    assert(seq![c0, c1, c2, e].drop_last() =~= seq![c0, c1, c2]);
}

/// The payload of a line is what stands before its `%`.
proof fn lemma_payload(x: Seq<char>, rest: Seq<char>)
    requires
        !x.contains('%'),
        !rest.contains('%'),
    ensures
        payload(x.push('%') + rest) == x,
{
    lemma_split_plain(x, '%');
    lemma_split_push_sep(x, '%');
    lemma_split_append(x.push('%'), rest, '%');
}

/// The fields of a joined list followed by a space.
proof fn lemma_fields_join(parts: Seq<Seq<char>>)
    requires
        forall|i: int| 0 <= i < parts.len() ==> !(#[trigger] parts[i]).contains(','),
    ensures
        parts.len() == 0 ==> split(join(parts, ',').push(' '), ',') == seq![seq![' ']],
        parts.len() > 0 ==> split(join(parts, ',').push(' '), ',') == parts.update(
            parts.len() - 1,
            parts.last().push(' '),
        ),
{
    if parts.len() == 0 {
        assert(join(parts, ',').push(' ') =~= seq![' ']);
        lemma_split_plain(seq![' '], ',');
    } else {
        lemma_split_join(parts, ',');
        lemma_split_plain(seq![' '], ',');
        assert(!seq![' '].contains(',')) by {
            if seq![' '].contains(',') {
                let t = choose|t: int| 0 <= t < 1 && seq![' '][t] == ',';
            }
        }
        lemma_split_append(join(parts, ','), seq![' '], ',');
        assert(join(parts, ',') + seq![' '] =~= join(parts, ',').push(' '));
        assert(parts.last() + seq![' '] =~= parts.last().push(' '));
    }
}

/// The decimal of every accepting state, and nothing else.
proof fn lemma_accepting_parts(acc: Seq<bool>)
    ensures
        forall|j: int|
            0 <= j < accepting_parts(acc).len() ==> {
                let v = parse_unsigned(#[trigger] accepting_parts(acc)[j]).unwrap();
                &&& parse_unsigned(accepting_parts(acc)[j]) is Some
                &&& 0 <= v < acc.len()
                &&& acc[v]
                &&& accepting_parts(acc)[j] == decimal(v as nat)
            },
        forall|k: int|
            0 <= k < acc.len() && #[trigger] acc[k] ==> exists|j: int|
                0 <= j < accepting_parts(acc).len() && #[trigger] accepting_parts(acc)[j] == decimal(
                    k as nat,
                ),
    decreases acc.len(),
{
    if acc.len() > 0 {
        let a = acc.drop_last();
        lemma_accepting_parts(a);
        let p = accepting_parts(a);
        let parts = accepting_parts(acc);
        let last = (acc.len() - 1) as nat;
        lemma_parse_decimal(last);
        assert forall|j: int| 0 <= j < parts.len() implies {
            let v = parse_unsigned(#[trigger] parts[j]).unwrap();
            &&& parse_unsigned(parts[j]) is Some
            &&& 0 <= v < acc.len()
            &&& acc[v]
            &&& parts[j] == decimal(v as nat)
        } by {
            if j < p.len() {
                assert(parts[j] == p[j]);
                assert(a[parse_unsigned(p[j]).unwrap()] == acc[parse_unsigned(p[j]).unwrap()]);
            } else {
                assert(acc.last() == acc[acc.len() - 1]);
            }
        }
        assert forall|k: int| 0 <= k < acc.len() && #[trigger] acc[k] implies exists|j: int|
            0 <= j < parts.len() && #[trigger] parts[j] == decimal(k as nat) by {
            if k < a.len() {
                assert(a[k] == acc[k]);
                let j = choose|j: int| 0 <= j < p.len() && #[trigger] p[j] == decimal(k as nat);
                assert(parts[j] == p[j]);
            } else {
                assert(acc.last() == acc[k]);
                assert(parts[p.len() as int] == decimal(k as nat));
            }
        }
    }
}

/// Reading the symbols of one-symbol pieces gives the symbols back.
proof fn lemma_parsed_symbol_parts(alph: Seq<char>)
    requires
        forall|i: int| 0 <= i < alph.len() ==> plain_symbol(#[trigger] alph[i]),
    ensures
        alph.len() > 0 ==> parsed_symbols(
            symbol_parts(alph).update(alph.len() - 1, symbol_parts(alph).last().push(' ')),
        ) == alph,
        parsed_symbols(symbol_parts(alph)) == alph,
    decreases alph.len(),
{
    if alph.len() > 0 {
        let a = alph.drop_last();
        assert forall|i: int| 0 <= i < a.len() implies plain_symbol(#[trigger] a[i]) by {
            assert(a[i] == alph[i]);
        }
        lemma_parsed_symbol_parts(a);
        let c = alph.last();
        assert(plain_symbol(alph[alph.len() - 1]));
        lemma_trim_plain(seq![c]);
        let sp = symbol_parts(alph);
        assert(sp.drop_last() =~= symbol_parts(a));
        let sq = sp.update(alph.len() - 1, sp.last().push(' '));
        assert(sq.drop_last() =~= symbol_parts(a));
        assert(sp.last() == seq![c]);
        assert(sq.last() == seq![c].push(' '));
        assert(a.push(c) =~= alph);
    }
}

/// Reading the fields of a row of targets gives the row back.
proof fn lemma_filled_row(d: &DFA, q: int, fs: Seq<Seq<char>>, m: int)
    requires
        d.wf(),
        0 <= q < d.states,
        d.alphabet@.len() > 0,
        fs == target_parts(d.transition@[q]@).update(
            d.alphabet@.len() - 1,
            target_parts(d.transition@[q]@).last().push(' '),
        ),
        0 <= m <= d.alphabet@.len(),
    ensures
        filled(fs, d.alphabet@, m) == Seq::new(
            d.alphabet@.len(),
            |k: int| if k < m { d.transition@[q]@[k] } else { None::<i32> },
        ),
    decreases m,
{
    let alph = d.alphabet@;
    let row = d.transition@[q]@;
    if m == 0 {
        assert(filled(fs, alph, 0) =~= Seq::new(alph.len(), |k: int| if k < 0 { row[k] } else { None::<i32> }));
    } else {
        lemma_filled_row(d, q, fs, m - 1);
        let j = m - 1;
        assert(row[j] is Some);
        let t = row[j].unwrap();
        lemma_parse_decimal(t as nat);
        lemma_decimal_digits(t as nat);
        let dt = decimal(t as nat);
        lemma_digit_plain(dt[0]);
        lemma_digit_plain(dt.last());
        assert(is_digit(dt[dt.len() - 1]));
        lemma_trim_plain(dt);
        assert(trim(fs[j]) == dt);
        crate::semantics::lemma_first_col(alph, j);
        assert(filled(fs, alph, m) =~= Seq::new(alph.len(), |k: int| if k < m { row[k] } else { None::<i32> }));
    }
}

proof fn lemma_payload_of_list(j: Seq<char>, rest: Seq<char>, line: Seq<char>)
    requires
        !j.contains('%'),
        !rest.contains('%'),
        line == j + " %"@ + rest,
    ensures
        payload(line) == j.push(' '),
{
    reveal_strlit(" %");
    assert(!j.push(' ').contains('%')) by {
        if j.push(' ').contains('%') {
            let t = choose|t: int| 0 <= t < j.push(' ').len() && j.push(' ')[t] == '%';
            if t < j.len() {
                assert(j[t] == '%');
            }
        }
    }
    assert(line =~= j.push(' ').push('%') + rest);
    lemma_payload(j.push(' '), rest);
}

proof fn lemma_rt_count(d: &DFA)
    requires
        d.wf(),
    ensures
        parsed_count(text_lines(d)) == d.states,
{
    let lines = text_lines(d);
    let n = d.states as int;
    reveal_strlit(" %states");
    reveal_strlit(" %");
    reveal_strlit("states");
    let dn = decimal(n as nat);
    lemma_decimal_digits(n as nat);
    lemma_decimal_has_no(n as nat, '%');
    assert(!"states"@.contains('%')) by {
        if "states"@.contains('%') {
            let t = choose|t: int| 0 <= t < "states"@.len() && "states"@[t] == '%';
        }
    }
    assert(" %states"@ =~= " %"@ + "states"@);
    assert(count_line(d) =~= dn + " %"@ + "states"@);
    lemma_payload_of_list(dn, "states"@, count_line(d));
    lemma_digit_plain(dn[0]);
    assert(is_digit(dn[dn.len() - 1]));
    lemma_digit_plain(dn.last());
    lemma_trim_plain(dn);
    lemma_parse_decimal(n as nat);
    assert(lines[0] == count_line(d));
}

proof fn lemma_rt_alphabet(d: &DFA)
    requires
        d.wf(),
        forall|i: int| 0 <= i < d.alphabet@.len() ==> plain_symbol(#[trigger] d.alphabet@[i]),
    ensures
        parsed_alphabet(text_lines(d)) == d.alphabet@,
{
    let lines = text_lines(d);
    let alph = d.alphabet@;
    reveal_strlit(" %alphabet");
    reveal_strlit(" %");
    reveal_strlit("alphabet");
    lemma_text_parts_plain(d, '%');
    let j2 = join(symbol_parts(alph), ',');
    assert(!"alphabet"@.contains('%')) by {
        if "alphabet"@.contains('%') {
            let t = choose|t: int| 0 <= t < "alphabet"@.len() && "alphabet"@[t] == '%';
        }
    }
    assert(" %alphabet"@ =~= " %"@ + "alphabet"@);
    assert(alphabet_line(d) =~= j2 + " %"@ + "alphabet"@);
    lemma_payload_of_list(j2, "alphabet"@, alphabet_line(d));
    assert forall|i: int| 0 <= i < symbol_parts(alph).len() implies !(#[trigger] symbol_parts(alph)[i]).contains(',') by {
        assert(plain_symbol(alph[i]));
        if symbol_parts(alph)[i].contains(',') {
            let t = choose|t: int| 0 <= t < symbol_parts(alph)[i].len() && symbol_parts(alph)[i][t] == ',';
            assert(symbol_parts(alph)[i][t] == alph[i]);
        }
    }
    lemma_fields_join(symbol_parts(alph));
    lemma_parsed_symbol_parts(alph);
    assert(lines[2] == alphabet_line(d));
    if alph.len() == 0 {
        lemma_trim_space();
        assert(seq![seq![' ']].drop_last() =~= Seq::<Seq<char>>::empty());
        assert(parsed_symbols(seq![seq![' ']]) == parsed_symbols(Seq::<Seq<char>>::empty()));
        assert(alph =~= Seq::<char>::empty());
    }
}

proof fn lemma_rt_accepting(d: &DFA, i: int)
    requires
        d.wf(),
        0 <= i < d.states,
    ensures
        listed_accepting(text_lines(d), i) == d.accepting@[i],
{
    let lines = text_lines(d);
    reveal_strlit(" %accepting states");
    reveal_strlit(" %");
    reveal_strlit("accepting states");
    let parts = accepting_parts(d.accepting@);
    let j1 = join(parts, ',');
    lemma_accepting_parts_digits(d.accepting@, '%');
    lemma_join_has_no(parts, ',', '%');
    assert(!"accepting states"@.contains('%')) by {
        if "accepting states"@.contains('%') {
            let t = choose|t: int| 0 <= t < "accepting states"@.len() && "accepting states"@[t] == '%';
        }
    }
    assert(" %accepting states"@ =~= " %"@ + "accepting states"@);
    assert(accepting_line(d) =~= j1 + " %"@ + "accepting states"@);
    lemma_payload_of_list(j1, "accepting states"@, accepting_line(d));
    lemma_accepting_parts_digits(d.accepting@, ',');
    lemma_fields_join(parts);
    lemma_accepting_parts(d.accepting@);
    assert(lines[1] == accepting_line(d));
    let f1 = fields(lines[1]);
    assert forall|j: int| 0 <= j < f1.len() implies trim(#[trigger] f1[j]) == (if parts.len() == 0 {
        Seq::<char>::empty()
    } else {
        parts[j]
    }) by {
        if parts.len() == 0 {
            lemma_trim_space();
        } else {
            let v = parse_unsigned(parts[j]).unwrap();
            lemma_decimal_digits(v as nat);
            let dv = decimal(v as nat);
            lemma_digit_plain(dv[0]);
            assert(is_digit(dv[dv.len() - 1]));
            lemma_digit_plain(dv.last());
            lemma_trim_plain(dv);
            if j == parts.len() - 1 {
                assert(f1[j] == parts.last().push(' '));
            } else {
                assert(f1[j] == parts[j]);
            }
        }
    }
    if d.accepting@[i] {
        let j = choose|j: int| 0 <= j < parts.len() && #[trigger] parts[j] == decimal(i as nat);
        lemma_parse_decimal(i as nat);
        assert(parse_unsigned(trim(f1[j])) == Some(i));
    }
    if listed_accepting(lines, i) {
        let j = choose|j: int| 0 <= j < f1.len() && parse_unsigned(trim(#[trigger] f1[j])) == Some(i);
        if parts.len() == 0 {
            assert(trim(f1[j]) == Seq::<char>::empty());
        } else {
            assert(trim(f1[j]) == parts[j]);
        }
    }
}

proof fn lemma_rt_row(d: &DFA, q: int)
    requires
        d.wf(),
        0 <= q < d.states,
    ensures
        parsed_row(text_lines(d), d.alphabet@, q) == d.transition@[q]@,
{
    let lines = text_lines(d);
    let alph = d.alphabet@;
    reveal_strlit(" %");
    reveal_strlit(":");
    assert(lines[q + 3] == state_line(d, q));
    let row = d.transition@[q]@;
    let tp = target_parts(row);
    let j = join(tp, ',');
    assert forall|i: int| 0 <= i < tp.len() implies !(#[trigger] tp[i]).contains('%') by {
        lemma_decimal_has_no(row[i].unwrap() as nat, '%');
    }
    lemma_join_has_no(tp, ',', '%');
    lemma_decimal_has_no(q as nat, '%');
    let rest = decimal(q as nat) + ":"@;
    assert(!rest.contains('%')) by {
        if rest.contains('%') {
            let t = choose|t: int| 0 <= t < rest.len() && rest[t] == '%';
            if t < decimal(q as nat).len() {
                assert(decimal(q as nat)[t] == '%');
            }
        }
    }
    assert(state_line(d, q) =~= j + " %"@ + rest);
    lemma_payload_of_list(j, rest, state_line(d, q));
    assert forall|i: int| 0 <= i < tp.len() implies !(#[trigger] tp[i]).contains(',') by {
        lemma_decimal_has_no(row[i].unwrap() as nat, ',');
    }
    lemma_fields_join(tp);
    assert(row.len() == alph.len());
    if alph.len() == 0 {
        assert(filled(seq![seq![' ']], alph, 1) == filled(seq![seq![' ']], alph, 0));
        assert(row =~= Seq::new(alph.len(), |k: int| None::<i32>));
    } else {
        let fs = fields(lines[q + 3]);
        lemma_filled_row(d, q, fs, alph.len() as int);
        assert(row =~= Seq::new(alph.len(), |k: int| if k < alph.len() { row[k] } else { None::<i32> }));
    }
}

/// Reading the text form of a well-formed automaton, whose symbols are plain,
/// gives back the same automaton.
pub proof fn lemma_round_trip(d: &DFA, r: &DFA)
    requires
        d.wf(),
        forall|i: int| 0 <= i < d.alphabet@.len() ==> plain_symbol(#[trigger] d.alphabet@[i]),
        is_parse_of(serialized(d), r),
    ensures
        r.same_as(d),
        d.same_behavior(r),
{
    lemma_text_lines(d);
    lemma_rt_count(d);
    lemma_rt_alphabet(d);
    assert forall|i: int| 0 <= i < d.states implies #[trigger] r.accepting@[i] == d.accepting@[i] by {
        lemma_rt_accepting(d, i);
    }
    assert(r.accepting@ =~= d.accepting@);
    assert forall|q: int| 0 <= q < d.states implies #[trigger] r.transition@[q]@ == d.transition@[q]@ by {
        lemma_rt_row(d, q);
    }
    assert forall|w: Seq<char>| #[trigger] d.eval(w) == r.eval(w) by {
        crate::minimize::lemma_same_as_eval(d, r, 0, w);
    }
}

} // verus!
