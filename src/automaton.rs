//! The automaton, its mathematical model, and the evaluation cursor.
use vstd::prelude::*;

use crate::state::{Evaluation, State};

verus! {

/// One row of a transition table: from a state, on a symbol, to a state.
pub type Entry = (State, char, State);

/// The key under which an entry is looked up: the source label and the symbol.
pub open spec fn entry_key(e: Entry) -> (Seq<char>, char) {
    (e.0@, e.1)
}

/// `i` is the first position of `es` whose entry has key `k`.
pub open spec fn first_match(es: Seq<Entry>, k: (Seq<char>, char), i: int) -> bool {
    0 <= i < es.len() && entry_key(es[i]) == k && forall|j: int|
        0 <= j < i ==> entry_key(#[trigger] es[j]) != k
}

/// The transition function held by a list of entries: the first entry with a key decides it.
pub open spec fn table_of(es: Seq<Entry>) -> Map<(Seq<char>, char), Seq<char>> {
    Map::new(
        |k: (Seq<char>, char)| exists|i: int| 0 <= i < es.len() && entry_key(#[trigger] es[i]) == k,
        |k: (Seq<char>, char)| es[choose|i: int| first_match(es, k, i)].2@,
    )
}

/// No two entries share a key.
pub open spec fn keys_unique(es: Seq<Entry>) -> bool {
    forall|i: int, j: int|
        0 <= i < es.len() && 0 <= j < es.len() && i != j ==> entry_key(#[trigger] es[i])
            != entry_key(#[trigger] es[j])
}

/// The labels of a list of states.
pub open spec fn labels(v: Seq<State>) -> Set<Seq<char>> {
    Set::new(|x: Seq<char>| exists|i: int| 0 <= i < v.len() && (#[trigger] v[i])@ == x)
}

/// Some entry with key `k` comes first among those with that key.
pub proof fn lemma_first_match_exists(es: Seq<Entry>, k: (Seq<char>, char), i: int)
    requires
        0 <= i < es.len(),
        entry_key(es[i]) == k,
    ensures
        exists|c: int| first_match(es, k, c),
    decreases i,
{
    if exists|j: int| 0 <= j < i && entry_key(#[trigger] es[j]) == k {
        let j = choose|j: int| 0 <= j < i && entry_key(#[trigger] es[j]) == k;
        lemma_first_match_exists(es, k, j);
    } else {
        assert(first_match(es, k, i));
    }
}

/// The first matching entry decides the value that `table_of` gives for its key.
pub proof fn lemma_first_match_value(es: Seq<Entry>, k: (Seq<char>, char), i: int)
    requires
        first_match(es, k, i),
    ensures
        table_of(es).contains_key(k),
        table_of(es)[k] == es[i].2@,
{
    assert(entry_key(es[i]) == k);
    let c = choose|c: int| first_match(es, k, c);
    assert(first_match(es, k, c));
    if c < i {
        assert(entry_key(es[c]) != k);
    } else if i < c {
        assert(entry_key(es[i]) != k);
    }
}

/// The mathematical model of an automaton.
pub ghost struct Machine {
    pub table: Map<(Seq<char>, char), Seq<char>>,
    pub start: Seq<char>,
    pub accept: Set<Seq<char>>,
}

impl Machine {
    /// One move: the table's successor, or the same state where the table has none.
    pub open spec fn step(self, s: Seq<char>, c: char) -> Seq<char> {
        if self.table.contains_key((s, c)) {
            self.table[(s, c)]
        } else {
            s
        }
    }

    /// The state reached from `s` after the symbols of `w`, in order.
    pub open spec fn run_from(self, s: Seq<char>, w: Seq<char>) -> Seq<char>
        decreases w.len(),
    {
        if w.len() == 0 {
            s
        } else {
            self.step(self.run_from(s, w.drop_last()), w.last())
        }
    }

    /// The automaton accepts `w`.
    pub open spec fn accepts(self, w: Seq<char>) -> bool {
        self.accept.contains(self.run_from(self.start, w))
    }

    /// Every state that is the source or the target of a transition.
    pub open spec fn states(self) -> Set<Seq<char>> {
        Set::new(
            |s: Seq<char>|
                exists|k: (Seq<char>, char)|
                    #[trigger] self.table.contains_key(k) && (k.0 == s || self.table[k] == s),
        )
    }
}

/// Feeding `w` and then `c` reaches the state one step on `c` from where `w` ends: a run is
/// the steps of its symbols, one at a time, in order.
pub proof fn lemma_run_then_step(m: Machine, s: Seq<char>, w: Seq<char>, c: char)
    ensures
        m.run_from(s, w.push(c)) == m.step(m.run_from(s, w), c),
{
    assert(w.push(c).drop_last() =~= w);
}

/// A run that begins with `c` is one step on `c` followed by a run of the rest.
pub proof fn lemma_step_then_run(m: Machine, s: Seq<char>, c: char, w: Seq<char>)
    ensures
        m.run_from(s, seq![c] + w) == m.run_from(m.step(s, c), w),
    decreases w.len(),
{
    if w.len() == 0 {
        assert(seq![c] + w =~= seq![c]);
        assert(seq![c].drop_last() =~= Seq::<char>::empty());
        assert(m.run_from(s, Seq::<char>::empty()) == s);
        assert(m.run_from(s, seq![c]) == m.step(m.run_from(s, seq![c].drop_last()), c));
    } else {
        assert((seq![c] + w).drop_last() =~= seq![c] + w.drop_last());
        assert((seq![c] + w).last() == w.last());
        lemma_step_then_run(m, s, c, w.drop_last());
    }
}

/// A deterministic finite automaton over `char` symbols.
#[derive(Debug, Clone)]
pub struct DFA {
    pub transitions: Vec<Entry>,
    pub start: State,
    pub accept: Vec<State>,
}

impl View for DFA {
    type V = Machine;

    open spec fn view(&self) -> Machine {
        Machine {
            table: table_of(self.transitions@),
            start: self.start@,
            accept: labels(self.accept@),
        }
    }
}

/// `s` is the source or the target of `e`.
pub open spec fn touches(e: Entry, s: Seq<char>) -> bool {
    e.0@ == s || e.2@ == s
}

/// Every label that is the source or the target of one of the first `n` entries.
pub open spec fn endpoints(es: Seq<Entry>, n: int) -> Set<Seq<char>> {
    Set::new(|s: Seq<char>| exists|j: int| 0 <= j < n && #[trigger] touches(es[j], s))
}

/// Copies a list of entries; the copy has the same labels and symbols.
pub fn copy_entries(es: &Vec<Entry>) -> (r: Vec<Entry>)
    ensures
        r@.len() == es@.len(),
        forall|i: int|
            0 <= i < es@.len() ==> #[trigger] r@[i].0@ == es@[i].0@ && r@[i].1 == es@[i].1
                && r@[i].2@ == es@[i].2@,
        table_of(r@) == table_of(es@),
        keys_unique(es@) ==> keys_unique(r@),
{
    let mut r: Vec<Entry> = Vec::new();
    let mut i: usize = 0;
    while i < es.len()
        invariant
            0 <= i <= es.len(),
            r@.len() == i,
            forall|j: int|
                0 <= j < i ==> #[trigger] r@[j].0@ == es@[j].0@ && r@[j].1 == es@[j].1
                    && r@[j].2@ == es@[j].2@,
        decreases es.len() - i,
    {
        let e = &es[i];
        r.push((e.0.copy(), e.1, e.2.copy()));
        i = i + 1;
    }
    assert forall|k: (Seq<char>, char)| #[trigger] table_of(r@).contains_key(k)
        == table_of(es@).contains_key(k) by {
        if table_of(r@).contains_key(k) {
            let j = choose|j: int| 0 <= j < r@.len() && entry_key(#[trigger] r@[j]) == k;
            assert(entry_key(es@[j]) == k);
        }
        if table_of(es@).contains_key(k) {
            let j = choose|j: int| 0 <= j < es@.len() && entry_key(#[trigger] es@[j]) == k;
            assert(entry_key(r@[j]) == k);
        }
    }
    assert forall|k: (Seq<char>, char)| #[trigger] table_of(r@).contains_key(k) implies table_of(
        r@,
    )[k] == table_of(es@)[k] by {
        let w = choose|w: int| 0 <= w < r@.len() && entry_key(#[trigger] r@[w]) == k;
        lemma_first_match_exists(r@, k, w);
        let j = choose|j: int| first_match(r@, k, j);
        assert forall|l: int| 0 <= l < j implies entry_key(#[trigger] es@[l]) != k by {
            assert(entry_key(r@[l]) != k);
        }
        lemma_first_match_value(r@, k, j);
        lemma_first_match_value(es@, k, j);
    }
    assert(table_of(r@) =~= table_of(es@));
    assert(keys_unique(es@) ==> keys_unique(r@)) by {
        if keys_unique(es@) {
            assert forall|a: int, b: int|
                0 <= a < r@.len() && 0 <= b < r@.len() && a != b implies entry_key(
                #[trigger] r@[a],
            ) != entry_key(#[trigger] r@[b]) by {
                assert(entry_key(es@[a]) != entry_key(es@[b]));
            }
        }
    }
    r
}

/// Copies a list of states; the copy has the same labels.
pub fn copy_states(v: &Vec<State>) -> (r: Vec<State>)
    ensures
        r@.len() == v@.len(),
        forall|i: int| 0 <= i < v@.len() ==> #[trigger] r@[i]@ == v@[i]@,
        labels(r@) == labels(v@),
{
    let mut r: Vec<State> = Vec::new();
    let mut i: usize = 0;
    while i < v.len()
        invariant
            0 <= i <= v.len(),
            r@.len() == i,
            forall|j: int| 0 <= j < i ==> #[trigger] r@[j]@ == v@[j]@,
        decreases v.len() - i,
    {
        r.push(v[i].copy());
        i = i + 1;
    }
    assert forall|x: Seq<char>| #[trigger] labels(r@).contains(x) == labels(v@).contains(x) by {
        if labels(r@).contains(x) {
            let j = choose|j: int| 0 <= j < r@.len() && (#[trigger] r@[j])@ == x;
            assert(v@[j]@ == x);
        }
        if labels(v@).contains(x) {
            let j = choose|j: int| 0 <= j < v@.len() && (#[trigger] v@[j])@ == x;
            assert(r@[j]@ == x);
        }
    }
    assert(labels(r@) =~= labels(v@));
    r
}

/// The position of the first entry with key `(from, via)`, if any.
pub fn find_entry(es: &Vec<Entry>, from: &State, via: char) -> (r: Option<usize>)
    ensures
        match r {
            Some(i) => first_match(es@, (from@, via), i as int),
            None => !table_of(es@).contains_key((from@, via)),
        },
{
    let mut i: usize = 0;
    while i < es.len()
        invariant
            0 <= i <= es.len(),
            forall|j: int| 0 <= j < i ==> entry_key(#[trigger] es@[j]) != (from@, via),
        decreases es.len() - i,
    {
        if es[i].1 == via && es[i].0 == *from {
            return Some(i);
        }
        i = i + 1;
    }
    None
}

/// Whether a state labelled `s@` occurs in `v`.
pub fn contains_state(v: &Vec<State>, s: &State) -> (r: bool)
    ensures
        r == labels(v@).contains(s@),
{
    let mut i: usize = 0;
    while i < v.len()
        invariant
            0 <= i <= v.len(),
            forall|j: int| 0 <= j < i ==> (#[trigger] v@[j])@ != s@,
        decreases v.len() - i,
    {
        if v[i] == *s {
            assert(v@[i as int]@ == s@);
            return true;
        }
        i = i + 1;
    }
    false
}

impl DFA {
    /// No two transitions share a source and a symbol.
    pub open spec fn wf(&self) -> bool {
        keys_unique(self.transitions@)
    }

    /// The state reached from `from` on the symbol `via`: the table's successor, or `from`
    /// itself where the table has no entry for the pair.
    pub fn step(&self, from: &State, via: char) -> (r: State)
        ensures
            r@ == self@.step(from@, via),
            !self@.table.contains_key((from@, via)) ==> r@ == from@,
    {
        match find_entry(&self.transitions, from, via) {
            Some(i) => {
                proof {
                    lemma_first_match_value(self.transitions@, (from@, via), i as int);
                }
                self.transitions[i].2.copy()
            },
            None => from.copy(),
        }
    }
    /// Every state that is the source or the target of a transition, each once.
    pub fn states(&self) -> (r: Vec<State>)
        requires
            self.wf(),
        ensures
            labels(r@) == self@.states(),
            r@.len() <= 2 * self.transitions@.len(),
            forall|i: int, j: int|
                0 <= i < j < r@.len() ==> (#[trigger] r@[i])@ != (#[trigger] r@[j])@,
    {
        let es = &self.transitions;
        let mut r: Vec<State> = Vec::new();
        let mut i: usize = 0;
        while i < es.len()
            invariant
                0 <= i <= es.len(),
                labels(r@) == endpoints(es@, i as int),
                r@.len() <= 2 * i,
                forall|a: int, b: int|
                    0 <= a < b < r@.len() ==> (#[trigger] r@[a])@ != (#[trigger] r@[b])@,
            decreases es.len() - i,
        {
            let ghost before = r@;
            let e = &es[i];
            if !contains_state(&r, &e.0) {
                r.push(e.0.copy());
                assert(r@[r@.len() - 1]@ == e.0@);
            }
            let ghost middle = r@;
            assert(labels(middle).contains(e.0@));
            if !contains_state(&r, &e.2) {
                r.push(e.2.copy());
                assert(r@[r@.len() - 1]@ == e.2@);
            }
            assert(labels(r@).contains(e.2@));
            assert forall|x: Seq<char>| labels(middle).contains(x) implies #[trigger] labels(
                r@,
            ).contains(x) by {
                let j = choose|j: int| 0 <= j < middle.len() && (#[trigger] middle[j])@ == x;
                assert(r@[j]@ == x);
            }
            proof {
                assert forall|x: Seq<char>| #[trigger] labels(r@).contains(x) == endpoints(
                    es@,
                    i + 1,
                ).contains(x) by {
                    if labels(r@).contains(x) {
                        let j = choose|j: int| 0 <= j < r@.len() && (#[trigger] r@[j])@ == x;
                        if j < before.len() {
                            assert(labels(before).contains(x));
                            assert(endpoints(es@, i as int).contains(x));
                            let l = choose|l: int| 0 <= l < i && #[trigger] touches(es@[l], x);
                            assert(0 <= l < i + 1 && touches(es@[l], x));
                        } else if j < middle.len() {
                            assert(touches(es@[i as int], x));
                        } else {
                            assert(touches(es@[i as int], x));
                        }
                    }
                    if endpoints(es@, i + 1).contains(x) {
                        let l = choose|l: int| 0 <= l < i + 1 && #[trigger] touches(es@[l], x);
                        if l < i {
                            assert(touches(es@[l], x));
                            assert(endpoints(es@, i as int).contains(x));
                            assert(labels(before).contains(x));
                            let j = choose|j: int|
                                0 <= j < before.len() && (#[trigger] before[j])@ == x;
                            assert(r@[j]@ == x);
                        } else if es@[l].0@ == x {
                            assert(labels(middle).contains(x));
                        } else {
                            assert(labels(r@).contains(x));
                        }
                    }
                }
                assert(labels(r@) =~= endpoints(es@, i + 1));
            }
            i = i + 1;
        }
        proof {
            let m = self@;
            assert forall|x: Seq<char>| #[trigger] m.states().contains(x) == endpoints(
                es@,
                es@.len() as int,
            ).contains(x) by {
                if m.states().contains(x) {
                    let k = choose|k: (Seq<char>, char)|
                        #[trigger] m.table.contains_key(k) && (k.0 == x || m.table[k] == x);
                    let w = choose|w: int| 0 <= w < es@.len() && entry_key(#[trigger] es@[w]) == k;
                    lemma_first_match_exists(es@, k, w);
                    let c = choose|c: int| first_match(es@, k, c);
                    lemma_first_match_value(es@, k, c);
                    assert(touches(es@[c], x));
                }
                if endpoints(es@, es@.len() as int).contains(x) {
                    let l = choose|l: int| 0 <= l < es@.len() && #[trigger] touches(es@[l], x);
                    let k = entry_key(es@[l]);
                    assert(first_match(es@, k, l));
                    lemma_first_match_value(es@, k, l);
                    assert(m.table.contains_key(k) && (k.0 == x || m.table[k] == x));
                }
            }
            assert(m.states() =~= endpoints(es@, es@.len() as int));
        }
        r
    }

    /// A cursor standing at the start state.
    pub fn cursor(&self) -> (r: DFACursor<'_>)
        ensures
            r.dfa == self,
            r.current@ == self.start@,
    {
        DFACursor { dfa: self, current: self.start.copy() }
    }

    /// A copy of this automaton, with the same model.
    pub fn duplicate(&self) -> (r: DFA)
        ensures
            r@ == self@,
            self.wf() ==> r.wf(),
    {
        DFA {
            transitions: copy_entries(&self.transitions),
            start: self.start.copy(),
            accept: copy_states(&self.accept),
        }
    }
}

/// Every entry of `a` has its key in `b`'s table, with the same target.
fn table_within(a: &Vec<Entry>, b: &Vec<Entry>) -> (r: bool)
    ensures
        r == forall|k: (Seq<char>, char)| #[trigger]
            table_of(a@).contains_key(k) ==> table_of(b@).contains_key(k) && table_of(b@)[k]
                == table_of(a@)[k],
{
    let mut i: usize = 0;
    while i < a.len()
        invariant
            0 <= i <= a.len(),
            forall|j: int|
                0 <= j < i ==> table_of(b@).contains_key(entry_key(#[trigger] a@[j])) && table_of(
                    b@,
                )[entry_key(a@[j])] == table_of(a@)[entry_key(a@[j])],
        decreases a.len() - i,
    {
        let e = &a[i];
        let k = Ghost(entry_key(a@[i as int]));
        let own = find_entry(a, &e.0, e.1);
        proof {
            lemma_first_match_exists(a@, k@, i as int);
        }
        match (own, find_entry(b, &e.0, e.1)) {
            (Some(c), Some(j)) => {
                proof {
                    lemma_first_match_value(b@, k@, j as int);
                    lemma_first_match_value(a@, k@, c as int);
                }
                if !(b[j].2 == a[c].2) {
                    return false;
                }
            },
            _ => {
                proof {
                    assert(table_of(a@).contains_key(k@));
                }
                return false;
            },
        }
        i = i + 1;
    }
    proof {
        assert forall|k: (Seq<char>, char)| #[trigger] table_of(a@).contains_key(k) implies table_of(
            b@,
        ).contains_key(k) && table_of(b@)[k] == table_of(a@)[k] by {
            let w = choose|w: int| 0 <= w < a@.len() && entry_key(#[trigger] a@[w]) == k;
            assert(entry_key(a@[w]) == k);
        }
    }
    true
}

/// Every label of `a` is a label of `b`.
fn states_within(a: &Vec<State>, b: &Vec<State>) -> (r: bool)
    ensures
        r == labels(a@).subset_of(labels(b@)),
{
    let mut i: usize = 0;
    while i < a.len()
        invariant
            0 <= i <= a.len(),
            forall|j: int| 0 <= j < i ==> labels(b@).contains((#[trigger] a@[j])@),
        decreases a.len() - i,
    {
        if !contains_state(b, &a[i]) {
            assert(labels(a@).contains(a@[i as int]@));
            return false;
        }
        i = i + 1;
    }
    assert forall|x: Seq<char>| labels(a@).contains(x) implies #[trigger] labels(b@).contains(x) by {
        let w = choose|w: int| 0 <= w < a@.len() && (#[trigger] a@[w])@ == x;
        assert(labels(b@).contains(a@[w]@));
    }
    true
}

impl PartialEq for DFA {
    /// Two automata are equal when their tables, start states and accept sets are.
    fn eq(&self, other: &DFA) -> (r: bool) {
        let same = self.start == other.start && table_within(&self.transitions, &other.transitions)
            && table_within(&other.transitions, &self.transitions) && states_within(
            &self.accept,
            &other.accept,
        ) && states_within(&other.accept, &self.accept);
        proof {
            if same {
                assert(self@.table =~= other@.table);
                assert(self@.accept =~= other@.accept);
            }
        }
        same
    }
}

impl vstd::std_specs::cmp::PartialEqSpecImpl for DFA {
    open spec fn obeys_eq_spec() -> bool {
        true
    }

    open spec fn eq_spec(&self, other: &DFA) -> bool {
        self@ == other@
    }
}

/// A position in an automaton, moved one symbol at a time.
pub struct DFACursor<'a> {
    pub dfa: &'a DFA,
    pub current: State,
}

impl<'a> DFACursor<'a> {
    /// Feeds every symbol of `input`, in order, and classifies the state reached.
    pub fn run(self, input: &[char]) -> (r: Evaluation)
        ensures
            r.final_state()@ == self.dfa@.run_from(self.current@, input@),
            (r is Accept) == self.dfa@.accept.contains(r.final_state()@),
    {
        let mut current = self.current;
        let mut i: usize = 0;
        while i < input.len()
            invariant
                0 <= i <= input.len(),
                current@ == self.dfa@.run_from(self.current@, input@.take(i as int)),
            decreases input.len() - i,
        {
            let next = self.dfa.step(&current, input[i]);
            proof {
                assert(input@.take(i + 1).drop_last() =~= input@.take(i as int));
            }
            current = next;
            i = i + 1;
        }
        assert(input@.take(input.len() as int) =~= input@);
        if contains_state(&self.dfa.accept, &current) {
            Evaluation::Accept(current)
        } else {
            Evaluation::Reject(current)
        }
    }

    /// Moves one symbol on.
    pub fn step(&mut self, via: char) -> (r: &mut DFACursor<'a>)
        ensures
            r.dfa == old(self).dfa,
            r.current@ == old(self).dfa@.step(old(self).current@, via),
            *final(self) == *final(r),
    {
        self.current = self.dfa.step(&self.current, via);
        self
    }
}

} // verus!
