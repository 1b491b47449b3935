//! A mutable accumulator of transitions, start and accept states.
use vstd::prelude::*;

use crate::automaton::{
    contains_state, entry_key, find_entry, first_match, keys_unique, labels,
    lemma_first_match_value, table_of, Entry, Machine, DFA,
};
use crate::state::State;

verus! {

/// Overwriting the first entry with key `k` sets the table at `k`.
proof fn lemma_table_update(es: Seq<Entry>, i: int, e: Entry)
    requires
        first_match(es, entry_key(e), i),
    ensures
        table_of(es.update(i, e)) == table_of(es).insert(entry_key(e), e.2@),
        keys_unique(es) ==> keys_unique(es.update(i, e)),
{
    let n = es.update(i, e);
    let k = entry_key(e);
    assert forall|j: int| 0 <= j < es.len() implies entry_key(#[trigger] n[j]) == entry_key(
        es[j],
    ) by {}
    assert forall|q: (Seq<char>, char)| #[trigger] table_of(n).contains_key(q)
        == table_of(es).insert(k, e.2@).contains_key(q) by {
        if table_of(n).contains_key(q) {
            let j = choose|j: int| 0 <= j < n.len() && entry_key(#[trigger] n[j]) == q;
            assert(entry_key(es[j]) == q);
        }
        if table_of(es).contains_key(q) {
            let j = choose|j: int| 0 <= j < es.len() && entry_key(#[trigger] es[j]) == q;
            assert(entry_key(n[j]) == q);
        }
        if q == k {
            assert(entry_key(n[i]) == q);
        }
    }
    assert forall|q: (Seq<char>, char)| #[trigger] table_of(n).contains_key(q) implies table_of(
        n,
    )[q] == table_of(es).insert(k, e.2@)[q] by {
        if q == k {
            assert(first_match(n, k, i));
            lemma_first_match_value(n, k, i);
        } else {
            let j = choose|j: int| 0 <= j < es.len() && entry_key(#[trigger] es[j]) == q;
            crate::automaton::lemma_first_match_exists(es, q, j);
            let c = choose|c: int| first_match(es, q, c);
            lemma_first_match_value(es, q, c);
            assert(first_match(n, q, c));
            lemma_first_match_value(n, q, c);
        }
    }
    assert(table_of(n) =~= table_of(es).insert(k, e.2@));
}

/// Appending an entry whose key is new sets the table at that key.
proof fn lemma_table_push(es: Seq<Entry>, e: Entry)
    requires
        !table_of(es).contains_key(entry_key(e)),
    ensures
        table_of(es.push(e)) == table_of(es).insert(entry_key(e), e.2@),
        keys_unique(es) ==> keys_unique(es.push(e)),
{
    let n = es.push(e);
    let k = entry_key(e);
    assert forall|j: int| 0 <= j < es.len() implies entry_key(#[trigger] es[j]) != k by {}
    assert forall|q: (Seq<char>, char)| #[trigger] table_of(n).contains_key(q)
        == table_of(es).insert(k, e.2@).contains_key(q) by {
        if table_of(n).contains_key(q) {
            let j = choose|j: int| 0 <= j < n.len() && entry_key(#[trigger] n[j]) == q;
            if j < es.len() {
                assert(entry_key(es[j]) == q);
            }
        }
        if table_of(es).contains_key(q) {
            let j = choose|j: int| 0 <= j < es.len() && entry_key(#[trigger] es[j]) == q;
            assert(entry_key(n[j]) == q);
        }
        if q == k {
            assert(entry_key(n[es.len() as int]) == q);
        }
    }
    assert forall|q: (Seq<char>, char)| #[trigger] table_of(n).contains_key(q) implies table_of(
        n,
    )[q] == table_of(es).insert(k, e.2@)[q] by {
        if q == k {
            assert forall|j: int| 0 <= j < es.len() implies entry_key(#[trigger] n[j]) != k by {
                assert(entry_key(es[j]) != k);
            }
            assert(first_match(n, k, es.len() as int));
            lemma_first_match_value(n, k, es.len() as int);
        } else {
            let j = choose|j: int| 0 <= j < es.len() && entry_key(#[trigger] es[j]) == q;
            crate::automaton::lemma_first_match_exists(es, q, j);
            let c = choose|c: int| first_match(es, q, c);
            lemma_first_match_value(es, q, c);
            assert forall|l: int| 0 <= l < c implies entry_key(#[trigger] n[l]) != q by {
                assert(entry_key(es[l]) != q);
            }
            assert(first_match(n, q, c));
            lemma_first_match_value(n, q, c);
        }
    }
    assert(table_of(n) =~= table_of(es).insert(k, e.2@));
}

/// Collects the parts of an automaton, then freezes them.
pub struct DFABuilder {
    pub transitions: Vec<Entry>,
    pub start: Option<State>,
    pub accept: Vec<State>,
}

impl DFABuilder {
    /// No two transitions share a source and a symbol.
    pub open spec fn wf(&self) -> bool {
        keys_unique(self.transitions@)
    }

    /// An empty builder: no transitions, no start, no accept state.
    pub fn new() -> (r: DFABuilder)
        ensures
            r.wf(),
            table_of(r.transitions@) == Map::<(Seq<char>, char), Seq<char>>::empty(),
            r.start is None,
            labels(r.accept@) == Set::<Seq<char>>::empty(),
    {
        let r = DFABuilder { transitions: Vec::new(), start: None, accept: Vec::new() };
        assert(table_of(r.transitions@) =~= Map::<(Seq<char>, char), Seq<char>>::empty());
        assert(labels(r.accept@) =~= Set::<Seq<char>>::empty());
        r
    }

    /// Sets the successor of `from` on `via` to `to`, replacing any earlier one.
    pub fn transition(&mut self, from: State, via: char, to: State) -> (r: &mut DFABuilder)
        requires
            old(self).wf(),
        ensures
            r.wf(),
            table_of(r.transitions@) == table_of(old(self).transitions@).insert((from@, via), to@),
            r.start == old(self).start,
            r.accept == old(self).accept,
            *final(self) == *final(r),
    {
        let ghost before = self.transitions@;
        match find_entry(&self.transitions, &from, via) {
            Some(i) => {
                proof {
                    lemma_table_update(before, i as int, (from, via, to));
                }
                self.transitions.set(i, (from, via, to));
            },
            None => {
                proof {
                    lemma_table_push(before, (from, via, to));
                }
                self.transitions.push((from, via, to));
            },
        }
        self
    }

    /// Adds `state` to the accept states; adding it again changes nothing.
    pub fn accept(&mut self, state: State) -> (r: &mut DFABuilder)
        ensures
            labels(r.accept@) == labels(old(self).accept@).insert(state@),
            r.transitions == old(self).transitions,
            r.start == old(self).start,
            *final(self) == *final(r),
    {
        let ghost before = self.accept@;
        if !contains_state(&self.accept, &state) {
            self.accept.push(state);
            assert forall|x: Seq<char>| #[trigger] labels(self.accept@).contains(x) == labels(
                before,
            ).insert(state@).contains(x) by {
                if labels(self.accept@).contains(x) {
                    let j = choose|j: int|
                        0 <= j < self.accept@.len() && (#[trigger] self.accept@[j])@ == x;
                    if j < before.len() {
                        assert(before[j]@ == x);
                    }
                }
                if labels(before).contains(x) {
                    let j = choose|j: int| 0 <= j < before.len() && (#[trigger] before[j])@ == x;
                    assert(self.accept@[j]@ == x);
                }
                if x == state@ {
                    assert(self.accept@[before.len() as int]@ == x);
                }
            }
        }
        assert(labels(self.accept@) =~= labels(before).insert(state@));
        self
    }

    /// Sets the start state, replacing any earlier one.
    pub fn start(&mut self, state: State) -> (r: &mut DFABuilder)
        ensures
            r.start == Some(state),
            r.transitions == old(self).transitions,
            r.accept == old(self).accept,
            *final(self) == *final(r),
    {
        self.start = Some(state);
        self
    }

    /// Freezes the collected parts into an automaton; the start state must have been set.
    /// The start and accept states need not occur in any transition: such states are kept
    /// as given, and minimization leaves them out of its groups.
    pub fn build(self) -> (r: DFA)
        requires
            self.start is Some,
            self.wf(),
        ensures
            r.wf(),
            r@ == (Machine {
                table: table_of(self.transitions@),
                start: self.start.unwrap()@,
                accept: labels(self.accept@),
            }),
    {
        DFA { transitions: self.transitions, start: self.start.unwrap(), accept: self.accept }
    }
}

} // verus!
