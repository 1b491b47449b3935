//! The edges of an automaton for drawing: parallel transitions gathered into one edge.
use vstd::prelude::*;

use crate::automaton::{Entry, DFA};
use crate::state::State;

verus! {

/// The symbols on which a transition leads from `f` to `t`.
pub open spec fn symbols(es: Seq<Entry>, f: Seq<char>, t: Seq<char>) -> Set<char> {
    Set::new(
        |c: char|
            exists|i: int|
                0 <= i < es.len() && (#[trigger] es[i]).0@ == f && es[i].1 == c && es[i].2@ == t,
    )
}

/// Each symbol comes strictly before the next.
pub open spec fn ascending(cs: Seq<char>) -> bool {
    forall|i: int, j: int| 0 <= i < j < cs.len() ==> #[trigger] cs[i] < #[trigger] cs[j]
}

/// An edge of the drawing: from a state, on the listed symbols, to a state.
pub type Edge = (State, Vec<char>, State);

/// `r` gathers the transitions of `es` into edges: one edge for each pair of endpoints,
/// listing its symbols in ascending order.
pub open spec fn gathers(r: Seq<Edge>, es: Seq<Entry>) -> bool {
    &&& forall|k: int| 0 <= k < r.len() ==> ascending((#[trigger] r[k]).1@) && r[k].1@.len() > 0
        && r[k].1@.to_set() == symbols(es, r[k].0@, r[k].2@)
    &&& forall|a: int, b: int| 0 <= a < b < r.len() ==> (#[trigger] r[a].0@, r[a].2@) != (#[trigger] r[b].0@, r[b].2@)
    &&& forall|i: int| 0 <= i < es.len() ==> has_edge(r, (#[trigger] es[i]).0@, es[i].2@)
}

/// Some edge of `r` leads from `f` to `t`.
pub open spec fn has_edge(r: Seq<Edge>, f: Seq<char>, t: Seq<char>) -> bool {
    exists|k: int| 0 <= k < r.len() && (#[trigger] r[k]).0@ == f && r[k].2@ == t
}

/// Whether `c` is among `cs`.
fn has_symbol(cs: &Vec<char>, c: char) -> (r: bool)
    ensures
        r == cs@.contains(c),
{
    let mut p: usize = 0;
    while p < cs.len()
        invariant
            0 <= p <= cs.len(),
            forall|q: int| 0 <= q < p ==> #[trigger] cs@[q] != c,
        decreases cs.len() - p,
    {
        if cs[p] == c {
            return true;
        }
        p = p + 1;
    }
    false
}

/// `cs` with `c` put in its place; `c` must not be in `cs`.
fn insert_symbol(cs: &Vec<char>, c: char) -> (r: Vec<char>)
    requires
        ascending(cs@),
        !cs@.contains(c),
    ensures
        ascending(r@),
        r@.to_set() == cs@.to_set().insert(c),
        r@.len() > 0,
{
    let mut p: usize = 0;
    while p < cs.len() && cs[p] < c
        invariant
            0 <= p <= cs.len(),
            forall|q: int| 0 <= q < p ==> #[trigger] cs@[q] < c,
        decreases cs.len() - p,
    {
        p = p + 1;
    }
    let mut r = cs.clone();
    r.insert(p, c);
    proof {
        assert(r@ == cs@.insert(p as int, c));
        if p < cs.len() {
            assert(cs@[p as int] != c);
        }
        assert forall|i: int, j: int| 0 <= i < j < r@.len() implies #[trigger] r@[i] < #[trigger] r@[j] by {
            if i < p && j == p {
            } else if i < p && j > p {
                assert(cs@[i] < c);
                if p < cs.len() {
                    assert(cs@[p as int] != c);
                }
                assert(cs@[i] < cs@[j - 1]);
            } else if i == p {
                assert(cs@[p as int] > c);
                if j - 1 > p {
                    assert(cs@[p as int] < cs@[j - 1]);
                }
            } else if i > p {
                assert(cs@[i - 1] < cs@[j - 1]);
            }
        }
        assert forall|x: char| #[trigger] r@.to_set().contains(x) == cs@.to_set().insert(c).contains(x) by {
            if r@.to_set().contains(x) {
                let i = choose|i: int| 0 <= i < r@.len() && r@[i] == x;
                if i < p {
                    assert(cs@[i] == x);
                } else if i > p {
                    assert(cs@[i - 1] == x);
                }
            }
            if cs@.to_set().contains(x) {
                let i = choose|i: int| 0 <= i < cs@.len() && cs@[i] == x;
                if i < p {
                    assert(r@[i] == x);
                } else {
                    assert(r@[i + 1] == x);
                }
            }
            if x == c {
                assert(r@[p as int] == c);
            }
        }
        assert(r@.to_set() =~= cs@.to_set().insert(c));
    }
    r
}

/// Adding entry `e` adds its symbol to the symbols of its own endpoints and no others.
proof fn lemma_symbols_push(es: Seq<Entry>, e: Entry, f: Seq<char>, t: Seq<char>)
    ensures
        symbols(es.push(e), f, t) == (if e.0@ == f && e.2@ == t {
            symbols(es, f, t).insert(e.1)
        } else {
            symbols(es, f, t)
        }),
{
    let n = es.push(e);
    let rhs = if e.0@ == f && e.2@ == t {
        symbols(es, f, t).insert(e.1)
    } else {
        symbols(es, f, t)
    };
    assert forall|c: char| #[trigger] symbols(n, f, t).contains(c) == rhs.contains(c) by {
        if symbols(n, f, t).contains(c) {
            let i = choose|i: int| 0 <= i < n.len() && (#[trigger] n[i]).0@ == f && n[i].1 == c && n[i].2@ == t;
            if i < es.len() {
                assert(es[i] == n[i]);
            }
        }
        if symbols(es, f, t).contains(c) {
            let i = choose|i: int| 0 <= i < es.len() && (#[trigger] es[i]).0@ == f && es[i].1 == c && es[i].2@ == t;
            assert(n[i] == es[i]);
        }
        if e.0@ == f && e.2@ == t && c == e.1 {
            assert(n[es.len() as int] == e);
        }
    }
    assert(symbols(n, f, t) =~= rhs);
}

impl DFA {
    /// The transitions gathered into edges: one for each pair of endpoints, with the
    /// symbols that lead along it in ascending order.
    pub fn edges(&self) -> (r: Vec<Edge>)
        ensures
            gathers(r@, self.transitions@),
    {
        let es = &self.transitions;
        let mut r: Vec<Edge> = Vec::new();
        let mut i: usize = 0;
        while i < es.len()
            invariant
                0 <= i <= es.len(),
                es == &self.transitions,
                gathers(r@, es@.take(i as int)),
            decreases es.len() - i,
        {
            let e = &es[i];
            let ghost before = r@;
            let ghost done = es@.take(i as int);
            assert(es@.take(i + 1) =~= done.push(es@[i as int]));
            let mut k: usize = 0;
            while k < r.len() && !(r[k].0 == e.0 && r[k].2 == e.2)
                invariant
                    0 <= k <= r.len(),
                    r@ == before,
                    forall|q: int| 0 <= q < k ==> !((#[trigger] r@[q]).0@ == e.0@ && r@[q].2@ == e.2@),
                decreases r.len() - k,
            {
                k = k + 1;
            }
            if k < r.len() {
                if !has_symbol(&r[k].1, e.1) {
                    let cs = insert_symbol(&r[k].1, e.1);
                    let edge = (r[k].0.copy(), cs, r[k].2.copy());
                    r.set(k, edge);
                } else {
                    proof {
                        assert(r@[k as int].1@.to_set().contains(e.1));
                        assert(r@[k as int].1@.to_set().insert(e.1) =~= r@[k as int].1@.to_set());
                    }
                }
            } else {
                let mut cs: Vec<char> = Vec::new();
                cs.push(e.1);
                r.push((e.0.copy(), cs, e.2.copy()));
                proof {
                    assert(r@[k as int].1@ =~= seq![e.1]);
                    assert(seq![e.1][0] == e.1);
                    assert(seq![e.1].to_set() =~= set![e.1]);
                    assert forall|c: char| !#[trigger] symbols(done, e.0@, e.2@).contains(c) by {
                        if symbols(done, e.0@, e.2@).contains(c) {
                            let j = choose|j: int| 0 <= j < done.len() && (#[trigger] done[j]).0@ == e.0@ && done[j].1 == c && done[j].2@ == e.2@;
                            assert(has_edge(before, done[j].0@, done[j].2@));
                            let q = choose|q: int| 0 <= q < before.len() && (#[trigger] before[q]).0@ == done[j].0@ && before[q].2@ == done[j].2@;
                            assert(!((before[q]).0@ == e.0@ && before[q].2@ == e.2@));
                        }
                    }
                    assert(symbols(done, e.0@, e.2@) =~= Set::<char>::empty());
                }
            }
            proof {
                let now = es@.take(i + 1);
                assert forall|q: int| 0 <= q < r@.len() implies ascending((#[trigger] r@[q]).1@) && r@[q].1@.len() > 0
                    && r@[q].1@.to_set() == symbols(now, r@[q].0@, r@[q].2@) by {
                    lemma_symbols_push(done, es@[i as int], r@[q].0@, r@[q].2@);
                    if q != k {
                        assert(r@[q] == before[q]);
                    }
                }
                assert forall|a: int, b: int| 0 <= a < b < r@.len() implies (#[trigger] r@[a].0@, r@[a].2@) != (#[trigger] r@[b].0@, r@[b].2@) by {
                    if a != k && b != k {
                        assert(r@[a] == before[a] && r@[b] == before[b]);
                    } else if b == k && k == before.len() {
                        assert(r@[a] == before[a]);
                    } else if a == k {
                        assert(r@[b] == before[b]);
                    } else {
                        assert(r@[a] == before[a]);
                    }
                }
                assert forall|j: int| 0 <= j < now.len() implies has_edge(r@, (#[trigger] now[j]).0@, now[j].2@) by {
                    if j < i {
                        assert(now[j] == done[j]);
                        assert(has_edge(before, done[j].0@, done[j].2@));
                        let q = choose|q: int| 0 <= q < before.len() && (#[trigger] before[q]).0@ == done[j].0@ && before[q].2@ == done[j].2@;
                        assert(r@[q].0@ == before[q].0@ && r@[q].2@ == before[q].2@);
                    } else {
                        assert(r@[k as int].0@ == now[j].0@ && r@[k as int].2@ == now[j].2@);
                    }
                }
            }
            i = i + 1;
        }
        assert(es@.take(es.len() as int) =~= es@);
        r
    }
}

} // verus!
