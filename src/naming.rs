//! Names of merged states: the member labels in lexicographic order, joined.
use vstd::prelude::*;

use crate::state::State;
use vstd::std_specs::iter::IteratorSpec;

verus! {

broadcast use vstd::string::axiom_spec_iter;

/// Strict lexicographic order on labels; a proper prefix comes first.
pub open spec fn lex_lt(a: Seq<char>, b: Seq<char>) -> bool
    decreases a.len(),
{
    if b.len() == 0 {
        false
    } else if a.len() == 0 {
        true
    } else if a[0] != b[0] {
        a[0] < b[0]
    } else {
        lex_lt(a.drop_first(), b.drop_first())
    }
}

pub proof fn lemma_lex_irreflexive(a: Seq<char>)
    ensures
        !lex_lt(a, a),
    decreases a.len(),
{
    if a.len() > 0 {
        lemma_lex_irreflexive(a.drop_first());
    }
}

pub proof fn lemma_lex_transitive(a: Seq<char>, b: Seq<char>, c: Seq<char>)
    requires
        lex_lt(a, b),
        lex_lt(b, c),
    ensures
        lex_lt(a, c),
    decreases a.len(),
{
    if a.len() > 0 && a[0] == b[0] && b[0] == c[0] {
        lemma_lex_transitive(a.drop_first(), b.drop_first(), c.drop_first());
    }
}

pub proof fn lemma_lex_total(a: Seq<char>, b: Seq<char>)
    requires
        a != b,
    ensures
        lex_lt(a, b) || lex_lt(b, a),
    decreases a.len(),
{
    if a.len() > 0 && b.len() > 0 && a[0] == b[0] {
        if a.drop_first() == b.drop_first() {
            assert(a =~= seq![a[0]] + a.drop_first());
            assert(b =~= seq![b[0]] + b.drop_first());
        }
        lemma_lex_total(a.drop_first(), b.drop_first());
    } else if a.len() == 0 && b.len() == 0 {
        assert(a =~= b);
    } else if a.len() > 0 && b.len() > 0 {
        assert(a[0] < b[0] || b[0] < a[0]);
    }
}

/// Each label comes strictly before the next.
pub open spec fn strictly_sorted(s: Seq<Seq<char>>) -> bool {
    forall|i: int, j: int| 0 <= i < j < s.len() ==> lex_lt(#[trigger] s[i], #[trigger] s[j])
}

/// The labels joined end to end.
pub open spec fn joined(s: Seq<Seq<char>>) -> Seq<char>
    decreases s.len(),
{
    if s.len() == 0 {
        Seq::empty()
    } else {
        joined(s.drop_last()) + s.last()
    }
}

/// The labels of a list of states, in order.
pub open spec fn names(v: Seq<State>) -> Seq<Seq<char>> {
    v.map_values(|s: State| s@)
}

/// Two strictly sorted lists with the same labels are the same list.
pub proof fn lemma_sorted_unique(s: Seq<Seq<char>>, t: Seq<Seq<char>>)
    requires
        strictly_sorted(s),
        strictly_sorted(t),
        s.to_set() == t.to_set(),
    ensures
        s == t,
    decreases s.len(),
{
    if s.len() == 0 {
        if t.len() > 0 {
            assert(t.to_set().contains(t[0]));
        }
        assert(s =~= t);
    } else {
        assert(s.to_set().contains(s[0]));
        assert(t.to_set().contains(s[0]));
        assert(t.len() > 0);
        assert(t.to_set().contains(t[0]));
        assert(s.to_set().contains(t[0]));
        let p = choose|p: int| 0 <= p < t.len() && t[p] == s[0];
        let q = choose|q: int| 0 <= q < s.len() && s[q] == t[0];
        if p > 0 && q > 0 {
            lemma_lex_transitive(s[0], s[q], s[0]);
            lemma_lex_irreflexive(s[0]);
        } else if p > 0 {
            lemma_lex_irreflexive(s[0]);
        } else if q > 0 {
            lemma_lex_irreflexive(t[0]);
        }
        assert(s[0] == t[0]);
        let s1 = s.drop_first();
        let t1 = t.drop_first();
        assert forall|x: Seq<char>| s1.to_set().contains(x) implies t1.to_set().contains(x) by {
            let i = choose|i: int| 0 <= i < s1.len() && s1[i] == x;
            assert(s.to_set().contains(x));
            let k = choose|k: int| 0 <= k < t.len() && t[k] == x;
            if k == 0 {
                assert(lex_lt(s[0], s[i + 1]));
                lemma_lex_irreflexive(x);
            }
            assert(t1[k - 1] == x);
        }
        assert forall|x: Seq<char>| t1.to_set().contains(x) implies s1.to_set().contains(x) by {
            let i = choose|i: int| 0 <= i < t1.len() && t1[i] == x;
            assert(t.to_set().contains(x));
            let k = choose|k: int| 0 <= k < s.len() && s[k] == x;
            if k == 0 {
                assert(lex_lt(t[0], t[i + 1]));
                lemma_lex_irreflexive(x);
            }
            assert(s1[k - 1] == x);
        }
        assert(s1.to_set() =~= t1.to_set());
        lemma_sorted_unique(s1, t1);
        assert(s =~= seq![s[0]] + s1);
        assert(t =~= seq![t[0]] + t1);
    }
}

/// The characters of `s`, in order.
pub fn chars_of(s: &str) -> (r: Vec<char>)
    ensures
        r@ == s@,
{
    let mut it = s.chars();
    let mut r: Vec<char> = Vec::new();
    loop
        invariant
            it.obeys_prophetic_iter_laws(),
            it.decrease() is Some,
            r@ + it.remaining() == s@,
        decreases it.decrease()->0,
    {
        match it.next() {
            Some(c) => {
                proof {
                    assert(r@.push(c) + it.remaining() =~= r@ + (seq![c] + it.remaining()));
                }
                r.push(c);
            },
            None => {
                assert(r@ =~= s@);
                return r;
            },
        }
    }
}

/// Whether `a` comes strictly before `b`.
pub fn lex_less(a: &Vec<char>, b: &Vec<char>) -> (r: bool)
    ensures
        r == lex_lt(a@, b@),
{
    let mut i: usize = 0;
    assert(a@.skip(0) =~= a@ && b@.skip(0) =~= b@);
    while i < a.len() && i < b.len() && a[i] == b[i]
        invariant
            0 <= i <= a.len(),
            i <= b.len(),
            lex_lt(a@, b@) == lex_lt(a@.skip(i as int), b@.skip(i as int)),
        decreases a.len() - i,
    {
        proof {
            assert(a@.skip(i + 1) =~= a@.skip(i as int).drop_first());
            assert(b@.skip(i + 1) =~= b@.skip(i as int).drop_first());
        }
        i = i + 1;
    }
    if i == b.len() {
        false
    } else if i == a.len() {
        true
    } else {
        a[i] < b[i]
    }
}

/// The states of `v` ordered by label; their labels must differ.
pub fn sort_by_label(v: &Vec<State>) -> (r: Vec<State>)
    requires
        names(v@).no_duplicates(),
    ensures
        strictly_sorted(names(r@)),
        names(r@).to_set() == names(v@).to_set(),
{
    let mut out: Vec<State> = Vec::new();
    let mut k: usize = 0;
    while k < v.len()
        invariant
            0 <= k <= v.len(),
            names(v@).no_duplicates(),
            strictly_sorted(names(out@)),
            names(out@).to_set() == names(v@.take(k as int)).to_set(),
        decreases v.len() - k,
    {
        let s = v[k].copy();
        let key = chars_of(s.name.as_str());
        let mut p: usize = 0;
        while p < out.len() && !lex_less(&key, &chars_of(out[p].name.as_str()))
            invariant
                0 <= p <= out.len(),
                key@ == s@,
                forall|q: int| 0 <= q < p ==> !lex_lt(s@, #[trigger] out@[q]@),
            decreases out.len() - p,
        {
            p = p + 1;
        }
        let ghost before = out@;
        proof {
            assert(names(v@.take(k + 1)) =~= names(v@.take(k as int)).push(s@));
            assert forall|q: int| 0 <= q < before.len() implies before[q]@ != s@ by {
                assert(names(before).to_set().contains(names(before)[q]));
                let m = choose|m: int| 0 <= m < k && names(v@.take(k as int))[m] == before[q]@;
                assert(names(v@)[m] == before[q]@);
                assert(names(v@)[k as int] == s@);
            }
            assert forall|q: int| 0 <= q < p implies lex_lt(before[q]@, s@) by {
                lemma_lex_total(before[q]@, s@);
            }
        }
        out.insert(p, s);
        proof {
            assert(names(out@) =~= names(before).insert(p as int, s@));
            assert forall|i: int, j: int| 0 <= i < j < out@.len() implies lex_lt(
                #[trigger] names(out@)[i],
                #[trigger] names(out@)[j],
            ) by {
                if j == p {
                } else if i == p {
                    if j - 1 > p {
                        assert(lex_lt(names(before)[p as int], names(before)[j - 1]));
                        lemma_lex_transitive(s@, before[p as int]@, before[j - 1]@);
                    }
                } else if i < p && j > p {
                    assert(lex_lt(before[i]@, s@));
                    if j - 1 > p {
                        assert(lex_lt(names(before)[p as int], names(before)[j - 1]));
                        lemma_lex_transitive(s@, before[p as int]@, before[j - 1]@);
                    }
                    lemma_lex_transitive(before[i]@, s@, before[j - 1]@);
                } else if i > p {
                    assert(lex_lt(names(before)[i - 1], names(before)[j - 1]));
                } else {
                    assert(lex_lt(names(before)[i], names(before)[j]));
                }
            }
            assert forall|x: Seq<char>| #[trigger] names(out@).to_set().contains(x) == names(
                before,
            ).to_set().insert(s@).contains(x) by {
                if names(out@).to_set().contains(x) {
                    let i = choose|i: int| 0 <= i < out@.len() && names(out@)[i] == x;
                    if i < p {
                        assert(names(before)[i] == x);
                    } else if i > p {
                        assert(names(before)[i - 1] == x);
                    }
                }
                if names(before).to_set().contains(x) {
                    let i = choose|i: int| 0 <= i < before.len() && names(before)[i] == x;
                    if i < p {
                        assert(names(out@)[i] == x);
                    } else {
                        assert(names(out@)[i + 1] == x);
                    }
                }
                if x == s@ {
                    assert(names(out@)[p as int] == x);
                }
            }
            assert(names(out@).to_set() =~= names(before).to_set().insert(s@));
            names(v@.take(k as int)).lemma_push_to_set_commute(s@);
        }
        k = k + 1;
    }
    assert(v@.take(v.len() as int) =~= v@);
    out
}

/// The labels of `v` joined end to end.
pub fn join_labels(v: &Vec<State>) -> (r: String)
    ensures
        r@ == joined(names(v@)),
{
    let mut r = String::new();
    let mut k: usize = 0;
    while k < v.len()
        invariant
            0 <= k <= v.len(),
            r@ == joined(names(v@.take(k as int))),
        decreases v.len() - k,
    {
        proof {
            assert(names(v@.take(k + 1)).drop_last() =~= names(v@.take(k as int)));
        }
        r.append(v[k].name.as_str());
        k = k + 1;
    }
    assert(v@.take(v.len() as int) =~= v@);
    r
}

} // verus!
