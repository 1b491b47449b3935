//! Minimization: group states that successor closures cannot tell apart, then merge
//! each group into one state.
use vstd::prelude::*;

use crate::automaton::{contains_state, entry_key, first_match, labels, table_of, Entry, Machine, DFA};
use crate::builder::DFABuilder;
use crate::naming::{join_labels, joined, names, sort_by_label, strictly_sorted};
use crate::partition::{labelled, refine, respects, settle, stable, succ_in_range};
use crate::state::State;

verus! {

/// No two states of `v` share a label.
pub open spec fn distinct_labels(v: Seq<State>) -> bool {
    forall|i: int, j: int| 0 <= i < v.len() && 0 <= j < v.len() && i != j ==> (#[trigger] v[i])@
        != (#[trigger] v[j])@
}

/// Every target of a transition out of `s`, whatever the symbol.
pub open spec fn closure_of(es: Seq<Entry>, s: Seq<char>) -> Set<Seq<char>> {
    Set::new(
        |t: Seq<char>| exists|i: int| 0 <= i < es.len() && (#[trigger] es[i]).0@ == s && es[i].2@ == t,
    )
}

/// The labels of the states that `idx` points at.
pub open spec fn labels_at(members: Seq<State>, idx: Seq<usize>) -> Set<Seq<char>> {
    Set::new(|t: Seq<char>| exists|k: int| 0 <= k < idx.len() && members[#[trigger] idx[k] as int]@ == t)
}

/// The position of the state labelled `s@` in `v`.
fn index_of(v: &Vec<State>, s: &State) -> (r: usize)
    requires
        labels(v@).contains(s@),
    ensures
        r < v@.len(),
        v@[r as int]@ == s@,
{
    let mut i: usize = 0;
    while i < v.len()
        invariant
            0 <= i <= v.len(),
            labels(v@).contains(s@),
            forall|j: int| 0 <= j < i ==> (#[trigger] v@[j])@ != s@,
        decreases v.len() - i,
    {
        if v[i] == *s {
            return i;
        }
        i = i + 1;
    }
    proof {
        let w = choose|w: int| 0 <= w < v@.len() && (#[trigger] v@[w])@ == s@;
        assert(v@[w]@ == s@);
    }
    0
}

/// The groups that minimization settles on. State `members[x]` lies in group `part[x]`;
/// `succ[x]` lists the positions of its successors; the first `accepting` members are the
/// accept states.
pub struct Grouping {
    pub members: Vec<State>,
    pub succ: Vec<Vec<usize>>,
    pub part: Vec<usize>,
    pub count: usize,
    pub accepting: usize,
}

/// The labels of the members of group `c`.
pub open spec fn group_members(members: Seq<State>, part: Seq<usize>, c: int) -> Set<Seq<char>> {
    Set::new(
        |t: Seq<char>| exists|x: int| 0 <= x < members.len() && part[x] == c && (#[trigger] members[x])@ == t,
    )
}

/// The labels of `ls` in lexicographic order.
pub open spec fn in_order(ls: Set<Seq<char>>) -> Seq<Seq<char>> {
    choose|s: Seq<Seq<char>>| strictly_sorted(s) && s.to_set() == ls
}

/// The label of a merged state: the labels of its members in lexicographic order, joined.
pub open spec fn merged_name(ls: Set<Seq<char>>) -> Seq<char> {
    joined(in_order(ls))
}

/// The position of the member labelled `s`, if any.
pub open spec fn position(members: Seq<State>, s: Seq<char>) -> int {
    choose|x: int| 0 <= x < members.len() && (#[trigger] members[x])@ == s
}

/// What a label becomes once groups are merged: the name of its group, or itself where it
/// belongs to no group.
pub open spec fn renamed(members: Seq<State>, part: Seq<usize>, s: Seq<char>) -> Seq<char> {
    if labels(members).contains(s) {
        merged_name(group_members(members, part, part[position(members, s)] as int))
    } else {
        s
    }
}

/// `renamed` as a function value.
pub open spec fn renamer(members: Seq<State>, part: Seq<usize>) -> spec_fn(Seq<char>) -> Seq<char> {
    |s: Seq<char>| renamed(members, part, s)
}

/// The table made by entering every entry, renamed, one after another; a later entry
/// replaces an earlier one with the same key.
pub open spec fn renamed_table(es: Seq<Entry>, members: Seq<State>, part: Seq<usize>) -> Map<
    (Seq<char>, char),
    Seq<char>,
>
    decreases es.len(),
{
    if es.len() == 0 {
        Map::empty()
    } else {
        renamed_table(es.drop_last(), members, part).insert(
            (renamed(members, part, es.last().0@), es.last().1),
            renamed(members, part, es.last().2@),
        )
    }
}

/// The automaton whose states are the groups of `part`, each merged into one state.
pub open spec fn merged(d: &DFA, members: Seq<State>, part: Seq<usize>) -> Machine {
    Machine {
        table: renamed_table(d.transitions@, members, part),
        start: renamed(members, part, d.start@),
        accept: d@.accept.map(renamer(members, part)),
    }
}

/// What minimization makes of `d` with the grouping `g`: `d` itself where there are at most
/// two groups, else the merged automaton.
pub open spec fn outcome(d: &DFA, g: &Grouping) -> Machine {
    if g.count <= 2 {
        d@
    } else {
        merged(d, g.members@, g.part@)
    }
}

/// The first grouping: accept states, the first `na` members, in group 0; the others in
/// group 1.
pub open spec fn initial_part(n: int, na: int) -> Seq<usize> {
    Seq::new(n as nat, |x: int| if x < na { 0usize } else { 1usize })
}

/// `g` is a settled grouping of `d`: its members are the accept states and the states of
/// the transitions, each once, with their successor closures; starting from accept and
/// other states, the first splittable pair of groups is split until none is left.
pub open spec fn settled(d: &DFA, g: &Grouping) -> bool {
    let n = g.members@.len();
    &&& distinct_labels(g.members@)
    &&& labels(g.members@) == d@.accept.union(d@.states())
    &&& g.accepting <= n
    &&& forall|x: int| 0 <= x < n ==> (x < g.accepting <==> d@.accept.contains(#[trigger] g.members@[x]@))
    &&& succ_in_range(g.succ@, n as int)
    &&& forall|x: int| 0 <= x < n ==> labels_at(g.members@, #[trigger] g.succ@[x]@) == closure_of(d.transitions@, g.members@[x]@)
    &&& g.part@.len() == n
    &&& g.count >= 2
    &&& labelled(g.part@, g.count as int)
    &&& respects(g.part@, g.accepting as int)
    &&& stable(g.part@, g.succ@, g.count as int)
    &&& (g.part@, g.count as int) == settle(initial_part(n as int, g.accepting as int), g.succ@, 2, (n + 2) as nat)
}

/// The members of group `c`, in order of position.
fn members_of(members: &Vec<State>, part: &Vec<usize>, c: usize) -> (r: Vec<State>)
    requires
        part@.len() == members@.len(),
        distinct_labels(members@),
    ensures
        names(r@).no_duplicates(),
        names(r@).to_set() == group_members(members@, part@, c as int),
{
    let mut r: Vec<State> = Vec::new();
    let ghost from: Seq<int> = Seq::empty();
    let mut x: usize = 0;
    while x < members.len()
        invariant
            0 <= x <= members.len(),
            part@.len() == members@.len(),
            distinct_labels(members@),
            from.len() == r@.len(),
            forall|k: int| 0 <= k < from.len() ==> 0 <= #[trigger] from[k] < x && part@[from[k]] == c && r@[k]@ == members@[from[k]]@,
            forall|a: int, b: int| 0 <= a < b < from.len() ==> #[trigger] from[a] < #[trigger] from[b],
            forall|y: int| 0 <= y < x && part@[y] == c ==> exists|k: int| 0 <= k < from.len() && #[trigger] from[k] == y,
        decreases members.len() - x,
    {
        let ghost old_from = from;
        if part[x] == c {
            r.push(members[x].copy());
            proof {
                from = from.push(x as int);
                assert(from[from.len() - 1] == x);
            }
        }
        proof {
            assert forall|y: int| 0 <= y < x + 1 && part@[y] == c implies exists|k: int| 0 <= k < from.len() && #[trigger] from[k] == y by {
                if y < x {
                    let k = choose|k: int| 0 <= k < old_from.len() && #[trigger] old_from[k] == y;
                    assert(from[k] == y);
                } else {
                    assert(from[from.len() - 1] == y);
                }
            }
        }
        x = x + 1;
    }
    proof {
        assert forall|a: int, b: int| 0 <= a < names(r@).len() && 0 <= b < names(r@).len() && a != b implies names(r@)[a] != names(r@)[b] by {
            if a < b {
                assert(from[a] < from[b]);
            } else {
                assert(from[b] < from[a]);
            }
            assert(members@[from[a]]@ != members@[from[b]]@);
        }
        assert forall|t: Seq<char>| #[trigger] names(r@).to_set().contains(t) == group_members(members@, part@, c as int).contains(t) by {
            if names(r@).to_set().contains(t) {
                let k = choose|k: int| 0 <= k < names(r@).len() && names(r@)[k] == t;
                assert(members@[from[k]]@ == t);
            }
            if group_members(members@, part@, c as int).contains(t) {
                let y = choose|y: int| 0 <= y < members@.len() && part@[y] == c && (#[trigger] members@[y])@ == t;
                let k = choose|k: int| 0 <= k < from.len() && #[trigger] from[k] == y;
                assert(names(r@)[k] == t);
            }
        }
        assert(names(r@).to_set() =~= group_members(members@, part@, c as int));
    }
    r
}

/// The label of the merged state for group `c`.
fn group_name(members: &Vec<State>, part: &Vec<usize>, c: usize) -> (r: String)
    requires
        part@.len() == members@.len(),
        distinct_labels(members@),
    ensures
        r@ == merged_name(group_members(members@, part@, c as int)),
{
    let v = members_of(members, part, c);
    let sorted = sort_by_label(&v);
    proof {
        let ls = group_members(members@, part@, c as int);
        assert(strictly_sorted(names(sorted@)) && names(sorted@).to_set() == ls);
        assert(exists|s: Seq<Seq<char>>| strictly_sorted(s) && s.to_set() == ls);
        let s = in_order(ls);
        assert(strictly_sorted(s) && s.to_set() == ls);
        crate::naming::lemma_sorted_unique(s, names(sorted@));
        assert(merged_name(ls) == joined(names(sorted@)));
    }
    join_labels(&sorted)
}

/// The state that `s` becomes once groups are merged; `titles[c]` names group `c`.
fn rename(members: &Vec<State>, part: &Vec<usize>, titles: &Vec<String>, s: &State) -> (r: State)
    requires
        part@.len() == members@.len(),
        distinct_labels(members@),
        labelled(part@, titles@.len() as int),
        forall|c: int| 0 <= c < titles@.len() ==> (#[trigger] titles@[c])@ == merged_name(group_members(members@, part@, c)),
    ensures
        r@ == renamed(members@, part@, s@),
{
    if contains_state(members, s) {
        let x = index_of(members, s);
        proof {
            let p = position(members@, s@);
            assert(0 <= p < members@.len() && members@[p]@ == s@);
            assert(p == x);
        }
        State { name: titles[part[x]].clone() }
    } else {
        s.copy()
    }
}

impl DFA {
    /// The smallest automaton this algorithm finds that classifies inputs as this one
    /// does: the states are grouped until no group can be split, then each group is
    /// merged into one state. With at most two groups, the automaton comes back unchanged.
    pub fn minimization(&self) -> (r: DFA)
        requires
            self.wf(),
            self.accept@.len() + 2 * self.transitions@.len() + 3 <= usize::MAX,
        ensures
            r.wf(),
            exists|g: Grouping| settled(self, &g) && r@ == outcome(self, &g),
    {
        let g = self.grouping();
        self.merge(&g)
    }

    /// Sorts the states into groups that successor closures cannot tell apart.
    pub fn grouping(&self) -> (g: Grouping)
        requires
            self.wf(),
            self.accept@.len() + 2 * self.transitions@.len() + 3 <= usize::MAX,
        ensures
            settled(self, &g),
    {
        let (members, na) = self.universe();
        let succ = self.closures(&members);
        let mut part: Vec<usize> = Vec::new();
        let mut x: usize = 0;
        while x < members.len()
            invariant
                0 <= x <= members.len(),
                part@.len() == x,
                forall|y: int| 0 <= y < x ==> #[trigger] part@[y] == (if y < na { 0usize } else { 1usize }),
            decreases members.len() - x,
        {
            if x < na {
                part.push(0);
            } else {
                part.push(1);
            }
            x = x + 1;
        }
        assert(part@ =~= initial_part(members@.len() as int, na as int));
        let (part, count) = refine(part, 2, &succ, Ghost(na as int));
        Grouping { members, succ, part, count, accepting: na }
    }

    /// The automaton whose states are the groups of `g`, each named by `merged_name`; where
    /// there are at most two groups, this automaton unchanged.
    pub fn merge(&self, g: &Grouping) -> (r: DFA)
        requires
            self.wf(),
            settled(self, g),
        ensures
            r.wf(),
            r@ == outcome(self, g),
    {
        if g.count <= 2 {
            return self.duplicate();
        }
        let ghost members = g.members@;
        let ghost part = g.part@;
        let mut titles: Vec<String> = Vec::new();
        let mut c: usize = 0;
        while c < g.count
            invariant
                0 <= c <= g.count,
                settled(self, g),
                members == g.members@,
                part == g.part@,
                titles@.len() == c,
                forall|k: int| 0 <= k < c ==> (#[trigger] titles@[k])@ == merged_name(group_members(members, part, k)),
            decreases g.count - c,
        {
            titles.push(group_name(&g.members, &g.part, c));
            c = c + 1;
        }
        let es = &self.transitions;
        let mut b = DFABuilder::new();
        let mut i: usize = 0;
        while i < es.len()
            invariant
                0 <= i <= es.len(),
                settled(self, g),
                members == g.members@,
                part == g.part@,
                titles@.len() == g.count,
                forall|k: int| 0 <= k < g.count ==> (#[trigger] titles@[k])@ == merged_name(group_members(members, part, k)),
                b.wf(),
                table_of(b.transitions@) == renamed_table(es@.take(i as int), members, part),
                b.start is None,
                labels(b.accept@) == Set::<Seq<char>>::empty(),
            decreases es.len() - i,
        {
            let from = rename(&g.members, &g.part, &titles, &es[i].0);
            let to = rename(&g.members, &g.part, &titles, &es[i].2);
            proof {
                assert(es@.take(i + 1).drop_last() =~= es@.take(i as int));
            }
            b.transition(from, es[i].1, to);
            i = i + 1;
        }
        assert(es@.take(es.len() as int) =~= es@);
        let acc = &self.accept;
        let mut k: usize = 0;
        while k < acc.len()
            invariant
                0 <= k <= acc.len(),
                settled(self, g),
                members == g.members@,
                part == g.part@,
                titles@.len() == g.count,
                forall|c: int| 0 <= c < g.count ==> (#[trigger] titles@[c])@ == merged_name(group_members(members, part, c)),
                b.wf(),
                table_of(b.transitions@) == renamed_table(es@, members, part),
                b.start is None,
                labels(b.accept@) == labels(acc@.take(k as int)).map(renamer(members, part)),
            decreases acc.len() - k,
        {
            let a = rename(&g.members, &g.part, &titles, &acc[k]);
            let ghost before = labels(b.accept@);
            b.accept(a);
            proof {
                let f = renamer(members, part);
                assert forall|t: Seq<char>| #[trigger] labels(acc@.take(k + 1)).map(f).contains(t) == labels(acc@.take(k as int)).map(f).insert(f(acc@[k as int]@)).contains(t) by {
                    if labels(acc@.take(k + 1)).map(f).contains(t) {
                        let u = choose|u: Seq<char>| #[trigger] labels(acc@.take(k + 1)).contains(u) && f(u) == t;
                        let l = choose|l: int| 0 <= l < k + 1 && (#[trigger] acc@.take(k + 1)[l])@ == u;
                        if l < k {
                            assert(acc@.take(k as int)[l]@ == u);
                            assert(labels(acc@.take(k as int)).contains(u));
                        }
                    }
                    if labels(acc@.take(k as int)).map(f).contains(t) {
                        let u = choose|u: Seq<char>| #[trigger] labels(acc@.take(k as int)).contains(u) && f(u) == t;
                        let l = choose|l: int| 0 <= l < k && (#[trigger] acc@.take(k as int)[l])@ == u;
                        assert(acc@.take(k + 1)[l]@ == u);
                        assert(labels(acc@.take(k + 1)).contains(u));
                    }
                    if t == f(acc@[k as int]@) {
                        assert(acc@.take(k + 1)[k as int]@ == acc@[k as int]@);
                        assert(labels(acc@.take(k + 1)).contains(acc@[k as int]@));
                    }
                }
                assert(labels(acc@.take(k + 1)).map(f) =~= labels(acc@.take(k as int)).map(f).insert(f(acc@[k as int]@)));
            }
            k = k + 1;
        }
        assert(acc@.take(acc.len() as int) =~= acc@);
        let st = rename(&g.members, &g.part, &titles, &self.start);
        b.start(st);
        b.build()
    }

    /// Every state that minimization groups: the accept states first, then the other
    /// states of the transitions; each label once. The second result is the number of
    /// accept states.
    pub fn universe(&self) -> (r: (Vec<State>, usize))
        requires
            self.wf(),
        ensures
            distinct_labels(r.0@),
            r.1 <= r.0@.len(),
            r.0@.len() <= self.accept@.len() + 2 * self.transitions@.len(),
            labels(r.0@) == self@.accept.union(self@.states()),
            forall|x: int| 0 <= x < r.0@.len() ==> (x < r.1 <==> self@.accept.contains(#[trigger] r.0@[x]@)),
    {
        let mut members: Vec<State> = Vec::new();
        let mut i: usize = 0;
        while i < self.accept.len()
            invariant
                0 <= i <= self.accept.len(),
                distinct_labels(members@),
                members@.len() <= i,
                labels(members@) == labels(self.accept@.take(i as int)),
            decreases self.accept.len() - i,
        {
            let ghost before = members@;
            let a = &self.accept[i];
            if !contains_state(&members, a) {
                members.push(a.copy());
            }
            proof {
                assert forall|x: Seq<char>| #[trigger] labels(members@).contains(x) == labels(self.accept@.take(i + 1)).contains(x) by {
                    if labels(members@).contains(x) {
                        let j = choose|j: int| 0 <= j < members@.len() && (#[trigger] members@[j])@ == x;
                        if j < before.len() {
                            assert(labels(before).contains(x));
                            let l = choose|l: int| 0 <= l < i && (#[trigger] self.accept@.take(i as int)[l])@ == x;
                            assert(self.accept@.take(i + 1)[l]@ == x);
                        } else {
                            assert(self.accept@.take(i + 1)[i as int]@ == x);
                        }
                    }
                    if labels(self.accept@.take(i + 1)).contains(x) {
                        let l = choose|l: int| 0 <= l < i + 1 && (#[trigger] self.accept@.take(i + 1)[l])@ == x;
                        if l < i {
                            assert(self.accept@.take(i as int)[l]@ == x);
                            assert(labels(before).contains(x));
                            let j = choose|j: int| 0 <= j < before.len() && (#[trigger] before[j])@ == x;
                            assert(members@[j]@ == x);
                        } else if members@.len() > before.len() {
                            assert(members@[before.len() as int]@ == x);
                        } else {
                            assert(labels(before).contains(x));
                        }
                    }
                }
                assert(labels(members@) =~= labels(self.accept@.take(i + 1)));
            }
            i = i + 1;
        }
        assert(self.accept@.take(self.accept.len() as int) =~= self.accept@);
        let na = members.len();
        let all = self.states();
        let mut k: usize = 0;
        while k < all.len()
            invariant
                0 <= k <= all.len(),
                na <= members@.len(),
                na <= self.accept@.len(),
                members@.len() <= na + k,
                all@.len() <= 2 * self.transitions@.len(),
                distinct_labels(members@),
                forall|a: int, b: int| 0 <= a < b < all@.len() ==> (#[trigger] all@[a])@ != (#[trigger] all@[b])@,
                forall|x: int| 0 <= x < members@.len() ==> (x < na <==> self@.accept.contains(#[trigger] members@[x]@)),
                labels(members@) == self@.accept.union(labels(all@.take(k as int))),
            decreases all.len() - k,
        {
            let ghost before = members@;
            let s = &all[k];
            let fresh = !contains_state(&self.accept, s);
            if fresh {
                proof {
                    assert forall|x: int| 0 <= x < before.len() implies (#[trigger] before[x])@ != s@ by {
                        if before[x]@ == s@ {
                            assert(labels(before).contains(s@));
                            if !self@.accept.contains(s@) {
                                let l = choose|l: int| 0 <= l < k && (#[trigger] all@.take(k as int)[l])@ == s@;
                                assert(all@[l]@ == all@[k as int]@);
                            }
                        }
                    }
                }
                members.push(s.copy());
            }
            proof {
                assert forall|x: Seq<char>| #[trigger] labels(members@).contains(x) == self@.accept.union(labels(all@.take(k + 1))).contains(x) by {
                    if labels(members@).contains(x) {
                        let j = choose|j: int| 0 <= j < members@.len() && (#[trigger] members@[j])@ == x;
                        if j < before.len() {
                            assert(labels(before).contains(x));
                            if !self@.accept.contains(x) {
                                let l = choose|l: int| 0 <= l < k && (#[trigger] all@.take(k as int)[l])@ == x;
                                assert(all@.take(k + 1)[l]@ == x);
                            }
                        } else {
                            assert(all@.take(k + 1)[k as int]@ == x);
                        }
                    }
                    if self@.accept.union(labels(all@.take(k + 1))).contains(x) {
                        if self@.accept.contains(x) {
                            assert(labels(before).contains(x));
                        } else {
                            let l = choose|l: int| 0 <= l < k + 1 && (#[trigger] all@.take(k + 1)[l])@ == x;
                            if l < k {
                                assert(all@.take(k as int)[l]@ == x);
                                assert(labels(before).contains(x));
                            } else {
                                assert(members@[before.len() as int]@ == x);
                            }
                        }
                        if labels(before).contains(x) {
                            let j = choose|j: int| 0 <= j < before.len() && (#[trigger] before[j])@ == x;
                            assert(members@[j]@ == x);
                        }
                    }
                }
                assert(labels(members@) =~= self@.accept.union(labels(all@.take(k + 1))));
            }
            k = k + 1;
        }
        assert(all@.take(all.len() as int) =~= all@);
        (members, na)
    }

    /// For each state of `members`, the positions of its successors, all symbols taken
    /// together.
    pub fn closures(&self, members: &Vec<State>) -> (r: Vec<Vec<usize>>)
        requires
            self.wf(),
            self@.states().subset_of(labels(members@)),
        ensures
            succ_in_range(r@, members@.len() as int),
            forall|x: int| 0 <= x < members@.len() ==> labels_at(members@, #[trigger] r@[x]@) == closure_of(self.transitions@, members@[x]@),
    {
        let es = &self.transitions;
        let mut r: Vec<Vec<usize>> = Vec::new();
        let mut x: usize = 0;
        while x < members.len()
            invariant
                0 <= x <= members.len(),
                r@.len() == x,
                self@.states().subset_of(labels(members@)),
                self.wf(),
                es == &self.transitions,
                forall|y: int, k: int| 0 <= y < x && 0 <= k < r@[y]@.len() ==> #[trigger] r@[y]@[k] < members@.len(),
                forall|y: int| 0 <= y < x ==> labels_at(members@, #[trigger] r@[y]@) == closure_of(es@, members@[y]@),
            decreases members.len() - x,
        {
            let mut out: Vec<usize> = Vec::new();
            let mut i: usize = 0;
            while i < es.len()
                invariant
                    0 <= i <= es.len(),
                    x < members.len(),
                    self@.states().subset_of(labels(members@)),
                    self.wf(),
                    es == &self.transitions,
                    forall|k: int| 0 <= k < out@.len() ==> #[trigger] out@[k] < members@.len(),
                    labels_at(members@, out@) == Set::new(|t: Seq<char>| exists|l: int| 0 <= l < i && (#[trigger] es@[l]).0@ == members@[x as int]@ && es@[l].2@ == t),
                decreases es.len() - i,
            {
                let ghost before = out@;
                if es[i].0 == members[x] {
                    proof {
                        let k = entry_key(es@[i as int]);
                        assert(first_match(es@, k, i as int));
                        crate::automaton::lemma_first_match_value(es@, k, i as int);
                        assert(self@.table.contains_key(k) && self@.table[k] == es@[i as int].2@);
                        assert(self@.states().contains(es@[i as int].2@));
                    }
                    let y = index_of(members, &es[i].2);
                    out.push(y);
                }
                proof {
                    let m = members@[x as int]@;
                    assert forall|t: Seq<char>| #[trigger] labels_at(members@, out@).contains(t) == (exists|l: int| 0 <= l < i + 1 && (#[trigger] es@[l]).0@ == m && es@[l].2@ == t) by {
                        if labels_at(members@, out@).contains(t) {
                            let k = choose|k: int| 0 <= k < out@.len() && members@[#[trigger] out@[k] as int]@ == t;
                            if k < before.len() {
                                assert(labels_at(members@, before).contains(t));
                                let l = choose|l: int| 0 <= l < i && (#[trigger] es@[l]).0@ == m && es@[l].2@ == t;
                                assert(0 <= l < i + 1 && es@[l].0@ == m && es@[l].2@ == t);
                            } else {
                                assert(es@[i as int].0@ == m && es@[i as int].2@ == t);
                            }
                        }
                        if exists|l: int| 0 <= l < i + 1 && (#[trigger] es@[l]).0@ == m && es@[l].2@ == t {
                            let l = choose|l: int| 0 <= l < i + 1 && (#[trigger] es@[l]).0@ == m && es@[l].2@ == t;
                            if l < i {
                                assert(labels_at(members@, before).contains(t));
                                let k = choose|k: int| 0 <= k < before.len() && members@[#[trigger] before[k] as int]@ == t;
                                assert(members@[out@[k] as int]@ == t);
                            } else {
                                assert(members@[out@[before.len() as int] as int]@ == t);
                            }
                        }
                    }
                    assert(labels_at(members@, out@) =~= Set::new(|t: Seq<char>| exists|l: int| 0 <= l < i + 1 && (#[trigger] es@[l]).0@ == m && es@[l].2@ == t));
                }
                i = i + 1;
            }
            proof {
                assert(labels_at(members@, out@) =~= closure_of(es@, members@[x as int]@));
            }
            r.push(out);
            x = x + 1;
        }
        r
    }
}

} // verus!

verus! {

/// A merged state's label is its members' labels in lexicographic order, joined: groups with
/// the same labels get the same name, whatever order their members were found in.
pub proof fn lemma_merged_name_sorted(s: Seq<Seq<char>>)
    requires
        strictly_sorted(s),
    ensures
        merged_name(s.to_set()) == joined(s),
{
    assert(exists|t: Seq<Seq<char>>| strictly_sorted(t) && t.to_set() == s.to_set());
    let t = in_order(s.to_set());
    crate::naming::lemma_sorted_unique(t, s);
}

/// The key that entry `e` gets once renamed.
pub open spec fn renamed_key(members: Seq<State>, part: Seq<usize>, e: Entry) -> (Seq<char>, char) {
    (renamed(members, part, e.0@), e.1)
}

/// The renamed table holds a key exactly where some renamed entry has it, and then the
/// renamed target of such an entry.
pub proof fn lemma_renamed_table(es: Seq<Entry>, members: Seq<State>, part: Seq<usize>, k: (Seq<char>, char))
    ensures
        renamed_table(es, members, part).contains_key(k) <==> exists|i: int|
            0 <= i < es.len() && #[trigger] renamed_key(members, part, es[i]) == k,
        renamed_table(es, members, part).contains_key(k) ==> exists|i: int|
            0 <= i < es.len() && #[trigger] renamed_key(members, part, es[i]) == k
                && renamed_table(es, members, part)[k] == renamed(members, part, es[i].2@),
    decreases es.len(),
{
    if es.len() > 0 {
        let rest = es.drop_last();
        lemma_renamed_table(rest, members, part, k);
        let n = es.len() - 1;
        if renamed_key(members, part, es[n]) == k {
            assert(renamed_table(es, members, part)[k] == renamed(members, part, es[n].2@));
        } else {
            if exists|i: int| 0 <= i < es.len() && #[trigger] renamed_key(members, part, es[i]) == k {
                let i = choose|i: int| 0 <= i < es.len() && #[trigger] renamed_key(members, part, es[i]) == k;
                assert(renamed_key(members, part, rest[i]) == k);
            }
            if renamed_table(rest, members, part).contains_key(k) {
                let i = choose|i: int|
                    0 <= i < rest.len() && #[trigger] renamed_key(members, part, rest[i]) == k
                        && renamed_table(rest, members, part)[k] == renamed(members, part, rest[i].2@);
                assert(renamed_key(members, part, es[i]) == k);
            }
        }
    }
}

/// The labels that merging renames, together with the start state.
pub open spec fn domain(d: &DFA, members: Seq<State>, s: Seq<char>) -> bool {
    labels(members).contains(s) || s == d.start@
}

/// Renaming is a congruence of `d`: states that get the same name agree on acceptance, and
/// their successors on each symbol get the same name too.
pub open spec fn congruent(d: &DFA, members: Seq<State>, part: Seq<usize>) -> bool {
    &&& forall|x: Seq<char>, y: Seq<char>|
        domain(d, members, x) && domain(d, members, y) && #[trigger] renamed(members, part, x)
            == #[trigger] renamed(members, part, y) ==> d@.accept.contains(x) == d@.accept.contains(y)
    &&& forall|x: Seq<char>, y: Seq<char>, c: char|
        domain(d, members, x) && domain(d, members, y) && renamed(members, part, x)
            == renamed(members, part, y) ==> renamed(members, part, #[trigger] d@.step(x, c))
            == renamed(members, part, #[trigger] d@.step(y, c))
}

/// One step of the merged automaton from a renamed state is the renamed step of `d`.
proof fn lemma_merged_step(d: &DFA, g: &Grouping, x: Seq<char>, c: char)
    requires
        d.wf(),
        settled(d, g),
        congruent(d, g.members@, g.part@),
        domain(d, g.members@, x),
    ensures
        merged(d, g.members@, g.part@).step(renamed(g.members@, g.part@, x), c) == renamed(
            g.members@,
            g.part@,
            d@.step(x, c),
        ),
        domain(d, g.members@, d@.step(x, c)),
{
    let members = g.members@;
    let part = g.part@;
    let es = d.transitions@;
    let mm = merged(d, members, part);
    let u = renamed(members, part, x);
    lemma_renamed_table(es, members, part, (u, c));
    if d@.table.contains_key((x, c)) {
        let i = choose|i: int| 0 <= i < es.len() && entry_key(#[trigger] es[i]) == (x, c);
        assert(first_match(es, (x, c), i));
        crate::automaton::lemma_first_match_value(es, (x, c), i);
        assert(d@.states().contains(es[i].2@));
        assert(renamed_key(members, part, es[i]) == (u, c));
    }
    if mm.table.contains_key((u, c)) {
        let j = choose|j: int|
            0 <= j < es.len() && #[trigger] renamed_key(members, part, es[j]) == (u, c)
                && mm.table[(u, c)] == renamed(members, part, es[j].2@);
        let y = es[j].0@;
        let kj = entry_key(es[j]);
        assert(first_match(es, kj, j));
        crate::automaton::lemma_first_match_value(es, kj, j);
        assert(d@.states().contains(y));
        assert(d@.step(y, c) == es[j].2@);
        assert(renamed(members, part, x) == renamed(members, part, y));
    }
}

/// The merged automaton, run from the renamed start, ends in the renamed end state of `d`.
proof fn lemma_merged_run(d: &DFA, g: &Grouping, w: Seq<char>)
    requires
        d.wf(),
        settled(d, g),
        congruent(d, g.members@, g.part@),
    ensures
        merged(d, g.members@, g.part@).run_from(merged(d, g.members@, g.part@).start, w)
            == renamed(g.members@, g.part@, d@.run_from(d@.start, w)),
        domain(d, g.members@, d@.run_from(d@.start, w)),
    decreases w.len(),
{
    if w.len() > 0 {
        lemma_merged_run(d, g, w.drop_last());
        lemma_merged_step(d, g, d@.run_from(d@.start, w.drop_last()), w.last());
    }
}

/// Minimization keeps the language wherever the renaming of its settled grouping is a
/// congruence: what it returns accepts exactly the inputs that `d` accepts.
pub proof fn lemma_minimization_keeps_language(d: &DFA, g: &Grouping, w: Seq<char>)
    requires
        d.wf(),
        settled(d, g),
        congruent(d, g.members@, g.part@),
    ensures
        outcome(d, g).accepts(w) == d@.accepts(w),
{
    if g.count > 2 {
        lemma_merge_keeps_language(d, g, w);
    }
}

/// Merging the groups of a settled grouping keeps the language wherever the renaming is a
/// congruence: the merged automaton accepts exactly the inputs that `d` accepts.
pub proof fn lemma_merge_keeps_language(d: &DFA, g: &Grouping, w: Seq<char>)
    requires
        d.wf(),
        settled(d, g),
        congruent(d, g.members@, g.part@),
    ensures
        merged(d, g.members@, g.part@).accepts(w) == d@.accepts(w),
{
    let members = g.members@;
    let part = g.part@;
    let f = renamer(members, part);
    let z = d@.run_from(d@.start, w);
    lemma_merged_run(d, g, w);
    let mm = merged(d, members, part);
    assert(mm.accepts(w) == d@.accept.map(f).contains(renamed(members, part, z)));
    if d@.accept.contains(z) {
        assert(f(z) == renamed(members, part, z));
    }
    if d@.accept.map(f).contains(renamed(members, part, z)) {
        let a = choose|a: Seq<char>| #[trigger] d@.accept.contains(a) && f(a) == renamed(members, part, z);
        assert(labels(members).contains(a));
        assert(renamed(members, part, a) == renamed(members, part, z));
    }
}

} // verus!
