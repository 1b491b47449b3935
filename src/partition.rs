//! Partition refinement over the states of an automaton, by index.
//!
//! A partition of `n` states is a vector `part` of length `n`: state `x` is in group
//! `part[x]`. Each state has a list of successor indices, all symbols taken together.
use vstd::prelude::*;
use vstd::set_lib::*;

verus! {

/// The indices below `b` that satisfy `p`.
pub open spec fn below(b: int, p: spec_fn(int) -> bool) -> Set<int> {
    Set::new(|x: int| 0 <= x < b && p(x))
}

/// `below` grows one index at a time, stays finite, and holds at most `b` indices.
pub proof fn lemma_below(b: int, p: spec_fn(int) -> bool)
    requires
        b >= 0,
    ensures
        below(b, p).finite(),
        below(b, p).len() <= b,
        below(0, p).len() == 0,
        below(b + 1, p).len() == below(b, p).len() + (if p(b) {
            1int
        } else {
            0int
        }),
        below(b + 1, p) == (if p(b) {
            below(b, p).insert(b)
        } else {
            below(b, p)
        }),
    decreases b,
{
    assert(below(0, p) =~= Set::<int>::empty());
    if p(b) {
        assert(below(b + 1, p) =~= below(b, p).insert(b));
    } else {
        assert(below(b + 1, p) =~= below(b, p));
    }
    if b > 0 {
        lemma_below(b - 1, p);
    }
}

/// Every successor of `x` lies in group `j`.
pub open spec fn fits(part: Seq<usize>, succ: Seq<Vec<usize>>, x: int, j: int) -> bool {
    forall|k: int| 0 <= k < succ[x]@.len() ==> part[#[trigger] succ[x]@[k] as int] == j
}

/// Membership in group `i`.
pub open spec fn in_group(part: Seq<usize>, i: int) -> spec_fn(int) -> bool {
    |x: int| part[x] == i
}

/// Membership in group `i` together with fitting into group `j`.
pub open spec fn in_split(part: Seq<usize>, succ: Seq<Vec<usize>>, i: int, j: int) -> spec_fn(
    int,
) -> bool {
    |x: int| part[x] == i && fits(part, succ, x, j)
}

/// The members of group `i`.
pub open spec fn group_set(part: Seq<usize>, i: int) -> Set<int> {
    below(part.len() as int, in_group(part, i))
}

/// The members of group `i` whose successors all lie in group `j`.
pub open spec fn split_set(part: Seq<usize>, succ: Seq<Vec<usize>>, i: int, j: int) -> Set<int> {
    below(part.len() as int, in_split(part, succ, i, j))
}

/// Group `i` can be split by group `j`: more than one of its members, but not all, have
/// every successor in group `j`.
pub open spec fn splittable(part: Seq<usize>, succ: Seq<Vec<usize>>, i: int, j: int) -> bool {
    group_set(part, i).len() > 1 && split_set(part, succ, i, j).len() > 1 && split_set(
        part,
        succ,
        i,
        j,
    ).len() != group_set(part, i).len()
}

/// No group of the `count` groups can be split by any of them.
pub open spec fn stable(part: Seq<usize>, succ: Seq<Vec<usize>>, count: int) -> bool {
    forall|i: int, j: int| 0 <= i < count && 0 <= j < count ==> !#[trigger] splittable(part, succ, i, j)
}

/// Every successor index names one of the `part.len()` states.
pub open spec fn succ_in_range(succ: Seq<Vec<usize>>, n: int) -> bool {
    succ.len() == n && forall|x: int, k: int|
        0 <= x < n && 0 <= k < succ[x]@.len() ==> #[trigger] succ[x]@[k] < n
}

/// `part` names `count` groups.
pub open spec fn labelled(part: Seq<usize>, count: int) -> bool {
    forall|x: int| 0 <= x < part.len() ==> #[trigger] part[x] < count
}

/// The states that come first in their group.
pub open spec fn leaders(part: Seq<usize>) -> Set<int> {
    below(part.len() as int, |x: int| forall|y: int| 0 <= y < x ==> part[y] != part[x])
}

/// Whether every successor of `x` lies in group `j`.
fn fits_exec(part: &Vec<usize>, succ: &Vec<Vec<usize>>, x: usize, j: usize) -> (r: bool)
    requires
        x < part.len(),
        succ_in_range(succ@, part.len() as int),
    ensures
        r == fits(part@, succ@, x as int, j as int),
{
    let s = &succ[x];
    let mut k: usize = 0;
    while k < s.len()
        invariant
            0 <= k <= s.len(),
            s == succ@[x as int],
            succ_in_range(succ@, part.len() as int),
            x < part.len(),
            forall|l: int| 0 <= l < k ==> part@[#[trigger] s@[l] as int] == j,
        decreases s.len() - k,
    {
        if part[s[k]] != j {
            return false;
        }
        k = k + 1;
    }
    true
}

/// The size of group `i`, the size of its members that fit into group `j`, and which
/// states those are.
fn measure_split(part: &Vec<usize>, succ: &Vec<Vec<usize>>, i: usize, j: usize) -> (r: (
    usize,
    usize,
    Vec<bool>,
))
    requires
        succ_in_range(succ@, part.len() as int),
    ensures
        r.0 == group_set(part@, i as int).len(),
        r.1 == split_set(part@, succ@, i as int, j as int).len(),
        r.2@.len() == part.len(),
        forall|x: int|
            0 <= x < part.len() ==> #[trigger] r.2@[x] == in_split(part@, succ@, i as int, j as int)(
                x,
            ),
{
    let ghost g = in_group(part@, i as int);
    let ghost h = in_split(part@, succ@, i as int, j as int);
    let mut size: usize = 0;
    let mut fit: usize = 0;
    let mut marks: Vec<bool> = Vec::new();
    let mut x: usize = 0;
    proof {
        lemma_below(0, g);
        lemma_below(0, h);
    }
    while x < part.len()
        invariant
            0 <= x <= part.len(),
            g == in_group(part@, i as int),
            h == in_split(part@, succ@, i as int, j as int),
            succ_in_range(succ@, part.len() as int),
            size == below(x as int, g).len(),
            fit == below(x as int, h).len(),
            marks@.len() == x,
            forall|y: int| 0 <= y < x ==> #[trigger] marks@[y] == h(y),
        decreases part.len() - x,
    {
        proof {
            lemma_below(x as int, g);
            lemma_below(x as int, h);
        }
        let member = part[x] == i;
        let m = member && fits_exec(part, succ, x, j);
        if member {
            size = size + 1;
        }
        if m {
            fit = fit + 1;
        }
        marks.push(m);
        x = x + 1;
    }
    (size, fit, marks)
}

/// The first pair `(i, j)`, groups taken in order, such that group `i` can be split by
/// group `j`, with the members of group `i` that fit into group `j`.
fn find_split(part: &Vec<usize>, succ: &Vec<Vec<usize>>, count: usize) -> (r: Option<
    (usize, usize, Vec<bool>),
>)
    requires
        succ_in_range(succ@, part.len() as int),
    ensures
        match r {
            None => stable(part@, succ@, count as int),
            Some((i, j, marks)) => {
                &&& i < count && j < count
                &&& splittable(part@, succ@, i as int, j as int)
                &&& forall|a: int, b: int|
                    0 <= a < i && 0 <= b < count ==> !#[trigger] splittable(part@, succ@, a, b)
                &&& forall|b: int| 0 <= b < j ==> !#[trigger] splittable(part@, succ@, i as int, b)
                &&& marks@.len() == part.len()
                &&& forall|x: int|
                    0 <= x < part.len() ==> #[trigger] marks@[x] == in_split(
                        part@,
                        succ@,
                        i as int,
                        j as int,
                    )(x)
            },
        },
{
    let mut i: usize = 0;
    while i < count
        invariant
            0 <= i <= count,
            succ_in_range(succ@, part.len() as int),
            forall|a: int, b: int|
                0 <= a < i && 0 <= b < count ==> !#[trigger] splittable(part@, succ@, a, b),
        decreases count - i,
    {
        let mut j: usize = 0;
        while j < count
            invariant
                0 <= i < count,
                0 <= j <= count,
                succ_in_range(succ@, part.len() as int),
                forall|a: int, b: int|
                    0 <= a < i && 0 <= b < count ==> !#[trigger] splittable(part@, succ@, a, b),
                forall|b: int| 0 <= b < j ==> !#[trigger] splittable(part@, succ@, i as int, b),
            decreases count - j,
        {
            let (size, fit, marks) = measure_split(part, succ, i, j);
            if size > 1 && fit > 1 && fit != size {
                return Some((i, j, marks));
            }
            j = j + 1;
        }
        i = i + 1;
    }
    None
}

/// Moves the marked states into the new group `count`; returns a state that leads its
/// group afterwards but did not before.
fn apply_split(part: &mut Vec<usize>, marks: &Vec<bool>, i: usize, count: usize) -> (w: Ghost<int>)
    requires
        marks@.len() == old(part).len(),
        labelled(old(part)@, count as int),
        forall|x: int| 0 <= x < marks@.len() && #[trigger] marks@[x] ==> old(part)@[x] == i,
        exists|x: int| 0 <= x < marks@.len() && #[trigger] marks@[x],
        exists|x: int| 0 <= x < marks@.len() && !#[trigger] marks@[x] && old(part)@[x] == i,
    ensures
        final(part).len() == old(part).len(),
        forall|x: int|
            0 <= x < marks@.len() ==> #[trigger] final(part)@[x] == (if marks@[x] {
                count
            } else {
                old(part)@[x]
            }),
        leaders(old(part)@).subset_of(leaders(final(part)@)),
        leaders(final(part)@).contains(w@),
        !leaders(old(part)@).contains(w@),
{
    let ghost before = part@;
    let mut first_moved: Option<usize> = None;
    let mut first_kept: Option<usize> = None;
    let mut x: usize = 0;
    while x < part.len()
        invariant
            0 <= x <= part.len(),
            part.len() == before.len(),
            marks@.len() == before.len(),
            forall|y: int|
                0 <= y < x ==> #[trigger] part@[y] == (if marks@[y] {
                    count
                } else {
                    before[y]
                }),
            forall|y: int| x <= y < before.len() ==> #[trigger] part@[y] == before[y],
            match first_moved {
                Some(f) => f < x && marks@[f as int] && forall|y: int|
                    0 <= y < f ==> !#[trigger] marks@[y],
                None => forall|y: int| 0 <= y < x ==> !#[trigger] marks@[y],
            },
            match first_kept {
                Some(f) => f < x && !marks@[f as int] && before[f as int] == i && forall|y: int|
                    0 <= y < f ==> !(!#[trigger] marks@[y] && before[y] == i),
                None => forall|y: int| 0 <= y < x ==> !(!#[trigger] marks@[y] && before[y] == i),
            },
        decreases part.len() - x,
    {
        if marks[x] {
            part.set(x, count);
            if first_moved.is_none() {
                first_moved = Some(x);
            }
        } else if part[x] == i && first_kept.is_none() {
            first_kept = Some(x);
        }
        x = x + 1;
    }
    let ghost after = part@;
    let ghost fm = first_moved.unwrap() as int;
    let ghost fk = first_kept.unwrap() as int;
    let ghost w: int = if fm < fk { fk } else { fm };
    proof {
        assert forall|l: int| leaders(before).contains(l) implies #[trigger] leaders(after).contains(
            l,
        ) by {
            assert forall|y: int| 0 <= y < l implies after[y] != after[l] by {
                assert(before[y] != before[l]);
            }
        }
        assert forall|y: int| 0 <= y < w implies after[y] != after[w] by {
            if fm < fk {
                if after[y] == i {
                    assert(!marks@[y] && before[y] == i);
                }
            } else {
                if after[y] == count {
                    assert(marks@[y]);
                }
            }
        }
        assert(leaders(after).contains(w));
        if fm < fk {
            assert(before[fm] == before[w]);
        } else {
            assert(before[fk] == before[w]);
        }
    }
    Ghost(w)
}

/// Members of one group are either all among the first `na` states or all outside them.
pub open spec fn respects(part: Seq<usize>, na: int) -> bool {
    forall|x: int, y: int|
        0 <= x < part.len() && 0 <= y < part.len() && #[trigger] part[x] == #[trigger] part[y]
            ==> (x < na) == (y < na)
}

/// `(i, j)` is splittable and no pair before it, groups taken in order, is.
pub open spec fn earliest(part: Seq<usize>, succ: Seq<Vec<usize>>, count: int, i: int, j: int) -> bool {
    &&& 0 <= i < count && 0 <= j < count
    &&& splittable(part, succ, i, j)
    &&& forall|a: int, b: int| 0 <= a < i && 0 <= b < count ==> !#[trigger] splittable(part, succ, a, b)
    &&& forall|b: int| 0 <= b < j ==> !#[trigger] splittable(part, succ, i, b)
}

/// The first pair `(i, j)` such that group `i` can be split by group `j`, if any.
pub open spec fn first_split(part: Seq<usize>, succ: Seq<Vec<usize>>, count: int) -> Option<(int, int)> {
    if exists|p: (int, int)| earliest(part, succ, count, p.0, p.1) {
        Some(choose|p: (int, int)| earliest(part, succ, count, p.0, p.1))
    } else {
        None
    }
}

/// The partition after the members of group `i` that fit into group `j` move to the new
/// group `count`.
pub open spec fn split_part(part: Seq<usize>, succ: Seq<Vec<usize>>, count: int, i: int, j: int) -> Seq<usize> {
    Seq::new(part.len(), |x: int| if in_split(part, succ, i, j)(x) { count as usize } else { part[x] })
}

/// The partition and group count reached by splitting the first splittable pair, at most
/// `fuel` times.
pub open spec fn settle(part: Seq<usize>, succ: Seq<Vec<usize>>, count: int, fuel: nat) -> (Seq<usize>, int)
    decreases fuel,
{
    if fuel == 0 {
        (part, count)
    } else {
        match first_split(part, succ, count) {
            None => (part, count),
            Some(p) => settle(split_part(part, succ, count, p.0, p.1), succ, count + 1, (fuel - 1) as nat),
        }
    }
}

/// Only one pair comes first.
proof fn lemma_earliest_unique(part: Seq<usize>, succ: Seq<Vec<usize>>, count: int, i: int, j: int)
    requires
        earliest(part, succ, count, i, j),
    ensures
        first_split(part, succ, count) == Some((i, j)),
{
    assert(earliest(part, succ, count, (i, j).0, (i, j).1));
    let p = choose|p: (int, int)| earliest(part, succ, count, p.0, p.1);
    if p.0 < i {
        assert(!splittable(part, succ, p.0, p.1));
    } else if i < p.0 {
        assert(!splittable(part, succ, i, j));
    } else if p.1 < j {
        assert(!splittable(part, succ, i, p.1));
    } else if j < p.1 {
        assert(!splittable(part, succ, p.0, j));
    }
}

/// Splits groups, first splittable pair first, until no group can be split.
pub fn refine(initial: Vec<usize>, groups: usize, succ: &Vec<Vec<usize>>, Ghost(na): Ghost<int>) -> (r: (
    Vec<usize>,
    usize,
))
    requires
        succ_in_range(succ@, initial.len() as int),
        labelled(initial@, groups as int),
        respects(initial@, na),
        groups <= leaders(initial@).len() + 2,
        initial.len() + 3 <= usize::MAX,
    ensures
        r.0.len() == initial.len(),
        labelled(r.0@, r.1 as int),
        respects(r.0@, na),
        stable(r.0@, succ@, r.1 as int),
        r.1 >= groups,
        (r.0@, r.1 as int) == settle(initial@, succ@, groups as int, (initial.len() + 2) as nat),
{
    let mut part = initial;
    let mut count = groups;
    loop
        invariant
            part.len() == initial.len(),
            succ_in_range(succ@, part.len() as int),
            labelled(part@, count as int),
            respects(part@, na),
            count <= leaders(part@).len() + 2,
            part.len() + 3 <= usize::MAX,
            count >= groups,
            count - groups <= part.len() + 2,
            settle(part@, succ@, count as int, (part.len() + 2 - (count - groups)) as nat) == settle(
                initial@,
                succ@,
                groups as int,
                (initial.len() + 2) as nat,
            ),
        decreases part.len() - leaders(part@).len(),
    {
        match find_split(&part, succ, count) {
            None => {
                proof {
                    if exists|p: (int, int)| earliest(part@, succ@, count as int, p.0, p.1) {
                        let p = choose|p: (int, int)| earliest(part@, succ@, count as int, p.0, p.1);
                        assert(splittable(part@, succ@, p.0, p.1));
                    }
                }
                return (part, count);
            },
            Some((i, j, marks)) => {
                let ghost before = part@;
                let ghost fuel = (part.len() + 2 - (count - groups)) as nat;
                proof {
                    lemma_earliest_unique(before, succ@, count as int, i as int, j as int);
                }
                let ghost sp = split_set(before, succ@, i as int, j as int);
                let ghost gr = group_set(before, i as int);
                proof {
                    lemma_below(before.len() as int, in_split(before, succ@, i as int, j as int));
                    lemma_below(before.len() as int, in_group(before, i as int));
                    if forall|x: int| !sp.contains(x) {
                        assert(sp =~= Set::<int>::empty());
                    }
                    let m = choose|x: int| sp.contains(x);
                    assert(marks@[m]);
                    if forall|x: int| 0 <= x < marks@.len() && before[x] == i ==> #[trigger] marks@[x] {
                        assert forall|x: int| gr.contains(x) implies sp.contains(x) by {
                            assert(marks@[x]);
                        }
                        assert(sp =~= gr);
                    }
                }
                let w = apply_split(&mut part, &marks, i, count);
                proof {
                    let p = |x: int| forall|y: int| 0 <= y < x ==> part@[y] != part@[x];
                    lemma_below(part.len() as int, p);
                    assert(leaders(part@) == below(part.len() as int, p));
                    assert(leaders(before).insert(w@).subset_of(leaders(part@)));
                    lemma_len_subset(leaders(before).insert(w@), leaders(part@));
                    assert forall|x: int, y: int|
                        0 <= x < part.len() && 0 <= y < part.len() && #[trigger] part@[x]
                            == #[trigger] part@[y] implies (x < na) == (y < na) by {
                        assert(before[x] == before[y]);
                    }
                    assert(part@ =~= split_part(before, succ@, count as int, i as int, j as int));
                    assert(fuel > 0);
                    assert(settle(before, succ@, count as int, fuel) == settle(part@, succ@, count + 1, (fuel - 1) as nat));
                }
                count = count + 1;
            },
        }
    }
}

} // verus!
