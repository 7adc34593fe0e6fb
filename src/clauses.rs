//! The clauses that make each slot take a candidate of its own: one
//! "at least one" clause per slot, and implications over every group of
//! entities that several slots contest.
use vstd::prelude::*;
use crate::combinations::{find_all_products, is_combination, all_combinations_present};
use crate::partition::{
    ChampionSubset, disjoint_groups, slots_holding, lemma_group_parents_are_holding_slots,
    in_some_group, in_some_slot,
};
use crate::sets::{dedup, difference, extend_unique, is_subset, meets, same_set};

verus! {

broadcast use {vstd::seq_lib::group_seq_properties, vstd::set_lib::group_set_properties};

/// The shape of a clause over variable indices.
pub enum Clause {
    /// At least one of the variables is true.
    AtLeastOne(Vec<u32>),
    /// If all variables of the first list are true, one of the second is.
    Implies(Vec<u32>, Vec<u32>),
}

/// The candidates of the slots in `h`.
pub open spec fn slots_union(slots: Seq<Vec<u32>>, h: Set<usize>) -> Set<u32> {
    Set::new(|x: u32| exists|s: usize| h.contains(s) && #[trigger] slots[s as int]@.contains(x))
}

/// `t` is a premise owed for the slots `h`, two or more of them: it is a
/// non-empty set of their candidates, no larger than `h`, holding an entity
/// that exactly the slots `h` hold; where it is as large as `h`, all of its
/// entities are held by exactly those slots.
pub open spec fn owed_premise(slots: Seq<Vec<u32>>, t: Set<u32>, h: Set<usize>) -> bool {
    &&& h.finite()
    &&& h.len() >= 2
    &&& t.finite()
    &&& 1 <= t.len() <= h.len()
    &&& t.subset_of(slots_union(slots, h))
    &&& exists|x: u32| #[trigger] t.contains(x) && slots_holding(slots, x) == h
    &&& (t.len() < h.len() || forall|x: u32| #[trigger] t.contains(x) ==> slots_holding(slots, x) == h)
}

/// `AND(t) IMPLIES OR(rest)` is owed: `t` is a premise owed for some slots,
/// and `rest` is the other candidates of those slots.
pub open spec fn owed_clause(slots: Seq<Vec<u32>>, t: Set<u32>, rest: Set<u32>) -> bool {
    exists|h: Set<usize>| owed_premise(slots, t, h) && rest == slots_union(slots, h).difference(t)
}

/// Clause `c` is an owed implication.
pub open spec fn is_owed_implication(slots: Seq<Vec<u32>>, c: Clause) -> bool {
    match c {
        Clause::Implies(lhs, rhs) => lhs@.no_duplicates() && rhs@.no_duplicates()
            && owed_clause(slots, lhs@.to_set(), rhs@.to_set()),
        Clause::AtLeastOne(_) => false,
    }
}

/// Clause `c` is the implication `AND(t) IMPLIES OR(rest)`.
pub open spec fn has_clause(c: Clause, t: Set<u32>, rest: Set<u32>) -> bool {
    match c {
        Clause::Implies(lhs, rhs) => lhs@.to_set() == t && rhs@.to_set() == rest,
        Clause::AtLeastOne(_) => false,
    }
}

/// Clauses `a` and `b` are implications with the same premise and conclusion sets.
pub open spec fn same_implication(a: Clause, b: Clause) -> bool {
    match (a, b) {
        (Clause::Implies(l1, r1), Clause::Implies(l2, r2)) => l1@.to_set() == l2@.to_set()
            && r1@.to_set() == r2@.to_set(),
        _ => false,
    }
}

/// The implications from index `from` on are owed and pairwise different.
pub open spec fn owed_and_distinct(slots: Seq<Vec<u32>>, cs: Seq<Clause>, from: int) -> bool {
    &&& forall|j: int| from <= j < cs.len() ==> is_owed_implication(slots, #[trigger] cs[j])
    &&& forall|a: int, b: int| from <= a < cs.len() && from <= b < cs.len() && a != b
        ==> !same_implication(#[trigger] cs[a], #[trigger] cs[b])
}

/// `t` is a premise that group `g` owes: a non-empty set of its parents'
/// candidates, no larger than the number of parents, meeting the group, and
/// inside the group where it is as large as the number of parents.
pub open spec fn group_premise(slots: Seq<Vec<u32>>, g: ChampionSubset, t: Set<u32>) -> bool {
    &&& t.finite()
    &&& 1 <= t.len() <= g.parent_sets@.len()
    &&& t.subset_of(slots_union(slots, g.parent_sets@.to_set()))
    &&& exists|x: u32| #[trigger] t.contains(x) && g.champions@.contains(x)
    &&& (t.len() < g.parent_sets@.len() || t.subset_of(g.champions@.to_set()))
}

/// Clause `c` asks for at least one of the candidates of `slot`.
pub open spec fn is_at_least_one(c: Clause, slot: Seq<u32>) -> bool {
    match c {
        Clause::AtLeastOne(vars) => vars@.no_duplicates() && vars@.to_set() == slot.to_set(),
        Clause::Implies(_, _) => false,
    }
}

/// Whether `cs`, from index `from` on, holds the implication `AND(lhs) IMPLIES OR(rhs)`.
fn holds_implication(cs: &Vec<Clause>, from: usize, lhs: &Vec<u32>, rhs: &Vec<u32>) -> (r: bool)
    ensures
        r == exists|j: int| from <= j < cs@.len() && has_clause(#[trigger] cs@[j], lhs@.to_set(), rhs@.to_set()),
{
    let mut j: usize = from;
    while j < cs.len()
        invariant
            from <= j,
            forall|q: int| from <= q < j ==> !has_clause(#[trigger] cs@[q], lhs@.to_set(), rhs@.to_set()),
        decreases cs.len() - j,
    {
        match &cs[j] {
            Clause::Implies(l, r) => {
                if same_set(l, lhs) && same_set(r, rhs) {
                    assert(has_clause(cs@[j as int], lhs@.to_set(), rhs@.to_set()));
                    return true;
                }
            },
            Clause::AtLeastOne(_) => {},
        }
        j = j + 1;
    }
    false
}

/// Appends the implications that group `g` owes and `cs` lacks: for every
/// premise of the group, the premise implies one of the other candidates of
/// the group's parents.
fn implications_of_group(slots: &Vec<Vec<u32>>, g: &ChampionSubset, cs: &mut Vec<Clause>, n: usize)
    requires
        n <= old(cs)@.len(),
        owed_and_distinct(slots@, old(cs)@, n as int),
        g.champions@.no_duplicates(),
        g.parent_sets@.no_duplicates(),
        g.parent_sets@.len() >= 2,
        forall|p: int| 0 <= p < g.parent_sets@.len() ==> #[trigger] g.parent_sets@[p] < slots@.len(),
        forall|e: u32| #[trigger] g.champions@.contains(e) ==> slots_holding(slots@, e) == g.parent_sets@.to_set(),
    ensures
        final(cs)@.len() >= old(cs)@.len(),
        forall|j: int| 0 <= j < old(cs)@.len() ==> final(cs)@[j] == old(cs)@[j],
        owed_and_distinct(slots@, final(cs)@, n as int),
        forall|t: Set<u32>| #[trigger] group_premise(slots@, *g, t) ==> exists|j: int|
            n <= j < final(cs)@.len() && #[trigger] has_clause(final(cs)@[j],
                t, slots_union(slots@, g.parent_sets@.to_set()).difference(t)),
{
    let n_parents = g.parent_sets.len();
    let ghost h = g.parent_sets@.to_set();
    proof {
        g.parent_sets@.unique_seq_to_set();
    }
    let mut union_of_parents: Vec<u32> = Vec::new();
    let mut p: usize = 0;
    while p < n_parents
        invariant
            n_parents == g.parent_sets@.len(),
            0 <= p <= n_parents,
            forall|q: int| 0 <= q < g.parent_sets@.len() ==> #[trigger] g.parent_sets@[q] < slots@.len(),
            union_of_parents@.no_duplicates(),
            forall|x: u32| #[trigger] union_of_parents@.contains(x) <==> exists|q: int|
                0 <= q < p && #[trigger] slots@[g.parent_sets@[q] as int]@.contains(x),
        decreases n_parents - p,
    {
        let idx = g.parent_sets[p];
        let ghost before = union_of_parents@;
        extend_unique(&mut union_of_parents, &slots[idx]);
        assert forall|x: u32| #[trigger] union_of_parents@.contains(x) <==> exists|q: int|
            0 <= q < p + 1 && #[trigger] slots@[g.parent_sets@[q] as int]@.contains(x) by {
            if slots@[idx as int]@.contains(x) {
                assert(slots@[g.parent_sets@[p as int] as int]@.contains(x));
            }
            if before.contains(x) {
                let q = choose|q: int| 0 <= q < p && #[trigger] slots@[g.parent_sets@[q] as int]@.contains(x);
            }
        }
        p = p + 1;
    }
    assert forall|x: u32| union_of_parents@.contains(x) <==> slots_union(slots@, h).contains(x) by {
        if union_of_parents@.contains(x) {
            let q = choose|q: int| 0 <= q < n_parents && #[trigger] slots@[g.parent_sets@[q] as int]@.contains(x);
            assert(h.contains(g.parent_sets@[q]));
        }
        if slots_union(slots@, h).contains(x) {
            let s = choose|s: usize| h.contains(s) && #[trigger] slots@[s as int]@.contains(x);
            let q = choose|q: int| 0 <= q < n_parents && g.parent_sets@[q] == s;
            assert(slots@[g.parent_sets@[q] as int]@.contains(x));
        }
    }
    assert(union_of_parents@.to_set() =~= slots_union(slots@, h));
    let combinations = find_all_products(&union_of_parents, n_parents);
    let ghost start = cs@;
    let mut c: usize = 0;
    while c < combinations.len()
        invariant
            0 <= c <= combinations.len(),
            n <= start.len() <= cs@.len(),
            forall|j: int| 0 <= j < start.len() ==> cs@[j] == start[j],
            n_parents == g.parent_sets@.len(),
            h == g.parent_sets@.to_set(),
            h.len() == n_parents,
            n_parents >= 2,
            forall|e: u32| #[trigger] g.champions@.contains(e) ==> slots_holding(slots@, e) == h,
            union_of_parents@.no_duplicates(),
            union_of_parents@.to_set() == slots_union(slots@, h),
            forall|j: int| 0 <= j < combinations@.len()
                ==> is_combination(#[trigger] combinations@[j]@, union_of_parents@, n_parents as int),
            owed_and_distinct(slots@, cs@, n as int),
            forall|q: int| 0 <= q < c && group_premise(slots@, *g, #[trigger] combinations@[q]@.to_set())
                ==> exists|j: int| n <= j < cs@.len() && #[trigger] has_clause(cs@[j],
                    combinations@[q]@.to_set(), slots_union(slots@, h).difference(combinations@[q]@.to_set())),
        decreases combinations.len() - c,
    {
        let lhs = &combinations[c];
        let ghost t = lhs@.to_set();
        proof {
            lhs@.unique_seq_to_set();
            assert(t.subset_of(slots_union(slots@, h)));
        }
        let wanted = meets(lhs, &g.champions) && (lhs.len() < n_parents || is_subset(lhs, &g.champions));
        proof {
            if group_premise(slots@, *g, t) {
                let x = choose|x: u32| #[trigger] t.contains(x) && g.champions@.contains(x);
                assert(lhs@.contains(x));
                if lhs@.len() >= n_parents {
                    assert forall|y: u32| lhs@.contains(y) implies g.champions@.contains(y) by {
                        assert(t.contains(y));
                    }
                }
            }
        }
        if wanted {
            let rhs = difference(&union_of_parents, lhs);
            assert(rhs@.to_set() =~= slots_union(slots@, h).difference(t));
            if !holds_implication(cs, n, lhs, &rhs) {
                proof {
                    let x = choose|x: u32| lhs@.contains(x) && g.champions@.contains(x);
                    assert(t.contains(x));
                    if lhs@.len() >= n_parents {
                        assert forall|y: u32| #[trigger] t.contains(y) implies slots_holding(slots@, y) == h by {
                            assert(g.champions@.contains(y));
                        }
                    }
                    assert(owed_premise(slots@, t, h));
                    assert(owed_clause(slots@, t, rhs@.to_set()));
                }
                let premise = lhs.clone();
                assert(premise@ =~= lhs@);
                let ghost before = cs@;
                cs.push(Clause::Implies(premise, rhs));
                proof {
                    let last = cs@.len() - 1;
                    assert(has_clause(cs@[last], t, rhs@.to_set()));
                    assert forall|a: int, b: int| n <= a < cs@.len() && n <= b < cs@.len() && a != b
                        implies !same_implication(#[trigger] cs@[a], #[trigger] cs@[b]) by {
                        if a == last {
                            assert(cs@[b] == before[b]);
                            if same_implication(cs@[a], cs@[b]) {
                                assert(has_clause(before[b], lhs@.to_set(), rhs@.to_set()));
                            }
                        } else if b == last {
                            assert(cs@[a] == before[a]);
                            if same_implication(cs@[a], cs@[b]) {
                                assert(has_clause(before[a], lhs@.to_set(), rhs@.to_set()));
                            }
                        } else {
                            assert(cs@[a] == before[a]);
                            assert(cs@[b] == before[b]);
                        }
                    }
                    assert forall|j: int| n <= j < cs@.len() implies is_owed_implication(slots@, #[trigger] cs@[j]) by {
                        if j < last {
                            assert(cs@[j] == before[j]);
                        }
                    }
                    assert forall|q: int| 0 <= q < c + 1 && group_premise(slots@, *g, #[trigger] combinations@[q]@.to_set())
                        implies exists|j: int| n <= j < cs@.len() && #[trigger] has_clause(cs@[j],
                            combinations@[q]@.to_set(), slots_union(slots@, h).difference(combinations@[q]@.to_set())) by {
                        if q < c {
                            let j = choose|j: int| n <= j < before.len() && #[trigger] has_clause(before[j],
                                combinations@[q]@.to_set(), slots_union(slots@, h).difference(combinations@[q]@.to_set()));
                            assert(cs@[j] == before[j]);
                        } else {
                            assert(has_clause(cs@[last], combinations@[q]@.to_set(),
                                slots_union(slots@, h).difference(combinations@[q]@.to_set())));
                        }
                    }
                }
            }
        }
        c = c + 1;
    }
    proof {
        assert forall|t: Set<u32>| #[trigger] group_premise(slots@, *g, t) implies exists|j: int|
            n <= j < cs@.len() && #[trigger] has_clause(cs@[j], t, slots_union(slots@, h).difference(t)) by {
            assert(all_combinations_present(combinations@, union_of_parents@, n_parents as int));
            let q = choose|q: int| 0 <= q < combinations@.len() && (#[trigger] combinations@[q]@.to_set()) == t;
        }
    }
}

/// No entity is a candidate of two different slots.
pub open spec fn no_shared_candidates(slots: Seq<Vec<u32>>) -> bool {
    forall|a: int, b: int, e: u32|
        0 <= a < slots.len() && 0 <= b < slots.len() && a != b && #[trigger] slots[a]@.contains(e)
            ==> !(#[trigger] slots[b]@.contains(e))
}

/// Where no two slots share a candidate, no implication is owed.
pub proof fn lemma_no_overlap_no_implication(slots: Seq<Vec<u32>>, t: Set<u32>, rest: Set<u32>)
    requires
        slots.len() <= usize::MAX,
        no_shared_candidates(slots),
    ensures
        !owed_clause(slots, t, rest),
{
    if owed_clause(slots, t, rest) {
        let h = choose|h: Set<usize>| owed_premise(slots, t, h) && rest == slots_union(slots, h).difference(t);
        let x = choose|x: u32| #[trigger] t.contains(x) && slots_holding(slots, x) == h;
        if !(exists|a: usize| h.contains(a)) {
            assert(h =~= Set::empty());
        }
        let a = choose|a: usize| h.contains(a);
        assert(h.remove(a).len() >= 1);
        if !(exists|b: usize| h.remove(a).contains(b)) {
            assert(h.remove(a) =~= Set::empty());
        }
        let b = choose|b: usize| h.remove(a).contains(b);
        assert(slots[a as int]@.contains(x) && slots[b as int]@.contains(x));
    }
}

/// `r` is the clause list of `slots`: first, for each slot in order, the
/// clause that one of its candidates is chosen; then each owed implication,
/// exactly once.
pub open spec fn slot_clauses(slots: Seq<Vec<u32>>, r: Seq<Clause>) -> bool {
    &&& r.len() >= slots.len()
    &&& forall|s: int| 0 <= s < slots.len() ==> is_at_least_one(#[trigger] r[s], slots[s]@)
    &&& owed_and_distinct(slots, r, slots.len() as int)
    &&& forall|t: Set<u32>, h: Set<usize>| #[trigger] owed_premise(slots, t, h)
        ==> exists|j: int| slots.len() <= j < r.len()
            && #[trigger] has_clause(r[j], t, slots_union(slots, h).difference(t))
}

/// The clauses for a list of slots, as `slot_clauses` describes them.
pub fn build_slot_constraints(slots: &Vec<Vec<u32>>) -> (r: Vec<Clause>)
    ensures
        slot_clauses(slots@, r@),
        no_shared_candidates(slots@) ==> r@.len() == slots@.len(),
{
    let groups = disjoint_groups(slots);
    let mut r: Vec<Clause> = Vec::new();
    let mut s: usize = 0;
    while s < slots.len()
        invariant
            0 <= s <= slots.len(),
            r@.len() == s,
            forall|i: int| 0 <= i < s ==> is_at_least_one(#[trigger] r@[i], slots@[i]@),
        decreases slots.len() - s,
    {
        r.push(Clause::AtLeastOne(dedup(&slots[s])));
        s = s + 1;
    }
    let n = slots.len();
    let mut gi: usize = 0;
    while gi < groups.len()
        invariant
            0 <= gi <= groups.len(),
            n == slots@.len(),
            r@.len() >= n,
            crate::partition::partition_of(groups@, slots@, n as int),
            crate::partition::maximal(groups@, slots@, n as int),
            forall|i: int| 0 <= i < n ==> is_at_least_one(#[trigger] r@[i], slots@[i]@),
            owed_and_distinct(slots@, r@, n as int),
            forall|k: int, t: Set<u32>| 0 <= k < gi && groups@[k].parent_sets@.len() >= 2
                && #[trigger] group_premise(slots@, groups@[k], t)
                ==> exists|j: int| n <= j < r@.len() && #[trigger] has_clause(r@[j], t,
                    slots_union(slots@, groups@[k].parent_sets@.to_set()).difference(t)),
        decreases groups.len() - gi,
    {
        let g = &groups[gi];
        let ghost before = r@;
        if g.parent_sets.len() > 1 {
            proof {
                assert forall|e: u32| #[trigger] g.champions@.contains(e)
                    implies slots_holding(slots@, e) == g.parent_sets@.to_set() by {
                    lemma_group_parents_are_holding_slots(groups@, slots@, gi as int, e);
                }
            }
            implications_of_group(slots, g, &mut r, n);
        }
        proof {
            assert forall|i: int| 0 <= i < n implies is_at_least_one(#[trigger] r@[i], slots@[i]@) by {
                assert(r@[i] == before[i]);
            }
            assert forall|k: int, t: Set<u32>| 0 <= k < gi + 1 && groups@[k].parent_sets@.len() >= 2
                && #[trigger] group_premise(slots@, groups@[k], t)
                implies exists|j: int| n <= j < r@.len() && #[trigger] has_clause(r@[j], t,
                    slots_union(slots@, groups@[k].parent_sets@.to_set()).difference(t)) by {
                if k < gi {
                    let j = choose|j: int| n <= j < before.len() && #[trigger] has_clause(before[j], t,
                        slots_union(slots@, groups@[k].parent_sets@.to_set()).difference(t));
                    assert(r@[j] == before[j]);
                }
            }
        }
        gi = gi + 1;
    }
    proof {
        assert forall|t: Set<u32>, h: Set<usize>| #[trigger] owed_premise(slots@, t, h)
            implies exists|j: int| n <= j < r@.len()
                && #[trigger] has_clause(r@[j], t, slots_union(slots@, h).difference(t)) by {
            let k = lemma_owed_premise_of_group(groups@, slots@, t, h);
        }
        if no_shared_candidates(slots@) && r@.len() > n {
            match r@[n as int] {
                Clause::Implies(lhs, rhs) => lemma_no_overlap_no_implication(slots@, lhs@.to_set(), rhs@.to_set()),
                Clause::AtLeastOne(_) => {},
            }
        }
    }
    r
}

/// An owed premise is a premise of the group holding its entity that the
/// contesting slots hold exactly; that group's parents are those slots.
proof fn lemma_owed_premise_of_group(
    groups: Seq<ChampionSubset>,
    slots: Seq<Vec<u32>>,
    t: Set<u32>,
    h: Set<usize>,
) -> (k: int)
    requires
        slots.len() <= usize::MAX,
        crate::partition::partition_of(groups, slots, slots.len() as int),
        crate::partition::maximal(groups, slots, slots.len() as int),
        owed_premise(slots, t, h),
    ensures
        0 <= k < groups.len(),
        groups[k].parent_sets@.len() >= 2,
        groups[k].parent_sets@.to_set() == h,
        group_premise(slots, groups[k], t),
{
    let x = choose|x: u32| #[trigger] t.contains(x) && slots_holding(slots, x) == h;
    if !(exists|s: usize| h.contains(s)) {
        assert(h =~= Set::empty());
    }
    let s0 = choose|s: usize| h.contains(s);
    assert(slots[s0 as int]@.contains(x));
    assert(in_some_slot(slots, slots.len() as int, x));
    assert(in_some_group(groups, x));
    let k = choose|k: int| 0 <= k < groups.len() && #[trigger] groups[k].champions@.contains(x);
    lemma_group_parents_are_holding_slots(groups, slots, k, x);
    if t.len() >= h.len() {
        assert forall|y: u32| t.contains(y) implies #[trigger] groups[k].champions@.to_set().contains(y) by {
            assert(slots_holding(slots, y) == h);
            assert(in_some_group(groups, y)) by {
                assert(slots_holding(slots, y).contains(s0));
                assert(slots[s0 as int]@.contains(y));
                assert(in_some_slot(slots, slots.len() as int, y));
            }
            let k2 = choose|k2: int| 0 <= k2 < groups.len() && #[trigger] groups[k2].champions@.contains(y);
            assert forall|s: int| 0 <= s < slots.len() implies (slots[s]@.contains(x) <==> slots[s]@.contains(y)) by {
                assert(slots_holding(slots, x).contains(s as usize) == slots_holding(slots, y).contains(s as usize));
                assert(slots[(s as usize) as int] == slots[s]);
            }
            assert(k == k2);
        }
    }
    assert(groups[k].champions@.contains(x));
    assert(group_premise(slots, groups[k], t));
    k
}

/// The set `truth` of entities chosen true meets clause `c`.
pub open spec fn satisfies(c: Clause, truth: Set<u32>) -> bool {
    match c {
        Clause::AtLeastOne(vars) => exists|i: int| 0 <= i < vars@.len() && truth.contains(#[trigger] vars@[i]),
        Clause::Implies(lhs, rhs) => (forall|i: int| 0 <= i < lhs@.len() ==> truth.contains(#[trigger] lhs@[i]))
            ==> exists|j: int| 0 <= j < rhs@.len() && truth.contains(#[trigger] rhs@[j]),
    }
}

/// An entity that two or more slots hold cannot meet the slot clauses alone:
/// where it is chosen, so is another candidate of the slots that hold it.
pub proof fn lemma_shared_entity_needs_another(slots: Seq<Vec<u32>>, cs: Seq<Clause>, truth: Set<u32>, x: u32)
    requires
        slots.len() <= usize::MAX,
        slot_clauses(slots, cs),
        forall|j: int| 0 <= j < cs.len() ==> satisfies(#[trigger] cs[j], truth),
        truth.contains(x),
        slots_holding(slots, x).len() >= 2,
    ensures
        exists|y: u32| y != x && #[trigger] truth.contains(y) && slots_union(slots, slots_holding(slots, x)).contains(y),
{
    let h = slots_holding(slots, x);
    let all = Seq::new(slots.len(), |i: int| i as usize).to_set();
    assert(h.subset_of(all)) by {
        assert forall|s: usize| h.contains(s) implies all.contains(s) by {
            assert(Seq::new(slots.len(), |i: int| i as usize)[s as int] == s);
        }
    }
    vstd::set_lib::lemma_len_subset(h, all);
    let t = Set::empty().insert(x);
    if !(exists|s: usize| h.contains(s)) {
        assert(h =~= Set::empty());
    }
    let s0 = choose|s: usize| h.contains(s);
    assert(slots_union(slots, h).contains(x)) by {
        assert(slots[s0 as int]@.contains(x));
    }
    assert(t.len() == 1);
    assert(t.subset_of(slots_union(slots, h)));
    assert(t.contains(x));
    assert(owed_premise(slots, t, h));
    let j = choose|j: int| slots.len() <= j < cs.len()
        && #[trigger] has_clause(cs[j], t, slots_union(slots, h).difference(t));
    match cs[j] {
        Clause::Implies(lhs, rhs) => {
            assert forall|i: int| 0 <= i < lhs@.len() implies truth.contains(#[trigger] lhs@[i]) by {
                assert(lhs@.to_set().contains(lhs@[i]));
            }
            assert(satisfies(cs[j], truth));
            let k = choose|k: int| 0 <= k < rhs@.len() && truth.contains(#[trigger] rhs@[k]);
            assert(rhs@.to_set().contains(rhs@[k]));
            assert(truth.contains(rhs@[k]));
        },
        Clause::AtLeastOne(_) => {},
    }
}

} // verus!
