//! Splitting overlapping candidate sets into disjoint groups, each tagged
//! with the slots whose candidates it holds.
use vstd::prelude::*;
use crate::sets::{dedup, intersect, difference};

verus! {

broadcast use vstd::seq_lib::group_seq_properties;

/// A block of entities together with the slots ("parents") that share it.
pub struct ChampionSubset {
    pub champions: Vec<u32>,
    pub parent_sets: Vec<usize>,
}

impl ChampionSubset {
    pub fn new() -> (r: ChampionSubset)
        ensures
            r.champions@ == Seq::<u32>::empty(),
            r.parent_sets@ == Seq::<usize>::empty(),
    {
        ChampionSubset { champions: Vec::new(), parent_sets: Vec::new() }
    }
}

/// Entity `e` is a candidate of one of the first `k` slots.
pub open spec fn in_some_slot(slots: Seq<Vec<u32>>, k: int, e: u32) -> bool {
    exists|s: int| 0 <= s < k && #[trigger] slots[s]@.contains(e)
}

/// Entity `e` lies in one of the groups.
pub open spec fn in_some_group(groups: Seq<ChampionSubset>, e: u32) -> bool {
    exists|i: int| 0 <= i < groups.len() && #[trigger] groups[i].champions@.contains(e)
}

/// No entity lies in two different groups.
pub open spec fn pairwise_disjoint(groups: Seq<ChampionSubset>) -> bool {
    forall|i: int, j: int, e: u32|
        0 <= i < groups.len() && 0 <= j < groups.len() && i != j
            && #[trigger] groups[i].champions@.contains(e)
            ==> !(#[trigger] groups[j].champions@.contains(e))
}

/// The groups hold exactly the candidates of the first `k` slots.
pub open spec fn covers(groups: Seq<ChampionSubset>, slots: Seq<Vec<u32>>, k: int) -> bool {
    forall|e: u32| in_some_group(groups, e) <==> in_some_slot(slots, k, e)
}

/// Every entity of a group has as candidates of exactly the group's parents
/// among the first `k` slots; a parent list names slots below `k`, each once.
pub open spec fn parents_exact(groups: Seq<ChampionSubset>, slots: Seq<Vec<u32>>, k: int) -> bool {
    &&& forall|i: int, e: u32, s: int|
        0 <= i < groups.len() && 0 <= s < k && #[trigger] groups[i].champions@.contains(e)
            ==> (#[trigger] groups[i].parent_sets@.contains(s as usize) <==> slots[s]@.contains(e))
    &&& forall|i: int, p: int|
        0 <= i < groups.len() && 0 <= p < groups[i].parent_sets@.len()
            ==> #[trigger] groups[i].parent_sets@[p] < k
    &&& forall|i: int| 0 <= i < groups.len() ==> (#[trigger] groups[i].parent_sets@).no_duplicates()
}

/// Two entities that the first `k` slots hold alike sit in the same group.
pub open spec fn maximal(groups: Seq<ChampionSubset>, slots: Seq<Vec<u32>>, k: int) -> bool {
    forall|i: int, j: int, e1: u32, e2: u32|
        0 <= i < groups.len() && 0 <= j < groups.len()
            && #[trigger] groups[i].champions@.contains(e1)
            && #[trigger] groups[j].champions@.contains(e2)
            && (forall|s: int| 0 <= s < k ==> (slots[s]@.contains(e1) <==> slots[s]@.contains(e2)))
            ==> i == j
}

/// The state of the partition after the first `k` slots were merged in.
pub open spec fn partition_of(groups: Seq<ChampionSubset>, slots: Seq<Vec<u32>>, k: int) -> bool {
    &&& forall|i: int| 0 <= i < groups.len() ==> (#[trigger] groups[i].champions@).no_duplicates()
    &&& pairwise_disjoint(groups)
    &&& covers(groups, slots, k)
    &&& parents_exact(groups, slots, k)
}


/// The groups left after merging slot `k`: what each old group keeps, then the
/// common parts, then the rest of the new set, form the partition of `k + 1` slots.
proof fn lemma_merged_partition(
    old_groups: Seq<ChampionSubset>,
    slots: Seq<Vec<u32>>,
    k: int,
    merged: Seq<ChampionSubset>,
    commons: Seq<ChampionSubset>,
    residual: Seq<u32>,
    origin: Seq<int>,
)
    requires
        0 <= k < slots.len(),
        k < usize::MAX,
        partition_of(old_groups, slots, k),
        merged.len() == old_groups.len() + commons.len() + 1,
        residual.no_duplicates(),
        forall|e: u32| #[trigger] residual.contains(e) <==> (slots[k]@.contains(e)
            && !(exists|j: int| 0 <= j < old_groups.len() && #[trigger] old_groups[j].champions@.contains(e))),
        merged.last().champions@ == residual,
        merged.last().parent_sets@ == seq![k as usize],
        forall|m: int| 0 <= m < commons.len() ==> merged[old_groups.len() + m] == #[trigger] commons[m],
        forall|j: int| 0 <= j < old_groups.len() ==> (#[trigger] merged[j].champions@).no_duplicates(),
        forall|j: int| 0 <= j < old_groups.len() ==> (#[trigger] merged[j]).parent_sets@ == old_groups[j].parent_sets@,
        forall|j: int, e: u32| 0 <= j < old_groups.len() ==> (#[trigger] merged[j].champions@.contains(e) <==> (
            old_groups[j].champions@.contains(e) && !slots[k]@.contains(e))),
        forall|m: int| 0 <= m < commons.len() ==> (#[trigger] commons[m].champions@).no_duplicates(),
        forall|m: int, e: u32| 0 <= m < commons.len() && #[trigger] commons[m].champions@.contains(e)
            ==> exists|j: int| 0 <= j < old_groups.len() && #[trigger] old_groups[j].champions@.contains(e)
                && slots[k]@.contains(e)
                && commons[m].parent_sets@ == seq![k as usize] + old_groups[j].parent_sets@,
        forall|j: int, e: u32| 0 <= j < old_groups.len() && #[trigger] old_groups[j].champions@.contains(e) && slots[k]@.contains(e)
            ==> exists|m: int| 0 <= m < commons.len() && #[trigger] commons[m].champions@.contains(e),
        pairwise_disjoint(commons),
        forall|m: int, p: int| 0 <= m < commons.len() && 0 <= p < commons[m].parent_sets@.len()
            ==> #[trigger] commons[m].parent_sets@[p] <= k,
        forall|m: int| 0 <= m < commons.len() ==> (#[trigger] commons[m].parent_sets@).no_duplicates(),
        maximal(old_groups, slots, k),
        origin.len() == commons.len(),
        forall|m: int| 0 <= m < commons.len() ==> 0 <= #[trigger] origin[m] < old_groups.len(),
        forall|m1: int, m2: int| 0 <= m1 < m2 < commons.len() ==> #[trigger] origin[m1] < #[trigger] origin[m2],
        forall|m: int, e: u32| 0 <= m < commons.len() && #[trigger] commons[m].champions@.contains(e)
            ==> old_groups[origin[m]].champions@.contains(e) && slots[k]@.contains(e),
    ensures
        partition_of(merged, slots, k + 1),
        maximal(merged, slots, k + 1),
{
    let n = old_groups.len() as int;
    let c = commons.len() as int;
    let last = n + c;
    // Each group of the result is one of three kinds, told apart by its position.
    assert forall|i: int| 0 <= i < merged.len() implies (#[trigger] merged[i].champions@).no_duplicates() by {
        if n <= i < last {
            assert(merged[i] == commons[i - n]);
        }
    }
    assert forall|i: int, j: int, e: u32|
        0 <= i < merged.len() && 0 <= j < merged.len() && i != j
            && #[trigger] merged[i].champions@.contains(e)
            implies !(#[trigger] merged[j].champions@.contains(e)) by {
        if merged[j].champions@.contains(e) {
            if i < n && j < n {
                assert(old_groups[i].champions@.contains(e));
            } else if i < n && j < last {
                assert(merged[j] == commons[j - n]);
                assert(commons[j - n].champions@.contains(e));
            } else if j < n && i < last {
                assert(merged[i] == commons[i - n]);
                assert(commons[i - n].champions@.contains(e));
            } else if i < last && j < last {
                assert(merged[i] == commons[i - n]);
                assert(merged[j] == commons[j - n]);
            } else if i < last {
                assert(merged[i] == commons[i - n]);
                assert(commons[i - n].champions@.contains(e));
                assert(residual.contains(e));
            } else if j < last {
                assert(merged[j] == commons[j - n]);
                assert(commons[j - n].champions@.contains(e));
                assert(residual.contains(e));
            } else if j < n {
                assert(old_groups[j].champions@.contains(e));
            } else {
                assert(old_groups[i].champions@.contains(e));
            }
        }
    }
    assert forall|e: u32| in_some_group(merged, e) <==> in_some_slot(slots, k + 1, e) by {
        if in_some_group(merged, e) {
            let i = choose|i: int| 0 <= i < merged.len() && #[trigger] merged[i].champions@.contains(e);
            if i < n {
                assert(in_some_group(old_groups, e));
            } else if i < last {
                assert(merged[i] == commons[i - n]);
                assert(commons[i - n].champions@.contains(e));
                assert(slots[k]@.contains(e));
            } else {
                assert(slots[k]@.contains(e));
            }
        }
        if in_some_slot(slots, k + 1, e) {
            if in_some_group(old_groups, e) {
                let j = choose|j: int| 0 <= j < n && #[trigger] old_groups[j].champions@.contains(e);
                if slots[k]@.contains(e) {
                    let m = choose|m: int| 0 <= m < c && #[trigger] commons[m].champions@.contains(e);
                    assert(merged[n + m].champions@.contains(e));
                } else {
                    assert(merged[j].champions@.contains(e));
                }
            } else {
                assert(!in_some_slot(slots, k, e));
                assert(slots[k]@.contains(e));
                assert(residual.contains(e));
                assert(merged[last].champions@.contains(e));
            }
        }
    }
    assert forall|i: int, e: u32, s: int|
        0 <= i < merged.len() && 0 <= s < k + 1 && #[trigger] merged[i].champions@.contains(e)
            implies (#[trigger] merged[i].parent_sets@.contains(s as usize) <==> slots[s]@.contains(e)) by {
        if i < n {
            assert(old_groups[i].champions@.contains(e));
            if s == k {
                let ps = old_groups[i].parent_sets@;
                if ps.contains(k as usize) {
                    let p = choose|p: int| 0 <= p < ps.len() && ps[p] == k as usize;
                    assert(ps[p] < k);
                }
                assert(!slots[k]@.contains(e));
            } else {
                assert(old_groups[i].parent_sets@.contains(s as usize) <==> slots[s]@.contains(e));
            }
        } else if i < last {
            assert(merged[i] == commons[i - n]);
            let j = choose|j: int| 0 <= j < n && #[trigger] old_groups[j].champions@.contains(e)
                && slots[k]@.contains(e)
                && commons[i - n].parent_sets@ == seq![k as usize] + old_groups[j].parent_sets@;
            let ps = old_groups[j].parent_sets@;
            if s < k {
                if ps.contains(s as usize) {
                    let p = choose|p: int| 0 <= p < ps.len() && ps[p] == s as usize;
                    assert(merged[i].parent_sets@[p + 1] == s as usize);
                }
                if merged[i].parent_sets@.contains(s as usize) {
                    let p = choose|p: int| 0 <= p < merged[i].parent_sets@.len() && merged[i].parent_sets@[p] == s as usize;
                    assert(ps[p - 1] == s as usize);
                }
            } else {
                assert(merged[i].parent_sets@[0] == k as usize);
            }
        } else {
            assert(residual.contains(e));
            assert(!in_some_group(old_groups, e));
            if s < k && slots[s]@.contains(e) {
                assert(in_some_slot(slots, k, e));
            }
            assert(merged[i].parent_sets@ == seq![k as usize]);
            assert(merged[i].parent_sets@[0] == k as usize);
            if s < k {
                assert(!merged[i].parent_sets@.contains(s as usize));
            }
        }
    }
    assert forall|i: int, p: int|
        0 <= i < merged.len() && 0 <= p < merged[i].parent_sets@.len()
            implies #[trigger] merged[i].parent_sets@[p] < k + 1 by {
        if n <= i < last {
            assert(merged[i] == commons[i - n]);
        }
    }
    assert forall|i: int| 0 <= i < merged.len() implies (#[trigger] merged[i].parent_sets@).no_duplicates() by {
        if n <= i < last {
            assert(merged[i] == commons[i - n]);
        }
    }
    assert forall|a: int, b: int, e1: u32, e2: u32|
        0 <= a < merged.len() && 0 <= b < merged.len()
            && #[trigger] merged[a].champions@.contains(e1)
            && #[trigger] merged[b].champions@.contains(e2)
            && (forall|s: int| 0 <= s < k + 1 ==> (slots[s]@.contains(e1) <==> slots[s]@.contains(e2)))
            implies a == b by {
        assert(slots[k]@.contains(e1) <==> slots[k]@.contains(e2));
        lemma_group_kind(old_groups, slots, k, merged, commons, residual, origin, a, e1);
        lemma_group_kind(old_groups, slots, k, merged, commons, residual, origin, b, e2);
        if in_some_group(old_groups, e1) {
            let j1 = choose|j: int| 0 <= j < n && #[trigger] old_groups[j].champions@.contains(e1);
            if in_some_group(old_groups, e2) {
                let j2 = choose|j: int| 0 <= j < n && #[trigger] old_groups[j].champions@.contains(e2);
                assert(j1 == j2);
                if a >= n && a < last && b >= n && b < last {
                    assert(merged[a] == commons[a - n]);
                    assert(merged[b] == commons[b - n]);
                    assert(old_groups[origin[a - n]].champions@.contains(e1));
                    assert(old_groups[origin[b - n]].champions@.contains(e2));
                    if a < b {
                        assert(origin[a - n] < origin[b - n]);
                    } else if b < a {
                        assert(origin[b - n] < origin[a - n]);
                    }
                }
            } else {
                assert(in_some_slot(slots, k, e1));
                let s0 = choose|s: int| 0 <= s < k && #[trigger] slots[s]@.contains(e1);
                assert(slots[s0]@.contains(e2));
                assert(in_some_slot(slots, k, e2));
            }
        } else if in_some_group(old_groups, e2) {
            assert(in_some_slot(slots, k, e2));
            let s0 = choose|s: int| 0 <= s < k && #[trigger] slots[s]@.contains(e2);
            assert(slots[s0]@.contains(e1));
            assert(in_some_slot(slots, k, e1));
        }
    }
}

/// Where entity `e` sits in a merged list tells what it is: a kept part of an
/// old group holds no candidate of slot `k`; a common part, one of an old group
/// that slot `k` holds; the rest of the new set, one of slot `k` that no old group holds.
proof fn lemma_group_kind(
    old_groups: Seq<ChampionSubset>,
    slots: Seq<Vec<u32>>,
    k: int,
    merged: Seq<ChampionSubset>,
    commons: Seq<ChampionSubset>,
    residual: Seq<u32>,
    origin: Seq<int>,
    a: int,
    e: u32,
)
    requires
        0 <= k < slots.len(),
        partition_of(old_groups, slots, k),
        maximal(old_groups, slots, k),
        merged.len() == old_groups.len() + commons.len() + 1,
        forall|x: u32| #[trigger] residual.contains(x) <==> (slots[k]@.contains(x)
            && !(exists|j: int| 0 <= j < old_groups.len() && #[trigger] old_groups[j].champions@.contains(x))),
        merged.last().champions@ == residual,
        forall|m: int| 0 <= m < commons.len() ==> merged[old_groups.len() + m] == #[trigger] commons[m],
        forall|j: int, x: u32| 0 <= j < old_groups.len() ==> (#[trigger] merged[j].champions@.contains(x) <==> (
            old_groups[j].champions@.contains(x) && !slots[k]@.contains(x))),
        origin.len() == commons.len(),
        forall|m: int| 0 <= m < commons.len() ==> 0 <= #[trigger] origin[m] < old_groups.len(),
        forall|m: int, x: u32| 0 <= m < commons.len() && #[trigger] commons[m].champions@.contains(x)
            ==> old_groups[origin[m]].champions@.contains(x) && slots[k]@.contains(x),
        0 <= a < merged.len(),
        merged[a].champions@.contains(e),
    ensures
        a < old_groups.len() ==> old_groups[a].champions@.contains(e) && !slots[k]@.contains(e),
        old_groups.len() <= a < merged.len() - 1 ==> slots[k]@.contains(e)
            && old_groups[origin[a - old_groups.len()]].champions@.contains(e),
        a == merged.len() - 1 ==> slots[k]@.contains(e) && !in_some_group(old_groups, e),
{
    let n = old_groups.len() as int;
    if n <= a < merged.len() - 1 {
        assert(merged[a] == commons[a - n]);
        assert(commons[a - n].champions@.contains(e));
        let j = origin[a - n];
        assert(old_groups[j].champions@.contains(e));
    }
    if a == merged.len() - 1 {
        assert(residual.contains(e));
    }
}

/// `origin[q]` is the old group whose common part with `new_set` stands at
/// `old.len() + q` in `merged`; every old group that meets `new_set` has one.
pub open spec fn merge_origin(old: Seq<ChampionSubset>, new_set: ChampionSubset, merged: Seq<ChampionSubset>, origin: Seq<int>) -> bool {
    let m = old.len() as int;
    &&& origin.len() == merged.len() - m - 1
    &&& forall|q: int| 0 <= q < origin.len() ==> 0 <= #[trigger] origin[q] < m
    &&& forall|q1: int, q2: int| 0 <= q1 < q2 < origin.len() ==> #[trigger] origin[q1] < #[trigger] origin[q2]
    &&& forall|q: int| 0 <= q < origin.len() ==> (#[trigger] merged[m + q]).parent_sets@
        == new_set.parent_sets@ + old[origin[q]].parent_sets@
    &&& forall|q: int, e: u32| 0 <= q < origin.len() ==> (#[trigger] merged[m + q].champions@.contains(e) <==> (
        old[origin[q]].champions@.contains(e) && new_set.champions@.contains(e)))
    &&& forall|q: int| 0 <= q < origin.len() ==> (#[trigger] merged[m + q]).champions@.len() > 0
    &&& forall|j: int, e: u32| 0 <= j < m && #[trigger] old[j].champions@.contains(e) && new_set.champions@.contains(e)
        ==> exists|q: int| 0 <= q < origin.len() && origin[q] == j
}

/// `merged` is `old` after merging `new_set` in: each old group stays in its
/// place with its parents, less the new set's entities; then come the
/// non-empty common parts of the new set and the old groups, in the old
/// groups' order, each with the new set's parents followed by the old group's;
/// last comes what is left of the new set, with its parents.
pub open spec fn merged_from(old: Seq<ChampionSubset>, new_set: ChampionSubset, merged: Seq<ChampionSubset>) -> bool {
    let m = old.len() as int;
    let last = merged.len() - 1;
    &&& merged.len() >= m + 1
    &&& forall|j: int| 0 <= j < merged.len() ==> (#[trigger] merged[j].champions@).no_duplicates()
    &&& forall|j: int| 0 <= j < m ==> (#[trigger] merged[j]).parent_sets@ == old[j].parent_sets@
    &&& forall|j: int, e: u32| 0 <= j < m ==> (#[trigger] merged[j].champions@.contains(e) <==> (
        old[j].champions@.contains(e) && !new_set.champions@.contains(e)))
    &&& exists|origin: Seq<int>| #[trigger] merge_origin(old, new_set, merged, origin)
    &&& merged[last].parent_sets@ == new_set.parent_sets@
    &&& forall|e: u32| #[trigger] merged[last].champions@.contains(e) <==> (new_set.champions@.contains(e)
        && !in_some_group(old, e))
    &&& (forall|e: u32| new_set.champions@.contains(e) ==> !in_some_group(old, e)) ==> merged.len() == m + 1
}

/// Merges `new_set` into a list of disjoint groups: the entities that the
/// new set shares with a group leave the group and form a group of their own,
/// whose parents are the new set's followed by the group's; what is left of
/// the new set is appended last.
fn merge_into_disjoint_list(new_set: ChampionSubset, disjoint_subsets: &mut Vec<ChampionSubset>)
    requires
        new_set.champions@.no_duplicates(),
        pairwise_disjoint(old(disjoint_subsets)@),
        forall|j: int| 0 <= j < old(disjoint_subsets)@.len()
            ==> (#[trigger] old(disjoint_subsets)@[j].champions@).no_duplicates(),
    ensures
        merged_from(old(disjoint_subsets)@, new_set, final(disjoint_subsets)@),
{
    let ghost old_groups = disjoint_subsets@;
    let ghost nset = new_set.champions@;
    let ChampionSubset { champions, parent_sets: new_parents } = new_set;
    let mut rest: Vec<u32> = champions;
    let mut kept: Vec<ChampionSubset> = Vec::new();
    let mut to_append: Vec<ChampionSubset> = Vec::new();
    let ghost mut origin: Seq<int> = Seq::empty();
    let mut i: usize = 0;
    while i < disjoint_subsets.len()
        invariant
            disjoint_subsets@ == old_groups,
            pairwise_disjoint(old_groups),
            forall|j: int| 0 <= j < old_groups.len() ==> (#[trigger] old_groups[j].champions@).no_duplicates(),
            nset == new_set.champions@,
            new_parents@ == new_set.parent_sets@,
            0 <= i <= old_groups.len(),
            rest@.no_duplicates(),
            forall|e: u32| #[trigger] rest@.contains(e) <==> (nset.contains(e)
                && !(exists|j: int| 0 <= j < i && #[trigger] old_groups[j].champions@.contains(e))),
            kept.len() == i,
            forall|j: int| 0 <= j < i ==> (#[trigger] kept@[j].champions@).no_duplicates(),
            forall|j: int| 0 <= j < i ==> (#[trigger] kept@[j]).parent_sets@ == old_groups[j].parent_sets@,
            forall|j: int, e: u32| 0 <= j < i ==> (#[trigger] kept@[j].champions@.contains(e) <==> (
                old_groups[j].champions@.contains(e) && !nset.contains(e))),
            origin.len() == to_append.len(),
            forall|q: int| 0 <= q < to_append.len() ==> 0 <= #[trigger] origin[q] < i,
            forall|q1: int, q2: int| 0 <= q1 < q2 < to_append.len() ==> #[trigger] origin[q1] < #[trigger] origin[q2],
            forall|q: int| 0 <= q < to_append.len() ==> (#[trigger] to_append@[q].champions@).no_duplicates(),
            forall|q: int| 0 <= q < to_append.len() ==> (#[trigger] to_append@[q]).champions@.len() > 0,
            forall|q: int| 0 <= q < to_append.len() ==> (#[trigger] to_append@[q]).parent_sets@
                == new_set.parent_sets@ + old_groups[origin[q]].parent_sets@,
            forall|q: int, e: u32| 0 <= q < to_append.len() ==> (#[trigger] to_append@[q].champions@.contains(e) <==> (
                old_groups[origin[q]].champions@.contains(e) && nset.contains(e))),
            forall|j: int, e: u32| 0 <= j < i && #[trigger] old_groups[j].champions@.contains(e) && nset.contains(e)
                ==> exists|q: int| 0 <= q < to_append.len() && origin[q] == j,
        decreases old_groups.len() - i,
    {
        let existing = &disjoint_subsets[i];
        let common_champions = intersect(&rest, &existing.champions);
        let reduced = difference(&existing.champions, &common_champions);
        let new_rest = difference(&rest, &common_champions);
        assert forall|e: u32| common_champions@.contains(e)
            <==> (old_groups[i as int].champions@.contains(e) && nset.contains(e)) by {
            if old_groups[i as int].champions@.contains(e) && nset.contains(e) {
                if exists|j: int| 0 <= j < i && #[trigger] old_groups[j].champions@.contains(e) {
                    let j = choose|j: int| 0 <= j < i && #[trigger] old_groups[j].champions@.contains(e);
                    assert(old_groups[j].champions@.contains(e));
                }
            }
        }
        let mut parents: Vec<usize> = new_parents.clone();
        assert(parents@ =~= new_parents@);
        let mut p: usize = 0;
        while p < existing.parent_sets.len()
            invariant
                0 <= p <= existing.parent_sets.len(),
                parents@ == new_parents@ + existing.parent_sets@.subrange(0, p as int),
            decreases existing.parent_sets.len() - p,
        {
            parents.push(existing.parent_sets[p]);
            assert(existing.parent_sets@.subrange(0, p as int + 1)
                == existing.parent_sets@.subrange(0, p as int).push(existing.parent_sets@[p as int]));
            p = p + 1;
        }
        assert(existing.parent_sets@.subrange(0, existing.parent_sets@.len() as int) == existing.parent_sets@);
        let kept_parents = existing.parent_sets.clone();
        kept.push(ChampionSubset { champions: reduced, parent_sets: kept_parents });
        let ghost prev_append = to_append@;
        let ghost prev_origin = origin;
        if common_champions.len() > 0 {
            to_append.push(ChampionSubset { champions: common_champions, parent_sets: parents });
            proof {
                origin = origin.push(i as int);
            }
        }
        rest = new_rest;
        proof {
            assert forall|q: int| 0 <= q < to_append.len() implies {
                &&& (#[trigger] to_append@[q].champions@).no_duplicates()
                &&& to_append@[q].champions@.len() > 0
                &&& to_append@[q].parent_sets@ == new_set.parent_sets@ + old_groups[origin[q]].parent_sets@
                &&& forall|e: u32| to_append@[q].champions@.contains(e) <==> (
                    old_groups[origin[q]].champions@.contains(e) && nset.contains(e))
            } by {
                if q < prev_append.len() {
                    assert(to_append@[q] == prev_append[q]);
                    assert(origin[q] == prev_origin[q]);
                }
            }
            assert forall|q: int, e: u32| 0 <= q < to_append.len() implies (#[trigger] to_append@[q].champions@.contains(e) <==> (
                old_groups[origin[q]].champions@.contains(e) && nset.contains(e))) by {
                assert(to_append@[q].champions@.no_duplicates());
            }
            assert forall|j: int, e: u32| 0 <= j < i + 1 && #[trigger] old_groups[j].champions@.contains(e) && nset.contains(e)
                implies exists|q: int| 0 <= q < to_append.len() && origin[q] == j by {
                if j < i {
                    let q = choose|q: int| 0 <= q < prev_append.len() && prev_origin[q] == j;
                    assert(origin[q] == j);
                } else {
                    assert(common_champions@.contains(e));
                    assert(origin[to_append.len() - 1] == j);
                }
            }
            assert forall|e: u32| #[trigger] rest@.contains(e) <==> (nset.contains(e)
                && !(exists|j: int| 0 <= j < i + 1 && #[trigger] old_groups[j].champions@.contains(e))) by {
                if nset.contains(e) && exists|j: int| 0 <= j < i + 1 && #[trigger] old_groups[j].champions@.contains(e) {
                    let j = choose|j: int| 0 <= j < i + 1 && #[trigger] old_groups[j].champions@.contains(e);
                    if j < i {
                        assert(!rest@.contains(e));
                    }
                }
            }
        }
        i = i + 1;
    }
    let ghost commons = to_append@;
    to_append.push(ChampionSubset { champions: rest, parent_sets: new_parents });
    let ghost kept_prefix = kept@;
    let ghost tail = to_append@;
    kept.append(&mut to_append);
    proof {
        let m = old_groups.len() as int;
        assert(kept@ == kept_prefix + tail);
        let last = kept@.len() - 1;
        assert(kept@[last] == tail[tail.len() - 1]);
        assert forall|q: int| 0 <= q < commons.len() implies kept@[m + q] == #[trigger] commons[q] by {
            assert(kept@[m + q] == tail[q]);
        }
        assert forall|q: int| 0 <= q < origin.len() implies {
            &&& (#[trigger] kept@[m + q]).parent_sets@ == new_set.parent_sets@ + old_groups[origin[q]].parent_sets@
            &&& kept@[m + q].champions@.len() > 0
            &&& forall|e: u32| kept@[m + q].champions@.contains(e) <==> (
                old_groups[origin[q]].champions@.contains(e) && new_set.champions@.contains(e))
        } by {
            assert(kept@[m + q] == commons[q]);
        }
        assert forall|q: int, e: u32| 0 <= q < origin.len() implies (#[trigger] kept@[m + q].champions@.contains(e) <==> (
            old_groups[origin[q]].champions@.contains(e) && new_set.champions@.contains(e))) by {
            assert(kept@[m + q] == commons[q]);
        }
        assert forall|j: int, e: u32| 0 <= j < m implies (#[trigger] kept@[j].champions@.contains(e) <==> (
            old_groups[j].champions@.contains(e) && !new_set.champions@.contains(e))) by {
            assert(kept@[j] == kept_prefix[j]);
        }
        assert forall|j: int| 0 <= j < m implies (#[trigger] kept@[j]).parent_sets@ == old_groups[j].parent_sets@ by {
            assert(kept@[j] == kept_prefix[j]);
        }
        assert forall|j: int| 0 <= j < kept@.len() implies (#[trigger] kept@[j].champions@).no_duplicates() by {
            if j < m {
                assert(kept@[j] == kept_prefix[j]);
            } else if j < last {
                assert(kept@[j] == commons[j - m]);
            }
        }
        if forall|e: u32| new_set.champions@.contains(e) ==> !in_some_group(old_groups, e) {
            if commons.len() > 0 {
                assert(commons[0].champions@.len() > 0);
                let e = commons[0].champions@[0];
                assert(commons[0].champions@.contains(e));
                assert(old_groups[origin[0]].champions@.contains(e));
                assert(new_set.champions@.contains(e));
                assert(in_some_group(old_groups, e));
            }
        }
        assert(kept@[last].parent_sets@ == new_set.parent_sets@);
        assert forall|e: u32| #[trigger] kept@[last].champions@.contains(e) <==> (new_set.champions@.contains(e)
            && !in_some_group(old_groups, e)) by {}
        assert(merge_origin(old_groups, new_set, kept@, origin));
        assert(merged_from(old_groups, new_set, kept@));
    }
    *disjoint_subsets = kept;
}

/// Merging the candidates of slot `k` into the partition of the slots before
/// it gives the partition of the slots up to `k`.
proof fn lemma_fold_step(
    old: Seq<ChampionSubset>,
    new_set: ChampionSubset,
    merged: Seq<ChampionSubset>,
    slots: Seq<Vec<u32>>,
    k: int,
)
    requires
        0 <= k < slots.len(),
        k < usize::MAX,
        partition_of(old, slots, k),
        maximal(old, slots, k),
        forall|e: u32| new_set.champions@.contains(e) <==> slots[k]@.contains(e),
        new_set.parent_sets@ == seq![k as usize],
        merged_from(old, new_set, merged),
    ensures
        partition_of(merged, slots, k + 1),
        maximal(merged, slots, k + 1),
{
    let m = old.len() as int;
    let last = merged.len() - 1;
    let origin = choose|origin: Seq<int>| #[trigger] merge_origin(old, new_set, merged, origin);
    let commons = merged.subrange(m, last);
    let residual = merged[last].champions@;
    assert(merged.last() == merged[last]);
    assert forall|q: int| 0 <= q < commons.len() implies merged[m + q] == #[trigger] commons[q] by {}
    assert forall|q: int, e: u32| 0 <= q < commons.len() && #[trigger] commons[q].champions@.contains(e)
        implies exists|j: int| 0 <= j < m && #[trigger] old[j].champions@.contains(e)
            && slots[k]@.contains(e)
            && commons[q].parent_sets@ == seq![k as usize] + old[j].parent_sets@ by {
        assert(merged[m + q].champions@.contains(e));
        assert(old[origin[q]].champions@.contains(e));
    }
    assert forall|j: int, e: u32| 0 <= j < m && #[trigger] old[j].champions@.contains(e) && slots[k]@.contains(e)
        implies exists|q: int| 0 <= q < commons.len() && #[trigger] commons[q].champions@.contains(e) by {
        assert(new_set.champions@.contains(e));
        let q = choose|q: int| 0 <= q < origin.len() && origin[q] == j;
        assert(merged[m + q].champions@.contains(e));
        assert(commons[q] == merged[m + q]);
        assert(commons[q].champions@.contains(e));
    }
    assert forall|q1: int, q2: int, e: u32|
        0 <= q1 < commons.len() && 0 <= q2 < commons.len() && q1 != q2
            && #[trigger] commons[q1].champions@.contains(e)
            implies !(#[trigger] commons[q2].champions@.contains(e)) by {
        assert(merged[m + q1].champions@.contains(e));
        if commons[q2].champions@.contains(e) {
            assert(merged[m + q2].champions@.contains(e));
            if q1 < q2 {
                assert(origin[q1] < origin[q2]);
            } else {
                assert(origin[q2] < origin[q1]);
            }
            assert(old[origin[q1]].champions@.contains(e));
            assert(old[origin[q2]].champions@.contains(e));
        }
    }
    assert forall|q: int, p: int| 0 <= q < commons.len() && 0 <= p < commons[q].parent_sets@.len()
        implies #[trigger] commons[q].parent_sets@[p] <= k by {
        assert(merged[m + q].parent_sets@ == seq![k as usize] + old[origin[q]].parent_sets@);
        if p > 0 {
            assert(commons[q].parent_sets@[p] == old[origin[q]].parent_sets@[p - 1]);
        }
    }
    assert forall|q: int| 0 <= q < commons.len() implies (#[trigger] commons[q].parent_sets@).no_duplicates() by {
        let ps = old[origin[q]].parent_sets@;
        assert(merged[m + q].parent_sets@ == seq![k as usize] + ps);
        assert forall|a: int, b: int| 0 <= a < b < commons[q].parent_sets@.len()
            implies commons[q].parent_sets@[a] != commons[q].parent_sets@[b] by {
            assert(commons[q].parent_sets@[b] == ps[b - 1]);
            assert(ps[b - 1] < k);
            if a > 0 {
                assert(commons[q].parent_sets@[a] == ps[a - 1]);
            }
        }
    }
    assert forall|q: int, e: u32| 0 <= q < commons.len() && #[trigger] commons[q].champions@.contains(e)
        implies old[origin[q]].champions@.contains(e) && slots[k]@.contains(e) by {
        assert(merged[m + q].champions@.contains(e));
    }
    assert forall|q: int| 0 <= q < commons.len() implies (#[trigger] commons[q].champions@).no_duplicates() by {
        assert(merged[m + q].champions@.no_duplicates());
    }
    assert forall|j: int| 0 <= j < m implies (#[trigger] merged[j].champions@).no_duplicates() by {}
    assert forall|e: u32| #[trigger] residual.contains(e) <==> (slots[k]@.contains(e)
        && !(exists|j: int| 0 <= j < old.len() && #[trigger] old[j].champions@.contains(e))) by {}
    lemma_merged_partition(old, slots, k, merged, commons, residual, origin);
}

/// One merge step keeps any list of disjoint groups disjoint, and the groups
/// then hold the entities they held before together with those of the new set.
pub proof fn lemma_merge_step(old: Seq<ChampionSubset>, new_set: ChampionSubset, merged: Seq<ChampionSubset>)
    requires
        pairwise_disjoint(old),
        merged_from(old, new_set, merged),
    ensures
        pairwise_disjoint(merged),
        forall|e: u32| in_some_group(merged, e) <==> (in_some_group(old, e) || new_set.champions@.contains(e)),
{
    let m = old.len() as int;
    let last = merged.len() - 1;
    let origin = choose|origin: Seq<int>| #[trigger] merge_origin(old, new_set, merged, origin);
    assert forall|a: int, b: int, e: u32|
        0 <= a < merged.len() && 0 <= b < merged.len() && a != b
            && #[trigger] merged[a].champions@.contains(e)
            implies !(#[trigger] merged[b].champions@.contains(e)) by {
        if merged[b].champions@.contains(e) {
            if a < m && b < m {
                assert(old[a].champions@.contains(e) && old[b].champions@.contains(e));
            } else if a < m && b < last {
                assert(merged[m + (b - m)].champions@.contains(e));
            } else if b < m && a < last {
                assert(merged[m + (a - m)].champions@.contains(e));
            } else if a < last && b < last {
                assert(merged[m + (a - m)].champions@.contains(e));
                assert(merged[m + (b - m)].champions@.contains(e));
                if a < b {
                    assert(origin[a - m] < origin[b - m]);
                } else {
                    assert(origin[b - m] < origin[a - m]);
                }
                assert(old[origin[a - m]].champions@.contains(e));
                assert(old[origin[b - m]].champions@.contains(e));
            } else if a < m {
                assert(old[a].champions@.contains(e));
                assert(in_some_group(old, e));
            } else if b < m {
                assert(old[b].champions@.contains(e));
                assert(in_some_group(old, e));
            } else if a < last {
                assert(merged[m + (a - m)].champions@.contains(e));
                assert(old[origin[a - m]].champions@.contains(e));
                assert(in_some_group(old, e));
            } else {
                assert(merged[m + (b - m)].champions@.contains(e));
                assert(old[origin[b - m]].champions@.contains(e));
                assert(in_some_group(old, e));
            }
        }
    }
    assert forall|e: u32| in_some_group(merged, e) <==> (in_some_group(old, e) || new_set.champions@.contains(e)) by {
        if in_some_group(merged, e) {
            let a = choose|a: int| 0 <= a < merged.len() && #[trigger] merged[a].champions@.contains(e);
            if a < m {
                assert(old[a].champions@.contains(e));
            } else if a < last {
                assert(merged[m + (a - m)].champions@.contains(e));
                assert(old[origin[a - m]].champions@.contains(e));
            }
        }
        if in_some_group(old, e) {
            let j = choose|j: int| 0 <= j < m && #[trigger] old[j].champions@.contains(e);
            if new_set.champions@.contains(e) {
                let q = choose|q: int| 0 <= q < origin.len() && origin[q] == j;
                assert(merged[m + q].champions@.contains(e));
            } else {
                assert(merged[j].champions@.contains(e));
            }
        } else if new_set.champions@.contains(e) {
            assert(merged[last].champions@.contains(e));
        }
    }
}

/// Partitions the candidate sets of all slots, in slot order, into disjoint
/// groups tagged with the slots that share them.
pub fn disjoint_groups(slots: &Vec<Vec<u32>>) -> (r: Vec<ChampionSubset>)
    ensures
        partition_of(r@, slots@, slots@.len() as int),
        pairwise_disjoint(r@),
        covers(r@, slots@, slots@.len() as int),
        parents_exact(r@, slots@, slots@.len() as int),
        maximal(r@, slots@, slots@.len() as int),
{
    let mut groups: Vec<ChampionSubset> = Vec::new();
    let mut k: usize = 0;
    while k < slots.len()
        invariant
            0 <= k <= slots.len(),
            partition_of(groups@, slots@, k as int),
            maximal(groups@, slots@, k as int),
        decreases slots.len() - k,
    {
        let mut new_set = ChampionSubset::new();
        new_set.champions = dedup(&slots[k]);
        new_set.parent_sets.push(k);
        proof {
            assert forall|e: u32| new_set.champions@.contains(e) <==> slots@[k as int]@.contains(e) by {
                assert(new_set.champions@.to_set().contains(e) == slots@[k as int]@.to_set().contains(e));
            }
            assert(new_set.parent_sets@ == seq![k]);
            assert(new_set.champions@.no_duplicates());
        }
        let ghost before = groups@;
        let ghost added = new_set;
        merge_into_disjoint_list(new_set, &mut groups);
        proof {
            lemma_fold_step(before, added, groups@, slots@, k as int);
        }
        k = k + 1;
    }
    groups
}

/// The slots among `slots` whose candidates hold `e`.
pub open spec fn slots_holding(slots: Seq<Vec<u32>>, e: u32) -> Set<usize> {
    Set::new(|s: usize| s < slots.len() && slots[s as int]@.contains(e))
}

/// A group's parent list names exactly the slots that hold any one of its
/// entities: an entity only slot `a` holds sits in a group whose parents are
/// `{a}`, one that just `a` and `b` hold in a group whose parents are `{a, b}`.
pub proof fn lemma_group_parents_are_holding_slots(
    groups: Seq<ChampionSubset>,
    slots: Seq<Vec<u32>>,
    i: int,
    e: u32,
)
    requires
        partition_of(groups, slots, slots.len() as int),
        0 <= i < groups.len(),
        groups[i].champions@.contains(e),
    ensures
        groups[i].parent_sets@.to_set() == slots_holding(slots, e),
        groups[i].parent_sets@.len() == slots_holding(slots, e).len(),
{
    let ps = groups[i].parent_sets@;
    assert forall|s: usize| ps.to_set().contains(s) <==> slots_holding(slots, e).contains(s) by {
        if ps.contains(s) {
            let p = choose|p: int| 0 <= p < ps.len() && ps[p] == s;
            assert(ps[p] < slots.len());
            assert(groups[i].parent_sets@.contains(s as int as usize));
        }
        if slots_holding(slots, e).contains(s) {
            assert(groups[i].parent_sets@.contains(s as int as usize));
        }
    }
    assert(ps.to_set() =~= slots_holding(slots, e));
    ps.unique_seq_to_set();
}

} // verus!
