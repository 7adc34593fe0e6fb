use champion_constraints::clauses::{build_slot_constraints, Clause};
use champion_constraints::combinations::find_all_products;
use champion_constraints::partition::disjoint_groups;
use std::collections::BTreeSet;

fn as_set(v: &[u32]) -> BTreeSet<u32> {
    v.iter().copied().collect()
}

fn holds(clause: &Clause, truth: &BTreeSet<u32>) -> bool {
    match clause {
        Clause::AtLeastOne(vars) => vars.iter().any(|v| truth.contains(v)),
        Clause::Implies(lhs, rhs) => {
            !lhs.iter().all(|v| truth.contains(v)) || rhs.iter().any(|v| truth.contains(v))
        }
    }
}

fn implications(clauses: &[Clause]) -> Vec<(BTreeSet<u32>, BTreeSet<u32>)> {
    clauses
        .iter()
        .filter_map(|c| match c {
            Clause::Implies(l, r) => Some((as_set(l), as_set(r))),
            Clause::AtLeastOne(_) => None,
        })
        .collect()
}

#[test]
fn enumerate_three_up_to_three() {
    let got: BTreeSet<BTreeSet<u32>> = find_all_products(&vec![1, 2, 3], 3).iter().map(|c| as_set(c)).collect();
    let want: BTreeSet<BTreeSet<u32>> = vec![
        vec![1], vec![2], vec![3], vec![1, 2], vec![1, 3], vec![2, 3], vec![1, 2, 3],
    ]
    .iter()
    .map(|c| as_set(c))
    .collect();
    assert_eq!(got, want);
    assert_eq!(find_all_products(&vec![1, 2, 3], 3).len(), 7);
}

#[test]
fn enumerate_singletons_only() {
    let got: BTreeSet<BTreeSet<u32>> = find_all_products(&vec![4, 5, 6, 7], 1).iter().map(|c| as_set(c)).collect();
    let want: BTreeSet<BTreeSet<u32>> = vec![vec![4], vec![5], vec![6], vec![7]].iter().map(|c| as_set(c)).collect();
    assert_eq!(got, want);
    assert_eq!(find_all_products(&vec![4, 5, 6, 7], 1).len(), 4);
}

#[test]
fn enumerate_bound_two_of_four() {
    let got = find_all_products(&vec![1, 2, 3, 4], 2);
    assert_eq!(got.len(), 10);
    assert!(got.iter().all(|c| c.len() >= 1 && c.len() <= 2));
}

#[test]
fn enumerate_empty_and_zero_bound() {
    assert!(find_all_products(&vec![], 3).is_empty());
    assert!(find_all_products(&vec![1, 2], 0).is_empty());
}

#[test]
fn partition_splits_three_slots() {
    // A = {1,2,3,4,5,7}, B = {2,5,7}, C = {1,6,8}
    let slots = vec![vec![1, 2, 3, 4, 5, 7], vec![2, 5, 7], vec![1, 6, 8]];
    let groups = disjoint_groups(&slots);
    let mut found: Vec<(BTreeSet<u32>, BTreeSet<usize>)> = groups
        .iter()
        .filter(|g| !g.champions.is_empty())
        .map(|g| (as_set(&g.champions), g.parent_sets.iter().copied().collect()))
        .collect();
    found.sort();
    let mut want: Vec<(BTreeSet<u32>, BTreeSet<usize>)> = vec![
        (as_set(&[3, 4]), [0].into_iter().collect()),
        (as_set(&[2, 5, 7]), [0, 1].into_iter().collect()),
        (as_set(&[1]), [0, 2].into_iter().collect()),
        (as_set(&[6, 8]), [2].into_iter().collect()),
    ];
    want.sort();
    assert_eq!(found, want);
}

#[test]
fn partition_is_disjoint_and_covers_inputs() {
    let slots = vec![vec![1, 2, 3], vec![2, 3, 4], vec![3, 4, 5, 1], vec![9], vec![2, 9, 2]];
    let groups = disjoint_groups(&slots);
    let mut seen = BTreeSet::new();
    for g in &groups {
        for e in &g.champions {
            assert!(seen.insert(*e), "entity {} in two groups", e);
        }
    }
    let all: BTreeSet<u32> = slots.iter().flatten().copied().collect();
    assert_eq!(seen, all);
}

#[test]
fn partition_parents_are_the_holding_slots() {
    let slots = vec![vec![1, 2], vec![1, 3], vec![4]];
    let groups = disjoint_groups(&slots);
    let parents_of = |e: u32| -> BTreeSet<usize> {
        let g = groups.iter().find(|g| g.champions.contains(&e)).unwrap();
        g.parent_sets.iter().copied().collect()
    };
    assert_eq!(parents_of(2), [0].into_iter().collect());
    assert_eq!(parents_of(3), [1].into_iter().collect());
    assert_eq!(parents_of(4), [2].into_iter().collect());
    assert_eq!(parents_of(1), [0, 1].into_iter().collect());
}

#[test]
fn two_slots_sharing_one_entity() {
    let slots = vec![vec![1, 2], vec![1, 3]];
    let clauses = build_slot_constraints(&slots);
    assert_eq!(clauses.len(), 3);
    assert!(matches!(&clauses[0], Clause::AtLeastOne(v) if as_set(v) == as_set(&[1, 2])));
    assert!(matches!(&clauses[1], Clause::AtLeastOne(v) if as_set(v) == as_set(&[1, 3])));
    assert_eq!(implications(&clauses), vec![(as_set(&[1]), as_set(&[2, 3]))]);
    // Only 1 true meets both slots' clauses but not the implication.
    let only_one = as_set(&[1]);
    assert!(holds(&clauses[0], &only_one) && holds(&clauses[1], &only_one));
    assert!(!clauses.iter().all(|c| holds(c, &only_one)));
    // Every assignment over {1,2,3} meeting all clauses has two true entities.
    for mask in 0u32..8 {
        let truth: BTreeSet<u32> = (1..=3).filter(|v| mask & (1 << (v - 1)) != 0).collect();
        if clauses.iter().all(|c| holds(c, &truth)) {
            assert!(truth.len() >= 2);
        }
    }
}

#[test]
fn three_slots_sharing_one_entity() {
    let slots = vec![vec![1, 2], vec![1, 3], vec![1, 4]];
    let clauses = build_slot_constraints(&slots);
    let imps: BTreeSet<(BTreeSet<u32>, BTreeSet<u32>)> = implications(&clauses).into_iter().collect();
    let want: BTreeSet<(BTreeSet<u32>, BTreeSet<u32>)> = vec![
        (as_set(&[1]), as_set(&[2, 3, 4])),
        (as_set(&[1, 2]), as_set(&[3, 4])),
        (as_set(&[1, 3]), as_set(&[2, 4])),
        (as_set(&[1, 4]), as_set(&[2, 3])),
    ]
    .into_iter()
    .collect();
    assert_eq!(imps, want);
    assert_eq!(clauses.len(), 7);
    // Every assignment over {1,2,3,4} meeting all clauses has three true entities.
    for mask in 0u32..16 {
        let truth: BTreeSet<u32> = (1..=4).filter(|v| mask & (1 << (v - 1)) != 0).collect();
        if clauses.iter().all(|c| holds(c, &truth)) {
            assert!(truth.len() >= 3, "{:?}", truth);
        }
    }
}

#[test]
fn contested_group_of_two_entities() {
    let slots = vec![vec![1, 2, 5], vec![1, 2, 6]];
    let clauses = build_slot_constraints(&slots);
    let imps: BTreeSet<(BTreeSet<u32>, BTreeSet<u32>)> = implications(&clauses).into_iter().collect();
    let want: BTreeSet<(BTreeSet<u32>, BTreeSet<u32>)> = vec![
        (as_set(&[1]), as_set(&[2, 5, 6])),
        (as_set(&[2]), as_set(&[1, 5, 6])),
        (as_set(&[1, 2]), as_set(&[5, 6])),
    ]
    .into_iter()
    .collect();
    assert_eq!(imps, want);
}

#[test]
fn disjoint_slots_need_no_implication() {
    let slots = vec![vec![1, 2], vec![3], vec![4, 5, 6]];
    let clauses = build_slot_constraints(&slots);
    assert_eq!(clauses.len(), 3);
    assert!(implications(&clauses).is_empty());
}

#[test]
fn empty_slot_gives_empty_disjunction() {
    let slots = vec![vec![], vec![1]];
    let clauses = build_slot_constraints(&slots);
    assert_eq!(clauses.len(), 2);
    assert!(matches!(&clauses[0], Clause::AtLeastOne(v) if v.is_empty()));
}

#[test]
fn duplicate_candidates_are_merged() {
    let slots = vec![vec![1, 1, 2]];
    let clauses = build_slot_constraints(&slots);
    assert!(matches!(&clauses[0], Clause::AtLeastOne(v) if v.len() == 2));
}
