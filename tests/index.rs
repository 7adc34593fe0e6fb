use champion_constraints::formula::{build_champion_constraints, variable_name, Factory, SubgraphConstraints};
use champion_constraints::index::{BuildError, IdentifierIndex};

fn names(v: &[&str]) -> Vec<String> {
    v.iter().map(|s| s.to_string()).collect()
}

fn subgraph(count: usize) -> SubgraphConstraints {
    let factory = Factory::new();
    let formula = factory.constant(true);
    SubgraphConstraints { formula, factory, num_constraints: count }
}

#[test]
fn index_is_a_bijection() {
    let catalog = names(&["ahri", "braum", "ahri", "caitlyn"]);
    let idx = IdentifierIndex::from_catalog(&catalog);
    assert_eq!(idx.names, names(&["ahri", "braum", "caitlyn"]));
    for (i, n) in idx.names.iter().enumerate() {
        assert_eq!(idx.index_of(n), Some(i as u32));
    }
    assert_eq!(idx.index_of(&"draven".to_string()), None);
}

#[test]
fn index_of_empty_catalog() {
    let idx = IdentifierIndex::from_catalog(&vec![]);
    assert!(idx.names.is_empty());
}

#[test]
fn resolve_reports_unknown_entity() {
    let idx = IdentifierIndex::from_catalog(&names(&["a", "b"]));
    match idx.resolve_slots(&vec![names(&["a"]), names(&["b", "zed"])]) {
        Err(BuildError::UnknownEntity(n)) => assert_eq!(n, "zed"),
        _ => panic!("expected an unknown entity"),
    }
    match idx.resolve_slots(&vec![names(&["b", "a"]), names(&[])]) {
        Ok(slots) => assert_eq!(slots, vec![vec![1, 0], vec![]]),
        _ => panic!("expected the slots to resolve"),
    }
}

#[test]
fn build_rejects_degenerate_input() {
    let r = build_champion_constraints(subgraph(0), &vec![], &vec![names(&["a"])]);
    assert!(matches!(r, Err(BuildError::DegenerateInput)));
    let r = build_champion_constraints(subgraph(0), &names(&["a"]), &vec![]);
    assert!(matches!(r, Err(BuildError::DegenerateInput)));
}

#[test]
fn build_rejects_unknown_entity() {
    let r = build_champion_constraints(subgraph(0), &names(&["a", "b"]), &vec![names(&["a", "q"])]);
    match r {
        Err(BuildError::UnknownEntity(n)) => assert_eq!(n, "q"),
        _ => panic!("expected an unknown entity"),
    }
}

#[test]
fn build_joins_slot_clauses() {
    let catalog = names(&["a", "b", "c"]);
    let slots = vec![names(&["a", "b"]), names(&["a", "c"])];
    let r = build_champion_constraints(subgraph(5), &catalog, &slots);
    let (c, index_to_id) = match r {
        Ok(x) => x,
        _ => panic!("expected constraints"),
    };
    assert_eq!(c.num_constraints, 5 + 3);
    assert_eq!(index_to_id, catalog);
    let text = c.formula.handle().to_string(c.factory.factory());
    assert!(text.contains("v0 => v1 | v2") || text.contains("v0 => v2 | v1"), "{}", text);
    assert!(text.contains("v0 | v1") && text.contains("v0 | v2"), "{}", text);
}

#[test]
fn variable_names_carry_the_index() {
    assert_eq!(variable_name(0), "v0");
    assert_eq!(variable_name(7), "v7");
    assert_eq!(variable_name(10), "v10");
    assert_eq!(variable_name(305), "v305");
    assert_eq!(variable_name(u32::MAX), "v4294967295");
}

#[test]
fn build_joins_three_way_clauses() {
    let catalog = names(&["w", "x", "y", "z"]);
    let slots = vec![names(&["w", "x"]), names(&["w", "y"]), names(&["w", "z"])];
    let (c, _) = match build_champion_constraints(subgraph(usize::MAX - 2), &catalog, &slots) {
        Ok(x) => x,
        _ => panic!("expected constraints"),
    };
    // 3 slot clauses and 4 implications, the count held at usize::MAX.
    assert_eq!(c.num_constraints, usize::MAX);
    let text = c.formula.handle().to_string(c.factory.factory());
    assert!(text.contains("v0 & v1 =>") || text.contains("v1 & v0 =>"), "{}", text);
}

#[test]
fn index_keeps_first_appearance_order() {
    let idx = IdentifierIndex::from_catalog(&names(&["c", "a", "c", "b", "a"]));
    assert_eq!(idx.names, names(&["c", "a", "b"]));
}
