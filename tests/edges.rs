use champion_constraints::edges::{trait_edges, CatalogEntry};
use champion_constraints::index::{BuildError, IdentifierIndex};
use std::collections::BTreeSet;

fn entry(name: &str, traits: &[&str]) -> CatalogEntry {
    CatalogEntry { name: name.to_string(), traits: traits.iter().map(|t| t.to_string()).collect() }
}

#[test]
fn entities_sharing_a_trait_are_joined() {
    let entries = vec![
        entry("a", &["mage"]),
        entry("b", &["mage", "tank"]),
        entry("c", &["scout"]),
        entry("d", &["tank"]),
        entry("e", &[]),
    ];
    let names: Vec<String> = entries.iter().map(|e| e.name.clone()).collect();
    let idx = IdentifierIndex::from_catalog(&names);
    let edges = match trait_edges(&idx, &entries) {
        Ok(e) => e,
        _ => panic!("expected edges"),
    };
    let got: BTreeSet<(u32, u32)> = edges.iter().copied().collect();
    assert_eq!(got.len(), edges.len());
    let want: BTreeSet<(u32, u32)> =
        vec![(0, 0), (0, 1), (1, 0), (1, 1), (1, 3), (3, 1), (3, 3), (2, 2)].into_iter().collect();
    assert_eq!(got, want);
}

#[test]
fn edges_of_unknown_entity() {
    let idx = IdentifierIndex::from_catalog(&vec!["a".to_string()]);
    match trait_edges(&idx, &vec![entry("a", &["x"]), entry("q", &["x"])]) {
        Err(BuildError::UnknownEntity(n)) => assert_eq!(n, "q"),
        _ => panic!("expected an unknown entity"),
    }
}
