//! The relationship edges between catalog entities: two entities are joined
//! where they share a tag.
use vstd::prelude::*;
use crate::index::{BuildError, IdentifierIndex};

verus! {

broadcast use vstd::seq_lib::group_seq_properties;

/// A catalog entity with its relationship tags.
pub struct CatalogEntry {
    pub name: String,
    pub traits: Vec<String>,
}

/// The two tag lists have a tag in common.
pub open spec fn share_trait(a: Seq<String>, b: Seq<String>) -> bool {
    exists|i: int, j: int| 0 <= i < a.len() && 0 <= j < b.len() && #[trigger] a[i]@ == #[trigger] b[j]@
}

/// The index of the entity of `entry` is `i`.
pub open spec fn indexed_as(index: IdentifierIndex, entry: CatalogEntry, i: u32) -> bool {
    i < index.names@.len() && index.names@[i as int]@ == entry.name@
}

/// `e` joins the indices of two entries that share a tag.
pub open spec fn is_trait_edge(index: IdentifierIndex, entries: Seq<CatalogEntry>, e: (u32, u32)) -> bool {
    exists|a: int, b: int| 0 <= a < entries.len() && 0 <= b < entries.len()
        && share_trait(entries[a].traits@, entries[b].traits@)
        && #[trigger] indexed_as(index, entries[a], e.0) && #[trigger] indexed_as(index, entries[b], e.1)
}

/// Whether the two tag lists share a tag.
fn shares_trait(a: &Vec<String>, b: &Vec<String>) -> (r: bool)
    ensures
        r == share_trait(a@, b@),
{
    let mut i: usize = 0;
    while i < a.len()
        invariant
            0 <= i <= a.len(),
            forall|x: int, y: int| 0 <= x < i && 0 <= y < b@.len() ==> a@[x]@ != b@[y]@,
        decreases a.len() - i,
    {
        let mut j: usize = 0;
        while j < b.len()
            invariant
                0 <= i < a.len(),
                0 <= j <= b.len(),
                forall|x: int, y: int| 0 <= x < i && 0 <= y < b@.len() ==> a@[x]@ != b@[y]@,
                forall|y: int| 0 <= y < j ==> a@[i as int]@ != b@[y]@,
            decreases b.len() - j,
        {
            if a[i] == b[j] {
                assert(a@[i as int]@ == b@[j as int]@);
                return true;
            }
            j = j + 1;
        }
        i = i + 1;
    }
    false
}

/// Whether `edges` holds the pair `e`.
fn has_edge(edges: &Vec<(u32, u32)>, e: (u32, u32)) -> (r: bool)
    ensures
        r == edges@.contains(e),
{
    let mut k: usize = 0;
    while k < edges.len()
        invariant
            0 <= k <= edges.len(),
            forall|q: int| 0 <= q < k ==> edges@[q] != e,
        decreases edges.len() - k,
    {
        if edges[k].0 == e.0 && edges[k].1 == e.1 {
            assert(edges@[k as int] == e);
            return true;
        }
        k = k + 1;
    }
    false
}

/// The edges between the entities of `entries` that share a tag, each pair of
/// variable indices once (an entity with a tag is joined to itself too), or
/// the first entity that the index lacks.
pub fn trait_edges(index: &IdentifierIndex, entries: &Vec<CatalogEntry>) -> (r: Result<Vec<(u32, u32)>, BuildError>)
    requires
        index.wf(),
    ensures
        r is Ok <==> forall|a: int| 0 <= a < entries@.len() ==> index.entities().contains(#[trigger] entries@[a].name@),
        match r {
            Ok(edges) => {
                &&& edges@.no_duplicates()
                &&& forall|k: int| 0 <= k < edges@.len() ==> is_trait_edge(*index, entries@, #[trigger] edges@[k])
                &&& forall|a: int, b: int, i: u32, j: u32| 0 <= a < entries@.len() && 0 <= b < entries@.len()
                    && share_trait(entries@[a].traits@, entries@[b].traits@)
                    && #[trigger] indexed_as(*index, entries@[a], i) && #[trigger] indexed_as(*index, entries@[b], j)
                    ==> edges@.contains((i, j))
            },
            Err(BuildError::UnknownEntity(name)) => !index.entities().contains(name@)
                && exists|a: int| 0 <= a < entries@.len() && #[trigger] entries@[a].name@ == name@,
            Err(BuildError::DegenerateInput) => false,
        },
{
    let mut ids: Vec<u32> = Vec::new();
    let mut a: usize = 0;
    while a < entries.len()
        invariant
            index.wf(),
            0 <= a <= entries.len(),
            ids@.len() == a,
            forall|x: int| 0 <= x < a ==> #[trigger] indexed_as(*index, entries@[x], ids@[x]),
        decreases entries.len() - a,
    {
        match index.index_of(&entries[a].name) {
            Some(i) => ids.push(i),
            None => {
                let name = entries[a].name.clone();
                assert(entries@[a as int].name@ == name@);
                return Err(BuildError::UnknownEntity(name));
            },
        }
        a = a + 1;
    }
    proof {
        assert forall|x: int| 0 <= x < entries@.len() implies index.entities().contains(#[trigger] entries@[x].name@) by {
            assert(indexed_as(*index, entries@[x], ids@[x]));
            assert(crate::index::ids_of(index.names@)[ids@[x] as int] == entries@[x].name@);
        }
    }
    let n = entries.len();
    let mut edges: Vec<(u32, u32)> = Vec::new();
    let mut a: usize = 0;
    while a < n
        invariant
            index.wf(),
            n == entries@.len(),
            ids@.len() == n,
            0 <= a <= n,
            forall|x: int| 0 <= x < n ==> #[trigger] indexed_as(*index, entries@[x], ids@[x]),
            edges@.no_duplicates(),
            forall|k: int| 0 <= k < edges@.len() ==> is_trait_edge(*index, entries@, #[trigger] edges@[k]),
            forall|x: int, y: int| 0 <= x < a && 0 <= y < n && share_trait(entries@[x].traits@, entries@[y].traits@)
                ==> edges@.contains((ids@[x], ids@[y])),
        decreases n - a,
    {
        let mut b: usize = 0;
        while b < n
            invariant
                index.wf(),
                n == entries@.len(),
                ids@.len() == n,
                0 <= a < n,
                0 <= b <= n,
                forall|x: int| 0 <= x < n ==> #[trigger] indexed_as(*index, entries@[x], ids@[x]),
                edges@.no_duplicates(),
                forall|k: int| 0 <= k < edges@.len() ==> is_trait_edge(*index, entries@, #[trigger] edges@[k]),
                forall|x: int, y: int| 0 <= x < a && 0 <= y < n && share_trait(entries@[x].traits@, entries@[y].traits@)
                    ==> edges@.contains((ids@[x], ids@[y])),
                forall|y: int| 0 <= y < b && share_trait(entries@[a as int].traits@, entries@[y].traits@)
                    ==> edges@.contains((ids@[a as int], ids@[y])),
            decreases n - b,
        {
            if shares_trait(&entries[a].traits, &entries[b].traits) {
                let e = (ids[a], ids[b]);
                if !has_edge(&edges, e) {
                    let ghost before = edges@;
                    edges.push(e);
                    proof {
                        assert(indexed_as(*index, entries@[a as int], e.0));
                        assert(indexed_as(*index, entries@[b as int], e.1));
                        assert(is_trait_edge(*index, entries@, e));
                        assert forall|k: int| 0 <= k < edges@.len() implies is_trait_edge(*index, entries@, #[trigger] edges@[k]) by {
                            if k < before.len() {
                                assert(edges@[k] == before[k]);
                            }
                        }
                    }
                }
            }
            b = b + 1;
        }
        a = a + 1;
    }
    proof {
        assert forall|x: int, y: int, i: u32, j: u32| 0 <= x < entries@.len() && 0 <= y < entries@.len()
            && share_trait(entries@[x].traits@, entries@[y].traits@)
            && #[trigger] indexed_as(*index, entries@[x], i) && #[trigger] indexed_as(*index, entries@[y], j)
            implies edges@.contains((i, j)) by {
            assert(indexed_as(*index, entries@[x], ids@[x]));
            assert(indexed_as(*index, entries@[y], ids@[y]));
            assert(crate::index::ids_of(index.names@)[i as int] == crate::index::ids_of(index.names@)[ids@[x] as int]);
            assert(crate::index::ids_of(index.names@)[j as int] == crate::index::ids_of(index.names@)[ids@[y] as int]);
        }
    }
    Ok(edges)
}

} // verus!
