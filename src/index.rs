//! The identifier index: catalog entities and the dense variable indices
//! that stand for them.
use vstd::prelude::*;

verus! {

broadcast use {vstd::seq_lib::group_seq_properties, vstd::set_lib::group_set_properties};

/// What goes wrong when the inputs of the constraint builder are unusable.
pub enum BuildError {
    /// A slot names an entity that the catalog lacks.
    UnknownEntity(String),
    /// The catalog or the list of slots is empty.
    DegenerateInput,
}

/// The identifiers of a sequence of strings.
pub open spec fn ids_of(v: Seq<String>) -> Seq<Seq<char>> {
    v.map_values(|s: String| s@)
}

/// The elements of `s`, each at the place where it first occurs.
pub open spec fn first_occurrences(s: Seq<Seq<char>>) -> Seq<Seq<char>>
    decreases s.len(),
{
    if s.len() == 0 {
        Seq::empty()
    } else {
        let p = first_occurrences(s.drop_last());
        if p.contains(s.last()) { p } else { p.push(s.last()) }
    }
}

/// `names` lists the distinct entities of `catalog`, in the order of their
/// first appearance, each once.
pub open spec fn indexes_catalog(catalog: Seq<String>, names: Seq<String>) -> bool {
    &&& ids_of(names) == first_occurrences(ids_of(catalog))
    &&& ids_of(names).no_duplicates()
    &&& ids_of(names).to_set() == ids_of(catalog).to_set()
}

/// Maps each catalog entity to an index in `[0, N)`: entity `names[i]` has index `i`.
pub struct IdentifierIndex {
    pub names: Vec<String>,
}

impl IdentifierIndex {
    /// Each entity stands at one index, and every index fits a `u32`.
    pub open spec fn wf(&self) -> bool {
        &&& ids_of(self.names@).no_duplicates()
        &&& self.names@.len() <= u32::MAX
    }

    /// The entities that the index maps.
    pub open spec fn entities(&self) -> Set<Seq<char>> {
        ids_of(self.names@).to_set()
    }

    /// Indexes the distinct entities of the catalog in the order of their first appearance.
    pub fn from_catalog(catalog: &Vec<String>) -> (r: IdentifierIndex)
        requires
            catalog@.len() <= u32::MAX,
        ensures
            r.wf(),
            r.entities() == ids_of(catalog@).to_set(),
            indexes_catalog(catalog@, r.names@),
    {
        let mut names: Vec<String> = Vec::new();
        let mut i: usize = 0;
        while i < catalog.len()
            invariant
                0 <= i <= catalog.len(),
                catalog@.len() <= u32::MAX,
                names@.len() <= i,
                ids_of(names@).no_duplicates(),
                ids_of(names@).to_set() == ids_of(catalog@.subrange(0, i as int)).to_set(),
                ids_of(names@) == first_occurrences(ids_of(catalog@.subrange(0, i as int))),
            decreases catalog.len() - i,
        {
            let name = &catalog[i];
            let ghost before = names@;
            assert(ids_of(catalog@.subrange(0, i as int + 1)) == ids_of(catalog@.subrange(0, i as int)).push(name@));
            proof {
                ids_of(catalog@.subrange(0, i as int)).lemma_push_to_set_commute(name@);
            }
            let found = Self::position(&names, name);
            assert(ids_of(catalog@.subrange(0, i as int + 1)).drop_last() == ids_of(catalog@.subrange(0, i as int)));
            if found.is_none() {
                names.push(name.clone());
                assert(ids_of(names@) == ids_of(before).push(name@));
                proof {
                    ids_of(before).lemma_push_to_set_commute(name@);
                }
                assert(!ids_of(before).contains(name@));
            } else {
                let j = found.unwrap();
                assert(ids_of(before)[j as int] == name@);
                assert(ids_of(before).contains(name@));
                assert(ids_of(before).to_set().contains(name@));
                assert(ids_of(before).to_set().insert(name@) =~= ids_of(before).to_set());
            }
            i = i + 1;
        }
        assert(catalog@.subrange(0, catalog@.len() as int) == catalog@);
        IdentifierIndex { names }
    }

    /// The position of `id` among `names`, if it stands there.
    fn position(names: &Vec<String>, id: &String) -> (r: Option<usize>)
        ensures
            match r {
                Some(i) => i < names@.len() && names@[i as int]@ == id@,
                None => !ids_of(names@).contains(id@),
            },
    {
        let mut i: usize = 0;
        while i < names.len()
            invariant
                0 <= i <= names.len(),
                forall|j: int| 0 <= j < i ==> names@[j]@ != id@,
            decreases names.len() - i,
        {
            if names[i] == *id {
                return Some(i);
            }
            i = i + 1;
        }
        assert forall|j: int| 0 <= j < names@.len() implies ids_of(names@)[j] != id@ by {}
        None
    }

    /// The variable index of `id`, or `None` where the catalog lacks it.
    pub fn index_of(&self, id: &String) -> (r: Option<u32>)
        requires
            self.wf(),
        ensures
            match r {
                Some(i) => i < self.names@.len() && self.names@[i as int]@ == id@,
                None => !self.entities().contains(id@),
            },
    {
        match Self::position(&self.names, id) {
            Some(i) => Some(i as u32),
            None => None,
        }
    }
}

/// Every option of every slot is an entity of the index.
pub open spec fn all_known(idx: IdentifierIndex, options: Seq<Vec<String>>) -> bool {
    forall|s: int, j: int| 0 <= s < options.len() && 0 <= j < options[s]@.len()
        ==> idx.entities().contains(#[trigger] options[s]@[j]@)
}

/// `slots` holds, in place of each option, the index of its entity.
pub open spec fn resolves(idx: IdentifierIndex, options: Seq<Vec<String>>, slots: Seq<Vec<u32>>) -> bool {
    &&& slots.len() == options.len()
    &&& forall|s: int| 0 <= s < slots.len() ==> (#[trigger] slots[s])@.len() == options[s]@.len()
    &&& forall|s: int, j: int| 0 <= s < slots.len() && 0 <= j < slots[s]@.len()
        ==> #[trigger] slots[s]@[j] < idx.names@.len() && idx.names@[slots[s]@[j] as int]@ == options[s]@[j]@
}

impl IdentifierIndex {
    /// The options of each slot as variable indices, or the first option that
    /// the index lacks.
    pub fn resolve_slots(&self, options: &Vec<Vec<String>>) -> (r: Result<Vec<Vec<u32>>, BuildError>)
        requires
            self.wf(),
        ensures
            r is Ok <==> all_known(*self, options@),
            match r {
                Ok(slots) => resolves(*self, options@, slots@),
                Err(BuildError::UnknownEntity(name)) => !self.entities().contains(name@)
                    && exists|s: int, j: int| 0 <= s < options@.len() && 0 <= j < options@[s]@.len()
                        && #[trigger] options@[s]@[j]@ == name@,
                Err(BuildError::DegenerateInput) => false,
            },
    {
        let mut slots: Vec<Vec<u32>> = Vec::new();
        let mut s: usize = 0;
        while s < options.len()
            invariant
                self.wf(),
                0 <= s <= options.len(),
                resolves(*self, options@.subrange(0, s as int), slots@),
                all_known(*self, options@.subrange(0, s as int)),
            decreases options.len() - s,
        {
            let opts = &options[s];
            let mut slot: Vec<u32> = Vec::new();
            let mut j: usize = 0;
            while j < opts.len()
                invariant
                    self.wf(),
                    s < options@.len(),
                    *opts == options@[s as int],
                    0 <= j <= opts.len(),
                    slot@.len() == j,
                    forall|q: int| 0 <= q < j ==> #[trigger] slot@[q] < self.names@.len()
                        && self.names@[slot@[q] as int]@ == opts@[q]@,
                decreases opts.len() - j,
            {
                match self.index_of(&opts[j]) {
                    Some(i) => slot.push(i),
                    None => {
                        let name = opts[j].clone();
                        assert(options@[s as int]@[j as int]@ == name@);
                        assert(!all_known(*self, options@));
                        return Err(BuildError::UnknownEntity(name));
                    },
                }
                j = j + 1;
            }
            let ghost before = slots@;
            slots.push(slot);
            proof {
                let sub = options@.subrange(0, s as int + 1);
                assert(sub == options@.subrange(0, s as int).push(options@[s as int]));
                assert forall|a: int| 0 <= a < slots@.len() implies (#[trigger] slots@[a])@.len() == sub[a]@.len() by {
                    if a < s {
                        assert(slots@[a] == before[a]);
                    }
                }
                assert forall|a: int, b: int| 0 <= a < slots@.len() && 0 <= b < slots@[a]@.len()
                    implies #[trigger] slots@[a]@[b] < self.names@.len()
                        && self.names@[slots@[a]@[b] as int]@ == sub[a]@[b]@ by {
                    if a < s {
                        assert(slots@[a] == before[a]);
                    }
                }
                assert forall|a: int, b: int| 0 <= a < sub.len() && 0 <= b < sub[a]@.len()
                    implies self.entities().contains(#[trigger] sub[a]@[b]@) by {
                    if a == s {
                        let i = slots@[a]@[b];
                        assert(ids_of(self.names@)[i as int] == sub[a]@[b]@);
                    } else {
                        assert(options@.subrange(0, s as int)[a] == sub[a]);
                    }
                }
            }
            s = s + 1;
        }
        assert(options@.subrange(0, options@.len() as int) == options@);
        Ok(slots)
    }
}

/// The index is a bijection: exactly the catalog's distinct entities are
/// mapped, each to one integer of `0..N` where `N` is their number, and no
/// two entities share an integer.
pub proof fn lemma_index_bijection(idx: IdentifierIndex, catalog: Seq<String>)
    requires
        idx.wf(),
        idx.entities() == ids_of(catalog).to_set(),
    ensures
        idx.names@.len() == ids_of(catalog).to_set().len(),
        forall|i: int, j: int| 0 <= i < j < idx.names@.len() ==> idx.names@[i]@ != idx.names@[j]@,
        forall|i: int| 0 <= i < idx.names@.len() ==> ids_of(catalog).contains(#[trigger] idx.names@[i]@),
        forall|e: Seq<char>| ids_of(catalog).contains(e)
            ==> exists|i: int| 0 <= i < idx.names@.len() && #[trigger] idx.names@[i]@ == e,
{
    ids_of(idx.names@).unique_seq_to_set();
    assert forall|i: int, j: int| 0 <= i < j < idx.names@.len() implies idx.names@[i]@ != idx.names@[j]@ by {
        assert(ids_of(idx.names@)[i] == idx.names@[i]@);
        assert(ids_of(idx.names@)[j] == idx.names@[j]@);
    }
    assert forall|i: int| 0 <= i < idx.names@.len() implies ids_of(catalog).contains(#[trigger] idx.names@[i]@) by {
        assert(ids_of(idx.names@)[i] == idx.names@[i]@);
        assert(idx.entities().contains(idx.names@[i]@));
    }
    assert forall|e: Seq<char>| ids_of(catalog).contains(e)
        implies exists|i: int| 0 <= i < idx.names@.len() && #[trigger] idx.names@[i]@ == e by {
        assert(idx.entities().contains(e));
        let i = choose|i: int| 0 <= i < ids_of(idx.names@).len() && ids_of(idx.names@)[i] == e;
        assert(idx.names@[i]@ == e);
    }
}

} // verus!
