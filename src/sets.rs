//! Vectors without duplicates used as finite sets of variable indices.
use vstd::prelude::*;

verus! {

broadcast use vstd::seq_lib::group_seq_properties;

/// Linear membership test.
pub fn vec_contains(v: &Vec<u32>, x: u32) -> (r: bool)
    ensures
        r == v@.contains(x),
{
    let mut i: usize = 0;
    while i < v.len()
        invariant
            0 <= i <= v.len(),
            forall|j: int| 0 <= j < i ==> v@[j] != x,
        decreases v.len() - i,
    {
        if v[i] == x {
            return true;
        }
        i = i + 1;
    }
    false
}

/// The elements of `v` in their order, each kept once.
pub fn dedup(v: &Vec<u32>) -> (r: Vec<u32>)
    ensures
        r@.no_duplicates(),
        r@.to_set() == v@.to_set(),
{
    let mut r: Vec<u32> = Vec::new();
    let mut i: usize = 0;
    while i < v.len()
        invariant
            0 <= i <= v.len(),
            r@.no_duplicates(),
            r@.to_set() == v@.subrange(0, i as int).to_set(),
        decreases v.len() - i,
    {
        let x = v[i];
        proof {
            assert(v@.subrange(0, i as int + 1) == v@.subrange(0, i as int).push(x));
            v@.subrange(0, i as int).lemma_push_to_set_commute(x);
        }
        if !vec_contains(&r, x) {
            proof {
                r@.lemma_push_to_set_commute(x);
            }
            r.push(x);
        } else {
            assert(r@.to_set().contains(x));
            assert(r@.to_set().insert(x) =~= r@.to_set());
        }
        i = i + 1;
    }
    assert(v@.subrange(0, v@.len() as int) == v@);
    r
}

/// The elements of `a` that `b` also holds, in the order of `a`.
pub fn intersect(a: &Vec<u32>, b: &Vec<u32>) -> (r: Vec<u32>)
    requires
        a@.no_duplicates(),
    ensures
        r@.no_duplicates(),
        forall|x: u32| r@.contains(x) <==> (a@.contains(x) && b@.contains(x)),
{
    let mut r: Vec<u32> = Vec::new();
    let mut i: usize = 0;
    while i < a.len()
        invariant
            0 <= i <= a.len(),
            a@.no_duplicates(),
            r@.no_duplicates(),
            forall|x: u32| r@.contains(x) <==> (a@.subrange(0, i as int).contains(x) && b@.contains(x)),
        decreases a.len() - i,
    {
        let x = a[i];
        assert(a@.subrange(0, i as int + 1) == a@.subrange(0, i as int).push(x));
        if vec_contains(b, x) {
            assert(!a@.subrange(0, i as int).contains(x));
            r.push(x);
        }
        i = i + 1;
    }
    assert(a@.subrange(0, a@.len() as int) == a@);
    r
}

/// The elements of `a` that `b` does not hold, in the order of `a`.
pub fn difference(a: &Vec<u32>, b: &Vec<u32>) -> (r: Vec<u32>)
    requires
        a@.no_duplicates(),
    ensures
        r@.no_duplicates(),
        forall|x: u32| r@.contains(x) <==> (a@.contains(x) && !b@.contains(x)),
{
    let mut r: Vec<u32> = Vec::new();
    let mut i: usize = 0;
    while i < a.len()
        invariant
            0 <= i <= a.len(),
            a@.no_duplicates(),
            r@.no_duplicates(),
            forall|x: u32| r@.contains(x) <==> (a@.subrange(0, i as int).contains(x) && !b@.contains(x)),
        decreases a.len() - i,
    {
        let x = a[i];
        assert(a@.subrange(0, i as int + 1) == a@.subrange(0, i as int).push(x));
        if !vec_contains(b, x) {
            assert(!a@.subrange(0, i as int).contains(x));
            r.push(x);
        }
        i = i + 1;
    }
    assert(a@.subrange(0, a@.len() as int) == a@);
    r
}

/// Adds to `u` the elements of `v` that it lacks.
pub fn extend_unique(u: &mut Vec<u32>, v: &Vec<u32>)
    requires
        old(u)@.no_duplicates(),
    ensures
        final(u)@.no_duplicates(),
        forall|x: u32| final(u)@.contains(x) <==> (old(u)@.contains(x) || v@.contains(x)),
{
    let ghost start = u@;
    let mut i: usize = 0;
    while i < v.len()
        invariant
            0 <= i <= v.len(),
            u@.no_duplicates(),
            forall|x: u32| #[trigger] u@.contains(x) <==> (start.contains(x) || v@.subrange(0, i as int).contains(x)),
        decreases v.len() - i,
    {
        let x = v[i];
        assert(v@.subrange(0, i as int + 1) == v@.subrange(0, i as int).push(x));
        let ghost before = u@;
        if !vec_contains(u, x) {
            u.push(x);
            assert(u@ == before.push(x));
        }
        assert forall|y: u32| u@.contains(y) <==> (start.contains(y) || v@.subrange(0, i as int + 1).contains(y)) by {
            assert(u@.contains(y) <==> (before.contains(y) || y == x));
            assert(before.contains(y) <==> (start.contains(y) || v@.subrange(0, i as int).contains(y)));
            assert(v@.subrange(0, i as int + 1).contains(y) <==> (v@.subrange(0, i as int).contains(y) || y == x));
        }
        i = i + 1;
    }
    assert(v@.subrange(0, v@.len() as int) == v@);
}

/// Whether every element of `a` is in `b`.
pub fn is_subset(a: &Vec<u32>, b: &Vec<u32>) -> (r: bool)
    ensures
        r == (forall|x: u32| a@.contains(x) ==> b@.contains(x)),
{
    let mut i: usize = 0;
    while i < a.len()
        invariant
            0 <= i <= a.len(),
            forall|j: int| 0 <= j < i ==> b@.contains(#[trigger] a@[j]),
        decreases a.len() - i,
    {
        if !vec_contains(b, a[i]) {
            assert(a@.contains(a@[i as int]));
            return false;
        }
        i = i + 1;
    }
    true
}

/// Whether `a` and `b` share an element.
pub fn meets(a: &Vec<u32>, b: &Vec<u32>) -> (r: bool)
    ensures
        r == (exists|x: u32| a@.contains(x) && b@.contains(x)),
{
    let mut i: usize = 0;
    while i < a.len()
        invariant
            0 <= i <= a.len(),
            forall|j: int| 0 <= j < i ==> !b@.contains(#[trigger] a@[j]),
        decreases a.len() - i,
    {
        if vec_contains(b, a[i]) {
            assert(a@.contains(a@[i as int]));
            return true;
        }
        i = i + 1;
    }
    false
}

/// Whether `a` and `b` hold the same elements.
pub fn same_set(a: &Vec<u32>, b: &Vec<u32>) -> (r: bool)
    ensures
        r == (a@.to_set() == b@.to_set()),
{
    let ab = is_subset(a, b);
    let ba = is_subset(b, a);
    if ab && ba {
        assert(a@.to_set() =~= b@.to_set());
        true
    } else {
        proof {
            if a@.to_set() == b@.to_set() {
                assert forall|x: u32| a@.contains(x) <==> b@.contains(x) by {
                    assert(a@.to_set().contains(x) == b@.to_set().contains(x));
                }
            }
        }
        false
    }
}

} // verus!
