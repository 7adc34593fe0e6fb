//! Every non-empty subset of a candidate group up to a size bound.
use vstd::prelude::*;

verus! {

broadcast use {vstd::seq_lib::group_seq_properties, vstd::set_lib::group_set_properties};

/// `c` is a subset of `options`, without repeats, with between one and `length` elements.
pub open spec fn is_combination(c: Seq<u32>, options: Seq<u32>, length: int) -> bool {
    &&& c.no_duplicates()
    &&& forall|x: u32| c.contains(x) ==> options.contains(x)
    &&& 1 <= c.len() <= length
}

/// No two entries of `cs` hold the same elements.
pub open spec fn distinct_as_sets(cs: Seq<Vec<u32>>) -> bool {
    forall|a: int, b: int|
        0 <= a < cs.len() && 0 <= b < cs.len() && a != b
            ==> #[trigger] cs[a]@.to_set() != #[trigger] cs[b]@.to_set()
}

/// Every subset of `options` with between one and `length` elements is held by some entry.
pub open spec fn all_combinations_present(cs: Seq<Vec<u32>>, options: Seq<u32>, length: int) -> bool {
    forall|t: Set<u32>|
        t.subset_of(options.to_set()) && 1 <= t.len() <= length
            ==> exists|j: int| 0 <= j < cs.len() && (#[trigger] cs[j]@.to_set()) == t
}

/// The subsets held so far: those of `prefix` up to `length` elements, the empty one first.
spec fn subsets_of_prefix(acc: Seq<Vec<u32>>, prefix: Seq<u32>, length: int) -> bool {
    &&& acc.len() >= 1
    &&& acc[0]@.len() == 0
    &&& forall|j: int| 0 < j < acc.len() ==> (#[trigger] acc[j])@.len() >= 1
    &&& forall|j: int| 0 <= j < acc.len() ==> (#[trigger] acc[j])@.no_duplicates()
    &&& forall|j: int| 0 <= j < acc.len() ==> (#[trigger] acc[j])@.len() <= length
    &&& forall|j: int, x: u32| 0 <= j < acc.len() && #[trigger] acc[j]@.contains(x) ==> prefix.contains(x)
    &&& distinct_as_sets(acc)
    &&& forall|t: Set<u32>|
        t.subset_of(prefix.to_set()) && t.len() <= length
            ==> exists|j: int| 0 <= j < acc.len() && (#[trigger] acc[j]@.to_set()) == t
}

/// Extends, with `x`, each subset of `acc` shorter than `length`.
fn product(acc: &Vec<Vec<u32>>, x: u32, length: usize) -> (r: (Vec<Vec<u32>>, Ghost<Seq<int>>))
    ensures
        r.0@.len() == r.1@.len(),
        forall|m: int| 0 <= m < r.0@.len() ==> 0 <= #[trigger] r.1@[m] < acc@.len(),
        forall|m: int| 0 <= m < r.0@.len() ==> (#[trigger] r.0@[m])@ == acc@[r.1@[m]]@.push(x),
        forall|m: int| 0 <= m < r.0@.len() ==> acc@[#[trigger] r.1@[m]]@.len() < length,
        forall|m1: int, m2: int| 0 <= m1 < m2 < r.0@.len() ==> #[trigger] r.1@[m1] < #[trigger] r.1@[m2],
        forall|j: int| 0 <= j < acc@.len() && (#[trigger] acc@[j])@.len() < length
            ==> exists|m: int| 0 <= m < r.0@.len() && r.1@[m] == j,
{
    let mut ext: Vec<Vec<u32>> = Vec::new();
    let ghost mut src: Seq<int> = Seq::empty();
    let mut j: usize = 0;
    while j < acc.len()
        invariant
            0 <= j <= acc.len(),
            ext@.len() == src.len(),
            forall|m: int| 0 <= m < ext@.len() ==> 0 <= #[trigger] src[m] < j,
            forall|m: int| 0 <= m < ext@.len() ==> (#[trigger] ext@[m])@ == acc@[src[m]]@.push(x),
            forall|m: int| 0 <= m < ext@.len() ==> acc@[#[trigger] src[m]]@.len() < length,
            forall|m1: int, m2: int| 0 <= m1 < m2 < ext@.len() ==> #[trigger] src[m1] < #[trigger] src[m2],
            forall|i: int| 0 <= i < j && (#[trigger] acc@[i])@.len() < length
                ==> exists|m: int| 0 <= m < ext@.len() && src[m] == i,
        decreases acc.len() - j,
    {
        if acc[j].len() < length {
            let mut s = acc[j].clone();
            assert(s@ == acc@[j as int]@);
            s.push(x);
            ext.push(s);
            proof {
                let ghost old_src = src;
                src = src.push(j as int);
                assert forall|i: int| 0 <= i < j + 1 && (#[trigger] acc@[i])@.len() < length
                    implies exists|m: int| 0 <= m < ext@.len() && src[m] == i by {
                    if i == j {
                        assert(src[ext@.len() - 1] == i);
                    } else {
                        let m = choose|m: int| 0 <= m < ext@.len() - 1 && old_src[m] == i;
                        assert(src[m] == i);
                    }
                }
            }
        }
        j = j + 1;
    }
    (ext, Ghost(src))
}

/// Appending the extensions by a new element `x` to the subsets of a prefix
/// gives the subsets of the prefix followed by `x`.
proof fn lemma_extend_prefix(
    acc: Seq<Vec<u32>>,
    ext: Seq<Vec<u32>>,
    src: Seq<int>,
    prefix: Seq<u32>,
    x: u32,
    length: int,
)
    requires
        subsets_of_prefix(acc, prefix, length),
        !prefix.contains(x),
        ext.len() == src.len(),
        forall|m: int| 0 <= m < ext.len() ==> 0 <= #[trigger] src[m] < acc.len(),
        forall|m: int| 0 <= m < ext.len() ==> (#[trigger] ext[m])@ == acc[src[m]]@.push(x),
        forall|m: int| 0 <= m < ext.len() ==> acc[#[trigger] src[m]]@.len() < length,
        forall|m1: int, m2: int| 0 <= m1 < m2 < ext.len() ==> #[trigger] src[m1] < #[trigger] src[m2],
        forall|j: int| 0 <= j < acc.len() && (#[trigger] acc[j])@.len() < length
            ==> exists|m: int| 0 <= m < ext.len() && src[m] == j,
    ensures
        subsets_of_prefix(acc + ext, prefix.push(x), length),
{
    let all = acc + ext;
    let n = acc.len() as int;
    let p2 = prefix.push(x);
    assert forall|m: int| 0 <= m < ext.len() implies
        (#[trigger] ext[m])@.to_set() == acc[src[m]]@.to_set().insert(x)
            && !acc[src[m]]@.contains(x) by {
        acc[src[m]]@.lemma_push_to_set_commute(x);
        if acc[src[m]]@.contains(x) {
            assert(prefix.contains(x));
        }
    }
    assert forall|j: int| 0 <= j < all.len() implies (#[trigger] all[j])@.no_duplicates() by {
        if j >= n {
            assert(all[j] == ext[j - n]);
            assert(!acc[src[j - n]]@.contains(x));
        }
    }
    assert forall|j: int| 0 <= j < all.len() implies (#[trigger] all[j])@.len() <= length by {
        if j >= n {
            assert(all[j] == ext[j - n]);
        }
    }
    assert forall|j: int| 0 < j < all.len() implies (#[trigger] all[j])@.len() >= 1 by {
        if j >= n {
            assert(all[j] == ext[j - n]);
        }
    }
    assert forall|j: int, y: u32| 0 <= j < all.len() && #[trigger] all[j]@.contains(y) implies p2.contains(y) by {
        if j < n {
            assert(acc[j]@.contains(y));
            assert(prefix.contains(y));
        } else {
            assert(all[j] == ext[j - n]);
            if y != x {
                assert(acc[src[j - n]]@.contains(y));
                assert(prefix.contains(y));
            }
        }
    }
    assert forall|a: int, b: int|
        0 <= a < all.len() && 0 <= b < all.len() && a != b
            implies #[trigger] all[a]@.to_set() != #[trigger] all[b]@.to_set() by {
        if a < n && b >= n {
            assert(all[b] == ext[b - n]);
            assert(all[b]@.to_set().contains(x));
            if all[a]@.to_set().contains(x) {
                assert(prefix.contains(x));
            }
        } else if a >= n && b < n {
            assert(all[a] == ext[a - n]);
            assert(all[a]@.to_set().contains(x));
            if all[b]@.to_set().contains(x) {
                assert(prefix.contains(x));
            }
        } else if a >= n && b >= n {
            assert(all[a] == ext[a - n]);
            assert(all[b] == ext[b - n]);
            let sa = acc[src[a - n]]@.to_set();
            let sb = acc[src[b - n]]@.to_set();
            assert(src[a - n] != src[b - n]);
            if all[a]@.to_set() == all[b]@.to_set() {
                assert(sa.insert(x).remove(x) =~= sa);
                assert(sb.insert(x).remove(x) =~= sb);
            }
        }
    }
    assert forall|t: Set<u32>| t.subset_of(p2.to_set()) && t.len() <= length
        implies exists|j: int| 0 <= j < all.len() && (#[trigger] all[j]@.to_set()) == t by {
        p2.lemma_push_to_set_commute(x);
        vstd::set_lib::lemma_len_subset(t, p2.to_set());
        if !t.contains(x) {
            assert(t.subset_of(prefix.to_set()));
            let j = choose|j: int| 0 <= j < acc.len() && (#[trigger] acc[j]@.to_set()) == t;
            assert(all[j] == acc[j]);
        } else {
            let t0 = t.remove(x);
            assert(t0.subset_of(prefix.to_set()));
            assert(t0.len() == t.len() - 1);
            let j = choose|j: int| 0 <= j < acc.len() && (#[trigger] acc[j]@.to_set()) == t0;
            acc[j]@.unique_seq_to_set();
            let m = choose|m: int| 0 <= m < ext.len() && src[m] == j;
            assert(t0.insert(x) =~= t);
            assert(all[n + m] == ext[m]);
            assert(all[n + m]@.to_set() == t);
        }
    }
}

/// All subsets of `options` with between one and `length` elements, each once,
/// every one listed without repeats.
pub fn find_all_products(options: &Vec<u32>, length: usize) -> (r: Vec<Vec<u32>>)
    requires
        options@.no_duplicates(),
    ensures
        forall|j: int| 0 <= j < r@.len() ==> is_combination(#[trigger] r@[j]@, options@, length as int),
        distinct_as_sets(r@),
        all_combinations_present(r@, options@, length as int),
{
    let mut acc: Vec<Vec<u32>> = Vec::new();
    acc.push(Vec::new());
    proof {
        let empty_prefix = options@.subrange(0, 0);
        assert forall|t: Set<u32>| t.subset_of(empty_prefix.to_set()) && t.len() <= length
            implies exists|j: int| 0 <= j < acc@.len() && (#[trigger] acc@[j]@.to_set()) == t by {
            assert(empty_prefix.to_set() =~= Set::empty());
            assert(t =~= Set::empty());
            assert(acc@[0]@.to_set() =~= Set::empty());
        }
    }
    let mut i: usize = 0;
    while i < options.len()
        invariant
            0 <= i <= options.len(),
            options@.no_duplicates(),
            subsets_of_prefix(acc@, options@.subrange(0, i as int), length as int),
        decreases options.len() - i,
    {
        let x = options[i];
        let (mut ext, Ghost(src)) = product(&acc, x, length);
        proof {
            let prefix = options@.subrange(0, i as int);
            assert(!prefix.contains(x));
            lemma_extend_prefix(acc@, ext@, src, prefix, x, length as int);
            assert(prefix.push(x) == options@.subrange(0, i as int + 1));
        }
        acc.append(&mut ext);
        i = i + 1;
    }
    let ghost full = acc@;
    acc.remove(0);
    proof {
        assert(options@.subrange(0, options@.len() as int) == options@);
        assert(acc@ == full.subrange(1, full.len() as int));
        assert forall|j: int| 0 <= j < acc@.len() implies is_combination(#[trigger] acc@[j]@, options@, length as int) by {
            assert(acc@[j] == full[j + 1]);
        }
        assert forall|a: int, b: int|
            0 <= a < acc@.len() && 0 <= b < acc@.len() && a != b
                implies #[trigger] acc@[a]@.to_set() != #[trigger] acc@[b]@.to_set() by {
            assert(acc@[a] == full[a + 1]);
            assert(acc@[b] == full[b + 1]);
        }
        assert forall|t: Set<u32>| t.subset_of(options@.to_set()) && 1 <= t.len() <= length
            implies exists|j: int| 0 <= j < acc@.len() && (#[trigger] acc@[j]@.to_set()) == t by {
            let j = choose|j: int| 0 <= j < full.len() && (#[trigger] full[j]@.to_set()) == t;
            if j == 0 {
                assert(full[0]@.to_set() =~= Set::empty());
            }
            assert(acc@[j - 1] == full[j]);
        }
    }
    acc
}

} // verus!
