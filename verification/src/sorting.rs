use rayon::slice::ParallelSliceMut;
use std::collections::HashMap;
use vstd::prelude::*;
use vstd::std_specs::iter::IteratorSpec;

verus! {

/// The order of pairs: by the first part, then by the second.
pub open spec fn pair_le(a: (i64, u64), b: (i64, u64)) -> bool {
    a.0 < b.0 || (a.0 == b.0 && a.1 <= b.1)
}

/// No pair stands before a smaller one.
pub open spec fn is_sorted(s: Seq<(i64, u64)>) -> bool {
    forall|i: int, j: int| 0 <= i <= j < s.len() ==> pair_le(#[trigger] s[i], #[trigger] s[j])
}

/// Calls `sort_unstable` of std's slices on pairs of integers, which std
/// orders by the first part and then by the second. Afterwards the vector
/// holds the same pairs as before, in ascending order.
#[verifier::external_body]
fn sort_sequential(pairs: &mut Vec<(i64, u64)>)
    ensures
        final(pairs)@.to_multiset() == old(pairs)@.to_multiset(),
        is_sorted(final(pairs)@),
{
    pairs.sort_unstable();
}

/// Calls `par_sort_unstable` of rayon's `ParallelSliceMut`, which sorts the
/// slice by the order of its items on several threads. Afterwards the vector
/// holds the same pairs as before, in ascending order.
#[verifier::external_body]
fn sort_parallel(pairs: &mut Vec<(i64, u64)>)
    ensures
        final(pairs)@.to_multiset() == old(pairs)@.to_multiset(),
        is_sorted(final(pairs)@),
{
    pairs.par_sort_unstable();
}

/// Sorts the pairs in ascending order, on several threads if `parallel`.
pub fn sort_pairs(pairs: &mut Vec<(i64, u64)>, parallel: bool)
    ensures
        final(pairs)@.to_multiset() == old(pairs)@.to_multiset(),
        is_sorted(final(pairs)@),
{
    if parallel {
        sort_parallel(pairs);
    } else {
        sort_sequential(pairs);
    }
}

/// The first `i + 1` items are the first `i` and the one at `i`.
pub proof fn lemma_take_one_more(ids: Seq<u64>, i: int)
    requires
        0 <= i < ids.len(),
    ensures
        forall|e: u64|
            #[trigger] ids.take(i + 1).contains(e) <==> e == ids[i] || ids.take(i).contains(e),
{
    let longer = ids.take(i + 1);
    let shorter = ids.take(i);
    assert forall|e: u64| #[trigger] longer.contains(e) <==> e == ids[i] || shorter.contains(
        e,
    ) by {
        if longer.contains(e) {
            let j = choose|j: int| 0 <= j < longer.len() && longer[j] == e;
            if j < i {
                assert(shorter[j] == e);
            }
        }
        if shorter.contains(e) {
            let j = choose|j: int| 0 <= j < shorter.len() && shorter[j] == e;
            assert(longer[j] == e);
        }
        if e == ids[i] {
            assert(longer[i] == e);
        }
    }
}

/// The keys of a map, each once, in no particular order.
pub fn entity_ids<V>(map: &HashMap<u64, V>) -> (ids: Vec<u64>)
    ensures
        ids@.no_duplicates(),
        ids@.to_set() == map@.dom(),
        ids@.len() == map@.dom().len(),
{
    broadcast use vstd::std_specs::hash::group_hash_axioms;

    let mut ids: Vec<u64> = Vec::new();
    let ghost keys = map.keys().remaining();
    for key in it: map.keys()
        invariant
            it.seq() == keys,
            ids@.len() == it.index(),
            forall|j: int| 0 <= j < ids@.len() ==> ids@[j] == *keys[j],
    {
        ids.push(*key);
    }
    proof {
        assert(ids@ =~= keys.unref());
    }
    ids
}

} // verus!
