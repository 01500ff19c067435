//! Putting ranked cells in order.

use vstd::prelude::*;

verus! {

/// Entry `a` may stand before entry `b`: its rank is lower, or the ranks
/// are equal and its cell does not come later.
pub open spec fn in_order(a: (u64, usize), b: (u64, usize)) -> bool {
    a.0 < b.0 || (a.0 == b.0 && a.1 <= b.1)
}

/// Every entry may stand before all that follow it.
pub open spec fn is_sorted(entries: Seq<(u64, usize)>) -> bool {
    forall|a: int, b: int|
        0 <= a < b < entries.len() ==> in_order(#[trigger] entries[a], #[trigger] entries[b])
}

/// Sorts the entries by rank and, among equal ranks, by cell.
///
/// The work is done by `<[T]>::sort` of the standard library, whose
/// behaviour is believed here, not proved: after the call the vector holds
/// the entries that it held before, each as often as before, in ascending
/// order, where pairs of integers are ordered by their first component and
/// then by their second.
#[verifier::external_body]
pub(crate) fn sort_entries(entries: &mut Vec<(u64, usize)>)
    ensures
        final(entries)@.to_multiset() == old(entries)@.to_multiset(),
        is_sorted(final(entries)@),
{
    entries.sort();
}

/// A sorted rearrangement of entries that are all different holds the same
/// entries, each once.
pub proof fn lemma_sorted_rearrangement(before: Seq<(u64, usize)>, after: Seq<(u64, usize)>)
    requires
        before.no_duplicates(),
        after.to_multiset() == before.to_multiset(),
    ensures
        after.len() == before.len(),
        after.no_duplicates(),
        forall|e: (u64, usize)| after.contains(e) <==> before.contains(e),
{
    before.to_multiset_ensures();
    after.to_multiset_ensures();
    before.lemma_multiset_has_no_duplicates();
    after.lemma_multiset_has_no_duplicates_conv();
    assert forall|e: (u64, usize)| after.contains(e) <==> before.contains(e) by {
        assert(after.contains(e) <==> after.to_multiset().count(e) > 0);
        assert(before.contains(e) <==> before.to_multiset().count(e) > 0);
    }
}

/// `order` lists the places whose value reaches `threshold`, each once,
/// from the largest value down and, among equal values, the earlier place
/// first.
pub open spec fn is_ranked(order: Seq<usize>, values: Seq<u64>, threshold: u64) -> bool {
    &&& forall|a: int|
        0 <= a < order.len() ==> (#[trigger] order[a]) < values.len() && values[order[a] as int]
            >= threshold
    &&& forall|i: int|
        0 <= i < values.len() && #[trigger] values[i] >= threshold ==> order.contains(i as usize)
    &&& forall|a: int, b: int|
        0 <= a < b < order.len() ==> {
            ||| values[(#[trigger] order[a]) as int] > values[(#[trigger] order[b]) as int]
            ||| values[order[a] as int] == values[order[b] as int] && order[a] < order[b]
        }
}

/// A ranking with threshold 0 lists every place.
proof fn lemma_ranked_all(order: Seq<usize>, values: Seq<u64>)
    requires
        is_ranked(order, values, 0),
        values.len() <= usize::MAX,
    ensures
        order.len() == values.len(),
{
    // Every place occurs in `order`, no place occurs twice, and no entry
    // of `order` lies outside: so there are as many entries as places.
    let places = Set::new(|i: int| 0 <= i < values.len());
    assert forall|a: int, b: int| 0 <= a < order.len() && 0 <= b < order.len() && a
        != b implies order[a] != order[b] by {
        if a < b {
            assert(values[order[a] as int] > values[order[b] as int] || order[a] < order[b]);
        } else {
            assert(values[order[b] as int] > values[order[a] as int] || order[b] < order[a]);
        }
    }
    vstd::set_lib::lemma_int_range(0, values.len() as int);
    assert(places =~= vstd::set_lib::set_int_range(0, values.len() as int));
    let cells = order.map_values(|p: usize| p as int);
    assert(cells.no_duplicates()) by {
        assert forall|a: int, b: int| 0 <= a < cells.len() && 0 <= b < cells.len() && a
            != b implies cells[a] != cells[b] by {
            assert(order[a] != order[b]);
        }
    }
    cells.unique_seq_to_set();
    assert(cells.to_set() =~= places) by {
        assert forall|i: int| places.contains(i) implies cells.to_set().contains(i) by {
            assert(values[i] >= 0);
            assert(order.contains(i as usize));
            let a = choose|a: int| 0 <= a < order.len() && order[a] == i as usize;
            assert(cells[a] == i);
        }
        assert forall|i: int| cells.to_set().contains(i) implies places.contains(i) by {
            let a = choose|a: int| 0 <= a < cells.len() && cells[a] == i;
            assert(order[a] < values.len());
        }
    }
}

/// The places whose value reaches `threshold`, from the largest value
/// down and, among equal values, the earlier place first.
pub fn ranked_indices(values: &Vec<u64>, threshold: u64) -> (order: Vec<usize>)
    ensures
        is_ranked(order@, values@, threshold),
        threshold == 0 ==> order@.len() == values@.len(),
{
    let n: usize = values.len();
    let mut entries: Vec<(u64, usize)> = Vec::new();
    let mut idx: usize = 0;
    while idx < n
        invariant
            idx <= n,
            n == values@.len(),
            forall|a: int|
                0 <= a < entries@.len() ==> {
                    &&& (#[trigger] entries@[a]).1 < idx
                    &&& values@[entries@[a].1 as int] >= threshold
                    &&& entries@[a].0 == u64::MAX - values@[entries@[a].1 as int]
                },
            forall|a: int, b: int|
                0 <= a < b < entries@.len() ==> (#[trigger] entries@[a]).1 < (
                #[trigger] entries@[b]).1,
            forall|i: int|
                0 <= i < idx && #[trigger] values@[i] >= threshold ==> entries@.contains(
                    ((u64::MAX - values@[i]) as u64, i as usize),
                ),
        decreases n - idx,
    {
        let ghost earlier = entries@;
        if values[idx] >= threshold {
            entries.push((u64::MAX - values[idx], idx));
        }
        proof {
            assert forall|i: int|
                0 <= i < idx + 1 && #[trigger] values@[i] >= threshold implies entries@.contains(
                ((u64::MAX - values@[i]) as u64, i as usize),
            ) by {
                let e = ((u64::MAX - values@[i]) as u64, i as usize);
                if i < idx {
                    assert(earlier.contains(e));
                    let a = choose|a: int| 0 <= a < earlier.len() && earlier[a] == e;
                    assert(entries@[a] == e);
                } else {
                    assert(entries@[earlier.len() as int] == e);
                }
            }
        }
        idx += 1;
    }
    let ghost listed = entries@;
    sort_entries(&mut entries);
    proof {
        lemma_sorted_rearrangement(listed, entries@);
        assert forall|a: int| 0 <= a < entries@.len() implies {
            &&& (#[trigger] entries@[a]).1 < n
            &&& values@[entries@[a].1 as int] >= threshold
            &&& entries@[a].0 == u64::MAX - values@[entries@[a].1 as int]
        } by {
            assert(entries@.contains(entries@[a]));
            assert(listed.contains(entries@[a]));
            let b = choose|b: int| 0 <= b < listed.len() && listed[b] == entries@[a];
        }
    }
    let mut order: Vec<usize> = Vec::new();
    let mut a: usize = 0;
    while a < entries.len()
        invariant
            a <= entries@.len(),
            order@.len() == a,
            forall|b: int| 0 <= b < a ==> order@[b] == (#[trigger] entries@[b]).1,
        decreases entries@.len() - a,
    {
        order.push(entries[a].1);
        a += 1;
    }
    proof {
        assert forall|a: int| 0 <= a < order@.len() implies (#[trigger] order@[a]) < values@.len()
            && values@[order@[a] as int] >= threshold by {
            assert(entries@[a].1 < n);
        }
        assert forall|i: int|
            0 <= i < values@.len() && #[trigger] values@[i] >= threshold implies order@.contains(
            i as usize,
        ) by {
            let e = ((u64::MAX - values@[i]) as u64, i as usize);
            assert(listed.contains(e));
            assert(entries@.contains(e));
            let b = choose|b: int| 0 <= b < entries@.len() && entries@[b] == e;
            assert(order@[b] == i as usize);
        }
        assert forall|a: int, b: int| 0 <= a < b < order@.len() implies {
            ||| values@[(#[trigger] order@[a]) as int] > values@[(#[trigger] order@[b]) as int]
            ||| values@[order@[a] as int] == values@[order@[b] as int] && order@[a] < order@[b]
        } by {
            assert(in_order(entries@[a], entries@[b]));
            assert(entries@[a] != entries@[b]);
        }
        if threshold == 0 {
            lemma_ranked_all(order@, values@);
        }
    }
    order
}

} // verus!
