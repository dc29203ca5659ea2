//! Numbers in order.
use vstd::prelude::*;
use crate::distance::single::F32;
use crate::sorting;
use crate::sorting::stable_order;

verus! {

/// The ranks of numbers: the order by which they compare.
pub open spec fn rank_keys(values: Seq<F32>) -> Seq<i128> {
    Seq::new(values.len(), |i: int| values[i].rank() as i128)
}

/// The ranks of numbers in the order that tells the two zeros apart.
pub open spec fn total_rank_keys(values: Seq<F32>) -> Seq<i128> {
    Seq::new(values.len(), |i: int| values[i].total_rank() as i128)
}

/// Numbers in order, the smallest first; equal ones as they stood.
pub open spec fn ascending(values: Seq<F32>) -> Seq<F32> {
    sorting::gathered(values, sorting::the_order(rank_keys(values)))
}

/// The places of numbers as they stand in order, the smallest first; equal ones as they stood.
pub fn places_by_rank(values: &[F32]) -> (order: Vec<usize>)
    ensures
        order@ == sorting::the_order(rank_keys(values@)),
        sorting::is_permutation(order@, values@.len()),
{
    let ghost all = rank_keys(values@);
    let mut keys: Vec<i128> = Vec::with_capacity(values.len());
    let mut i: usize = 0;
    while i < values.len()
        invariant
            i <= values@.len(),
            all == rank_keys(values@),
            keys@ == all.take(i as int),
        decreases values@.len() - i,
    {
        keys.push(values[i].rank_of() as i128);
        i += 1;
        assert(keys@ =~= all.take(i as int));
    }
    assert(keys@ =~= all);
    let order = stable_order(keys.as_slice());
    proof {
        sorting::lemma_stable_order_is_permutation(keys@, order@);
    }
    order
}

/// The places of numbers in the order that tells the two zeros apart.
pub fn places_by_total_rank(values: &[F32]) -> (order: Vec<usize>)
    ensures
        order@ == sorting::the_order(total_rank_keys(values@)),
        sorting::is_permutation(order@, values@.len()),
{
    let ghost all = total_rank_keys(values@);
    let mut keys: Vec<i128> = Vec::with_capacity(values.len());
    let mut i: usize = 0;
    while i < values.len()
        invariant
            i <= values@.len(),
            all == total_rank_keys(values@),
            keys@ == all.take(i as int),
        decreases values@.len() - i,
    {
        keys.push(values[i].total_rank_of() as i128);
        i += 1;
        assert(keys@ =~= all.take(i as int));
    }
    assert(keys@ =~= all);
    let order = stable_order(keys.as_slice());
    proof {
        sorting::lemma_stable_order_is_permutation(keys@, order@);
    }
    order
}

/// The numbers in order.
pub fn sort_numbers(values: &[F32]) -> (sorted: Vec<F32>)
    ensures
        sorted@ == ascending(values@),
        sorted@.len() == values@.len(),
{
    let order = places_by_rank(values);
    let mut sorted: Vec<F32> = Vec::with_capacity(order.len());
    let mut i: usize = 0;
    while i < order.len()
        invariant
            i <= order@.len(),
            order@ == sorting::the_order(rank_keys(values@)),
            sorting::is_permutation(order@, values@.len()),
            sorted@ == ascending(values@).take(i as int),
        decreases order@.len() - i,
    {
        assert(order@[i as int] < values@.len());
        sorted.push(values[order[i]]);
        i += 1;
        assert(sorted@ =~= ascending(values@).take(i as int));
    }
    assert(sorted@ =~= ascending(values@));
    sorted
}

/// Putting numbers in order leaves no greater one before a smaller one, and changes nothing else.
pub proof fn law_ascending_is_in_order(values: Seq<F32>)
    requires
        values.len() <= usize::MAX,
    ensures
        ascending(values).to_multiset() == values.to_multiset(),
        forall|i: int, j: int|
            #![trigger ascending(values)[i], ascending(values)[j]]
            0 <= i <= j < values.len() ==> ascending(values)[i].rank()
                <= ascending(values)[j].rank(),
{
    let keys = rank_keys(values);
    let order = sorting::the_order(keys);
    sorting::lemma_order_exists(keys);
    sorting::lemma_stable_order_is_permutation(keys, order);
    sorting::lemma_gathered_multiset(values, order);
    assert forall|i: int, j: int|
        #![trigger ascending(values)[i], ascending(values)[j]]
        0 <= i <= j < values.len() implies ascending(values)[i].rank()
        <= ascending(values)[j].rank() by {
        assert(order[i] < values.len());
        assert(order[j] < values.len());
        if i < j {
            assert(sorting::goes_before(keys, order[i] as int, order[j] as int));
        }
    }
}

} // verus!
