//! The order in which one step of the relaxation visits the children of a
//! folder: every child once, in an order drawn afresh for each step.

use vstd::prelude::*;

verus! {

/// The random number generator that the orders are drawn from.
#[verifier::external_type_specification]
#[verifier::external_body]
pub struct ExStdRng(rand::rngs::StdRng);

/// The children of a folder in the order in which they stand in it.
pub open spec fn standing_order(count: nat) -> Seq<usize> {
    Seq::new(count, |i: int| i as usize)
}

/// Whether `order` visits each of `count` children exactly once.
pub open spec fn is_visit_order(order: Seq<usize>, count: nat) -> bool {
    &&& order.len() == count
    &&& order.no_duplicates()
    &&& forall|i: int| 0 <= i < order.len() ==> #[trigger] order[i] < count
    &&& forall|child: usize| child < count ==> #[trigger] order.contains(child)
}

/// Rearranges `order` at random.
///
/// Calls `rand::seq::SliceRandom::shuffle`, which only swaps elements of the
/// slice: what the slice holds, and how often, stays as it was. Nothing is
/// claimed of the arrangement that comes out, nor of the generator.
#[verifier::external_body]
fn shuffle(order: &mut Vec<usize>, rng: &mut rand::rngs::StdRng)
    ensures
        final(order)@.to_multiset() == old(order)@.to_multiset(),
{
    rand::seq::SliceRandom::shuffle(order.as_mut_slice(), rng);
}

/// A rearrangement of the standing order visits each child exactly once.
pub proof fn lemma_rearranged_is_visit_order(order: Seq<usize>, count: nat)
    requires
        count <= usize::MAX,
        order.to_multiset() == standing_order(count).to_multiset(),
    ensures
        is_visit_order(order, count),
{
    let standing = standing_order(count);
    order.to_multiset_ensures();
    standing.to_multiset_ensures();
    assert(standing.no_duplicates());
    standing.lemma_multiset_has_no_duplicates();
    order.lemma_multiset_has_no_duplicates_conv();
    assert forall|i: int| 0 <= i < order.len() implies #[trigger] order[i] < count by {
        assert(order.contains(order[i]));
        assert(standing.to_multiset().count(order[i]) > 0);
        assert(standing.contains(order[i]));
        let j = choose|j: int| 0 <= j < standing.len() && standing[j] == order[i];
        assert(standing[j] == j as usize);
    }
    assert forall|child: usize| child < count implies #[trigger] order.contains(child) by {
        assert(standing[child as int] == child);
        assert(standing.contains(child));
        assert(order.to_multiset().count(child) > 0);
    }
}

/// The order in which the next step visits `count` children: each of them
/// once, arranged at random.
pub fn visit_order(count: usize, rng: &mut rand::rngs::StdRng) -> (order: Vec<usize>)
    ensures
        is_visit_order(order@, count as nat),
{
    let mut order: Vec<usize> = Vec::new();
    let mut i: usize = 0;
    while i < count
        invariant
            i <= count,
            order@ =~= standing_order(i as nat),
        decreases count - i,
    {
        order.push(i);
        i = i + 1;
    }
    shuffle(&mut order, rng);
    proof {
        lemma_rearranged_is_visit_order(order@, count as nat);
    }
    order
}

} // verus!
