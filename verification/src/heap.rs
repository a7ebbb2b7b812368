//! The queue of candidates that a traversal draws from, best first.
//!
//! The queue is a max-heap of `binary_heap_plus` over pairs of a rank and a
//! node index. Pairs are ordered by rank first and by index second, so the
//! queue always gives up the best-ranked candidate, and among equals the one
//! with the greatest index.
use binary_heap_plus::BinaryHeap;
use binary_heap_plus::MaxComparator;
use vstd::multiset::Multiset;
use vstd::prelude::*;

verus! {

/// A candidate in the queue: its rank under the metric, then its node index.
pub type Candidate = (i32, u32);

/// `BinaryHeap` of `binary_heap_plus`, taken as it is: nothing is known of a
/// heap but what the functions below say of the candidates it holds.
#[verifier::external_type_specification]
#[verifier::external_body]
#[verifier::reject_recursive_types(T)]
#[verifier::reject_recursive_types(C)]
pub struct ExBinaryHeap<T, C>(BinaryHeap<T, C>);

/// `MaxComparator` of `binary_heap_plus`, the order of a max-heap: it
/// compares two items as `Ord` does.
#[verifier::external_type_specification]
#[verifier::external_body]
pub struct ExMaxComparator(MaxComparator);

/// The candidates that a queue holds, each as often as it was pushed and not
/// yet popped.
pub uninterp spec fn queue_items(queue: BinaryHeap<(i32, u32), MaxComparator>) -> Multiset<(i32, u32)>;

/// The order of the queue: by rank, then by node index.
pub open spec fn candidate_le(a: Candidate, b: Candidate) -> bool {
    a.0 < b.0 || (a.0 == b.0 && a.1 <= b.1)
}

/// Whether `top` is in `items` and nothing in `items` is above it.
pub open spec fn is_top(items: Multiset<Candidate>, top: Candidate) -> bool {
    &&& items.count(top) > 0
    &&& forall|other: Candidate| items.count(other) > 0 ==> candidate_le(other, top)
}

/// The candidate that a queue holding `items` gives up next.
pub open spec fn top_of(items: Multiset<Candidate>) -> Candidate {
    choose|top: Candidate| is_top(items, top)
}

/// A queue has at most one top.
pub proof fn lemma_top_is_unique(items: Multiset<Candidate>, top: Candidate)
    requires
        is_top(items, top),
    ensures
        top_of(items) == top,
{
    let other = top_of(items);
    assert(is_top(items, other));
    assert(candidate_le(other, top));
    assert(candidate_le(top, other));
}

/// `BinaryHeap::new` of `binary_heap_plus`: a max-heap that holds nothing.
#[verifier::external_body]
pub(crate) fn queue_new() -> (queue: BinaryHeap<(i32, u32), MaxComparator>)
    ensures
        queue_items(queue) == Multiset::<(i32, u32)>::empty(),
{
    BinaryHeap::new()
}

/// `BinaryHeap::push` of `binary_heap_plus`: the heap holds one more copy of
/// `item` and is otherwise unchanged.
#[verifier::external_body]
pub(crate) fn queue_push(queue: &mut BinaryHeap<(i32, u32), MaxComparator>, item: (i32, u32))
    ensures
        queue_items(*final(queue)) == queue_items(*old(queue)).insert(item),
{
    queue.push(item)
}

/// `BinaryHeap::pop` of `binary_heap_plus`: on an empty heap it returns
/// `None` and changes nothing; otherwise it takes out and returns one copy
/// of the greatest pair, in the lexicographic order that pairs of integers
/// have.
#[verifier::external_body]
pub(crate) fn queue_pop(queue: &mut BinaryHeap<(i32, u32), MaxComparator>) -> (popped: Option<
    (i32, u32),
>)
    ensures
        match popped {
            Some(item) => is_top(queue_items(*old(queue)), item) && queue_items(*final(queue))
                == queue_items(*old(queue)).remove(item),
            None => queue_items(*old(queue)).len() == 0 && queue_items(*final(queue))
                == queue_items(*old(queue)),
        },
{
    queue.pop()
}

} // verus!
