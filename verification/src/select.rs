//! Ordering candidates best first and keeping the best of them.
//!
//! Candidates are ordered as the queue orders them: by rank, and among
//! equal ranks by node index. That order is total, so what comes out of a
//! selection depends only on which candidates went in.
use crate::heap::candidate_le;
use crate::heap::Candidate;
use vstd::prelude::*;
use vstd::seq_lib::to_multiset_build;

verus! {

/// `sorted` with `item` put in behind everything that is not below it.
pub open spec fn insert_desc(sorted: Seq<Candidate>, item: Candidate) -> Seq<Candidate>
    decreases sorted.len(),
{
    if sorted.len() == 0 {
        seq![item]
    } else if candidate_le(item, sorted.last()) {
        sorted.push(item)
    } else {
        insert_desc(sorted.drop_last(), item).push(sorted.last())
    }
}

/// The candidates of `items` from the best to the weakest.
pub open spec fn sort_desc(items: Seq<Candidate>) -> Seq<Candidate>
    decreases items.len(),
{
    if items.len() == 0 {
        Seq::<Candidate>::empty()
    } else {
        insert_desc(sort_desc(items.drop_last()), items.last())
    }
}

/// The `top_k` best candidates of `items`, or all of them if there are
/// fewer, from the best to the weakest.
pub open spec fn best_first(items: Seq<Candidate>, top_k: nat) -> Seq<Candidate> {
    let sorted = sort_desc(items);
    if top_k < sorted.len() {
        sorted.take(top_k as int)
    } else {
        sorted
    }
}

/// Whether every candidate of `items` is at least as good as all that come
/// after it.
pub open spec fn is_descending(items: Seq<Candidate>) -> bool {
    forall|i: int, j: int| 0 <= i < j < items.len() ==> candidate_le(items[j], items[i])
}

proof fn lemma_insert_desc(sorted: Seq<Candidate>, item: Candidate)
    requires
        is_descending(sorted),
    ensures
        is_descending(insert_desc(sorted, item)),
        insert_desc(sorted, item).len() == sorted.len() + 1,
        insert_desc(sorted, item).to_multiset() == sorted.to_multiset().insert(item),
        forall|i: int|
            0 <= i < sorted.len() + 1 ==> (#[trigger] insert_desc(sorted, item)[i]) == item
                || sorted.contains(insert_desc(sorted, item)[i]),
    decreases sorted.len(),
{
    let after = insert_desc(sorted, item);
    if sorted.len() == 0 {
        to_multiset_build(Seq::<Candidate>::empty(), item);
        assert(Seq::<Candidate>::empty().push(item) =~= seq![item]);
        assert(sorted =~= Seq::<Candidate>::empty());
    } else if candidate_le(item, sorted.last()) {
        to_multiset_build(sorted, item);
        assert forall|i: int| 0 <= i < sorted.len() + 1 implies (#[trigger] after[i]) == item
            || sorted.contains(after[i]) by {
            if i < sorted.len() {
                assert(sorted[i] == after[i]);
            }
        }
        assert forall|i: int, j: int| 0 <= i < j < after.len() implies candidate_le(
            after[j],
            after[i],
        ) by {
            if j == sorted.len() && i < sorted.len() - 1 {
                assert(candidate_le(sorted[sorted.len() - 1], sorted[i]));
            }
        }
    } else {
        let shorter = sorted.drop_last();
        let inner = insert_desc(shorter, item);
        lemma_insert_desc(shorter, item);
        to_multiset_build(inner, sorted.last());
        to_multiset_build(shorter, sorted.last());
        assert(shorter.push(sorted.last()) =~= sorted);
        assert(inner.to_multiset().insert(sorted.last()) =~= sorted.to_multiset().insert(item));
        assert forall|i: int| 0 <= i < sorted.len() + 1 implies (#[trigger] after[i]) == item
            || sorted.contains(after[i]) by {
            if i < sorted.len() {
                assert(after[i] == inner[i]);
                if inner[i] != item {
                    assert(shorter.contains(inner[i]));
                    let k = choose|k: int| 0 <= k < shorter.len() && shorter[k] == inner[i];
                    assert(sorted[k] == inner[i]);
                }
            } else {
                assert(after[i] == sorted.last());
                assert(sorted[sorted.len() - 1] == sorted.last());
            }
        }
        assert forall|i: int, j: int| 0 <= i < j < after.len() implies candidate_le(
            after[j],
            after[i],
        ) by {
            if j < sorted.len() {
                assert(after[i] == inner[i] && after[j] == inner[j]);
            } else {
                assert(after[i] == inner[i]);
                if inner[i] != item {
                    assert(shorter.contains(inner[i]));
                    let k = choose|k: int| 0 <= k < shorter.len() && shorter[k] == inner[i];
                    assert(candidate_le(sorted[sorted.len() - 1], sorted[k]));
                }
            }
        }
    }
}

/// Sorting keeps every candidate, as often as it occurs, and puts the best
/// first.
pub proof fn lemma_sort_desc(items: Seq<Candidate>)
    ensures
        is_descending(sort_desc(items)),
        sort_desc(items).len() == items.len(),
        sort_desc(items).to_multiset() == items.to_multiset(),
    decreases items.len(),
{
    if items.len() == 0 {
        assert(items =~= Seq::<Candidate>::empty());
    } else {
        let shorter = items.drop_last();
        lemma_sort_desc(shorter);
        lemma_insert_desc(sort_desc(shorter), items.last());
        to_multiset_build(shorter, items.last());
        assert(shorter.push(items.last()) =~= items);
    }
}

/// A selection is in descending order, has `top_k` entries or all there
/// are, holds only candidates of `items`, and leaves out none that is
/// better than one it holds.
pub proof fn lemma_best_first(items: Seq<Candidate>, top_k: nat)
    ensures
        is_descending(best_first(items, top_k)),
        best_first(items, top_k).len() == if top_k < items.len() {
            top_k
        } else {
            items.len()
        },
        forall|i: int|
            0 <= i < best_first(items, top_k).len() ==> items.contains(
                #[trigger] best_first(items, top_k)[i],
            ),
        forall|other: Candidate, i: int|
            #![trigger items.to_multiset().count(other), best_first(items, top_k)[i]]
            0 <= i < best_first(items, top_k).len() && items.to_multiset().count(other)
                > best_first(items, top_k).to_multiset().count(other) ==> candidate_le(
                other,
                best_first(items, top_k)[i],
            ),
{
    broadcast use vstd::seq_lib::group_to_multiset_ensures;

    let sorted = sort_desc(items);
    let kept = best_first(items, top_k);
    lemma_sort_desc(items);
    assert forall|i: int| 0 <= i < kept.len() implies items.contains(#[trigger] kept[i]) by {
        assert(sorted[i] == kept[i]);
        assert(sorted.contains(kept[i]));
        assert(sorted.to_multiset().count(kept[i]) > 0);
    }
    assert forall|other: Candidate, i: int|
        #![trigger items.to_multiset().count(other), kept[i]]
        0 <= i < kept.len() && items.to_multiset().count(other) > kept.to_multiset().count(
            other,
        ) implies candidate_le(other, kept[i]) by {
        if top_k < sorted.len() {
            let rest = sorted.skip(top_k as int);
            assert(kept + rest =~= sorted);
            vstd::seq_lib::lemma_multiset_commutative(kept, rest);
            assert(rest.to_multiset().count(other) > 0);
            assert(rest.contains(other));
            let k = choose|k: int| 0 <= k < rest.len() && rest[k] == other;
            assert(sorted[top_k + k] == other);
            assert(sorted[i] == kept[i]);
        }
    }
}

/// Whether `a` is not above `b` in the order of the queue.
pub fn not_above(a: Candidate, b: Candidate) -> (le: bool)
    ensures
        le == candidate_le(a, b),
{
    a.0 < b.0 || (a.0 == b.0 && a.1 <= b.1)
}

/// Sorts `items` from the best to the weakest and keeps the first `top_k`.
pub fn select_best(items: &Vec<Candidate>, top_k: usize) -> (kept: Vec<Candidate>)
    ensures
        kept@ == best_first(items@, top_k as nat),
{
    let mut sorted: Vec<Candidate> = Vec::new();
    let mut i: usize = 0;
    while i < items.len()
        invariant
            i <= items@.len(),
            sorted@ == sort_desc(items@.take(i as int)),
            sorted@.len() == i,
        decreases items@.len() - i,
    {
        let item = items[i];
        let mut j: usize = sorted.len();
        proof {
            assert(sorted@.take(j as int) =~= sorted@);
            assert(insert_desc(sorted@, item) + sorted@.skip(j as int) =~= insert_desc(
                sorted@,
                item,
            ));
        }
        while j > 0 && !not_above(item, sorted[j - 1])
            invariant
                j <= sorted@.len(),
                insert_desc(sorted@, item) == insert_desc(sorted@.take(j as int), item)
                    + sorted@.skip(j as int),
            decreases j,
        {
            proof {
                let front = sorted@.take(j as int);
                assert(front.drop_last() =~= sorted@.take(j - 1));
                assert(insert_desc(front.drop_last(), item).push(front.last()) + sorted@.skip(
                    j as int,
                ) =~= insert_desc(front.drop_last(), item) + sorted@.skip(j - 1));
            }
            j = j - 1;
        }
        proof {
            let front = sorted@.take(j as int);
            assert(insert_desc(front, item) =~= front.push(item)) by {
                if j > 0 {
                    assert(front.last() == sorted@[j - 1]);
                }
            }
            assert(front.push(item) + sorted@.skip(j as int) =~= sorted@.insert(j as int, item));
            assert(items@.take(i + 1).drop_last() =~= items@.take(i as int));
            assert(items@.take(i + 1).last() == item);
            lemma_sort_desc(items@.take(i as int));
            lemma_insert_desc(sorted@, item);
        }
        sorted.insert(j, item);
        i = i + 1;
    }
    proof {
        assert(items@.take(i as int) =~= items@);
    }
    if top_k < sorted.len() {
        sorted.truncate(top_k);
    }
    sorted
}

} // verus!
