//! Wiring a new node into its level.
//!
//! The new node takes the results of the search that found its place as its
//! neighbours, and is then offered to each of them in turn, under the rule
//! of the bounded list.
use crate::arena::Arena;
use crate::arena::DynAlloc;
use crate::handle::Handle;
use crate::metric::DistanceMetric;
use crate::node::lemma_inserted_live;
use crate::node::lemma_inserted_wf;
use crate::node::lemma_lowest_scan;
use crate::node::scores_of;
use crate::node::Linked;
use crate::node::ListView;
use crate::node::MAX_NEIGHBORS;
use vstd::prelude::*;

verus! {

/// The neighbour lists of `nodes`, node by node.
pub open spec fn links_of<T: Linked>(nodes: Seq<T>) -> Seq<ListView> {
    Seq::new(nodes.len(), |i: int| nodes[i].links())
}

/// The list that a new node of `capacity` slots starts with.
pub open spec fn blank_list(capacity: nat) -> ListView {
    ListView {
        full: false,
        lowest_index: 0,
        lowest_score: 0,
        slots: Seq::new(capacity, |i: int| (0u32, 0u32)),
    }
}

/// The lists after the node `new` was offered to the nodes of the first
/// `count` entries of `entries`, each with the score of its entry.
pub open spec fn backlinked(
    lists: Seq<ListView>,
    entries: Seq<(u32, u32)>,
    count: nat,
    new: u32,
    metric: DistanceMetric,
) -> Seq<ListView>
    decreases count,
{
    if count == 0 {
        lists
    } else {
        let before = backlinked(lists, entries, (count - 1) as nat, new, metric);
        let entry = entries[count - 1];
        before.update(entry.0 as int, before[entry.0 as int].inserted(metric, new, entry.1))
    }
}

/// The lists after the node `new`, whose list is blank, was wired in with
/// `entries`: it takes them as its neighbours, then it is offered to each of
/// them.
pub open spec fn wired(
    lists: Seq<ListView>,
    entries: Seq<(u32, u32)>,
    new: u32,
    metric: DistanceMetric,
) -> Seq<ListView> {
    backlinked(
        lists.update(new as int, ListView::seeded(lists[new as int], entries, metric)),
        entries,
        entries.len(),
        new,
        metric,
    )
}

/// There is one blank list of each capacity.
pub proof fn lemma_blank_list(list: ListView, capacity: nat)
    requires
        list.is_blank(capacity),
    ensures
        list == blank_list(capacity),
{
    assert(list.slots =~= blank_list(capacity).slots);
}

/// A seeded list is well formed, and its live neighbours are the entries it
/// was seeded with.
pub proof fn lemma_seeded(blank: ListView, entries: Seq<(u32, u32)>, metric: DistanceMetric)
    requires
        blank.is_blank(blank.capacity()),
        blank.capacity() <= MAX_NEIGHBORS,
        entries.len() <= blank.capacity(),
    ensures
        ListView::seeded(blank, entries, metric).wf(metric),
        ListView::seeded(blank, entries, metric).capacity() == blank.capacity(),
        ListView::seeded(blank, entries, metric).live() =~= entries,
{
    let seeded = ListView::seeded(blank, entries, metric);
    lemma_lowest_scan(scores_of(seeded.slots), metric);
}

/// Offering a node to the neighbours it was given keeps every list well
/// formed and of the same capacity. A live neighbour of a list afterwards
/// was one before, or it is the new node, and then the list is that of one
/// of the entries.
pub proof fn lemma_backlinked(
    lists: Seq<ListView>,
    entries: Seq<(u32, u32)>,
    count: nat,
    new: u32,
    metric: DistanceMetric,
)
    requires
        count <= entries.len(),
        forall|i: int| 0 <= i < lists.len() ==> (#[trigger] lists[i]).wf(metric) && lists[i].capacity() > 0,
        forall|k: int| 0 <= k < count ==> (#[trigger] entries[k]).0 < lists.len(),
    ensures
        backlinked(lists, entries, count, new, metric).len() == lists.len(),
        forall|i: int|
            0 <= i < lists.len() ==> (#[trigger] backlinked(lists, entries, count, new, metric)[i]).wf(
                metric,
            ) && backlinked(lists, entries, count, new, metric)[i].capacity()
                == lists[i].capacity(),
        forall|i: int, j: int|
            0 <= i < lists.len() && 0 <= j < backlinked(
                lists,
                entries,
                count,
                new,
                metric,
            )[i].targets().len() ==> {
                let target = #[trigger] backlinked(lists, entries, count, new, metric)[i].targets()[j];
                lists[i].targets().contains(target) || (target == new && exists|k: int|
                    0 <= k < count && (#[trigger] entries[k]).0 == i)
            },
        forall|i: int|
            0 <= i < lists.len() && (forall|k: int| 0 <= k < count ==> (#[trigger] entries[k]).0 != i)
                ==> #[trigger] backlinked(lists, entries, count, new, metric)[i] == lists[i],
    decreases count,
{
    if count > 0 {
        let before = backlinked(lists, entries, (count - 1) as nat, new, metric);
        let after = backlinked(lists, entries, count, new, metric);
        let entry = entries[count - 1];
        lemma_backlinked(lists, entries, (count - 1) as nat, new, metric);
        let changed = before[entry.0 as int];
        lemma_inserted_wf(changed, metric, new, entry.1);
        assert forall|i: int, j: int| 0 <= i < lists.len() && 0 <= j < after[i].targets().len() implies {
            let target = #[trigger] after[i].targets()[j];
            lists[i].targets().contains(target) || (target == new && exists|k: int|
                0 <= k < count && (#[trigger] entries[k]).0 == i)
        } by {
            let target = after[i].targets()[j];
            if i == entry.0 as int {
                lemma_inserted_live(changed, metric, new, entry.1, j);
                let live = after[i].live();
                if live[j] == (new, entry.1) {
                    assert(entries[count - 1].0 == i);
                } else {
                    let old_slot = choose|s: int| 0 <= s < changed.live().len() && changed.live()[s] == live[j];
                    assert(before[i].targets()[old_slot] == target);
                    if !lists[i].targets().contains(target) {
                        let k = choose|k: int| 0 <= k < count - 1 && (#[trigger] entries[k]).0 == i;
                        assert(entries[k].0 == i);
                    }
                }
            } else {
                assert(before[i].targets()[j] == target);
                if !lists[i].targets().contains(target) {
                    let k = choose|k: int| 0 <= k < count - 1 && (#[trigger] entries[k]).0 == i;
                    assert(entries[k].0 == i);
                }
            }
        }
    }
}

/// Wires the node `new`, whose list is blank, into its level: it takes
/// `entries` as its neighbours, then it is offered to each of them with the
/// score of the entry.
pub(crate) fn wire<T: Linked + DynAlloc>(
    arena: &mut Arena<T>,
    metric: &DistanceMetric,
    new: Handle<T>,
    entries: &Vec<(u32, u32)>,
)
    requires
        old(arena).wf(),
        new@ < old(arena)@.len(),
        old(arena)@[new@ as int].links().is_blank(old(arena)@[new@ as int].links().capacity()),
        0 < old(arena)@[new@ as int].links().capacity() <= MAX_NEIGHBORS,
        entries@.len() <= old(arena)@[new@ as int].links().capacity(),
        forall|i: int|
            0 <= i < old(arena)@.len() && i != new@ ==> (#[trigger] old(arena)@[i]).links().wf(*metric)
                && old(arena)@[i].links().capacity() > 0,
        forall|k: int| 0 <= k < entries@.len() ==> (#[trigger] entries@[k]).0 < old(arena)@.len(),
    ensures
        final(arena).wf(),
        final(arena).metadata() == old(arena).metadata(),
        final(arena).chunk_size() == old(arena).chunk_size(),
        final(arena)@.len() == old(arena)@.len(),
        links_of(final(arena)@) == wired(links_of(old(arena)@), entries@, new@, *metric),
        forall|i: int|
            0 <= i < old(arena)@.len() ==> (#[trigger] final(arena)@[i]).vector() == old(arena)@[i].vector()
                && final(arena)@[i].below() == old(arena)@[i].below(),
{
    let ghost lists = links_of(arena@);
    let ghost seeded = lists.update(new@ as int, ListView::seeded(lists[new@ as int], entries@, *metric));
    {
        let node = arena.index_mut(new);
        node.adopt(metric, entries);
    }
    proof {
        assert(links_of(arena@) =~= seeded);
        lemma_seeded(lists[new@ as int], entries@, *metric);
    }
    let mut k: usize = 0;
    while k < entries.len()
        invariant
            arena.wf(),
            arena.metadata() == old(arena).metadata(),
            arena.chunk_size() == old(arena).chunk_size(),
            arena@.len() == old(arena)@.len(),
            k <= entries@.len(),
            seeded.len() == arena@.len(),
            forall|i: int| 0 <= i < seeded.len() ==> (#[trigger] seeded[i]).wf(*metric) && seeded[i].capacity() > 0,
            forall|e: int| 0 <= e < entries@.len() ==> (#[trigger] entries@[e]).0 < arena@.len(),
            links_of(arena@) == backlinked(seeded, entries@, k as nat, new@, *metric),
            forall|i: int|
                0 <= i < old(arena)@.len() ==> (#[trigger] arena@[i]).vector() == old(arena)@[i].vector()
                    && arena@[i].below() == old(arena)@[i].below(),
        decreases entries@.len() - k,
    {
        let entry = entries[k];
        let ghost before = links_of(arena@);
        proof {
            lemma_backlinked(seeded, entries@, k as nat, new@, *metric);
            assert(before[entry.0 as int] == arena@[entry.0 as int].links());
        }
        {
            let neighbor = arena.index_mut(Handle::new(entry.0));
            neighbor.offer(metric, *new, entry.1);
        }
        proof {
            assert(links_of(arena@) =~= before.update(
                entry.0 as int,
                before[entry.0 as int].inserted(*metric, new@, entry.1),
            ));
        }
        k = k + 1;
    }
}

} // verus!
