//! The greedy best-first walk over one level of the graph.
//!
//! A walk starts at an entry node. It repeatedly takes the best candidate
//! from its queue, records it, and queues every neighbour of it that its
//! set of seen nodes does not hold yet, until the queue is empty or the
//! visit budget is spent.
//!
//! The walk is defined over a table of scores; the search that runs it
//! calls a scoring function and returns what the walk gives for every table
//! that has the scores the function returned.
use crate::arena::Arena;
use crate::arena::DoubleArena;
use crate::arena::DynAlloc;
use crate::fixedset::bucket_count;
use crate::fixedset::slot;
use crate::fixedset::FixedSet;
use crate::handle::Handle;
use crate::handle::HandleB;
use crate::heap::lemma_top_is_unique;
use crate::heap::queue_items;
use crate::heap::queue_new;
use crate::heap::queue_pop;
use crate::heap::queue_push;
use crate::heap::top_of;
use crate::heap::Candidate;
use crate::metric::lemma_rank_is_total;
use crate::metric::DistanceMetric;
use crate::node::Linked;
use crate::select::best_first;
use crate::select::select_best;
use crate::storage::QuantVec;
use crate::storage::Quantization;
use crate::storage::RawVec;
use vstd::multiset::Multiset;
use vstd::prelude::*;

verus! {

/// One level of the graph as a walk sees it: for each node the node indices
/// of its live neighbours, and the rank of its score against the query.
pub struct Layer {
    pub targets: Seq<Seq<u32>>,
    pub ranks: Seq<i32>,
}

/// The state of a walk: the candidates queued, the slots taken in the set
/// of seen nodes, and the candidates recorded so far, in the order in which
/// they were taken from the queue.
pub struct Walk {
    pub queue: Multiset<Candidate>,
    pub seen: Set<nat>,
    pub found: Seq<Candidate>,
}

/// The walk state made of the given parts.
pub open spec fn state(queue: Multiset<Candidate>, seen: Set<nat>, found: Seq<Candidate>) -> Walk {
    Walk { queue, seen, found }
}

/// A table of scores: the score of each vector against each other.
pub type Scores = spec_fn(QuantVec, QuantVec) -> u32;

/// Whether `table` has every score that `score` gives: whatever `score`
/// returns for a pair of vectors is what `table` has for the pair.
pub open spec fn agrees<F: Fn(&QuantVec, &QuantVec) -> u32>(score: F, table: Scores) -> bool {
    forall|a: QuantVec, b: QuantVec, s: u32| #[trigger]
        call_ensures(score, (&a, &b), s) ==> s == table(a, b)
}

/// Whether `score` can be called on every pair of vectors of the given
/// shape.
pub open spec fn is_scorer<F: Fn(&QuantVec, &QuantVec) -> u32>(
    score: F,
    quantization: Quantization,
    dims: u16,
) -> bool {
    forall|a: QuantVec, b: QuantVec|
        a.wf(quantization, dims) && b.wf(quantization, dims) ==> #[trigger] call_requires(
            score,
            (&a, &b),
        )
}

/// The number of slots of the set of seen nodes of a walk over a level with
/// the given fan-out.
pub open spec fn seen_capacity(fan_out: u16) -> nat {
    64 * bucket_count(fan_out) as nat
}

/// The state in which a walk starts at `entry`.
pub open spec fn start(layer: Layer, entry: u32, capacity: nat) -> Walk {
    Walk {
        queue: Multiset::<Candidate>::empty().insert((layer.ranks[entry as int], entry)),
        seen: Set::<nat>::empty().insert(slot(entry, capacity)),
        found: Seq::<Candidate>::empty(),
    }
}

/// The state after `node` was met as a neighbour: it is queued and marked
/// as seen unless the set of seen nodes holds it already.
pub open spec fn offer(walk: Walk, layer: Layer, node: u32, capacity: nat) -> Walk {
    if walk.seen.contains(slot(node, capacity)) {
        walk
    } else {
        Walk {
            queue: walk.queue.insert((layer.ranks[node as int], node)),
            seen: walk.seen.insert(slot(node, capacity)),
            found: walk.found,
        }
    }
}

/// The state after the first `count` nodes of `list` were met as neighbours.
pub open spec fn expand(walk: Walk, layer: Layer, list: Seq<u32>, count: nat, capacity: nat) -> Walk
    decreases count,
{
    if count == 0 {
        walk
    } else {
        offer(
            expand(walk, layer, list, (count - 1) as nat, capacity),
            layer,
            list[count - 1],
            capacity,
        )
    }
}

/// The state after one visit: the best candidate leaves the queue and is
/// recorded, unless it is node 0 and the root is not wanted; then its
/// neighbours are met in slot order.
pub open spec fn step(walk: Walk, layer: Layer, capacity: nat, include_root: bool) -> Walk {
    let top = top_of(walk.queue);
    let taken = Walk {
        queue: walk.queue.remove(top),
        seen: walk.seen,
        found: if include_root || top.1 != 0 {
            walk.found.push(top)
        } else {
            walk.found
        },
    };
    let list = layer.targets[top.1 as int];
    expand(taken, layer, list, list.len(), capacity)
}

/// The state after at most `budget` visits.
pub open spec fn walk(walk: Walk, layer: Layer, budget: nat, capacity: nat, include_root: bool) -> Walk
    decreases budget,
{
    if budget == 0 || walk.queue.len() == 0 {
        walk
    } else {
        self::walk(step(walk, layer, capacity, include_root), layer, (budget - 1) as nat, capacity, include_root)
    }
}

/// The candidates that a walk from `entry` with a budget of `ef` visits
/// records, in the order of the visits.
pub open spec fn visited(layer: Layer, entry: u32, ef: nat, capacity: nat, include_root: bool) -> Seq<
    Candidate,
> {
    walk(start(layer, entry, capacity), layer, ef, capacity, include_root).found
}

/// The level that the nodes of an arena make up for a query, under a table
/// of scores.
pub open spec fn layer_of<T: Linked>(
    nodes: Seq<T>,
    vectors: Seq<QuantVec>,
    metric: DistanceMetric,
    table: Scores,
    query: QuantVec,
) -> Layer {
    Layer {
        targets: Seq::new(nodes.len(), |i: int| nodes[i].links().targets()),
        ranks: Seq::new(
            nodes.len(),
            |i: int| metric.rank_of(table(query, vectors[nodes[i].vector() as int])) as i32,
        ),
    }
}

/// Whether a walk can run over the nodes that `reach` holds: each of them
/// is in its arena, stands for a stored vector, has a list with a sound
/// count, and has only neighbours that `reach` holds too.
pub open spec fn is_closed<T: Linked>(reach: spec_fn(u32) -> bool, nodes: Seq<T>, vectors: nat) -> bool {
    forall|i: u32| #[trigger]
        reach(i) ==> {
            &&& i < nodes.len()
            &&& nodes[i as int].vector() < vectors
            &&& nodes[i as int].links().shaped()
            &&& forall|j: int|
                0 <= j < nodes[i as int].links().targets().len() ==> reach(
                    #[trigger] nodes[i as int].links().targets()[j],
                )
        }
}

/// Walks one level from `entry` and returns the `top_k` best candidates
/// that the walk recorded, best first.
pub(crate) fn search_layer<T: Linked + DynAlloc, F: Fn(&QuantVec, &QuantVec) -> u32>(
    nodes: &Arena<T>,
    vectors: &DoubleArena<RawVec, QuantVec>,
    metric: &DistanceMetric,
    fan_out: u16,
    entry: u32,
    query: &QuantVec,
    ef: u16,
    top_k: u16,
    include_root: bool,
    score: &F,
    Ghost(reach): Ghost<spec_fn(u32) -> bool>,
) -> (best: Vec<Candidate>)
    requires
        nodes.wf(),
        vectors.wf(),
        is_closed(reach, nodes@, vectors.count()),
        reach(entry),
        is_scorer(*score, metric.spec_quantization(), vectors.metadata_b().dims),
        vectors.metadata_b().quantization == metric.spec_quantization(),
        query.wf(metric.spec_quantization(), vectors.metadata_b().dims),
        forall|v: int|
            0 <= v < vectors.view_b().len() ==> (#[trigger] vectors.view_b()[v]).wf(
                metric.spec_quantization(),
                vectors.metadata_b().dims,
            ),
    ensures
        forall|table: Scores| #[trigger]
            agrees(*score, table) ==> best@ == best_first(
                visited(
                    layer_of(nodes@, vectors.view_b(), *metric, table, *query),
                    entry,
                    ef as nat,
                    seen_capacity(fan_out),
                    include_root,
                ),
                top_k as nat,
            ),
        best@.len() <= top_k,
        crate::select::is_descending(best@),
        forall|i: int| 0 <= i < best@.len() ==> reach((#[trigger] best@[i]).1),
        !include_root ==> forall|i: int| 0 <= i < best@.len() ==> (#[trigger] best@[i]).1 != 0,
        ef > 0 && top_k > 0 && (include_root || entry != 0) ==> best@.len() > 0,
{
    let ghost capacity = seen_capacity(fan_out);
    proof {
        vectors.lemma_view_lengths();
    }
    let mut queue = queue_new();
    let mut found: Vec<Candidate> = Vec::new();
    let mut set = FixedSet::new(fan_out);

    let node = nodes.index(Handle::new(entry));
    let vec = vectors.index_b(HandleB::new(*node.vec_handle()));
    let entry_score = score(query, vec);
    set.insert(entry);
    proof {
        lemma_rank_is_total(*metric, entry_score, entry_score);
    }
    queue_push(&mut queue, (metric.rank(entry_score), entry));

    let mut nodes_visited: u16 = 0;
    let mut done = false;
    while !done
        invariant
            nodes.wf(),
            vectors.wf(),
            vectors.view_b().len() == vectors.count(),
            is_closed(reach, nodes@, vectors.count()),
            is_scorer(*score, metric.spec_quantization(), vectors.metadata_b().dims),
            query.wf(metric.spec_quantization(), vectors.metadata_b().dims),
            forall|v: int|
                0 <= v < vectors.view_b().len() ==> (#[trigger] vectors.view_b()[v]).wf(
                    metric.spec_quantization(),
                    vectors.metadata_b().dims,
                ),
            capacity == seen_capacity(fan_out),
            set.wf(),
            set.capacity() == capacity,
            nodes_visited <= ef,
            forall|c: Candidate| queue_items(queue).count(c) > 0 ==> reach(c.1),
            forall|i: int| 0 <= i < found@.len() ==> reach((#[trigger] found@[i]).1),
            forall|i: int| 0 <= i < found@.len() ==> include_root || (#[trigger] found@[i]).1 != 0,
            ef > 0 && (include_root || entry != 0) && found@.len() == 0 ==> !done
                && nodes_visited == 0 && queue_items(queue).len() > 0 && forall|c: Candidate|
                queue_items(queue).count(c) > 0 ==> c.1 == entry,
            forall|table: Scores| #[trigger]
                agrees(*score, table) ==> visited(
                    layer_of(nodes@, vectors.view_b(), *metric, table, *query),
                    entry,
                    ef as nat,
                    capacity,
                    include_root,
                ) == if done {
                    found@
                } else {
                    walk(
                        state(queue_items(queue), set@, found@),
                        layer_of(nodes@, vectors.view_b(), *metric, table, *query),
                        (ef - nodes_visited) as nat,
                        capacity,
                        include_root,
                    ).found
                },
        decreases
                ef - nodes_visited + if done {
                    0int
                } else {
                    1int
                },
    {
        let ghost before = state(queue_items(queue), set@, found@);
        let popped = queue_pop(&mut queue);
        match popped {
            None => {
                done = true;
            },
            Some(candidate) => {
                if nodes_visited >= ef {
                    done = true;
                } else {
                    proof {
                        lemma_top_is_unique(before.queue, candidate);
                        assert(before.queue.len() > 0) by {
                            if before.queue.len() == 0 {
                                vstd::multiset::lemma_multiset_empty_len(before.queue);
                            }
                        }
                    }
                    nodes_visited = nodes_visited + 1;
                    if include_root || candidate.1 != 0 {
                        found.push(candidate);
                    }
                    let node = nodes.index(Handle::new(candidate.1));
                    let count = node.live_count();
                    let ghost list = nodes@[candidate.1 as int].links().targets();
                    let ghost taken = state(queue_items(queue), set@, found@);
                    let mut j: usize = 0;
                    while j < count
                        invariant
                            nodes.wf(),
                            vectors.wf(),
                            vectors.view_b().len() == vectors.count(),
                            is_closed(reach, nodes@, vectors.count()),
                            is_scorer(*score, metric.spec_quantization(), vectors.metadata_b().dims),
                            query.wf(metric.spec_quantization(), vectors.metadata_b().dims),
                            forall|v: int|
                                0 <= v < vectors.view_b().len() ==> (#[trigger] vectors.view_b()[v]).wf(
                                    metric.spec_quantization(),
                                    vectors.metadata_b().dims,
                                ),
                            set.wf(),
                            set.capacity() == capacity,
                            reach(candidate.1),
                            *node == nodes@[candidate.1 as int],
                            list == node.links().targets(),
                            count == list.len(),
                            j <= count,
                            forall|c: Candidate| queue_items(queue).count(c) > 0 ==> reach(c.1),
                            forall|table: Scores| #[trigger]
                                agrees(*score, table) ==> state(queue_items(queue), set@, found@)
                                    == expand(
                                    taken,
                                    layer_of(nodes@, vectors.view_b(), *metric, table, *query),
                                    list,
                                    j as nat,
                                    capacity,
                                ),
                            found@ == taken.found,
                        decreases count - j,
                    {
                        let target = node.live_target(j);
                        assert(reach(target));
                        if !set.is_member(target) {
                            let neighbor_node = nodes.index(Handle::new(target));
                            let neighbor_vec = vectors.index_b(
                                HandleB::new(*neighbor_node.vec_handle()),
                            );
                            let target_score = score(query, neighbor_vec);
                            proof {
                                lemma_rank_is_total(*metric, target_score, target_score);
                            }
                            set.insert(target);
                            queue_push(&mut queue, (metric.rank(target_score), target));
                        }
                        j = j + 1;
                    }
                }
            },
        }
    }
    let best = select_best(&found, top_k as usize);
    proof {
        crate::select::lemma_best_first(found@, top_k as nat);
        assert forall|i: int| 0 <= i < best@.len() implies reach((#[trigger] best@[i]).1) && (
        include_root || best@[i].1 != 0) by {
            assert(found@.contains(best@[i]));
        }
    }
    best
}

} // verus!
