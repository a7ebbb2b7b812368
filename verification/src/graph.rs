//! The layered proximity graph: construction, search and insertion.
//!
//! Vector 0 is the root: an all-zero vector with a node on every level,
//! from which every descent starts. Callers never see it; the identifiers
//! they get are vector indices minus one.
//!
//! Scores are computed by functions that the caller hands in. What a search
//! returns and what an insertion makes of the graph is stated for every
//! table of scores that has the scores those functions give, so a caller
//! who knows what its functions return knows the outcome.
use crate::arena::Arena;
use crate::arena::DoubleArena;
use crate::arena::DynAlloc;
use crate::arena::MAX_RECORDS;
use crate::handle::Handle;
use crate::handle::HandleA;
use crate::handle::HandleB;
use crate::heap::Candidate;
use crate::metric::lemma_rank_is_total;
use crate::metric::lemma_score_at;
use crate::metric::DistanceMetric;
use crate::metric::DistanceMetricKind;
use crate::node::lemma_blank;
use crate::node::lemma_live_count;
use crate::node::scored_entries;
use crate::node::Linked;
use crate::node::ListView;
use crate::node::Node;
use crate::node::Node0;
use crate::node::Node0Handle;
use crate::node::NodeHandle;
use crate::node::VecHandle;
use crate::random::AtomicRng;
use crate::select::best_first;
use crate::select::lemma_best_first;
use crate::storage::QuantArgs;
use crate::storage::QuantShape;
use crate::storage::QuantVec;
use crate::storage::Quantization;
use crate::storage::RawVec;
use crate::walk::is_closed;
use crate::walk::agrees;
use crate::walk::is_scorer;
use crate::walk::Scores;
use crate::walk::layer_of;
use crate::walk::search_layer;
use crate::walk::seen_capacity;
use crate::walk::visited;
use crate::walk::Layer;
use crate::wire::blank_list;
use crate::wire::lemma_backlinked;
use crate::wire::lemma_blank_list;
use crate::wire::lemma_seeded;
use crate::wire::links_of;
use crate::wire::wire;
use crate::wire::wired;
use crate::random::lcg_next;
use crate::random::ThreadSafeRng;
use crate::NodeId;
use vstd::prelude::*;

verus! {

/// The number of slots in a chunk of each of the graph's arenas.
pub const CHUNK_SIZE: usize = 1024;

/// The seed of a new graph's generator.
pub const SEED: u64 = 42;

/// The most results that a two-stage search is asked for.
pub const MAX_TOP_K: u16 = 8192;

/// One result of a search on one level: a node of that level and its score.
#[derive(Debug)]
pub struct InternalSearchResult<T: ?Sized> {
    pub node: Handle<T>,
    pub score: u32,
}

impl<T: ?Sized> Clone for InternalSearchResult<T> {
    fn clone(&self) -> (copy: Self)
        ensures
            copy == *self,
    {
        *self
    }
}

impl<T: ?Sized> Copy for InternalSearchResult<T> {

}

/// One result of a search: the identifier of a vector and its score.
#[derive(Debug, Clone, Copy)]
pub struct SearchResult {
    pub node: NodeId,
    pub score: u32,
}

/// The results of a search on one level as pairs of a node index and a score.
pub open spec fn pairs_of<T: ?Sized>(results: Seq<InternalSearchResult<T>>) -> Seq<(u32, u32)> {
    Seq::new(results.len(), |i: int| (results[i].node@, results[i].score))
}

/// Whether no result is better than one before it: the results are in
/// non-increasing order of preference under `metric`.
pub open spec fn is_best_first(metric: DistanceMetric, results: Seq<SearchResult>) -> bool {
    forall|i: int, j: int|
        0 <= i < j < results.len() ==> metric.rank_of(results[i].score) >= metric.rank_of(
            results[j].score,
        )
}

/// The results of a search as pairs of an identifier and a score.
pub open spec fn ids_of(results: Seq<SearchResult>) -> Seq<(u32, u32)> {
    Seq::new(results.len(), |i: int| (results[i].node.0, results[i].score))
}

/// The results that stand for `best`, candidates of the lowest level: the
/// identifier of a candidate is its node index minus one, the score that of
/// its rank.
pub open spec fn outcome(metric: DistanceMetric, best: Seq<Candidate>) -> Seq<(u32, u32)> {
    Seq::new(best.len(), |i: int| ((best[i].1 - 1) as u32, metric.score_at(best[i].0 as int)))
}

/// A layered proximity graph over the vectors that were inserted into it.
///
/// Every vector has a node on the lowest level and on each level up to the
/// one drawn for it. A node is linked to at most `m` nodes of its own level,
/// `m0` on the lowest, and to the node of its vector one level below.
pub struct Graph {
    m: u16,
    m0: u16,
    dims: u16,
    levels: u8,
    quantization: Quantization,
    distance_metric: DistanceMetric,
    nodes_arena: Arena<Node>,
    nodes0_arena: Arena<Node0>,
    vec_arena: DoubleArena<RawVec, QuantVec>,
    top_level_root_node: NodeHandle,
    rng: AtomicRng,
    level_of: Ghost<Seq<nat>>,
}

fn zeros(len: u16) -> (vec: Vec<u32>)
    ensures
        vec@.len() == len,
        forall|i: int| 0 <= i < len ==> vec@[i] == 0,
{
    let mut vec: Vec<u32> = Vec::new();
    let mut i: u16 = 0;
    while i < len
        invariant
            i <= len,
            vec@.len() == i,
            forall|k: int| 0 <= k < i ==> vec@[k] == 0,
        decreases len - i,
    {
        vec.push(0);
        i = i + 1;
    }
    vec
}

impl Graph {
    /// The nodes above the lowest level, in the order of their allocation.
    pub closed spec fn nodes(&self) -> Seq<Node> {
        self.nodes_arena@
    }

    /// The nodes of the lowest level, in the order of their allocation.
    pub closed spec fn nodes0(&self) -> Seq<Node0> {
        self.nodes0_arena@
    }

    /// The raw vectors, the root first.
    pub closed spec fn raws(&self) -> Seq<RawVec> {
        self.vec_arena.view_a()
    }

    /// The quantized vectors, the root first.
    pub closed spec fn quants(&self) -> Seq<QuantVec> {
        self.vec_arena.view_b()
    }

    /// The number of neighbour slots of a node above the lowest level.
    pub closed spec fn fan_out(&self) -> u16 {
        self.m
    }

    /// The number of neighbour slots of a node of the lowest level.
    pub closed spec fn fan_out0(&self) -> u16 {
        self.m0
    }

    /// The number of components of a vector.
    pub closed spec fn spec_dims(&self) -> u16 {
        self.dims
    }

    /// The number of levels above the lowest.
    pub closed spec fn spec_levels(&self) -> u8 {
        self.levels
    }

    /// How the quantized vectors are encoded.
    pub closed spec fn spec_quantization(&self) -> Quantization {
        self.quantization
    }

    /// The metric by which scores are ordered.
    pub closed spec fn metric(&self) -> DistanceMetric {
        self.distance_metric
    }

    /// The index of the root's node on the highest level.
    pub closed spec fn top(&self) -> u32 {
        self.top_level_root_node@
    }

    /// The state of the generator from which levels are drawn.
    pub closed spec fn rng_state(&self) -> u64 {
        self.rng@
    }

    /// The level of each node above the lowest level.
    pub closed spec fn level_of(&self) -> Seq<nat> {
        self.level_of@
    }

    /// The arenas are sound and shaped for this graph's parameters.
    pub closed spec fn arenas_wf(&self) -> bool {
        &&& self.nodes_arena.wf()
        &&& self.nodes0_arena.wf()
        &&& self.vec_arena.wf()
        &&& self.nodes_arena.metadata() == self.m
        &&& self.nodes0_arena.metadata() == self.m0
        &&& self.vec_arena.metadata_a() == self.dims
        &&& self.vec_arena.metadata_b().dims == self.dims
        &&& self.vec_arena.metadata_b().quantization == self.quantization
        &&& self.vec_arena.view_a().len() == self.vec_arena.count()
        &&& self.vec_arena.view_b().len() == self.vec_arena.count()
    }

    /// The nodes of level `level`, a level above the lowest.
    pub open spec fn at_level(&self, level: nat) -> spec_fn(u32) -> bool {
        |i: u32| i < self.nodes().len() && self.level_of()[i as int] == level
    }

    /// The nodes of the lowest level.
    pub open spec fn on_ground(&self) -> spec_fn(u32) -> bool {
        |i: u32| i < self.nodes0().len()
    }

    /// Node `i` above the lowest level is sound: it has a level, stands for
    /// a stored vector, has a well-formed list of `m` slots whose live
    /// neighbours are nodes of its own level, and its child is a node of the
    /// level below.
    pub open spec fn node_ok(&self, i: int) -> bool {
        let node = self.nodes()[i];
        let level = self.level_of()[i];
        &&& 1 <= level <= self.spec_levels()
        &&& node.spec_vec() < self.quants().len()
        &&& node.list().wf(self.metric())
        &&& node.list().capacity() == self.fan_out()
        &&& forall|j: int|
            0 <= j < node.list().targets().len() ==> (self.at_level(level))(
                #[trigger] node.list().targets()[j],
            )
        &&& if level == 1 {
            node.spec_child() < self.nodes0().len()
        } else {
            (self.at_level((level - 1) as nat))(node.spec_child())
        }
    }

    /// Node `i` of the lowest level is sound: it stands for vector `i`, and
    /// it has a well-formed list of `m0` slots whose live neighbours are
    /// nodes of the lowest level.
    pub open spec fn node0_ok(&self, i: int) -> bool {
        let node = self.nodes0()[i];
        &&& node.spec_vec() == i
        &&& node.list().wf(self.metric())
        &&& node.list().capacity() == self.fan_out0()
        &&& forall|j: int|
            0 <= j < node.list().targets().len() ==> (#[trigger] node.list().targets()[j])
                < self.nodes0().len()
    }

    /// The invariant of the graph but for the count of the lowest level,
    /// which lags behind the count of vectors while a vector is inserted.
    pub open spec fn wf_core(&self) -> bool {
        &&& self.arenas_wf()
        &&& self.fan_out() >= 2
        &&& self.fan_out0() >= 2
        &&& self.spec_dims() > 0
        &&& self.spec_levels() >= 1
        &&& self.metric().spec_quantization() == self.spec_quantization()
        &&& self.level_of().len() == self.nodes().len()
        &&& self.raws().len() == self.quants().len()
        &&& 1 <= self.nodes0().len() <= self.quants().len()
        &&& (self.at_level(self.spec_levels() as nat))(self.top())
        &&& forall|i: int| 0 <= i < self.nodes().len() ==> self.node_ok(i)
        &&& forall|i: int| 0 <= i < self.nodes0().len() ==> self.node0_ok(i)
        &&& forall|v: int|
            0 <= v < self.quants().len() ==> (#[trigger] self.quants()[v]).wf(
                self.spec_quantization(),
                self.spec_dims(),
            )
        &&& forall|v: int|
            0 <= v < self.raws().len() ==> (#[trigger] self.raws()[v])@.len() == self.spec_dims()
    }

    /// The invariant of the graph: every node is sound, and every vector has
    /// its node on the lowest level.
    pub open spec fn wf(&self) -> bool {
        &&& self.wf_core()
        &&& self.nodes0().len() == self.quants().len()
    }

    /// The level above the lowest as a walk for `query` sees it.
    pub open spec fn upper_layer(&self, table: Scores, query: QuantVec) -> Layer {
        layer_of(self.nodes(), self.quants(), self.metric(), table, query)
    }

    /// The lowest level as a walk for `query` sees it.
    pub open spec fn ground_layer(&self, table: Scores, query: QuantVec) -> Layer {
        layer_of(self.nodes0(), self.quants(), self.metric(), table, query)
    }

    /// The `top_k` best candidates of a walk from `entry` on a level above
    /// the lowest, best first.
    pub open spec fn upper_best(
        &self,
        entry: u32,
        query: QuantVec,
        ef: nat,
        top_k: nat,
        include_root: bool,
        table: Scores,
    ) -> Seq<Candidate> {
        best_first(
            visited(
                self.upper_layer(table, query),
                entry,
                ef,
                seen_capacity(self.fan_out()),
                include_root,
            ),
            top_k,
        )
    }

    /// The `top_k` best candidates of a walk from `entry` on the lowest
    /// level, best first.
    pub open spec fn ground_best(
        &self,
        entry: u32,
        query: QuantVec,
        ef: nat,
        top_k: nat,
        include_root: bool,
        table: Scores,
    ) -> Seq<Candidate> {
        best_first(
            visited(
                self.ground_layer(table, query),
                entry,
                ef,
                seen_capacity(self.fan_out0()),
                include_root,
            ),
            top_k,
        )
    }

    /// The node below the winner of a walk from `entry` on a level above the
    /// lowest: where the descent goes on.
    pub open spec fn next_entry(
        &self,
        entry: u32,
        query: QuantVec,
        ef: nat,
        table: Scores,
    ) -> u32 {
        let winner = self.upper_best(entry, query, ef, 1, true, table)[0];
        self.nodes()[winner.1 as int].spec_child()
    }

    /// The node of the lowest level that a descent over `level` levels from
    /// `entry` arrives at, taking on each level the child of the single best
    /// node of a walk.
    pub open spec fn descend(
        &self,
        level: nat,
        entry: u32,
        query: QuantVec,
        ef: nat,
        table: Scores,
    ) -> u32
        decreases level,
    {
        if level == 0 {
            entry
        } else {
            self.descend((level - 1) as nat, self.next_entry(entry, query, ef, table), query, ef, table)
        }
    }

    /// No node has more live neighbours than its level's fan-out, a full
    /// list has exactly that many, and no neighbour in a full list ranks
    /// below the weakest score on record.
    pub proof fn lemma_lists_are_bounded(&self, list: ListView, slot: int)
        requires
            self.wf_core(),
            (exists|i: int| 0 <= i < self.nodes().len() && self.nodes()[i].list() == list) || (exists|
                i: int,
            | 0 <= i < self.nodes0().len() && self.nodes0()[i].list() == list),
            0 <= slot < list.slots.len(),
        ensures
            list.capacity() == self.fan_out() || list.capacity() == self.fan_out0(),
            list.live().len() <= list.capacity(),
            list.full ==> list.live().len() == list.capacity(),
            list.full ==> self.metric().rank_of(list.slots[slot].1) >= self.metric().rank_of(
                list.lowest_score,
            ),
    {
        if exists|i: int| 0 <= i < self.nodes().len() && self.nodes()[i].list() == list {
            let i = choose|i: int| 0 <= i < self.nodes().len() && self.nodes()[i].list() == list;
            assert(self.node_ok(i));
        } else {
            let i = choose|i: int| 0 <= i < self.nodes0().len() && self.nodes0()[i].list() == list;
            assert(self.node0_ok(i));
        }
        lemma_live_count(list, self.metric());
        if list.full {
            crate::node::lemma_weakest_tracked(list, self.metric(), slot);
        }
    }

    /// The graph holds no more nodes and vectors than its arenas can.
    pub proof fn lemma_counts(&self)
        requires
            self.wf_core(),
        ensures
            self.nodes().len() <= MAX_RECORDS,
            self.nodes0().len() <= MAX_RECORDS,
            self.quants().len() <= MAX_RECORDS,
    {
        self.nodes_arena.lemma_len_bound();
        self.nodes0_arena.lemma_len_bound();
        self.vec_arena.lemma_view_lengths();
        self.vec_arena.lemma_count_bound();
    }

    /// Every level is closed under its links, so a walk that starts on a
    /// level stays on it.
    pub proof fn lemma_levels_closed(&self, level: nat)
        requires
            self.wf_core(),
        ensures
            is_closed(self.at_level(level), self.nodes(), self.quants().len()),
            is_closed(self.on_ground(), self.nodes0(), self.quants().len()),
    {
        assert forall|i: u32| #[trigger] (self.at_level(level))(i) implies {
            &&& i < self.nodes().len()
            &&& self.nodes()[i as int].vector() < self.quants().len()
            &&& self.nodes()[i as int].links().shaped()
            &&& forall|j: int|
                0 <= j < self.nodes()[i as int].links().targets().len() ==> (self.at_level(level))(
                    #[trigger] self.nodes()[i as int].links().targets()[j],
                )
        } by {
            assert(self.node_ok(i as int));
            lemma_live_count(self.nodes()[i as int].list(), self.metric());
        }
        assert forall|i: u32| #[trigger] (self.on_ground())(i) implies {
            &&& i < self.nodes0().len()
            &&& self.nodes0()[i as int].vector() < self.quants().len()
            &&& self.nodes0()[i as int].links().shaped()
            &&& forall|j: int|
                0 <= j < self.nodes0()[i as int].links().targets().len() ==> (self.on_ground())(
                    #[trigger] self.nodes0()[i as int].links().targets()[j],
                )
        } by {
            assert(self.node0_ok(i as int));
            lemma_live_count(self.nodes0()[i as int].list(), self.metric());
        }
    }

    /// A graph that holds the root alone.
    pub fn new(
        m: u16,
        m0: u16,
        dims: u16,
        levels: u8,
        quantization: Quantization,
        metric: DistanceMetricKind,
    ) -> (graph: Self)
        requires
            m >= 2,
            m0 >= 2,
            dims > 0,
            levels >= 1,
        ensures
            graph.wf(),
            graph.fan_out() == m,
            graph.fan_out0() == m0,
            graph.spec_dims() == dims,
            graph.spec_levels() == levels,
            graph.spec_quantization() == quantization,
            graph.metric().spec_kind() == metric,
            graph.metric().spec_quantization() == quantization,
            graph.rng_state() == SEED,
            graph.quants().len() == 1,
            graph.nodes0().len() == 1,
            graph.nodes().len() == levels,
            graph.top() == levels - 1,
            forall|i: int| 0 <= i < levels ==> #[trigger] graph.level_of()[i] == i + 1,
            forall|i: int|
                0 <= i < levels ==> (#[trigger] graph.nodes()[i]).list().is_blank(m as nat),
            forall|i: int| 0 <= i < levels ==> (#[trigger] graph.nodes()[i]).spec_vec() == 0,
            forall|i: int|
                0 <= i < levels ==> (#[trigger] graph.nodes()[i]).spec_child() == if i == 0 {
                    0
                } else {
                    i - 1
                },
            graph.nodes0()[0].list().is_blank(m0 as nat),
            forall|k: int| 0 <= k < dims ==> #[trigger] graph.raws()[0]@[k] == 0,
            graph.quants()[0].spec_mag() == 0,
            forall|k: int| 0 <= k < graph.quants()[0].bytes().len() ==> #[trigger] graph.quants()[0].bytes()[k] == 0,
    {
        let distance_metric = DistanceMetric::new(metric, quantization);
        let mut nodes_arena: Arena<Node> = Arena::new(CHUNK_SIZE, m);
        let mut nodes0_arena: Arena<Node0> = Arena::new(CHUNK_SIZE, m0);
        let mut vec_arena: DoubleArena<RawVec, QuantVec> = DoubleArena::new(
            CHUNK_SIZE,
            dims,
            QuantShape { quantization, dims },
        );

        let root_raw = zeros(dims);
        let root_codes = zeros(dims);
        let ghost codes = root_codes@;
        let vec_handle = vec_arena.allocate(root_raw, QuantArgs { mag: 0, codes: root_codes });
        let vec_handle: VecHandle = Handle::new(*vec_handle);
        proof {
            vec_arena.lemma_view_lengths();
            crate::storage::lemma_packed_zeros(codes, crate::storage::component_size(quantization));
        }

        let node0_handle = nodes0_arena.allocate(vec_handle);

        let mut prev_node: NodeHandle = node0_handle.cast();
        let mut level: u8 = 0;
        while level < levels
            invariant
                level <= levels,
                nodes_arena.wf(),
                nodes_arena.metadata() == m,
                nodes_arena@.len() == level,
                vec_handle@ == 0,
                prev_node@ == if level == 0 {
                    0
                } else {
                    level - 1
                },
                forall|i: int| 0 <= i < level ==> (#[trigger] nodes_arena@[i]).list().is_blank(m as nat),
                forall|i: int| 0 <= i < level ==> (#[trigger] nodes_arena@[i]).spec_vec() == 0,
                forall|i: int|
                    0 <= i < level ==> (#[trigger] nodes_arena@[i]).spec_child() == if i == 0 {
                        0
                    } else {
                        i - 1
                    },
            decreases levels - level,
        {
            let ghost before = nodes_arena@;
            let node_handle = nodes_arena.allocate((vec_handle, prev_node));
            proof {
                assert forall|i: int| 0 <= i < level implies #[trigger] nodes_arena@[i] == before[i] by {
                    assert(nodes_arena@.take(level as int)[i] == before[i]);
                }
                assert(Node::is_built(nodes_arena@[level as int], m, (vec_handle, prev_node)));
                assert(nodes_arena@[level as int].list().is_blank(m as nat));
                assert(nodes_arena@[level as int].spec_vec() == 0);
            }
            prev_node = node_handle;
            level = level + 1;
        }

        let graph = Self {
            m,
            m0,
            dims,
            levels,
            quantization,
            distance_metric,
            nodes_arena,
            nodes0_arena,
            vec_arena,
            top_level_root_node: prev_node,
            rng: AtomicRng::new(SEED),
            level_of: Ghost(Seq::new(levels as nat, |i: int| (i + 1) as nat)),
        };
        proof {
            assert forall|i: int| 0 <= i < graph.nodes().len() implies graph.node_ok(i) by {
                lemma_blank(graph.nodes()[i].list(), m as nat, graph.metric());
            }
            assert forall|i: int| 0 <= i < graph.nodes0().len() implies graph.node0_ok(i) by {
                lemma_blank(graph.nodes0()[i].list(), m0 as nat, graph.metric());
            }
        }
        graph
    }

    /// The number of vectors, the root included.
    pub fn len(&self) -> (len: usize)
        ensures
            len == self.quants().len(),
    {
        proof {
            self.vec_arena.lemma_view_lengths();
        }
        self.vec_arena.len()
    }

    /// The number of nodes above the lowest level.
    pub fn upper_len(&self) -> (len: usize)
        ensures
            len == self.nodes().len(),
    {
        self.nodes_arena.len()
    }
}

/// A table of scores of raw vectors: the score of each against each other.
pub type RawScores = spec_fn(RawVec, RawVec) -> u32;

/// Whether `table` has every score that `rescore` gives.
pub open spec fn agrees_raw<R: Fn(&RawVec, &RawVec) -> u32>(rescore: R, table: RawScores) -> bool {
    forall|a: RawVec, b: RawVec, s: u32| #[trigger]
        call_ensures(rescore, (&a, &b), s) ==> s == table(a, b)
}

/// Whether `rescore` can be called on every pair of raw vectors of `dims`
/// components.
pub open spec fn is_rescorer<R: Fn(&RawVec, &RawVec) -> u32>(rescore: R, dims: u16) -> bool {
    forall|a: RawVec, b: RawVec|
        a@.len() == dims && b@.len() == dims ==> #[trigger] call_requires(rescore, (&a, &b))
}

/// The results of a search on one level that stand for `best`.
fn to_results<T: ?Sized>(metric: &DistanceMetric, best: &Vec<Candidate>) -> (results: Vec<
    InternalSearchResult<T>,
>)
    ensures
        pairs_of(results@) == scored_entries(*metric, best@),
        results@.len() == best@.len(),
        forall|k: int| 0 <= k < results@.len() ==> (#[trigger] results@[k]).node@ == best@[k].1,
{
    let mut results: Vec<InternalSearchResult<T>> = Vec::new();
    let mut i: usize = 0;
    while i < best.len()
        invariant
            i <= best@.len(),
            results@.len() == i,
            forall|k: int|
                0 <= k < i ==> (#[trigger] results@[k]).node@ == best@[k].1 && results@[k].score
                    == metric.score_at(best@[k].0 as int),
        decreases best@.len() - i,
    {
        let candidate = best[i];
        results.push(
            InternalSearchResult {
                node: Handle::new(candidate.1),
                score: metric.score_of_rank(candidate.0),
            },
        );
        i = i + 1;
    }
    proof {
        assert(pairs_of(results@) =~= scored_entries(*metric, best@));
    }
    results
}

impl Graph {
    /// The candidates that the second stage ranks: each result of the first
    /// stage with the rank of the score of its raw vector against the query.
    pub open spec fn reranked(
        &self,
        first: Seq<(u32, u32)>,
        query: RawVec,
        table: RawScores,
    ) -> Seq<Candidate> {
        Seq::new(
            first.len(),
            |i: int|
                (
                    self.metric().rank_of(table(query, self.raws()[first[i].0 + 1])) as i32,
                    first[i].0,
                ),
        )
    }

    /// The results of the first stage of a search: the `top_k` best
    /// candidates of a walk on the lowest level without the root, from the
    /// node that the descent from the top arrives at.
    pub open spec fn first_stage(
        &self,
        query: QuantVec,
        ef: nat,
        top_k: nat,
        table: Scores,
    ) -> Seq<(u32, u32)> {
        outcome(
            self.metric(),
            self.ground_best(
                self.descend(self.spec_levels() as nat, self.top(), query, ef, table),
                query,
                ef,
                top_k,
                false,
                table,
            ),
        )
    }

    /// Walks a level above the lowest from `entry_node` and returns the
    /// `top_k` best nodes that the walk recorded, best first.
    pub(crate) fn search_level<F: Fn(&QuantVec, &QuantVec) -> u32>(
        &self,
        entry_node: NodeHandle,
        query: &QuantVec,
        ef: u16,
        top_k: u16,
        include_root: bool,
        score: &F,
    ) -> (results: Vec<InternalSearchResult<Node>>)
        requires
            self.wf_core(),
            entry_node@ < self.nodes().len(),
            is_scorer(*score, self.spec_quantization(), self.spec_dims()),
            query.wf(self.spec_quantization(), self.spec_dims()),
        ensures
            forall|table: Scores| #[trigger]
                agrees(*score, table) ==> pairs_of(results@) == scored_entries(
                    self.metric(),
                    self.upper_best(
                        entry_node@,
                        *query,
                        ef as nat,
                        top_k as nat,
                        include_root,
                        table,
                    ),
                ),
            results@.len() <= top_k,
            ef > 0 && top_k > 0 && (include_root || entry_node@ != 0) ==> results@.len() > 0,
            forall|i: int|
                0 <= i < results@.len() ==> (self.at_level(self.level_of()[entry_node@ as int]))(
                    (#[trigger] results@[i]).node@,
                ),
    {
        let ghost level = self.level_of()[entry_node@ as int];
        proof {
            self.lemma_levels_closed(level);
        }
        let best = search_layer(
            &self.nodes_arena,
            &self.vec_arena,
            &self.distance_metric,
            self.m,
            *entry_node,
            query,
            ef,
            top_k,
            include_root,
            score,
            Ghost(self.at_level(level)),
        );
        to_results(&self.distance_metric, &best)
    }

    /// Walks the lowest level from `entry_node` and returns the `top_k` best
    /// nodes that the walk recorded, best first.
    pub(crate) fn search_level0<F: Fn(&QuantVec, &QuantVec) -> u32>(
        &self,
        entry_node: Node0Handle,
        query: &QuantVec,
        ef: u16,
        top_k: u16,
        include_root: bool,
        score: &F,
    ) -> (results: Vec<InternalSearchResult<Node0>>)
        requires
            self.wf_core(),
            entry_node@ < self.nodes0().len(),
            is_scorer(*score, self.spec_quantization(), self.spec_dims()),
            query.wf(self.spec_quantization(), self.spec_dims()),
        ensures
            forall|table: Scores| #[trigger]
                agrees(*score, table) ==> pairs_of(results@) == scored_entries(
                    self.metric(),
                    self.ground_best(
                        entry_node@,
                        *query,
                        ef as nat,
                        top_k as nat,
                        include_root,
                        table,
                    ),
                ),
            results@.len() <= top_k,
            forall|i: int| 0 <= i < results@.len() ==> (#[trigger] results@[i]).node@ < self.nodes0().len(),
            !include_root ==> forall|i: int| 0 <= i < results@.len() ==> (#[trigger] results@[i]).node@ != 0,
            forall|i: int, j: int|
                0 <= i < j < results@.len() ==> self.metric().rank_of(results@[i].score)
                    >= self.metric().rank_of(results@[j].score),
    {
        proof {
            self.lemma_levels_closed(0);
        }
        let best = search_layer(
            &self.nodes0_arena,
            &self.vec_arena,
            &self.distance_metric,
            self.m0,
            *entry_node,
            query,
            ef,
            top_k,
            include_root,
            score,
            Ghost(self.on_ground()),
        );
        let results = to_results(&self.distance_metric, &best);
        proof {
            assert forall|i: int| 0 <= i < results@.len() implies (#[trigger] results@[i]).node@
                < self.nodes0().len() by {
                assert((self.on_ground())(best@[i].1));
            }
            assert forall|i: int, j: int| 0 <= i < j < results@.len() implies self.metric().rank_of(
                results@[i].score,
            ) >= self.metric().rank_of(results@[j].score) by {
                assert(crate::heap::candidate_le(best@[j], best@[i]));
                assert(pairs_of(results@)[i] == scored_entries(self.metric(), best@)[i]);
                assert(pairs_of(results@)[j] == scored_entries(self.metric(), best@)[j]);
                lemma_score_at(self.metric(), best@[i].0 as int);
                lemma_score_at(self.metric(), best@[j].0 as int);
            }
        }
        results
    }

    /// Searches the quantized vectors alone: descends from the top taking
    /// the single best node of each level, then walks the lowest level and
    /// returns the `top_k` best vectors that the walk recorded, best first,
    /// without the root.
    ///
    /// What comes back is stated for every table of scores that has the
    /// scores that `score` gives.
    pub fn search_quantized<F: Fn(&QuantVec, &QuantVec) -> u32>(
        &self,
        query: &QuantVec,
        ef: u16,
        top_k: u16,
        score: &F,
    ) -> (results: Vec<SearchResult>)
        requires
            self.wf(),
            ef >= 1,
            is_scorer(*score, self.spec_quantization(), self.spec_dims()),
            query.wf(self.spec_quantization(), self.spec_dims()),
        ensures
            forall|table: Scores| #[trigger]
                agrees(*score, table) ==> ids_of(results@) == self.first_stage(
                    *query,
                    ef as nat,
                    top_k as nat,
                    table,
                ),
            results@.len() <= top_k,
            forall|i: int| 0 <= i < results@.len() ==> (#[trigger] results@[i]).node.0 + 1 < self.quants().len(),
            is_best_first(self.metric(), results@),
    {
        let mut entry_node = self.top_level_root_node;
        let mut remaining: u8 = self.levels;
        while remaining > 0
            invariant
                self.wf(),
                is_scorer(*score, self.spec_quantization(), self.spec_dims()),
                query.wf(self.spec_quantization(), self.spec_dims()),
                ef >= 1,
                remaining <= self.spec_levels(),
                if remaining > 0 {
                    (self.at_level(remaining as nat))(entry_node@)
                } else {
                    entry_node@ < self.nodes0().len()
                },
                forall|table: Scores| #[trigger]
                    agrees(*score, table) ==> self.descend(
                        self.spec_levels() as nat,
                        self.top(),
                        *query,
                        ef as nat,
                        table,
                    ) == self.descend(remaining as nat, entry_node@, *query, ef as nat, table),
            decreases remaining,
        {
            let results = self.search_level(entry_node, query, ef, 1, true, score);
            let winner = results[0].node;
            proof {
                assert((self.at_level(remaining as nat))(winner@));
                assert(self.node_ok(winner@ as int));
                assert forall|table: Scores| #[trigger] agrees(*score, table) implies self.nodes()[winner@ as int].spec_child()
                    == self.next_entry(entry_node@, *query, ef as nat, table) by {
                    let best = self.upper_best(entry_node@, *query, ef as nat, 1, true, table);
                    assert(pairs_of(results@) == scored_entries(self.metric(), best));
                    assert(pairs_of(results@)[0] == scored_entries(self.metric(), best)[0]);
                    assert(winner@ == best[0].1);
                }
            }
            let child = self.nodes_arena.index(winner).child();
            entry_node = child;
            remaining = remaining - 1;
        }

        let entry_node: Node0Handle = entry_node.cast();
        let found = self.search_level0(entry_node, query, ef, top_k, false, score);

        let mut results: Vec<SearchResult> = Vec::new();
        let mut i: usize = 0;
        while i < found.len()
            invariant
                self.wf(),
                i <= found@.len(),
                results@.len() == i,
                forall|k: int| 0 <= k < found@.len() ==> (#[trigger] found@[k]).node@ < self.nodes0().len(),
                forall|k: int| 0 <= k < found@.len() ==> (#[trigger] found@[k]).node@ != 0,
                forall|k: int|
                    0 <= k < i ==> (#[trigger] results@[k]).node.0 == found@[k].node@ - 1
                        && results@[k].score == found@[k].score,
            decreases found@.len() - i,
        {
            let result = found[i];
            proof {
                assert(self.node0_ok(result.node@ as int));
            }
            let vec = self.nodes0_arena.index(result.node).vec();
            results.push(SearchResult { node: NodeId(*vec - 1), score: result.score });
            i = i + 1;
        }
        proof {
            assert forall|table: Scores| #[trigger] agrees(*score, table) implies ids_of(results@)
                == self.first_stage(*query, ef as nat, top_k as nat, table) by {
                let best = self.ground_best(entry_node@, *query, ef as nat, top_k as nat, false, table);
                assert(pairs_of(found@) == scored_entries(self.metric(), best));
                assert(found@.len() == best.len()) by {
                    assert(pairs_of(found@).len() == found@.len());
                }
                assert forall|k: int| 0 <= k < results@.len() implies ids_of(results@)[k]
                    == outcome(self.metric(), best)[k] by {
                    assert(pairs_of(found@)[k] == scored_entries(self.metric(), best)[k]);
                }
                assert(ids_of(results@) =~= outcome(self.metric(), best));
            }
        }
        results
    }

    /// Searches in two stages: the first gathers `8 * top_k` vectors by
    /// their quantized form, the second scores the raw form of each against
    /// the raw query and returns the `top_k` best, best first.
    ///
    /// What comes back is stated for every pair of tables that have the
    /// scores that `score` and `rescore` give.
    pub fn search<F: Fn(&QuantVec, &QuantVec) -> u32, R: Fn(&RawVec, &RawVec) -> u32>(
        &self,
        query: &RawVec,
        quantized: &QuantVec,
        ef: u16,
        top_k: u16,
        score: &F,
        rescore: &R,
    ) -> (results: Vec<SearchResult>)
        requires
            self.wf(),
            ef >= 1,
            top_k < MAX_TOP_K,
            is_scorer(*score, self.spec_quantization(), self.spec_dims()),
            is_rescorer(*rescore, self.spec_dims()),
            query@.len() == self.spec_dims(),
            quantized.wf(self.spec_quantization(), self.spec_dims()),
        ensures
            forall|table: Scores, raw_table: RawScores|
                #![trigger agrees(*score, table), agrees_raw(*rescore, raw_table)]
                agrees(*score, table) && agrees_raw(*rescore, raw_table) ==> ids_of(results@)
                    == scored_entries(
                    self.metric(),
                    best_first(
                        self.reranked(
                            self.first_stage(*quantized, ef as nat, (8 * top_k) as nat, table),
                            *query,
                            raw_table,
                        ),
                        top_k as nat,
                    ),
                ),
            results@.len() <= top_k,
            forall|i: int| 0 <= i < results@.len() ==> (#[trigger] results@[i]).node.0 + 1 < self.quants().len(),
            is_best_first(self.metric(), results@),
    {
        let first = self.search_quantized(quantized, ef, top_k * 8, score);
        let ghost first_ids = ids_of(first@);
        let mut candidates: Vec<Candidate> = Vec::new();
        let mut i: usize = 0;
        while i < first.len()
            invariant
                self.wf(),
                is_rescorer(*rescore, self.spec_dims()),
                query@.len() == self.spec_dims(),
                first_ids == ids_of(first@),
                forall|k: int| 0 <= k < first@.len() ==> (#[trigger] first@[k]).node.0 + 1 < self.quants().len(),
                i <= first@.len(),
                candidates@.len() == i,
                forall|k: int| 0 <= k < i ==> (#[trigger] candidates@[k]).1 == first_ids[k].0,
                forall|raw_table: RawScores| #[trigger]
                    agrees_raw(*rescore, raw_table) ==> forall|k: int|
                        0 <= k < i ==> #[trigger] candidates@[k] == self.reranked(
                            first_ids,
                            *query,
                            raw_table,
                        )[k],
            decreases first@.len() - i,
        {
            let id = first[i].node.0;
            proof {
                self.lemma_counts();
                assert(first_ids[i as int].0 == id);
                assert(first@[i as int].node.0 + 1 < self.quants().len());
            }
            let vec = self.vec_arena.index_a(HandleA::new(id + 1));
            let score = rescore(query, vec);
            let rank = self.distance_metric.rank(score);
            proof {
                lemma_rank_is_total(self.distance_metric, score, score);
            }
            candidates.push((rank, id));
            i = i + 1;
        }
        proof {
            lemma_best_first(candidates@, top_k as nat);
        }
        let best = crate::select::select_best(&candidates, top_k as usize);
        let mut results: Vec<SearchResult> = Vec::new();
        let mut j: usize = 0;
        while j < best.len()
            invariant
                j <= best@.len(),
                results@.len() == j,
                forall|k: int|
                    0 <= k < j ==> (#[trigger] results@[k]).node.0 == best@[k].1 && results@[k].score
                        == self.metric().score_at(best@[k].0 as int),
            decreases best@.len() - j,
        {
            let candidate = best[j];
            results.push(
                SearchResult {
                    node: NodeId(candidate.1),
                    score: self.distance_metric.score_of_rank(candidate.0),
                },
            );
            j = j + 1;
        }
        proof {
            assert(ids_of(results@) =~= scored_entries(self.metric(), best@));
            assert forall|table: Scores, raw_table: RawScores|
                #![trigger agrees(*score, table), agrees_raw(*rescore, raw_table)]
                agrees(*score, table) && agrees_raw(*rescore, raw_table) implies candidates@
                == self.reranked(
                self.first_stage(*quantized, ef as nat, (8 * top_k) as nat, table),
                *query,
                raw_table,
            ) by {
                assert(candidates@ =~= self.reranked(first_ids, *query, raw_table));
            }
            assert forall|i: int, j: int| 0 <= i < j < results@.len() implies self.metric().rank_of(
                results@[i].score,
            ) >= self.metric().rank_of(results@[j].score) by {
                assert(crate::heap::candidate_le(best@[j], best@[i]));
                lemma_score_at(self.metric(), best@[i].0 as int);
                lemma_score_at(self.metric(), best@[j].0 as int);
            }
            assert forall|i: int| 0 <= i < results@.len() implies (#[trigger] results@[i]).node.0 + 1
                < self.quants().len() by {
                assert(candidates@.contains(best@[i]));
                let k = choose|k: int| 0 <= k < candidates@.len() && candidates@[k] == best@[i];
                assert(candidates@[k].1 == first_ids[k].0);
                assert(first@[k].node.0 + 1 < self.quants().len());
            }
        }
        results
    }
}

/// A table of levels: the level that each draw stands for in a graph of a
/// given number of levels.
pub type Levels = spec_fn(u64, u8) -> u8;

/// Whether `table` has every level that `level_of` gives.
pub open spec fn agrees_level<L: Fn(u64, u8) -> u8>(level_of: L, table: Levels) -> bool {
    forall|draw: u64, levels: u8, level: u8| #[trigger]
        call_ensures(level_of, (draw, levels), level) ==> level == table(draw, levels)
}

/// Whether `level_of` can be called on every draw.
pub open spec fn is_sampler<L: Fn(u64, u8) -> u8>(level_of: L) -> bool {
    forall|draw: u64, levels: u8| #[trigger] call_requires(level_of, (draw, levels))
}

/// The results of a search on one level as pairs of a node index and a score.
fn to_pairs<T: ?Sized>(results: &Vec<InternalSearchResult<T>>) -> (pairs: Vec<(u32, u32)>)
    ensures
        pairs@ == pairs_of(results@),
{
    let mut pairs: Vec<(u32, u32)> = Vec::new();
    let mut i: usize = 0;
    while i < results.len()
        invariant
            i <= results@.len(),
            pairs@.len() == i,
            forall|k: int| 0 <= k < i ==> #[trigger] pairs@[k] == (results@[k].node@, results@[k].score),
        decreases results@.len() - i,
    {
        let result = &results[i];
        pairs.push((*result.node, result.score));
        i = i + 1;
    }
    proof {
        assert(pairs@ =~= pairs_of(results@));
    }
    pairs
}

impl Graph {
    /// Whether every node of `before` above the lowest level is a node of
    /// this graph, with its vector, its child and its level.
    pub open spec fn keeps_nodes_of(&self, before: &Graph) -> bool {
        &&& before.nodes().len() <= self.nodes().len()
        &&& forall|i: int|
            0 <= i < before.nodes().len() ==> {
                &&& #[trigger] self.level_of()[i] == before.level_of()[i]
                &&& self.nodes()[i].spec_vec() == before.nodes()[i].spec_vec()
                &&& self.nodes()[i].spec_child() == before.nodes()[i].spec_child()
            }
    }

    /// Whether the nodes above the lowest level that this graph has and
    /// `before` has not stand for `vector`, the first of them on level 1,
    /// the next on level 2, and so on.
    pub open spec fn adds_nodes_for(&self, before: &Graph, vector: int) -> bool {
        forall|i: int|
            before.nodes().len() <= i < self.nodes().len() ==> {
                &&& (#[trigger] self.nodes()[i]).spec_vec() == vector
                &&& self.level_of()[i] == i - before.nodes().len() + 1
            }
    }

    /// Whether this graph has the parameters, the vectors and the generator
    /// state of `before`, and every node of `before` with its vector, its
    /// child and its level.
    pub open spec fn grown_from(&self, before: &Graph) -> bool {
        &&& self.fan_out() == before.fan_out()
        &&& self.fan_out0() == before.fan_out0()
        &&& self.spec_dims() == before.spec_dims()
        &&& self.spec_levels() == before.spec_levels()
        &&& self.spec_quantization() == before.spec_quantization()
        &&& self.metric() == before.metric()
        &&& self.top() == before.top()
        &&& self.rng_state() == before.rng_state()
        &&& self.quants() == before.quants()
        &&& self.raws() == before.raws()
        &&& before.nodes0().len() <= self.nodes0().len()
        &&& self.keeps_nodes_of(before)
    }

    /// Whether this graph is `before` with one more node above the lowest
    /// level: the node of `vector` on level `level` with `child` below it,
    /// wired in with `entries` as its neighbours.
    pub open spec fn node_made(
        &self,
        before: &Graph,
        vector: u32,
        child: u32,
        level: nat,
        entries: Seq<(u32, u32)>,
    ) -> bool {
        let new = before.nodes().len() as int;
        &&& self.grown_from(before)
        &&& self.nodes0() == before.nodes0()
        &&& self.nodes().len() == new + 1
        &&& self.level_of() == before.level_of().push(level)
        &&& self.nodes()[new].spec_vec() == vector
        &&& self.nodes()[new].spec_child() == child
        &&& links_of(self.nodes()) == wired(
            links_of(before.nodes()).push(blank_list(before.fan_out() as nat)),
            entries,
            new as u32,
            before.metric(),
        )
    }

    /// Whether this graph is `before` with one more node on the lowest
    /// level: the node of the vector with the node's own index, wired in
    /// with `entries` as its neighbours.
    pub open spec fn node0_made(&self, before: &Graph, entries: Seq<(u32, u32)>) -> bool {
        let new = before.nodes0().len() as int;
        &&& self.grown_from(before)
        &&& self.nodes() == before.nodes()
        &&& self.level_of() == before.level_of()
        &&& self.nodes0().len() == new + 1
        &&& forall|i: int| 0 <= i <= new ==> (#[trigger] self.nodes0()[i]).spec_vec() == i
        &&& links_of(self.nodes0()) == wired(
            links_of(before.nodes0()).push(blank_list(before.fan_out0() as nat)),
            entries,
            new as u32,
            before.metric(),
        )
    }

    /// The index of the node that a placement down from `level` makes on
    /// the highest of its levels, in the graph `self` that it results in.
    pub open spec fn made_on(&self, level: nat) -> u32 {
        if level == 0 {
            (self.nodes0().len() - 1) as u32
        } else {
            (self.nodes().len() - 1) as u32
        }
    }

    /// Whether this graph is `before` after vector `vector`, stored but
    /// without nodes, was placed from `entry` on level `level`.
    ///
    /// Above `max_level` the placement only descends: it goes on below the
    /// single best node of a walk from the entry. From `max_level` down it
    /// takes the `m` best nodes of a walk from the entry (`m0` on the lowest
    /// level) as the neighbours of a new node, goes on below the best of
    /// them, and makes the new node when the levels below are done, with the
    /// node made one level below as its child.
    pub open spec fn placed(
        &self,
        before: &Graph,
        vector: u32,
        entry: u32,
        level: nat,
        max_level: nat,
        ef: nat,
        table: Scores,
    ) -> bool
        decreases level,
    {
        let query = before.quants()[vector as int];
        if level == 0 {
            self.node0_made(
                before,
                scored_entries(
                    before.metric(),
                    before.ground_best(entry, query, ef, before.fan_out0() as nat, true, table),
                ),
            )
        } else if level > max_level {
            self.placed(
                before,
                vector,
                before.next_entry(entry, query, ef, table),
                (level - 1) as nat,
                max_level,
                ef,
                table,
            )
        } else {
            let best = before.upper_best(entry, query, ef, before.fan_out() as nat, true, table);
            exists|middle: Graph|
                {
                    &&& #[trigger] self.node_made(
                        &middle,
                        vector,
                        middle.made_on((level - 1) as nat),
                        level,
                        scored_entries(before.metric(), best),
                    )
                    &&& middle.placed(
                        before,
                        vector,
                        before.nodes()[best[0].1 as int].spec_child(),
                        (level - 1) as nat,
                        max_level,
                        ef,
                        table,
                    )
                }
        }
    }

    /// Whether this graph is `before` with one more vector stored, with the
    /// given raw components and built from `quantized`, and with the
    /// generator moved on by one draw; the nodes are those of `before`.
    pub open spec fn vector_stored(&self, before: &Graph, raw: Seq<u32>, quantized: QuantArgs) -> bool {
        let new = before.quants().len() as int;
        &&& self.fan_out() == before.fan_out()
        &&& self.fan_out0() == before.fan_out0()
        &&& self.spec_dims() == before.spec_dims()
        &&& self.spec_levels() == before.spec_levels()
        &&& self.spec_quantization() == before.spec_quantization()
        &&& self.metric() == before.metric()
        &&& self.top() == before.top()
        &&& self.rng_state() == lcg_next(before.rng_state())
        &&& self.nodes() == before.nodes()
        &&& self.nodes0() == before.nodes0()
        &&& self.level_of() == before.level_of()
        &&& self.quants().len() == new + 1
        &&& self.raws().len() == new + 1
        &&& self.quants().take(new) == before.quants()
        &&& self.raws().take(new) == before.raws()
        &&& self.raws()[new]@ == raw
        &&& QuantVec::is_built(
            self.quants()[new],
            (QuantShape { quantization: before.spec_quantization(), dims: before.spec_dims() }),
            quantized,
        )
    }

    /// A graph grown from a graph that was grown from a third is grown from
    /// the third.
    pub proof fn lemma_grown_twice(&self, middle: &Graph, before: &Graph)
        requires
            middle.grown_from(before),
            self.grown_from(middle),
        ensures
            self.grown_from(before),
    {
        assert forall|i: int| 0 <= i < before.nodes().len() implies {
            &&& #[trigger] self.level_of()[i] == before.level_of()[i]
            &&& self.nodes()[i].spec_vec() == before.nodes()[i].spec_vec()
            &&& self.nodes()[i].spec_child() == before.nodes()[i].spec_child()
        } by {
            assert(middle.level_of()[i] == before.level_of()[i]);
            assert(self.level_of()[i] == middle.level_of()[i]);
        }
    }

    /// Makes the node of vector `vec_handle` on a level above the lowest,
    /// with `child` below it, and wires it in with `results` as its
    /// neighbours.
    pub(crate) fn create_node(
        &mut self,
        vec_handle: VecHandle,
        results: Vec<InternalSearchResult<Node>>,
        child: NodeHandle,
        Ghost(level): Ghost<nat>,
    ) -> (handle: NodeHandle)
        requires
            old(self).wf_core(),
            old(self).nodes().len() < MAX_RECORDS,
            1 <= level <= old(self).spec_levels(),
            vec_handle@ < old(self).quants().len(),
            results@.len() <= old(self).fan_out(),
            forall|i: int|
                0 <= i < results@.len() ==> (old(self).at_level(level))((#[trigger] results@[i]).node@),
            if level == 1 {
                child@ < old(self).nodes0().len()
            } else {
                (old(self).at_level((level - 1) as nat))(child@)
            },
        ensures
            final(self).wf_core(),
            final(self).grown_from(old(self)),
            final(self).nodes0() == old(self).nodes0(),
            handle@ == old(self).nodes().len(),
            final(self).nodes().len() == old(self).nodes().len() + 1,
            final(self).level_of() == old(self).level_of().push(level),
            final(self).nodes()[handle@ as int].spec_vec() == vec_handle@,
            final(self).nodes()[handle@ as int].spec_child() == child@,
            final(self).node_made(old(self), vec_handle@, child@, level, pairs_of(results@)),
    {
        let ghost before = *self;
        let ghost old_lists = links_of(self.nodes());
        let node_handle = self.nodes_arena.allocate((vec_handle, child));
        self.level_of = Ghost(self.level_of@.push(level));
        let entries = to_pairs(&results);
        let ghost allocated = self.nodes_arena@;
        let ghost lists = links_of(allocated);
        proof {
            assert forall|i: int| 0 <= i < before.nodes().len() implies #[trigger] allocated[i]
                == before.nodes()[i] by {
                assert(allocated.take(before.nodes().len() as int)[i] == before.nodes()[i]);
            }
            assert(Node::is_built(allocated[node_handle@ as int], self.m, (vec_handle, child)));
            lemma_blank_list(allocated[node_handle@ as int].list(), self.m as nat);
            assert(lists =~= old_lists.push(blank_list(self.m as nat)));
            assert forall|i: int| 0 <= i < allocated.len() && i != node_handle@ implies (
            #[trigger] allocated[i]).links().wf(self.distance_metric) && allocated[i].links().capacity()
                > 0 by {
                assert(before.node_ok(i));
            }
        }
        wire(&mut self.nodes_arena, &self.distance_metric, node_handle, &entries);
        proof {
            let metric = self.distance_metric;
            let new = node_handle@;
            let seeded = lists.update(new as int, ListView::seeded(lists[new as int], entries@, metric));
            let after = links_of(self.nodes());
            lemma_seeded(lists[new as int], entries@, metric);
            assert forall|i: int| 0 <= i < seeded.len() implies (#[trigger] seeded[i]).wf(metric)
                && seeded[i].capacity() > 0 by {
                if i != new {
                    assert(seeded[i] == allocated[i].links());
                }
            }
            lemma_backlinked(seeded, entries@, entries@.len(), new, metric);
            assert forall|i: int| 0 <= i < self.nodes().len() implies self.node_ok(i) by {
                let node = self.nodes()[i];
                assert(after[i] == node.list());
                if i < new {
                    assert(before.node_ok(i));
                    assert(seeded[i] == before.nodes()[i].list());
                    let own = self.level_of()[i];
                    assert forall|j: int| 0 <= j < node.list().targets().len() implies (self.at_level(
                        own,
                    ))(#[trigger] node.list().targets()[j]) by {
                        let target = after[i].targets()[j];
                        if seeded[i].targets().contains(target) {
                            let slot = choose|s: int|
                                0 <= s < seeded[i].targets().len() && seeded[i].targets()[s]
                                    == target;
                            assert((before.at_level(own))(before.nodes()[i].list().targets()[slot]));
                        } else {
                            let k = choose|k: int|
                                0 <= k < entries@.len() && (#[trigger] entries@[k]).0 == i;
                            assert((before.at_level(level))(results@[k].node@));
                        }
                    }
                } else {
                    assert(forall|k: int|
                        0 <= k < entries@.len() ==> (#[trigger] entries@[k]).0 != new) by {
                        assert forall|k: int| 0 <= k < entries@.len() implies (
                        #[trigger] entries@[k]).0 != new by {
                            assert((before.at_level(level))(results@[k].node@));
                        }
                    }
                    assert(after[i] == seeded[i]);
                    assert forall|j: int| 0 <= j < node.list().targets().len() implies (self.at_level(
                        level,
                    ))(#[trigger] node.list().targets()[j]) by {
                        assert(node.list().live()[j] == entries@[j]);
                        assert((before.at_level(level))(results@[j].node@));
                    }
                }
            }
            assert forall|i: int| 0 <= i < self.nodes0().len() implies self.node0_ok(i) by {
                assert(before.node0_ok(i));
            }
        }
        node_handle
    }

    /// Makes the node of vector `vec_handle` on the lowest level and wires
    /// it in with `results` as its neighbours.
    pub(crate) fn create_node0(
        &mut self,
        vec_handle: VecHandle,
        results: Vec<InternalSearchResult<Node0>>,
    ) -> (handle: Node0Handle)
        requires
            old(self).wf_core(),
            old(self).nodes0().len() < old(self).quants().len(),
            vec_handle@ == old(self).nodes0().len(),
            results@.len() <= old(self).fan_out0(),
            forall|i: int|
                0 <= i < results@.len() ==> (#[trigger] results@[i]).node@ < old(self).nodes0().len(),
        ensures
            final(self).wf_core(),
            final(self).grown_from(old(self)),
            final(self).nodes() == old(self).nodes(),
            final(self).level_of() == old(self).level_of(),
            handle@ == old(self).nodes0().len(),
            final(self).nodes0().len() == old(self).nodes0().len() + 1,
            final(self).node0_made(old(self), pairs_of(results@)),
    {
        let ghost before = *self;
        let ghost old_lists = links_of(self.nodes0());
        proof {
            self.lemma_counts();
        }
        let node_handle = self.nodes0_arena.allocate(vec_handle);
        let entries = to_pairs(&results);
        let ghost allocated = self.nodes0_arena@;
        let ghost lists = links_of(allocated);
        proof {
            assert forall|i: int| 0 <= i < before.nodes0().len() implies #[trigger] allocated[i]
                == before.nodes0()[i] by {
                assert(allocated.take(before.nodes0().len() as int)[i] == before.nodes0()[i]);
            }
            assert(Node0::is_built(allocated[node_handle@ as int], self.m0, vec_handle));
            lemma_blank_list(allocated[node_handle@ as int].list(), self.m0 as nat);
            assert(lists =~= old_lists.push(blank_list(self.m0 as nat)));
            assert forall|i: int| 0 <= i < allocated.len() && i != node_handle@ implies (
            #[trigger] allocated[i]).links().wf(self.distance_metric) && allocated[i].links().capacity()
                > 0 by {
                assert(before.node0_ok(i));
            }
        }
        wire(&mut self.nodes0_arena, &self.distance_metric, node_handle, &entries);
        proof {
            let metric = self.distance_metric;
            let new = node_handle@;
            let seeded = lists.update(new as int, ListView::seeded(lists[new as int], entries@, metric));
            let after = links_of(self.nodes0());
            lemma_seeded(lists[new as int], entries@, metric);
            assert forall|i: int| 0 <= i < seeded.len() implies (#[trigger] seeded[i]).wf(metric)
                && seeded[i].capacity() > 0 by {
                if i != new {
                    assert(seeded[i] == allocated[i].links());
                }
            }
            lemma_backlinked(seeded, entries@, entries@.len(), new, metric);
            assert forall|i: int| 0 <= i < self.nodes0().len() implies self.node0_ok(i) by {
                let node = self.nodes0()[i];
                assert(after[i] == node.list());
                if i < new {
                    assert(before.node0_ok(i));
                    assert(seeded[i] == before.nodes0()[i].list());
                    assert forall|j: int| 0 <= j < node.list().targets().len() implies (
                    #[trigger] node.list().targets()[j]) < self.nodes0().len() by {
                        let target = after[i].targets()[j];
                        if seeded[i].targets().contains(target) {
                            let slot = choose|s: int|
                                0 <= s < seeded[i].targets().len() && seeded[i].targets()[s]
                                    == target;
                            assert(before.nodes0()[i].list().targets()[slot] < before.nodes0().len());
                        }
                    }
                } else {
                    assert(forall|k: int|
                        0 <= k < entries@.len() ==> (#[trigger] entries@[k]).0 != new) by {
                        assert forall|k: int| 0 <= k < entries@.len() implies (
                        #[trigger] entries@[k]).0 != new by {
                            assert(results@[k].node@ < before.nodes0().len());
                        }
                    }
                    assert(after[i] == seeded[i]);
                    assert forall|j: int| 0 <= j < node.list().targets().len() implies (
                    #[trigger] node.list().targets()[j]) < self.nodes0().len() by {
                        assert(node.list().live()[j] == entries@[j]);
                        assert(results@[j].node@ < before.nodes0().len());
                    }
                }
            }
            assert forall|i: int| 0 <= i < self.nodes().len() implies self.node_ok(i) by {
                assert(before.node_ok(i));
            }
            assert forall|i: int| 0 <= i < self.nodes0().len() implies (#[trigger] self.nodes0()[i]).spec_vec()
                == i by {
                assert(self.node0_ok(i));
            }
        }
        node_handle
    }
}

/// The lesser of two levels.
pub open spec fn lower(a: u8, b: u8) -> u8 {
    if a < b {
        a
    } else {
        b
    }
}

impl Graph {
    /// Finds the place of vector `vec_handle` on the lowest level by a walk
    /// from `entry_node` for `m0` neighbours, and makes and wires its node.
    pub(crate) fn index_level0<F: Fn(&QuantVec, &QuantVec) -> u32>(
        &mut self,
        vec_handle: VecHandle,
        entry_node: Node0Handle,
        ef: u16,
        score: &F,
    ) -> (handle: Node0Handle)
        requires
            old(self).wf_core(),
            old(self).quants().len() == old(self).nodes0().len() + 1,
            vec_handle@ == old(self).nodes0().len(),
            entry_node@ < old(self).nodes0().len(),
            is_scorer(*score, old(self).spec_quantization(), old(self).spec_dims()),
        ensures
            final(self).wf(),
            final(self).grown_from(old(self)),
            final(self).nodes() == old(self).nodes(),
            final(self).level_of() == old(self).level_of(),
            handle@ == old(self).nodes0().len(),
            final(self).nodes0().len() == old(self).nodes0().len() + 1,
            forall|table: Scores| #[trigger]
                agrees(*score, table) ==> final(self).placed(
                    old(self),
                    vec_handle@,
                    entry_node@,
                    0,
                    0,
                    ef as nat,
                    table,
                ),
    {
        let results = {
            let query = self.vec_arena.index_b(HandleB::new(*vec_handle));
            self.search_level0(entry_node, query, ef, self.m0, true, score)
        };
        self.create_node0(vec_handle, results)
    }

    /// Descends from `entry_node` on level `current_level` to the place of
    /// vector `vec_handle`, and makes and wires its node on every level from
    /// `max_level` down. Returns the node made on the highest of them.
    pub(crate) fn index_level<F: Fn(&QuantVec, &QuantVec) -> u32>(
        &mut self,
        vec_handle: VecHandle,
        entry_node: NodeHandle,
        current_level: u8,
        max_level: u8,
        ef: u16,
        score: &F,
    ) -> (handle: NodeHandle)
        requires
            old(self).wf_core(),
            old(self).quants().len() == old(self).nodes0().len() + 1,
            vec_handle@ == old(self).nodes0().len(),
            current_level <= old(self).spec_levels(),
            if current_level == 0 {
                entry_node@ < old(self).nodes0().len()
            } else {
                (old(self).at_level(current_level as nat))(entry_node@)
            },
            ef >= 1,
            is_scorer(*score, old(self).spec_quantization(), old(self).spec_dims()),
            old(self).nodes().len() + current_level <= MAX_RECORDS,
        ensures
            final(self).wf(),
            final(self).grown_from(old(self)),
            final(self).nodes0().len() == old(self).nodes0().len() + 1,
            final(self).nodes().len() == old(self).nodes().len() + lower(current_level, max_level),
            if lower(current_level, max_level) == 0 {
                handle@ == old(self).nodes0().len()
            } else {
                handle@ == final(self).nodes().len() - 1
            },
            final(self).adds_nodes_for(old(self), vec_handle@ as int),
            handle@ == final(self).made_on(lower(current_level, max_level) as nat),
            forall|table: Scores| #[trigger]
                agrees(*score, table) ==> final(self).placed(
                    old(self),
                    vec_handle@,
                    entry_node@,
                    current_level as nat,
                    max_level as nat,
                    ef as nat,
                    table,
                ),
        decreases current_level,
    {
        let ghost before = *self;
        let ghost query = self.quants()[vec_handle@ as int];
        if current_level > max_level {
            let child = {
                let query = self.vec_arena.index_b(HandleB::new(*vec_handle));
                let results = self.search_level(entry_node, query, ef, 1, true, score);
                let winner = results[0].node;
                proof {
                    assert((self.at_level(current_level as nat))(winner@));
                    assert(self.node_ok(winner@ as int));
                    assert forall|table: Scores| #[trigger] agrees(*score, table) implies self.nodes()[winner@ as int].spec_child()
                        == self.next_entry(entry_node@, *query, ef as nat, table) by {
                        let best = self.upper_best(entry_node@, *query, ef as nat, 1, true, table);
                        assert(pairs_of(results@) == scored_entries(self.metric(), best));
                        assert(pairs_of(results@)[0] == scored_entries(self.metric(), best)[0]);
                        assert(winner@ == best[0].1);
                    }
                }
                self.nodes_arena.index(winner).child()
            };
            self.index_level(vec_handle, child, current_level - 1, max_level, ef, score)
        } else if current_level == 0 {
            self.index_level0(vec_handle, entry_node.cast(), ef, score).cast()
        } else {
            let (results, child) = {
                let query = self.vec_arena.index_b(HandleB::new(*vec_handle));
                let results = self.search_level(entry_node, query, ef, self.m, true, score);
                let winner = results[0].node;
                proof {
                    assert((self.at_level(current_level as nat))(winner@));
                    assert(self.node_ok(winner@ as int));
                }
                let child = self.nodes_arena.index(winner).child();
                (results, child)
            };
            let ghost found = pairs_of(results@);
            let ghost first = results@[0].node@;
            let child = self.index_level(vec_handle, child, current_level - 1, max_level, ef, score);
            let ghost below = *self;
            proof {
                assert forall|i: int| 0 <= i < results@.len() implies (self.at_level(
                    current_level as nat,
                ))((#[trigger] results@[i]).node@) by {
                    assert((before.at_level(current_level as nat))(results@[i].node@));
                }
                if current_level > 1 {
                    assert(self.nodes()[child@ as int].spec_vec() == vec_handle@);
                    assert(self.level_of()[child@ as int] == current_level - 1);
                }
            }
            let handle = self.create_node(vec_handle, results, child, Ghost(current_level as nat));
            proof {
                self.lemma_grown_twice(&below, &before);
                assert forall|i: int| before.nodes().len() <= i < self.nodes().len() implies {
                    &&& (#[trigger] self.nodes()[i]).spec_vec() == vec_handle@
                    &&& self.level_of()[i] == i - before.nodes().len() + 1
                } by {
                    if i < below.nodes().len() {
                        assert(below.nodes()[i].spec_vec() == vec_handle@);
                        assert(self.level_of()[i] == below.level_of()[i]);
                    }
                }
                assert forall|table: Scores| #[trigger] agrees(*score, table) implies self.placed(
                    &before,
                    vec_handle@,
                    entry_node@,
                    current_level as nat,
                    max_level as nat,
                    ef as nat,
                    table,
                ) by {
                    let best = before.upper_best(
                        entry_node@,
                        query,
                        ef as nat,
                        before.fan_out() as nat,
                        true,
                        table,
                    );
                    assert(found == scored_entries(before.metric(), best));
                    assert(found[0] == scored_entries(before.metric(), best)[0]);
                    assert(first == best[0].1);
                    assert(self.node_made(
                        &below,
                        vec_handle@,
                        below.made_on((current_level - 1) as nat),
                        current_level as nat,
                        scored_entries(before.metric(), best),
                    ));
                    assert(below.placed(
                        &before,
                        vec_handle@,
                        before.nodes()[best[0].1 as int].spec_child(),
                        (current_level - 1) as nat,
                        max_level as nat,
                        ef as nat,
                        table,
                    ));
                }
            }
            handle
        }
    }

    /// Inserts a vector: stores its raw and its quantized form, draws the
    /// level of its highest node, descends to that level taking the single
    /// best node of each level on the way, and from there down makes a node
    /// on every level, wired to the best nodes of a walk on that level.
    ///
    /// `level_of` turns a draw of the generator into a level; a level above
    /// the highest counts as the highest. What the graph becomes is stated
    /// for every table of scores and every table of levels that have what
    /// `score` and `level_of` give.
    pub fn index<F: Fn(&QuantVec, &QuantVec) -> u32, L: Fn(u64, u8) -> u8>(
        &mut self,
        vec: Vec<u32>,
        quantized: QuantArgs,
        ef: u16,
        score: &F,
        level_of: &L,
    ) -> (id: NodeId)
        requires
            old(self).wf(),
            vec@.len() == old(self).spec_dims(),
            quantized.codes@.len() == old(self).spec_dims(),
            ef >= 1,
            is_scorer(*score, old(self).spec_quantization(), old(self).spec_dims()),
            is_sampler(*level_of),
            old(self).quants().len() < MAX_RECORDS,
            old(self).nodes().len() + old(self).spec_levels() <= MAX_RECORDS,
        ensures
            final(self).wf(),
            id.0 == old(self).quants().len() - 1,
            final(self).fan_out() == old(self).fan_out(),
            final(self).fan_out0() == old(self).fan_out0(),
            final(self).spec_dims() == old(self).spec_dims(),
            final(self).spec_levels() == old(self).spec_levels(),
            final(self).spec_quantization() == old(self).spec_quantization(),
            final(self).metric() == old(self).metric(),
            final(self).top() == old(self).top(),
            final(self).rng_state() == lcg_next(old(self).rng_state()),
            final(self).quants().len() == old(self).quants().len() + 1,
            final(self).quants().take(old(self).quants().len() as int) == old(self).quants(),
            final(self).raws().take(old(self).raws().len() as int) == old(self).raws(),
            final(self).raws()[id.0 + 1]@ == vec@,
            QuantVec::is_built(
                final(self).quants()[id.0 + 1],
                (QuantShape {
                    quantization: old(self).spec_quantization(),
                    dims: old(self).spec_dims(),
                }),
                quantized,
            ),
            forall|levels: Levels| #[trigger]
                agrees_level(*level_of, levels) ==> final(self).nodes().len() == old(
                    self,
                ).nodes().len() + lower(
                    levels(old(self).rng_state(), old(self).spec_levels()),
                    old(self).spec_levels(),
                ),
            final(self).keeps_nodes_of(old(self)),
            final(self).adds_nodes_for(old(self), id.0 + 1),
            forall|table: Scores, levels: Levels|
                #![trigger agrees(*score, table), agrees_level(*level_of, levels)]
                agrees(*score, table) && agrees_level(*level_of, levels) ==> exists|stored: Graph|
                    {
                        &&& #[trigger] stored.vector_stored(old(self), vec@, quantized)
                        &&& final(self).placed(
                            &stored,
                            (id.0 + 1) as u32,
                            old(self).top(),
                            old(self).spec_levels() as nat,
                            lower(
                                levels(old(self).rng_state(), old(self).spec_levels()),
                                old(self).spec_levels(),
                            ) as nat,
                            ef as nat,
                            table,
                        )
                    },
    {
        let ghost before = *self;
        proof {
            self.lemma_counts();
            self.vec_arena.lemma_view_lengths();
        }
        let ghost raw = vec@;
        let ghost built = quantized;
        let vec_handle = self.vec_arena.allocate(vec, quantized);
        let vec_handle: VecHandle = Handle::new(*vec_handle);
        proof {
            self.vec_arena.lemma_view_lengths();
            assert(self.quants().take(before.quants().len() as int) == before.quants());
            assert(self.raws().take(before.raws().len() as int) == before.raws());
            assert forall|v: int| 0 <= v < before.quants().len() implies #[trigger] self.quants()[v]
                == before.quants()[v] by {
                assert(self.quants().take(before.quants().len() as int)[v] == before.quants()[v]);
            }
            assert forall|v: int| 0 <= v < before.raws().len() implies #[trigger] self.raws()[v]
                == before.raws()[v] by {
                assert(self.raws().take(before.raws().len() as int)[v] == before.raws()[v]);
            }
        }

        let draw = self.rng.next_u64();
        let level = level_of(draw, self.levels);
        let max_level = if level < self.levels {
            level
        } else {
            self.levels
        };
        let ghost stored = *self;
        proof {
            assert forall|i: int| 0 <= i < stored.nodes().len() implies stored.node_ok(i) by {
                assert(before.node_ok(i));
            }
            assert forall|i: int| 0 <= i < stored.nodes0().len() implies stored.node0_ok(i) by {
                assert(before.node0_ok(i));
            }
        }
        self.index_level(vec_handle, self.top_level_root_node, self.levels, max_level, ef, score);
        let id = NodeId(*vec_handle - 1);
        proof {
            assert(self.adds_nodes_for(&before, id.0 + 1));
            assert(self.keeps_nodes_of(&before));
            assert(stored.vector_stored(&before, raw, built));
        }
        id
    }
}

} // verus!
