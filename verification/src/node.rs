//! The nodes of the graph and their bounded neighbour lists.
//!
//! A neighbour list has a fixed number of slots. Until all are taken it
//! fills from the front; from then on a new neighbour only gets in by
//! pushing out the weakest one, and only if it is better than the weakest
//! score on record.
use crate::arena::DynAlloc;
use crate::handle::Handle;
use crate::metric::max_score;
use crate::metric::DistanceMetric;
use crate::storage::QuantVec;
use vstd::prelude::*;
use vstd::slice::slice_subrange;

verus! {

/// A handle to a stored vector.
pub type VecHandle = Handle<QuantVec>;

/// A handle to a node above the lowest level.
pub type NodeHandle = Handle<Node>;

/// A handle to a node of the lowest level.
pub type Node0Handle = Handle<Node0>;

/// The most slots a neighbour list has.
pub const MAX_NEIGHBORS: usize = 0xFFFF;

/// What a neighbour list holds, as a value: its slots as pairs of a node
/// index and a score, whether all slots are taken, and the weakest entry on
/// record.
///
/// While the list is not full, `lowest_index` counts the taken slots, which
/// are the first ones. Once it is full, `lowest_index` and `lowest_score`
/// are what a scan of the slots for the weakest score gives.
pub struct ListView {
    pub full: bool,
    pub lowest_index: int,
    pub lowest_score: u32,
    pub slots: Seq<(u32, u32)>,
}

/// The result of scanning `scores` from the front for the weakest one,
/// starting from the metric's starting score: the index and the score of the
/// first entry of the weakest rank if that rank is below the rank of the
/// starting score, and index 0 and the starting score otherwise.
pub open spec fn lowest_scan(scores: Seq<u32>, metric: DistanceMetric) -> (int, u32)
    decreases scores.len(),
{
    if scores.len() == 0 {
        (0, max_score(metric.spec_kind()))
    } else {
        let before = lowest_scan(scores.drop_last(), metric);
        if metric.rank_of(scores.last()) < metric.rank_of(before.1) {
            (scores.len() - 1, scores.last())
        } else {
            before
        }
    }
}

/// The scores of `slots`, in slot order.
pub open spec fn scores_of(slots: Seq<(u32, u32)>) -> Seq<u32> {
    Seq::new(slots.len(), |i: int| slots[i].1)
}

impl ListView {
    /// The number of slots.
    pub open spec fn capacity(self) -> nat {
        self.slots.len()
    }

    /// The list that has all of `slots` taken.
    pub open spec fn filled(slots: Seq<(u32, u32)>, metric: DistanceMetric) -> Self {
        let lowest = lowest_scan(scores_of(slots), metric);
        ListView { full: true, lowest_index: lowest.0, lowest_score: lowest.1, slots }
    }

    /// The invariant of a list under `metric`.
    pub open spec fn wf(self, metric: DistanceMetric) -> bool {
        &&& self.slots.len() <= MAX_NEIGHBORS
        &&& if self.full {
            (self.lowest_index, self.lowest_score) == lowest_scan(scores_of(self.slots), metric)
        } else {
            &&& 0 <= self.lowest_index
            &&& self.lowest_index < self.slots.len() || (self.lowest_index == 0
                && self.slots.len() == 0)
        }
    }

    /// Whether `lowest_index` is a count of slots or the index of one.
    pub open spec fn shaped(self) -> bool {
        0 <= self.lowest_index <= self.slots.len()
    }

    /// The node indices of the live neighbours, in slot order.
    pub open spec fn targets(self) -> Seq<u32> {
        Seq::new(self.live().len(), |j: int| self.live()[j].0)
    }

    /// The slots that are taken.
    pub open spec fn live(self) -> Seq<(u32, u32)> {
        if self.full {
            self.slots
        } else {
            self.slots.take(self.lowest_index)
        }
    }

    /// The list after `node` was offered to it with `score`.
    ///
    /// A list that is not full takes the entry into its next free slot, and
    /// becomes full if that was the last one. A full list takes the entry in
    /// place of its weakest one if the entry ranks strictly above the weakest
    /// score on record, and otherwise stays as it is.
    pub open spec fn inserted(self, metric: DistanceMetric, node: u32, score: u32) -> Self {
        if self.full {
            if metric.rank_of(score) > metric.rank_of(self.lowest_score) {
                Self::filled(self.slots.update(self.lowest_index, (node, score)), metric)
            } else {
                self
            }
        } else {
            let slots = self.slots.update(self.lowest_index, (node, score));
            if self.lowest_index + 1 == self.slots.len() {
                Self::filled(slots, metric)
            } else {
                ListView { full: false, lowest_index: self.lowest_index + 1, lowest_score: self.lowest_score, slots }
            }
        }
    }

    /// The list `blank` with `entries` taken into its first slots, as the
    /// list of a new node is after the node was given its neighbours.
    pub open spec fn seeded(blank: Self, entries: Seq<(u32, u32)>, metric: DistanceMetric) -> Self {
        let slots = Seq::new(
            blank.slots.len(),
            |i: int|
                if i < entries.len() {
                    entries[i]
                } else {
                    blank.slots[i]
                },
        );
        if entries.len() == blank.slots.len() {
            Self::filled(slots, metric)
        } else {
            ListView { full: false, lowest_index: entries.len() as int, lowest_score: blank.lowest_score, slots }
        }
    }

    /// Whether this is the list that a new record starts with: nothing
    /// taken, every slot zeroed.
    pub open spec fn is_blank(self, capacity: nat) -> bool {
        &&& !self.full
        &&& self.lowest_index == 0
        &&& self.lowest_score == 0
        &&& self.slots.len() == capacity
        &&& forall|i: int| 0 <= i < capacity ==> (#[trigger] self.slots[i]).0 == 0 && self.slots[i].1 == 0
    }
}

/// What the scan finds is in range, nothing in the list ranks below it, and
/// everything before it ranks strictly above it. Unless it is the starting
/// score, it is the score at the index found.
pub proof fn lemma_lowest_scan(scores: Seq<u32>, metric: DistanceMetric)
    ensures
        ({
            let lowest = lowest_scan(scores, metric);
            &&& 0 <= lowest.0
            &&& lowest.0 < scores.len() || lowest.0 == 0
            &&& metric.rank_of(lowest.1) <= metric.rank_of(max_score(metric.spec_kind()))
            &&& forall|i: int|
                0 <= i < scores.len() ==> metric.rank_of(lowest.1) <= metric.rank_of(
                    #[trigger] scores[i],
                )
            &&& lowest.1 != max_score(metric.spec_kind()) ==> lowest.0 < scores.len()
                && scores[lowest.0] == lowest.1
            &&& forall|j: int|
                0 <= j < lowest.0 ==> metric.rank_of(lowest.1) < metric.rank_of(#[trigger] scores[j])
        }),
    decreases scores.len(),
{
    if scores.len() > 0 {
        let shorter = scores.drop_last();
        lemma_lowest_scan(shorter, metric);
        let lowest = lowest_scan(scores, metric);
        let before = lowest_scan(shorter, metric);
        assert forall|i: int| 0 <= i < scores.len() implies metric.rank_of(lowest.1)
            <= metric.rank_of(#[trigger] scores[i]) by {
            if i < scores.len() - 1 {
                assert(shorter[i] == scores[i]);
            }
        }
        if lowest.1 != max_score(metric.spec_kind()) && lowest == before {
            assert(shorter[before.0] == scores[before.0]);
        }
        assert forall|j: int| 0 <= j < lowest.0 implies metric.rank_of(lowest.1) < metric.rank_of(
            #[trigger] scores[j],
        ) by {
            assert(shorter[j] == scores[j]);
        }
    }
}

/// A list never has more live neighbours than slots, and a full list has
/// exactly as many.
pub proof fn lemma_live_count(list: ListView, metric: DistanceMetric)
    requires
        list.wf(metric),
    ensures
        list.shaped(),
        list.live().len() <= list.capacity(),
        list.full ==> list.live().len() == list.capacity(),
{
    lemma_lowest_scan(scores_of(list.slots), metric);
}

/// A blank list is well formed and has no live neighbour.
pub proof fn lemma_blank(list: ListView, capacity: nat, metric: DistanceMetric)
    requires
        list.is_blank(capacity),
        capacity <= MAX_NEIGHBORS,
    ensures
        list.wf(metric),
        list.shaped(),
        list.capacity() == capacity,
        list.targets() =~= Seq::<u32>::empty(),
{
}

/// A node of one level of the graph: it stands for a vector, names the node
/// below it, and has a neighbour list.
pub trait Linked: Sized {
    /// The neighbour list as a value.
    spec fn links(&self) -> ListView;

    /// The index of the vector that the node stands for.
    spec fn vector(&self) -> u32;

    /// The index of the node one level below, or 0 on the lowest level.
    spec fn below(&self) -> u32;

    fn vec_handle(&self) -> (vec: VecHandle)
        ensures
            vec@ == self.vector(),
    ;

    /// The number of live neighbours.
    fn live_count(&self) -> (count: usize)
        requires
            self.links().shaped(),
        ensures
            count == self.links().live().len(),
    ;

    /// The node index of the live neighbour in slot `slot`.
    fn live_target(&self, slot: usize) -> (target: u32)
        requires
            self.links().shaped(),
            slot < self.links().live().len(),
        ensures
            target == self.links().targets()[slot as int],
    ;

    /// Offers the node with index `node` to the neighbour list with `score`.
    fn offer(&mut self, distance_metric: &DistanceMetric, node: u32, score: u32)
        requires
            old(self).links().wf(*distance_metric),
            old(self).links().capacity() > 0,
        ensures
            final(self).links() == old(self).links().inserted(*distance_metric, node, score),
            final(self).vector() == old(self).vector(),
            final(self).below() == old(self).below(),
    ;

    /// Takes `entries`, pairs of a node index and a score, into the first
    /// slots of the node's blank list.
    fn adopt(&mut self, distance_metric: &DistanceMetric, entries: &Vec<(u32, u32)>)
        requires
            old(self).links().is_blank(old(self).links().capacity()),
            old(self).links().capacity() <= MAX_NEIGHBORS,
            entries@.len() <= old(self).links().capacity(),
        ensures
            final(self).links() == ListView::seeded(old(self).links(), entries@, *distance_metric),
            final(self).links().wf(*distance_metric),
            final(self).vector() == old(self).vector(),
            final(self).below() == old(self).below(),
    ;
}

/// The entries of a neighbour list that stand for `candidates`, pairs of a
/// rank and a node index: pairs of the node index and the score of the rank.
pub open spec fn scored_entries(metric: DistanceMetric, candidates: Seq<(i32, u32)>) -> Seq<
    (u32, u32),
> {
    Seq::new(candidates.len(), |i: int| (candidates[i].1, metric.score_at(candidates[i].0 as int)))
}

/// In a full list no neighbour ranks below the weakest score on record.
pub proof fn lemma_weakest_tracked(list: ListView, metric: DistanceMetric, i: int)
    requires
        list.wf(metric),
        list.full,
        0 <= i < list.slots.len(),
    ensures
        metric.rank_of(list.slots[i].1) >= metric.rank_of(list.lowest_score),
{
    lemma_lowest_scan(scores_of(list.slots), metric);
    assert(scores_of(list.slots)[i] == list.slots[i].1);
}

/// Offering an entry to a well-formed list with at least one slot leaves a
/// well-formed list with the same number of slots.
pub proof fn lemma_inserted_wf(list: ListView, metric: DistanceMetric, node: u32, score: u32)
    requires
        list.wf(metric),
        list.capacity() > 0,
    ensures
        list.inserted(metric, node, score).wf(metric),
        list.inserted(metric, node, score).capacity() == list.capacity(),
{
    lemma_lowest_scan(scores_of(list.slots), metric);
}

/// Every live neighbour of the list after an offer is the entry offered or
/// was a live neighbour before.
pub proof fn lemma_inserted_live(
    list: ListView,
    metric: DistanceMetric,
    node: u32,
    score: u32,
    i: int,
)
    requires
        list.wf(metric),
        list.capacity() > 0,
        0 <= i < list.inserted(metric, node, score).live().len(),
    ensures
        ({
            let after = list.inserted(metric, node, score).live();
            after[i] == (node, score) || exists|j: int|
                0 <= j < list.live().len() && list.live()[j] == after[i]
        }),
{
    lemma_lowest_scan(scores_of(list.slots), metric);
    let after = list.inserted(metric, node, score).live();
    if after[i] != (node, score) {
        assert(list.live()[i] == after[i]);
    }
}

/// One entry of a neighbour list above the lowest level: the neighbour and the score
/// of the link.
#[derive(Debug, Clone, Copy)]
pub struct Neighbor {
    node: u32,
    score: u32,
}

impl Neighbor {
    /// The index of the neighbour.
    pub closed spec fn spec_index(&self) -> u32 {
        self.node
    }

    /// The score of the link.
    pub closed spec fn spec_score(&self) -> u32 {
        self.score
    }

    /// The entry as a pair of node index and score.
    pub open spec fn pair(&self) -> (u32, u32) {
        (self.spec_index(), self.spec_score())
    }

    pub fn new(node: NodeHandle, score: u32) -> (neighbor: Self)
        ensures
            neighbor.pair() == (node@, score),
    {
        Neighbor { node: *node, score }
    }

    /// The neighbour.
    pub fn node(&self) -> (node: NodeHandle)
        ensures
            node@ == self.spec_index(),
    {
        Handle::new(self.node)
    }

    /// The score of the link.
    pub fn score(&self) -> (score: u32)
        ensures
            score == self.spec_score(),
    {
        self.score
    }
}

/// The neighbour list of a node above the lowest level.
#[derive(Debug)]
pub struct Neighbors {
    neighbors_full: bool,
    lowest_index: u16,
    lowest_score: u32,
    neighbors: Vec<Neighbor>,
}

impl View for Neighbors {
    type V = ListView;

    closed spec fn view(&self) -> ListView {
        ListView {
            full: self.neighbors_full,
            lowest_index: self.lowest_index as int,
            lowest_score: self.lowest_score,
            slots: Seq::new(
                self.neighbors@.len(),
                |i: int| (self.neighbors@[i].node, self.neighbors@[i].score),
            ),
        }
    }
}

impl Neighbors {
    /// A list of `len` zeroed slots, none of them taken.
    pub fn blank(len: u16) -> (list: Self)
        ensures
            list@.is_blank(len as nat),
    {
        let mut neighbors: Vec<Neighbor> = Vec::new();
        let mut i: u16 = 0;
        while i < len
            invariant
                i <= len,
                neighbors@.len() == i,
                forall|k: int|
                    0 <= k < i ==> (#[trigger] neighbors@[k]).node == 0 && neighbors@[k].score == 0,
            decreases len - i,
        {
            neighbors.push(Neighbor { node: 0, score: 0 });
            i = i + 1;
        }
        Neighbors { neighbors_full: false, lowest_index: 0, lowest_score: 0, neighbors }
    }

    /// Whether every slot is taken.
    pub fn neighbors_full(&self) -> (full: bool)
        ensures
            full == self@.full,
    {
        self.neighbors_full
    }

    /// The number of taken slots while the list is not full, the slot of the
    /// weakest entry on record once it is.
    pub fn lowest_index(&self) -> (index: u16)
        ensures
            index == self@.lowest_index,
    {
        self.lowest_index
    }

    /// The weakest score on record.
    pub fn lowest_score(&self) -> (score: u32)
        ensures
            score == self@.lowest_score,
    {
        self.lowest_score
    }

    /// The number of slots.
    pub fn capacity(&self) -> (capacity: usize)
        ensures
            capacity == self@.capacity(),
    {
        self.neighbors.len()
    }

    /// All slots, taken or not.
    pub fn slots(&self) -> (slots: &[Neighbor])
        ensures
            slots@.len() == self@.slots.len(),
            forall|i: int|
                0 <= i < slots@.len() ==> (#[trigger] slots@[i]).pair() == self@.slots[i],
    {
        self.neighbors.as_slice()
    }

    /// The live neighbours: all of them once the list is full, the taken
    /// slots before.
    pub fn neighbors(&self) -> (live: &[Neighbor])
        requires
            self@.lowest_index <= self@.slots.len(),
        ensures
            live@.len() == self@.live().len(),
            forall|i: int|
                0 <= i < live@.len() ==> (#[trigger] live@[i]).pair() == self@.live()[i],
    {
        if self.neighbors_full {
            self.neighbors.as_slice()
        } else {
            slice_subrange(self.neighbors.as_slice(), 0, self.lowest_index as usize)
        }
    }

    /// Offers `node` to the list with `score`.
    pub fn insert_neighbor(&mut self, distance_metric: &DistanceMetric, node: NodeHandle, score: u32)
        requires
            old(self)@.wf(*distance_metric),
            old(self)@.capacity() > 0,
        ensures
            final(self)@ == old(self)@.inserted(*distance_metric, node@, score),
            final(self)@.wf(*distance_metric),
    {
        proof {
            lemma_inserted_wf(self@, *distance_metric, node@, score);
            lemma_lowest_scan(scores_of(self@.slots), *distance_metric);
        }
        if self.neighbors_full {
            if distance_metric.rank(score) > distance_metric.rank(self.lowest_score) {
                self.neighbors.set(self.lowest_index as usize, Neighbor { node: *node, score });
                assert(self@.slots =~= old(self)@.slots.update(
                    old(self)@.lowest_index,
                    (node@, score),
                ));
                self.recompute_lowest_index(distance_metric);
            }
        } else {
            self.neighbors.set(self.lowest_index as usize, Neighbor { node: *node, score });
            assert(self@.slots =~= old(self)@.slots.update(old(self)@.lowest_index, (node@, score)));
            if self.lowest_index as usize + 1 == self.neighbors.len() {
                self.neighbors_full = true;
                self.recompute_lowest_index(distance_metric);
            } else {
                self.lowest_index += 1;
            }
        }
    }

    /// Takes `entries`, pairs of a node index and a score, into the first
    /// slots of a blank list, as the neighbours that a new node starts with.
    pub fn seed(&mut self, distance_metric: &DistanceMetric, entries: &Vec<(u32, u32)>)
        requires
            old(self)@.is_blank(old(self)@.capacity()),
            old(self)@.capacity() <= MAX_NEIGHBORS,
            entries@.len() <= old(self)@.capacity(),
        ensures
            final(self)@ == ListView::seeded(old(self)@, entries@, *distance_metric),
            final(self)@.wf(*distance_metric),
    {
        let ghost taken = entries@;
        let mut i: usize = 0;
        while i < entries.len()
            invariant
                i <= entries@.len() <= self.neighbors@.len(),
                self.neighbors@.len() == old(self).neighbors@.len(),
                self.neighbors_full == old(self).neighbors_full,
                self.lowest_index == old(self).lowest_index,
                self.lowest_score == old(self).lowest_score,
                taken == entries@,
                forall|k: int| 0 <= k < i ==> (#[trigger] self.neighbors@[k]).pair() == taken[k],
                forall|k: int|
                    i <= k < self.neighbors@.len() ==> self.neighbors@[k] == old(self).neighbors@[k],
            decreases entries@.len() - i,
        {
            let entry = entries[i];
            self.neighbors.set(i, Neighbor { node: entry.0, score: entry.1 });
            i = i + 1;
        }
        assert(self@.slots =~= ListView::seeded(old(self)@, taken, *distance_metric).slots);
        if entries.len() == self.neighbors.len() {
            proof {
                lemma_lowest_scan(scores_of(self@.slots), *distance_metric);
            }
            self.neighbors_full = true;
            self.recompute_lowest_index(distance_metric);
        } else {
            self.lowest_index = entries.len() as u16;
        }
    }

    /// Scans the slots for the weakest score and records it.
    fn recompute_lowest_index(&mut self, distance_metric: &DistanceMetric)
        requires
            old(self).neighbors@.len() <= MAX_NEIGHBORS,
        ensures
            final(self)@.slots == old(self)@.slots,
            final(self)@.full == old(self)@.full,
            (final(self)@.lowest_index, final(self)@.lowest_score) == lowest_scan(
                scores_of(old(self)@.slots),
                *distance_metric,
            ),
    {
        let mut lowest_index: u16 = 0;
        let mut lowest_score = distance_metric.max_value();
        let ghost scores = scores_of(self@.slots);
        let mut i: u16 = 0;
        let len = self.neighbors.len() as u16;
        while i < len
            invariant
                len == self.neighbors@.len(),
                i <= len,
                scores == scores_of(self@.slots),
                (lowest_index as int, lowest_score) == lowest_scan(
                    scores.take(i as int),
                    *distance_metric,
                ),
            decreases len - i,
        {
            let neighbor = &self.neighbors[i as usize];
            proof {
                assert(scores.take(i + 1).drop_last() =~= scores.take(i as int));
                assert(scores.take(i + 1).last() == neighbor.score);
            }
            if distance_metric.rank(neighbor.score) < distance_metric.rank(lowest_score) {
                lowest_score = neighbor.score;
                lowest_index = i;
            }
            i = i + 1;
        }
        proof {
            assert(scores.take(i as int) =~= scores);
        }
        self.lowest_index = lowest_index;
        self.lowest_score = lowest_score;
    }
}

impl DynAlloc for Neighbors {
    type Metadata = u16;

    type Args = ();

    open spec fn record_size(metadata: u16) -> nat {
        8 + 8 * metadata as nat
    }

    open spec fn record_align() -> usize {
        4
    }

    open spec fn accepts(metadata: u16, args: ()) -> bool {
        true
    }

    open spec fn is_built(record: Self, metadata: u16, args: ()) -> bool {
        record@.is_blank(metadata as nat)
    }

    fn align() -> (alignment: usize) {
        4
    }

    fn size(metadata: u16) -> (size: usize) {
        assert(Self::record_size(metadata) == 8 + 8 * metadata);
        8 + (metadata as usize) * 8
    }

    fn new_at(metadata: u16, args: ()) -> (record: Self) {
        Self::blank(metadata)
    }
}

/// One entry of a neighbour list of the lowest level: the neighbour and the score
/// of the link.
#[derive(Debug, Clone, Copy)]
pub struct Neighbor0 {
    node: u32,
    score: u32,
}

impl Neighbor0 {
    /// The index of the neighbour.
    pub closed spec fn spec_index(&self) -> u32 {
        self.node
    }

    /// The score of the link.
    pub closed spec fn spec_score(&self) -> u32 {
        self.score
    }

    /// The entry as a pair of node index and score.
    pub open spec fn pair(&self) -> (u32, u32) {
        (self.spec_index(), self.spec_score())
    }

    pub fn new(node: Node0Handle, score: u32) -> (neighbor: Self)
        ensures
            neighbor.pair() == (node@, score),
    {
        Neighbor0 { node: *node, score }
    }

    /// The neighbour.
    pub fn node(&self) -> (node: Node0Handle)
        ensures
            node@ == self.spec_index(),
    {
        Handle::new(self.node)
    }

    /// The score of the link.
    pub fn score(&self) -> (score: u32)
        ensures
            score == self.spec_score(),
    {
        self.score
    }
}

/// The neighbour list of a node of the lowest level.
#[derive(Debug)]
pub struct Neighbors0 {
    neighbors_full: bool,
    lowest_index: u16,
    lowest_score: u32,
    neighbors: Vec<Neighbor0>,
}

impl View for Neighbors0 {
    type V = ListView;

    closed spec fn view(&self) -> ListView {
        ListView {
            full: self.neighbors_full,
            lowest_index: self.lowest_index as int,
            lowest_score: self.lowest_score,
            slots: Seq::new(
                self.neighbors@.len(),
                |i: int| (self.neighbors@[i].node, self.neighbors@[i].score),
            ),
        }
    }
}

impl Neighbors0 {
    /// A list of `len` zeroed slots, none of them taken.
    pub fn blank(len: u16) -> (list: Self)
        ensures
            list@.is_blank(len as nat),
    {
        let mut neighbors: Vec<Neighbor0> = Vec::new();
        let mut i: u16 = 0;
        while i < len
            invariant
                i <= len,
                neighbors@.len() == i,
                forall|k: int|
                    0 <= k < i ==> (#[trigger] neighbors@[k]).node == 0 && neighbors@[k].score == 0,
            decreases len - i,
        {
            neighbors.push(Neighbor0 { node: 0, score: 0 });
            i = i + 1;
        }
        Neighbors0 { neighbors_full: false, lowest_index: 0, lowest_score: 0, neighbors }
    }

    /// Whether every slot is taken.
    pub fn neighbors_full(&self) -> (full: bool)
        ensures
            full == self@.full,
    {
        self.neighbors_full
    }

    /// The number of taken slots while the list is not full, the slot of the
    /// weakest entry on record once it is.
    pub fn lowest_index(&self) -> (index: u16)
        ensures
            index == self@.lowest_index,
    {
        self.lowest_index
    }

    /// The weakest score on record.
    pub fn lowest_score(&self) -> (score: u32)
        ensures
            score == self@.lowest_score,
    {
        self.lowest_score
    }

    /// The number of slots.
    pub fn capacity(&self) -> (capacity: usize)
        ensures
            capacity == self@.capacity(),
    {
        self.neighbors.len()
    }

    /// All slots, taken or not.
    pub fn slots(&self) -> (slots: &[Neighbor0])
        ensures
            slots@.len() == self@.slots.len(),
            forall|i: int|
                0 <= i < slots@.len() ==> (#[trigger] slots@[i]).pair() == self@.slots[i],
    {
        self.neighbors.as_slice()
    }

    /// The live neighbours: all of them once the list is full, the taken
    /// slots before.
    pub fn neighbors(&self) -> (live: &[Neighbor0])
        requires
            self@.lowest_index <= self@.slots.len(),
        ensures
            live@.len() == self@.live().len(),
            forall|i: int|
                0 <= i < live@.len() ==> (#[trigger] live@[i]).pair() == self@.live()[i],
    {
        if self.neighbors_full {
            self.neighbors.as_slice()
        } else {
            slice_subrange(self.neighbors.as_slice(), 0, self.lowest_index as usize)
        }
    }

    /// Offers `node` to the list with `score`.
    pub fn insert_neighbor(&mut self, distance_metric: &DistanceMetric, node: Node0Handle, score: u32)
        requires
            old(self)@.wf(*distance_metric),
            old(self)@.capacity() > 0,
        ensures
            final(self)@ == old(self)@.inserted(*distance_metric, node@, score),
            final(self)@.wf(*distance_metric),
    {
        proof {
            lemma_inserted_wf(self@, *distance_metric, node@, score);
            lemma_lowest_scan(scores_of(self@.slots), *distance_metric);
        }
        if self.neighbors_full {
            if distance_metric.rank(score) > distance_metric.rank(self.lowest_score) {
                self.neighbors.set(self.lowest_index as usize, Neighbor0 { node: *node, score });
                assert(self@.slots =~= old(self)@.slots.update(
                    old(self)@.lowest_index,
                    (node@, score),
                ));
                self.recompute_lowest_index(distance_metric);
            }
        } else {
            self.neighbors.set(self.lowest_index as usize, Neighbor0 { node: *node, score });
            assert(self@.slots =~= old(self)@.slots.update(old(self)@.lowest_index, (node@, score)));
            if self.lowest_index as usize + 1 == self.neighbors.len() {
                self.neighbors_full = true;
                self.recompute_lowest_index(distance_metric);
            } else {
                self.lowest_index += 1;
            }
        }
    }

    /// Takes `entries`, pairs of a node index and a score, into the first
    /// slots of a blank list, as the neighbours that a new node starts with.
    pub fn seed(&mut self, distance_metric: &DistanceMetric, entries: &Vec<(u32, u32)>)
        requires
            old(self)@.is_blank(old(self)@.capacity()),
            old(self)@.capacity() <= MAX_NEIGHBORS,
            entries@.len() <= old(self)@.capacity(),
        ensures
            final(self)@ == ListView::seeded(old(self)@, entries@, *distance_metric),
            final(self)@.wf(*distance_metric),
    {
        let ghost taken = entries@;
        let mut i: usize = 0;
        while i < entries.len()
            invariant
                i <= entries@.len() <= self.neighbors@.len(),
                self.neighbors@.len() == old(self).neighbors@.len(),
                self.neighbors_full == old(self).neighbors_full,
                self.lowest_index == old(self).lowest_index,
                self.lowest_score == old(self).lowest_score,
                taken == entries@,
                forall|k: int| 0 <= k < i ==> (#[trigger] self.neighbors@[k]).pair() == taken[k],
                forall|k: int|
                    i <= k < self.neighbors@.len() ==> self.neighbors@[k] == old(self).neighbors@[k],
            decreases entries@.len() - i,
        {
            let entry = entries[i];
            self.neighbors.set(i, Neighbor0 { node: entry.0, score: entry.1 });
            i = i + 1;
        }
        assert(self@.slots =~= ListView::seeded(old(self)@, taken, *distance_metric).slots);
        if entries.len() == self.neighbors.len() {
            proof {
                lemma_lowest_scan(scores_of(self@.slots), *distance_metric);
            }
            self.neighbors_full = true;
            self.recompute_lowest_index(distance_metric);
        } else {
            self.lowest_index = entries.len() as u16;
        }
    }

    /// Scans the slots for the weakest score and records it.
    fn recompute_lowest_index(&mut self, distance_metric: &DistanceMetric)
        requires
            old(self).neighbors@.len() <= MAX_NEIGHBORS,
        ensures
            final(self)@.slots == old(self)@.slots,
            final(self)@.full == old(self)@.full,
            (final(self)@.lowest_index, final(self)@.lowest_score) == lowest_scan(
                scores_of(old(self)@.slots),
                *distance_metric,
            ),
    {
        let mut lowest_index: u16 = 0;
        let mut lowest_score = distance_metric.max_value();
        let ghost scores = scores_of(self@.slots);
        let mut i: u16 = 0;
        let len = self.neighbors.len() as u16;
        while i < len
            invariant
                len == self.neighbors@.len(),
                i <= len,
                scores == scores_of(self@.slots),
                (lowest_index as int, lowest_score) == lowest_scan(
                    scores.take(i as int),
                    *distance_metric,
                ),
            decreases len - i,
        {
            let neighbor = &self.neighbors[i as usize];
            proof {
                assert(scores.take(i + 1).drop_last() =~= scores.take(i as int));
                assert(scores.take(i + 1).last() == neighbor.score);
            }
            if distance_metric.rank(neighbor.score) < distance_metric.rank(lowest_score) {
                lowest_score = neighbor.score;
                lowest_index = i;
            }
            i = i + 1;
        }
        proof {
            assert(scores.take(i as int) =~= scores);
        }
        self.lowest_index = lowest_index;
        self.lowest_score = lowest_score;
    }
}

impl DynAlloc for Neighbors0 {
    type Metadata = u16;

    type Args = ();

    open spec fn record_size(metadata: u16) -> nat {
        8 + 8 * metadata as nat
    }

    open spec fn record_align() -> usize {
        4
    }

    open spec fn accepts(metadata: u16, args: ()) -> bool {
        true
    }

    open spec fn is_built(record: Self, metadata: u16, args: ()) -> bool {
        record@.is_blank(metadata as nat)
    }

    fn align() -> (alignment: usize) {
        4
    }

    fn size(metadata: u16) -> (size: usize) {
        assert(Self::record_size(metadata) == 8 + 8 * metadata);
        8 + (metadata as usize) * 8
    }

    fn new_at(metadata: u16, args: ()) -> (record: Self) {
        Self::blank(metadata)
    }
}

/// A node of a level above the lowest: the vector it stands for, the node
/// of the same vector one level below, and its neighbours on its own level.
#[derive(Debug)]
pub struct Node {
    vec: VecHandle,
    child: u32,
    neighbors: Neighbors,
}

/// A node of the lowest level: the vector it stands for and its neighbours.
#[derive(Debug)]
pub struct Node0 {
    vec: VecHandle,
    neighbors: Neighbors0,
}

impl Node {
    /// The index of the vector.
    pub closed spec fn spec_vec(&self) -> u32 {
        self.vec@
    }

    /// The index of the node one level below.
    pub closed spec fn spec_child(&self) -> u32 {
        self.child
    }

    /// The neighbour list.
    pub closed spec fn spec_neighbors(&self) -> Neighbors {
        self.neighbors
    }

    /// The neighbour list as a value.
    pub open spec fn list(&self) -> ListView {
        self.spec_neighbors()@
    }

    /// The vector that the node stands for.
    pub fn vec(&self) -> (vec: VecHandle)
        ensures
            vec@ == self.spec_vec(),
    {
        self.vec
    }

    /// The node of the same vector one level below. On the first level it
    /// names a node of the lowest level.
    pub fn child(&self) -> (child: NodeHandle)
        ensures
            child@ == self.spec_child(),
    {
        Handle::new(self.child)
    }

    pub fn neighbors(&self) -> (neighbors: &Neighbors)
        ensures
            *neighbors == self.spec_neighbors(),
    {
        &self.neighbors
    }
}

impl Node0 {
    /// The index of the vector.
    pub closed spec fn spec_vec(&self) -> u32 {
        self.vec@
    }

    /// The neighbour list.
    pub closed spec fn spec_neighbors(&self) -> Neighbors0 {
        self.neighbors
    }

    /// The neighbour list as a value.
    pub open spec fn list(&self) -> ListView {
        self.spec_neighbors()@
    }

    /// The vector that the node stands for.
    pub fn vec(&self) -> (vec: VecHandle)
        ensures
            vec@ == self.spec_vec(),
    {
        self.vec
    }

    pub fn neighbors(&self) -> (neighbors: &Neighbors0)
        ensures
            *neighbors == self.spec_neighbors(),
    {
        &self.neighbors
    }
}

impl Linked for Node {
    open spec fn links(&self) -> ListView {
        self.list()
    }

    open spec fn vector(&self) -> u32 {
        self.spec_vec()
    }

    open spec fn below(&self) -> u32 {
        self.spec_child()
    }

    fn vec_handle(&self) -> (vec: VecHandle) {
        self.vec
    }

    fn live_count(&self) -> (count: usize) {
        self.neighbors.neighbors().len()
    }

    fn live_target(&self, slot: usize) -> (target: u32) {
        let live = self.neighbors.neighbors();
        let neighbor = &live[slot];
        *neighbor.node()
    }

    fn offer(&mut self, distance_metric: &DistanceMetric, node: u32, score: u32) {
        self.neighbors.insert_neighbor(distance_metric, Handle::new(node), score);
    }

    fn adopt(&mut self, distance_metric: &DistanceMetric, entries: &Vec<(u32, u32)>) {
        self.neighbors.seed(distance_metric, entries);
    }
}

impl Linked for Node0 {
    open spec fn links(&self) -> ListView {
        self.list()
    }

    open spec fn vector(&self) -> u32 {
        self.spec_vec()
    }

    open spec fn below(&self) -> u32 {
        0
    }

    fn vec_handle(&self) -> (vec: VecHandle) {
        self.vec
    }

    fn live_count(&self) -> (count: usize) {
        self.neighbors.neighbors().len()
    }

    fn live_target(&self, slot: usize) -> (target: u32) {
        let live = self.neighbors.neighbors();
        let neighbor = &live[slot];
        *neighbor.node()
    }

    fn offer(&mut self, distance_metric: &DistanceMetric, node: u32, score: u32) {
        self.neighbors.insert_neighbor(distance_metric, Handle::new(node), score);
    }

    fn adopt(&mut self, distance_metric: &DistanceMetric, entries: &Vec<(u32, u32)>) {
        self.neighbors.seed(distance_metric, entries);
    }
}

impl DynAlloc for Node {
    type Metadata = u16;

    type Args = (VecHandle, NodeHandle);

    open spec fn record_size(metadata: u16) -> nat {
        20 + 8 * metadata as nat
    }

    open spec fn record_align() -> usize {
        4
    }

    open spec fn accepts(metadata: u16, args: (VecHandle, NodeHandle)) -> bool {
        true
    }

    /// The record names the given vector and child and has a blank list of
    /// `metadata` slots.
    open spec fn is_built(record: Self, metadata: u16, args: (VecHandle, NodeHandle)) -> bool {
        &&& record.spec_vec() == args.0@
        &&& record.spec_child() == args.1@
        &&& record.list().is_blank(metadata as nat)
    }

    fn align() -> (alignment: usize) {
        4
    }

    fn size(metadata: u16) -> (size: usize) {
        12 + Neighbors::size(metadata)
    }

    fn new_at(metadata: u16, args: (VecHandle, NodeHandle)) -> (record: Self) {
        let (vec, child) = args;
        Node { vec, child: *child, neighbors: Neighbors::blank(metadata) }
    }
}

impl DynAlloc for Node0 {
    type Metadata = u16;

    type Args = VecHandle;

    open spec fn record_size(metadata: u16) -> nat {
        16 + 8 * metadata as nat
    }

    open spec fn record_align() -> usize {
        4
    }

    open spec fn accepts(metadata: u16, args: VecHandle) -> bool {
        true
    }

    /// The record names the given vector and has a blank list of `metadata`
    /// slots.
    open spec fn is_built(record: Self, metadata: u16, args: VecHandle) -> bool {
        &&& record.spec_vec() == args@
        &&& record.list().is_blank(metadata as nat)
    }

    fn align() -> (alignment: usize) {
        4
    }

    fn size(metadata: u16) -> (size: usize) {
        8 + Neighbors0::size(metadata)
    }

    fn new_at(metadata: u16, args: VecHandle) -> (record: Self) {
        Node0 { vec: args, neighbors: Neighbors0::blank(metadata) }
    }
}

} // verus!
