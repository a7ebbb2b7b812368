//! Chunked, append-only arenas that hand out 32-bit handles.
//!
//! An arena keeps its records in chunks of a fixed number of slots. Chunks
//! are only ever added, so a record stays where it was put until the whole
//! arena is cleared.
use crate::handle::DoubleHandle;
use crate::handle::Handle;
use crate::handle::HandleA;
use crate::handle::HandleB;
use vstd::arithmetic::div_mod::lemma_fundamental_div_mod;
use vstd::arithmetic::div_mod::lemma_mod_pos_bound;
use vstd::arithmetic::div_mod::lemma_div_pos_is_pos;
use vstd::prelude::*;

verus! {

/// The most records an arena holds: the index `0xFFFF_FFFF` stays free.
pub const MAX_RECORDS: u32 = 0xFFFF_FFFE;

/// Whether `alignment` is a power of two.
pub open spec fn is_alignment(alignment: usize) -> bool {
    alignment > 0 && alignment & ((alignment - 1) as usize) == 0
}

proof fn lemma_align_up(size: usize, alignment: usize)
    by (bit_vector)
    requires
        alignment > 0,
        alignment & ((alignment - 1) as usize) == 0,
        size + (alignment - 1) == ((size + (alignment - 1)) as usize),
    ensures
        ({
            let mask = (alignment - 1) as usize;
            let up = ((size + mask) as usize) & !mask;
            &&& up & mask == 0
            &&& up >= size
            &&& up - size <= mask
        }),
{
}

/// Rounds `size` up to the next multiple of `alignment`, a power of two.
pub fn align_up(size: usize, alignment: usize) -> (aligned: usize)
    requires
        is_alignment(alignment),
        size + (alignment - 1) <= usize::MAX,
    ensures
        aligned & ((alignment - 1) as usize) == 0,
        size <= aligned < size + alignment,
{
    let mask = alignment - 1;
    proof {
        lemma_align_up(size, alignment);
    }
    if size == 0 {
        assert(0usize & mask == 0) by (bit_vector);
        0
    } else {
        (size + mask) & !mask
    }
}

/// A kind of record that an arena can hold.
///
/// The arena's metadata fixes the shape of every record in it; the
/// arguments of one allocation say what goes into the new record. A kind
/// that leaves the four specification functions as they are states nothing
/// about its records: every argument is accepted and every record counts as
/// built.
pub trait DynAlloc: Sized {
    type Metadata: Copy;

    type Args;

    /// The number of bytes that a record of this shape takes when packed.
    open spec fn record_size(metadata: Self::Metadata) -> nat {
        0
    }

    /// The alignment of a packed record.
    open spec fn record_align() -> usize {
        1
    }

    /// Whether a record of this shape can be made from `args`.
    open spec fn accepts(metadata: Self::Metadata, args: Self::Args) -> bool {
        true
    }

    /// Whether `record` is the record of this shape that `args` describe.
    open spec fn is_built(record: Self, metadata: Self::Metadata, args: Self::Args) -> bool {
        true
    }

    fn align() -> (alignment: usize)
        ensures
            alignment == Self::record_align(),
    ;

    fn size(metadata: Self::Metadata) -> (size: usize)
        ensures
            size == Self::record_size(metadata),
    ;

    fn new_at(metadata: Self::Metadata, args: Self::Args) -> (record: Self)
        requires
            Self::accepts(metadata, args),
        ensures
            Self::is_built(record, metadata, args),
    ;
}

/// The size of a record of this shape, rounded up to the record's alignment.
pub fn size_aligned<T: DynAlloc>(metadata: T::Metadata) -> (size: usize)
    requires
        is_alignment(T::record_align()),
        T::record_size(metadata) + T::record_align() - 1 <= usize::MAX,
    ensures
        size & ((T::record_align() - 1) as usize) == 0,
        T::record_size(metadata) <= size < T::record_size(metadata) + T::record_align(),
{
    align_up(T::size(metadata), T::align())
}

/// The slots of an arena, without the count of how many are taken.
pub struct ArenaWithoutIndex<T: DynAlloc> {
    chunks: Vec<Vec<Option<T>>>,
    chunk_size: usize,
    metadata: T::Metadata,
}

/// An arena of records of one kind.
pub struct Arena<T: DynAlloc> {
    arena: ArenaWithoutIndex<T>,
    next_index: u32,
}

/// Two arenas that are filled side by side under one index.
pub struct DoubleArena<A: DynAlloc, B: DynAlloc> {
    arena_a: ArenaWithoutIndex<A>,
    arena_b: ArenaWithoutIndex<B>,
    next_index: u32,
}

proof fn lemma_place(index: int, size: int)
    requires
        0 <= index,
        0 < size,
    ensures
        0 <= index / size,
        0 <= index % size < size,
        index == size * (index / size) + index % size,
{
    lemma_fundamental_div_mod(index, size);
    lemma_mod_pos_bound(index, size);
    lemma_div_pos_is_pos(index, size);
}

proof fn lemma_places_differ(i: int, j: int, size: int)
    requires
        0 <= i,
        0 <= j,
        0 < size,
        i / size == j / size,
        i % size == j % size,
    ensures
        i == j,
{
    lemma_place(i, size);
    lemma_place(j, size);
}

fn empty_chunk<T>(chunk_size: usize) -> (chunk: Vec<Option<T>>)
    ensures
        chunk@.len() == chunk_size,
        forall|k: int| 0 <= k < chunk_size ==> chunk@[k] is None,
{
    let mut chunk: Vec<Option<T>> = Vec::new();
    let mut k: usize = 0;
    while k < chunk_size
        invariant
            k <= chunk_size,
            chunk@.len() == k,
            forall|j: int| 0 <= j < k ==> chunk@[j] is None,
        decreases chunk_size - k,
    {
        chunk.push(None);
        k = k + 1;
    }
    chunk
}

impl<T: DynAlloc> ArenaWithoutIndex<T> {
    /// Every chunk has `chunk_size` slots, and there is at least one slot
    /// per chunk.
    pub closed spec fn wf(&self) -> bool {
        &&& self.chunk_size > 0
        &&& forall|c: int|
            0 <= c < self.chunks@.len() ==> (#[trigger] self.chunks@[c])@.len() == self.chunk_size
    }

    pub closed spec fn chunk_size(&self) -> usize {
        self.chunk_size
    }

    pub closed spec fn metadata(&self) -> T::Metadata {
        self.metadata
    }

    /// The number of chunks that have been added.
    pub closed spec fn chunk_count(&self) -> nat {
        self.chunks@.len()
    }

    /// The record at `index`, if one was put there.
    pub closed spec fn slot(&self, index: int) -> Option<T> {
        if 0 <= index && index / (self.chunk_size as int) < self.chunks@.len() {
            self.chunks@[index / (self.chunk_size as int)]@[index % (self.chunk_size as int)]
        } else {
            None
        }
    }

    pub fn new(chunk_size: usize, metadata: T::Metadata) -> (arena: Self)
        requires
            chunk_size > 0,
        ensures
            arena.wf(),
            arena.chunk_size() == chunk_size,
            arena.metadata() == metadata,
            arena.chunk_count() == 0,
            forall|index: int| arena.slot(index) is None,
    {
        Self { chunks: Vec::new(), chunk_size, metadata }
    }

    /// Builds a record from `args` and puts it at `index`, adding chunks
    /// until that slot exists.
    pub fn allocate(&mut self, index: u32, args: T::Args) -> (handle: Handle<T>)
        requires
            old(self).wf(),
            T::accepts(old(self).metadata(), args),
        ensures
            final(self).wf(),
            final(self).chunk_size() == old(self).chunk_size(),
            final(self).metadata() == old(self).metadata(),
            final(self).chunk_count() >= old(self).chunk_count(),
            handle@ == index,
            final(self).slot(index as int) is Some,
            T::is_built(final(self).slot(index as int)->0, old(self).metadata(), args),
            forall|other: int| other != index ==> final(self).slot(other) == old(self).slot(other),
    {
        let chunk_index = index as usize / self.chunk_size;
        let offset = index as usize % self.chunk_size;
        proof {
            lemma_place(index as int, self.chunk_size as int);
        }
        while chunk_index >= self.chunks.len()
            invariant
                self.wf(),
                self.chunk_size == old(self).chunk_size,
                self.metadata == old(self).metadata,
                self.chunks@.len() >= old(self).chunks@.len(),
                forall|other: int| self.slot(other) == old(self).slot(other),
            decreases chunk_index + 1 - self.chunks@.len(),
        {
            let ghost before = *self;
            let chunk = empty_chunk(self.chunk_size);
            self.chunks.push(chunk);
            proof {
                assert forall|other: int| self.slot(other) == before.slot(other) by {
                    if 0 <= other {
                        lemma_place(other, self.chunk_size as int);
                    }
                }
            }
        }
        let record = T::new_at(self.metadata, args);
        let ghost before = *self;
        self.chunks[chunk_index].set(offset, Some(record));
        proof {
            assert forall|other: int| other != index implies self.slot(other) == before.slot(
                other,
            ) by {
                if 0 <= other {
                    lemma_place(other, self.chunk_size as int);
                    if other / (self.chunk_size as int) == chunk_index as int && other % (
                    self.chunk_size as int) == offset as int {
                        lemma_places_differ(other, index as int, self.chunk_size as int);
                    }
                }
            }
        }
        Handle::new(index)
    }

    /// The record that `handle` names.
    pub fn index(&self, handle: Handle<T>) -> (record: &T)
        requires
            self.wf(),
            self.slot(handle@ as int) is Some,
        ensures
            *record == self.slot(handle@ as int)->0,
    {
        let index = *handle as usize;
        proof {
            lemma_place(index as int, self.chunk_size as int);
        }
        self.chunks[index / self.chunk_size][index % self.chunk_size].as_ref().unwrap()
    }

    /// The record that `handle` names, to be changed in place.
    pub fn index_mut(&mut self, handle: Handle<T>) -> (record: &mut T)
        requires
            old(self).wf(),
            old(self).slot(handle@ as int) is Some,
        ensures
            *record == old(self).slot(handle@ as int)->0,
            final(self).wf(),
            final(self).chunk_size() == old(self).chunk_size(),
            final(self).metadata() == old(self).metadata(),
            final(self).chunk_count() == old(self).chunk_count(),
            final(self).slot(handle@ as int) == Some(*final(record)),
            forall|other: int| other != handle@ ==> final(self).slot(other) == old(self).slot(other),
    {
        let index = *handle as usize;
        proof {
            lemma_place(index as int, self.chunk_size as int);
        }
        proof {
            let size = self.chunk_size as int;
            assert forall|other: int| 0 <= other implies 0 <= #[trigger] (other / size) && 0
                <= other % size < size && other == size * (other / size) + other % size by {
                lemma_place(other, size);
            }
        }
        self.chunks[index / self.chunk_size][index % self.chunk_size].as_mut().unwrap()
    }

    /// Empties the slots below `len` from the last to the first, then gives
    /// up every chunk.
    pub fn clear(&mut self, len: u32)
        requires
            old(self).wf(),
        ensures
            final(self).wf(),
            final(self).chunk_size() == old(self).chunk_size(),
            final(self).metadata() == old(self).metadata(),
            final(self).chunk_count() == 0,
            forall|index: int| final(self).slot(index) is None,
    {
        let mut i: usize = len as usize;
        while i > 0
            invariant
                self.wf(),
                self.chunk_size == old(self).chunk_size,
                self.metadata == old(self).metadata,
            decreases i,
        {
            i = i - 1;
            let chunk_index = i / self.chunk_size;
            let offset = i % self.chunk_size;
            proof {
                lemma_place(i as int, self.chunk_size as int);
            }
            if chunk_index < self.chunks.len() {
                self.chunks[chunk_index].set(offset, None);
            }
        }
        self.chunks = Vec::new();
    }
}

impl<T: DynAlloc> Arena<T> {
    /// The chunks are well formed and every slot below the count is taken.
    pub closed spec fn wf(&self) -> bool {
        &&& self.arena.wf()
        &&& self.next_index <= MAX_RECORDS
        &&& forall|index: int| 0 <= index < self.next_index ==> self.arena.slot(index) is Some
    }

    /// The records, in the order in which they were allocated.
    pub closed spec fn view(&self) -> Seq<T> {
        Seq::new(self.next_index as nat, |index: int| self.arena.slot(index)->0)
    }

    pub closed spec fn metadata(&self) -> T::Metadata {
        self.arena.metadata()
    }

    pub closed spec fn chunk_size(&self) -> usize {
        self.arena.chunk_size()
    }

    /// A sound arena holds no more records than an arena can.
    pub proof fn lemma_len_bound(&self)
        requires
            self.wf(),
        ensures
            self@.len() <= MAX_RECORDS,
    {
    }

    pub fn new(chunk_size: usize, metadata: T::Metadata) -> (arena: Self)
        requires
            chunk_size > 0,
        ensures
            arena.wf(),
            arena@ =~= Seq::<T>::empty(),
            arena.metadata() == metadata,
            arena.chunk_size() == chunk_size,
    {
        Self { arena: ArenaWithoutIndex::new(chunk_size, metadata), next_index: 0 }
    }

    /// Builds a record from `args` and appends it. Records allocated earlier
    /// stay as they are, under the handles they were given.
    pub fn allocate(&mut self, args: T::Args) -> (handle: Handle<T>)
        requires
            old(self).wf(),
            old(self)@.len() < MAX_RECORDS,
            T::accepts(old(self).metadata(), args),
        ensures
            final(self).wf(),
            final(self).metadata() == old(self).metadata(),
            final(self).chunk_size() == old(self).chunk_size(),
            handle@ == old(self)@.len(),
            final(self)@.len() == old(self)@.len() + 1,
            final(self)@.take(old(self)@.len() as int) =~= old(self)@,
            T::is_built(final(self)@[handle@ as int], old(self).metadata(), args),
    {
        let index = self.next_index;
        self.next_index = index + 1;
        self.arena.allocate(index, args);
        Handle::new(index)
    }

    /// The number of records.
    pub fn len(&self) -> (len: usize)
        ensures
            len == self@.len(),
    {
        self.next_index as usize
    }

    pub fn is_empty(&self) -> (empty: bool)
        ensures
            empty == (self@.len() == 0),
    {
        self.len() == 0
    }

    /// Drops every record, the last allocated first, and starts over at
    /// index zero.
    pub fn clear(&mut self)
        requires
            old(self).wf(),
        ensures
            final(self).wf(),
            final(self)@ =~= Seq::<T>::empty(),
            final(self).metadata() == old(self).metadata(),
            final(self).chunk_size() == old(self).chunk_size(),
    {
        let len = self.next_index;
        self.arena.clear(len);
        self.next_index = 0;
    }

    /// The record that `handle` names.
    pub fn index(&self, handle: Handle<T>) -> (record: &T)
        requires
            self.wf(),
            handle@ < self@.len(),
        ensures
            *record == self@[handle@ as int],
    {
        self.arena.index(handle)
    }

    /// The record that `handle` names, to be changed in place. No other
    /// record changes.
    pub fn index_mut(&mut self, handle: Handle<T>) -> (record: &mut T)
        requires
            old(self).wf(),
            handle@ < old(self)@.len(),
        ensures
            *record == old(self)@[handle@ as int],
            final(self).wf(),
            final(self).metadata() == old(self).metadata(),
            final(self).chunk_size() == old(self).chunk_size(),
            final(self)@ =~= old(self)@.update(handle@ as int, *final(record)),
    {
        self.arena.index_mut(handle)
    }
}

impl<A: DynAlloc, B: DynAlloc> DoubleArena<A, B> {
    /// Both halves are well formed and every slot below the count is taken
    /// in each of them.
    pub closed spec fn wf(&self) -> bool {
        &&& self.arena_a.wf()
        &&& self.arena_b.wf()
        &&& self.next_index <= MAX_RECORDS
        &&& forall|index: int| 0 <= index < self.next_index ==> self.arena_a.slot(index) is Some
        &&& forall|index: int| 0 <= index < self.next_index ==> self.arena_b.slot(index) is Some
    }

    /// The records of the first arena, in the order in which they were
    /// allocated.
    pub closed spec fn view_a(&self) -> Seq<A> {
        Seq::new(self.next_index as nat, |index: int| self.arena_a.slot(index)->0)
    }

    /// The records of the second arena, in the order in which they were
    /// allocated.
    pub closed spec fn view_b(&self) -> Seq<B> {
        Seq::new(self.next_index as nat, |index: int| self.arena_b.slot(index)->0)
    }

    /// The number of record pairs.
    pub closed spec fn count(&self) -> nat {
        self.next_index as nat
    }

    pub closed spec fn metadata_a(&self) -> A::Metadata {
        self.arena_a.metadata()
    }

    pub closed spec fn metadata_b(&self) -> B::Metadata {
        self.arena_b.metadata()
    }

    /// Both views have one record for each index below the count.
    pub proof fn lemma_view_lengths(&self)
        ensures
            self.view_a().len() == self.count(),
            self.view_b().len() == self.count(),
    {
    }

    /// A sound arena holds no more records than an arena can.
    pub proof fn lemma_count_bound(&self)
        requires
            self.wf(),
        ensures
            self.count() <= MAX_RECORDS,
    {
    }

    pub fn new(chunk_size: usize, metadata_a: A::Metadata, metadata_b: B::Metadata) -> (arena: Self)
        requires
            chunk_size > 0,
        ensures
            arena.wf(),
            arena.count() == 0,
            arena.view_a() =~= Seq::<A>::empty(),
            arena.view_b() =~= Seq::<B>::empty(),
            arena.metadata_a() == metadata_a,
            arena.metadata_b() == metadata_b,
    {
        Self {
            arena_a: ArenaWithoutIndex::new(chunk_size, metadata_a),
            arena_b: ArenaWithoutIndex::new(chunk_size, metadata_b),
            next_index: 0,
        }
    }

    /// Builds one record for each arena and appends both under one index.
    pub fn allocate(&mut self, args_a: A::Args, args_b: B::Args) -> (handle: DoubleHandle<A, B>)
        requires
            old(self).wf(),
            old(self).count() < MAX_RECORDS,
            A::accepts(old(self).metadata_a(), args_a),
            B::accepts(old(self).metadata_b(), args_b),
        ensures
            final(self).wf(),
            final(self).metadata_a() == old(self).metadata_a(),
            final(self).metadata_b() == old(self).metadata_b(),
            handle@ == old(self).count(),
            final(self).count() == old(self).count() + 1,
            final(self).view_a().take(old(self).count() as int) =~= old(self).view_a(),
            final(self).view_b().take(old(self).count() as int) =~= old(self).view_b(),
            A::is_built(final(self).view_a()[handle@ as int], old(self).metadata_a(), args_a),
            B::is_built(final(self).view_b()[handle@ as int], old(self).metadata_b(), args_b),
    {
        let index = self.next_index;
        self.next_index = index + 1;
        self.arena_a.allocate(index, args_a);
        self.arena_b.allocate(index, args_b);
        DoubleHandle::new(index)
    }

    /// The number of record pairs.
    pub fn len(&self) -> (len: usize)
        ensures
            len == self.count(),
    {
        self.next_index as usize
    }

    pub fn is_empty(&self) -> (empty: bool)
        ensures
            empty == (self.count() == 0),
    {
        self.len() == 0
    }

    /// Drops every record of both arenas, the last allocated first, and
    /// starts over at index zero.
    pub fn clear(&mut self)
        requires
            old(self).wf(),
        ensures
            final(self).wf(),
            final(self).count() == 0,
            final(self).view_a() =~= Seq::<A>::empty(),
            final(self).view_b() =~= Seq::<B>::empty(),
            final(self).metadata_a() == old(self).metadata_a(),
            final(self).metadata_b() == old(self).metadata_b(),
    {
        let len = self.next_index;
        self.arena_a.clear(len);
        self.arena_b.clear(len);
        self.next_index = 0;
    }

    /// The record of the first arena that `handle` names.
    pub fn index_a(&self, handle: HandleA<A>) -> (record: &A)
        requires
            self.wf(),
            handle@ < self.count(),
        ensures
            *record == self.view_a()[handle@ as int],
    {
        self.arena_a.index(handle.cast())
    }

    /// The record of the second arena that `handle` names.
    pub fn index_b(&self, handle: HandleB<B>) -> (record: &B)
        requires
            self.wf(),
            handle@ < self.count(),
        ensures
            *record == self.view_b()[handle@ as int],
    {
        self.arena_b.index(handle.cast())
    }
}

} // verus!
