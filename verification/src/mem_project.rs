//! An estimate of the memory that a graph of a given shape takes.
//!
//! Each arena is counted as its records plus one machine word for each
//! chunk its chunk list has room for, and a chunk list has room for a power
//! of two of chunks.
use crate::arena::size_aligned;
use crate::arena::DynAlloc;
use crate::node::Node;
use crate::node::Node0;
use crate::storage::component_size;
use crate::storage::Quantization;
use vstd::layout::size_of;
use vstd::prelude::*;

verus! {

/// The greatest length whose capacity fits in 64 bits.
pub const MAX_LEN: u64 = 0x8000_0000_0000_0000;

/// The number of bytes counted for the graph itself.
pub const GRAPH_BYTES: u64 = 232;

/// The number of records in a chunk.
pub const CHUNK_RECORDS: u64 = 1024;

/// Whether `capacity` is the least power of two that is at least `x`, or 0
/// for an `x` of 0.
pub open spec fn is_capacity(x: u64, capacity: u64) -> bool {
    if x == 0 {
        capacity == 0
    } else {
        &&& capacity & ((capacity - 1) as u64) == 0
        &&& capacity >= x
        &&& capacity / 2 < x
    }
}

/// The capacity that a growing array has at length `x`.
pub open spec fn capacity_for(x: u64) -> u64 {
    choose|capacity: u64| is_capacity(x, capacity)
}

/// The number of chunks that hold `len` records.
pub open spec fn chunks_for(len: nat) -> nat {
    (len + 1023) / 1024
}

/// The bytes of an arena of `len` records of `record` bytes each, on a
/// machine with words of `word` bytes.
pub open spec fn arena_bytes(len: nat, record: nat, word: nat) -> nat {
    capacity_for(chunks_for(len) as u64) as nat * word + len * record
}

/// The bytes of a graph with `dataset_size` vectors of `dims` components, of
/// which `upper_nodes` nodes stand above the lowest level, on a machine with
/// words of `word` bytes.
pub open spec fn projected(
    m: u16,
    m0: u16,
    dims: u16,
    quantization: Quantization,
    dataset_size: u32,
    upper_nodes: u32,
    word: nat,
) -> nat {
    GRAPH_BYTES as nat + arena_bytes(dataset_size as nat, Node0::record_size(m0), word)
        + arena_bytes(upper_nodes as nat, Node::record_size(m), word) + arena_bytes(
        dataset_size as nat,
        4 * dims as nat + component_size(quantization) * dims as nat,
        word,
    )
}

/// `x` with every bit below its highest set bit set too.
pub open spec fn smeared(x: u64) -> u64 {
    let b = x | (x >> 1);
    let c = b | (b >> 2);
    let d = c | (c >> 4);
    let e = d | (d >> 8);
    let f = e | (e >> 16);
    f | (f >> 32)
}

proof fn lemma_len_to_cap(x: u64)
    by (bit_vector)
    requires
        1 <= x <= 0x8000_0000_0000_0000,
    ensures
        ({
            let g = smeared((x - 1) as u64);
            let r = (g + 1) as u64;
            &&& g < 0xFFFF_FFFF_FFFF_FFFF
            &&& r & ((r - 1) as u64) == 0
            &&& r >= x
            &&& r / 2 < x
        }),
{
}

/// Every length up to the greatest has a capacity.
pub proof fn lemma_capacity_exists(x: u64)
    requires
        x <= MAX_LEN,
    ensures
        is_capacity(x, capacity_for(x)),
{
    if x == 0 {
        assert(is_capacity(0, 0));
    } else {
        lemma_len_to_cap(x);
        assert(is_capacity(x, (smeared((x - 1) as u64) + 1) as u64));
    }
}

proof fn lemma_capacities_ordered(x: u64, y: u64, a: u64, b: u64)
    by (bit_vector)
    requires
        1 <= x <= y,
        a & ((a - 1) as u64) == 0,
        b & ((b - 1) as u64) == 0,
        a >= x,
        b >= y,
        a / 2 < x,
        b / 2 < y,
    ensures
        a <= b,
        x == y ==> a == b,
{
}

/// There is one capacity for each length.
pub proof fn lemma_capacity_for(x: u64, capacity: u64)
    requires
        is_capacity(x, capacity),
    ensures
        capacity_for(x) == capacity,
{
    let other = capacity_for(x);
    assert(is_capacity(x, other));
    if x > 0 {
        lemma_capacities_ordered(x, x, capacity, other);
    }
}

/// A longer array has at least the capacity of a shorter one.
pub proof fn lemma_capacity_grows(x: u64, y: u64)
    requires
        x <= y <= MAX_LEN,
    ensures
        capacity_for(x) <= capacity_for(y),
        capacity_for(y) >= y,
{
    let a = capacity_for(x);
    let b = capacity_for(y);
    lemma_capacity_exists(x);
    lemma_capacity_exists(y);
    if x > 0 {
        lemma_capacities_ordered(x, y, a, b);
    }
}

/// The capacity that a growing array has at length `x`: the least power of
/// two that is at least `x`, and 0 for 0.
pub fn len_to_cap(x: u64) -> (capacity: u64)
    requires
        x <= MAX_LEN,
    ensures
        is_capacity(x, capacity),
        capacity == capacity_for(x),
{
    if x == 0 {
        proof {
            lemma_capacity_for(0, 0);
        }
        return 0;
    }
    proof {
        lemma_len_to_cap(x);
    }
    let mut y: u64 = x - 1;
    y |= y >> 1;
    y |= y >> 2;
    y |= y >> 4;
    y |= y >> 8;
    y |= y >> 16;
    y |= y >> 32;
    proof {
        lemma_capacity_for(x, (y + 1) as u64);
    }
    y + 1
}

proof fn lemma_aligned_already(size: usize, record: usize)
    by (bit_vector)
    requires
        size & 3 == 0,
        record & 3 == 0,
        record <= size,
        size - record < 4,
    ensures
        size == record,
{
}

proof fn lemma_multiple_of_four(k: usize)
    by (bit_vector)
    requires
        k <= 0x20_0000,
    ensures
        ((4 * k) as usize) & 3 == 0,
{
}

fn arena_size(len: u64, record: u64, word: u64) -> (bytes: u64)
    requires
        len <= 0xFFFF_FFFF,
        record <= 0x10_0000,
        word <= 8,
    ensures
        bytes == arena_bytes(len as nat, record as nat, word as nat),
        bytes <= 0x1000_0000_0000_0000,
{
    let chunks = (len + 1023) / 1024;
    let capacity = len_to_cap(chunks);
    proof {
        lemma_len_to_cap_bound(chunks, capacity);
        assert(capacity * word <= 0x80_0000 * 8) by (nonlinear_arith)
            requires
                capacity <= 0x80_0000,
                word <= 8,
        ;
        assert(len * record <= 0xFFFF_FFFF * 0x10_0000) by (nonlinear_arith)
            requires
                len <= 0xFFFF_FFFF,
                record <= 0x10_0000,
        ;
    }
    capacity * word + len * record
}

proof fn lemma_len_to_cap_bound(x: u64, capacity: u64)
    by (bit_vector)
    requires
        x <= 0x40_0000,
        x == 0 ==> capacity == 0,
        x > 0 ==> capacity & ((capacity - 1) as u64) == 0 && capacity >= x && capacity / 2 < x,
    ensures
        capacity <= 0x80_0000,
{
}

/// Estimates the bytes of a graph with `dataset_size` vectors of `dims`
/// components, of which `upper_nodes` nodes stand above the lowest level.
pub fn mem_project(
    m: u16,
    m0: u16,
    dims: u16,
    quantization: Quantization,
    dataset_size: u32,
    upper_nodes: u32,
) -> (bytes: u64)
    ensures
        bytes == projected(m, m0, dims, quantization, dataset_size, upper_nodes, size_of::<usize>()),
        bytes >= GRAPH_BYTES,
{
    broadcast use vstd::layout::layout_of_primitives;

    proof {
        lemma_multiple_of_four((4 + 2 * m0) as usize);
        lemma_multiple_of_four((5 + 2 * m) as usize);
        assert(4usize & 3usize == 0) by (bit_vector);
    }
    let node0_size = size_aligned::<Node0>(m0);
    let node_size = size_aligned::<Node>(m);
    proof {
        lemma_aligned_already(node0_size, (16 + 8 * m0) as usize);
        lemma_aligned_already(node_size, (20 + 8 * m) as usize);
    }
    let raw_vec_size: u64 = (dims as u64) * 4;
    let component = quantization.size() as u64;
    assert(component * dims <= 4 * 0xFFFF) by (nonlinear_arith)
        requires
            component <= 4,
            dims <= 0xFFFF,
    ;
    let quant_vec_size: u64 = component * (dims as u64);
    let vec_size = raw_vec_size + quant_vec_size;
    let word = core::mem::size_of::<usize>() as u64;

    let node0_arena_heap_size = arena_size(dataset_size as u64, node0_size as u64, word);
    let node_arena_heap_size = arena_size(upper_nodes as u64, node_size as u64, word);
    let vec_arena_heap_size = arena_size(dataset_size as u64, vec_size, word);

    GRAPH_BYTES + node0_arena_heap_size + node_arena_heap_size + vec_arena_heap_size
}

/// The estimate grows with the number of vectors, with the number of nodes
/// above the lowest level and with the number of components.
pub proof fn lemma_projection_grows(
    m: u16,
    m0: u16,
    quantization: Quantization,
    word: nat,
    dims: u16,
    dataset_size: u32,
    upper_nodes: u32,
    more_dims: u16,
    larger_size: u32,
    more_nodes: u32,
)
    requires
        dims <= more_dims,
        dataset_size <= larger_size,
        upper_nodes <= more_nodes,
    ensures
        0 < projected(m, m0, dims, quantization, dataset_size, upper_nodes, word) <= projected(
            m,
            m0,
            more_dims,
            quantization,
            larger_size,
            more_nodes,
            word,
        ),
{
    lemma_arena_grows(dataset_size as nat, larger_size as nat, Node0::record_size(m0), Node0::record_size(m0), word);
    lemma_arena_grows(upper_nodes as nat, more_nodes as nat, Node::record_size(m), Node::record_size(m), word);
    let size = component_size(quantization);
    assert(size * dims <= size * more_dims) by (nonlinear_arith)
        requires
            dims <= more_dims,
            0 <= size,
    ;
    lemma_arena_grows(
        dataset_size as nat,
        larger_size as nat,
        4 * dims as nat + size * dims as nat,
        4 * more_dims as nat + size * more_dims as nat,
        word,
    );
}

proof fn lemma_arena_grows(len: nat, more: nat, record: nat, larger: nat, word: nat)
    requires
        len <= more <= 0xFFFF_FFFF,
        record <= larger,
    ensures
        arena_bytes(len, record, word) <= arena_bytes(more, larger, word),
{
    let a = capacity_for(chunks_for(len) as u64) as nat;
    let b = capacity_for(chunks_for(more) as u64) as nat;
    lemma_capacity_grows(chunks_for(len) as u64, chunks_for(more) as u64);
    assert(a * word <= b * word) by (nonlinear_arith)
        requires
            a <= b,
            0 <= word,
    ;
    assert(len * record <= more * larger) by (nonlinear_arith)
        requires
            len <= more,
            record <= larger,
            0 <= len,
            0 <= record,
    ;
}

} // verus!
