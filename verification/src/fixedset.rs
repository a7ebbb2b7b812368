//! A fixed-size bitset that remembers which nodes a traversal has seen.
//!
//! Values are folded onto the set's slots by masking, so two values that
//! differ by a multiple of the capacity share a slot: the set may say that
//! it holds a value that was never put in, never the reverse.
use vstd::prelude::*;

verus! {

/// The most buckets a set is ever made with.
pub const MAX_BUCKETS: usize = 0x1_0000;

/// Whether `n` is a power of two.
pub open spec fn is_power_of_two(n: usize) -> bool {
    n > 0 && n & ((n - 1) as usize) == 0
}

/// Whether `size` is the least power of two that is at least `x`, or 1 for
/// an `x` of 0.
pub open spec fn is_bucket_count(x: u16, size: usize) -> bool {
    &&& is_power_of_two(size)
    &&& size >= x
    &&& size == 1 || size / 2 < x
    &&& size <= MAX_BUCKETS
}

/// The number of buckets of a set made for `x` values.
pub open spec fn bucket_count(x: u16) -> usize {
    choose|size: usize| is_bucket_count(x, size)
}

/// The slot that `value` is folded onto in a set of `capacity` slots:
/// `value` masked by the capacity minus one, which is its remainder by the
/// capacity.
pub open spec fn slot(value: u32, capacity: nat) -> nat {
    ((value as u64) & ((capacity - 1) as u64)) as nat
}

/// Whether bit `bit` of `word` is set.
pub open spec fn bit_is_set(word: u64, bit: nat) -> bool {
    word & (1u64 << (bit as u64)) != 0
}

proof fn lemma_smear(x: u32)
    by (bit_vector)
    requires
        1 <= x <= 0xFFFF,
    ensures
        ({
            let a = (x - 1) as u32;
            let b = a | (a >> 1);
            let c = b | (b >> 2);
            let d = c | (c >> 4);
            let e = d | (d >> 8);
            let r = (e + 1) as u32;
            &&& e <= 0xFFFF
            &&& r & ((r - 1) as u32) == 0
            &&& r >= x
            &&& (r == 1 || r / 2 < x)
        }),
{
}

proof fn lemma_power_of_two_widths(r: u32)
    by (bit_vector)
    requires
        1 <= r <= 0x1_0000,
        r & ((r - 1) as u32) == 0,
    ensures
        (r as u64) & ((r as u64 - 1) as u64) == 0,
{
}

proof fn lemma_one_bucket_count(x: u32, a: u32, b: u32)
    by (bit_vector)
    requires
        x <= 0xFFFF,
        0 < a <= 0x1_0000,
        0 < b <= 0x1_0000,
        a & ((a - 1) as u32) == 0,
        b & ((b - 1) as u32) == 0,
        a >= x,
        b >= x,
        a == 1 || a / 2 < x,
        b == 1 || b / 2 < x,
    ensures
        a == b,
{
}

/// There is one bucket count for each `x`.
pub proof fn lemma_bucket_count(x: u16, size: usize)
    requires
        is_bucket_count(x, size),
    ensures
        bucket_count(x) == size,
{
    let other = bucket_count(x);
    assert(is_bucket_count(x, other));
    lemma_mask_width(size);
    lemma_mask_width(other);
    lemma_one_bucket_count(x as u32, size as u32, other as u32);
}

/// The least power of two that is at least `x`, and 1 for 0.
pub fn next_pow2_u16(x: u16) -> (size: usize)
    ensures
        is_bucket_count(x, size),
        size == bucket_count(x),
{
    if x == 0 {
        proof {
            assert(1usize & 0usize == 0) by (bit_vector);
            lemma_bucket_count(x, 1);
        }
        return 1;
    }
    let mut y: u32 = (x as u32) - 1;
    y |= y >> 1;
    y |= y >> 2;
    y |= y >> 4;
    y |= y >> 8;
    proof {
        lemma_smear(x as u32);
        lemma_power_of_two_widths((y + 1) as u32);
    }
    let size: u32 = y + 1;
    proof {
        assert((size as usize) & ((size as usize - 1) as usize) == (size as u64) & ((size as u64
            - 1) as u64));
        lemma_bucket_count(x, size as usize);
    }
    size as usize
}

/// A set of slots, 64 to a bucket, onto which 32-bit values are folded.
pub struct FixedSet {
    buckets: Vec<u64>,
}

proof fn lemma_slot(value: u32, n: u32)
    by (bit_vector)
    requires
        1 <= n <= 0x1_0000,
        n & ((n - 1) as u32) == 0,
    ensures
        ((value >> 6) & ((n - 1) as u32)) < n,
        (value & 0x3f) < 64,
        ((value >> 6) & ((n - 1) as u32)) as u64 * 64 + (value & 0x3f) as u64 == (value as u64) & ((64
            * n - 1) as u64),
{
}

proof fn lemma_set_bit(word: u64, bit: u64, other: u64)
    by (bit_vector)
    requires
        bit < 64,
        other < 64,
    ensures
        ((word | (1u64 << bit)) & (1u64 << other) != 0) == (other == bit || (word & (1u64
            << other) != 0)),
{
}

proof fn lemma_no_bit(bit: u64)
    by (bit_vector)
    requires
        bit < 64,
    ensures
        0u64 & (1u64 << bit) == 0,
{
}

proof fn lemma_mask_width(n: usize)
    requires
        1 <= n <= MAX_BUCKETS,
    ensures
        (n as u32) & ((n as u32 - 1) as u32) == n & ((n - 1) as usize),
{
}

impl FixedSet {
    /// The set is well formed: its bucket count is a power of two.
    pub closed spec fn wf(&self) -> bool {
        &&& is_power_of_two(self.buckets.len())
        &&& self.buckets.len() <= MAX_BUCKETS
    }

    /// The number of slots.
    pub closed spec fn capacity(&self) -> nat {
        64 * self.buckets@.len()
    }

    /// The slots that are taken.
    pub closed spec fn view(&self) -> Set<nat> {
        Set::new(
            |slot: nat|
                slot < 64 * self.buckets@.len() && bit_is_set(
                    self.buckets@[slot as int / 64],
                    slot % 64,
                ),
        )
    }

    /// The slot that `value` is folded onto.
    pub open spec fn slot_of(&self, value: u32) -> nat {
        slot(value, self.capacity())
    }

    /// Whether the set answers that it holds `value`.
    pub open spec fn holds(&self, value: u32) -> bool {
        self@.contains(self.slot_of(value))
    }

    /// An empty set with 64 slots for each of the `next_pow2_u16(len)` buckets.
    pub fn new(len: u16) -> (set: Self)
        ensures
            set.wf(),
            set@ == Set::<nat>::empty(),
            set.capacity() == 64 * bucket_count(len),
    {
        let n = next_pow2_u16(len);
        let mut buckets: Vec<u64> = Vec::new();
        let mut i: usize = 0;
        while i < n
            invariant
                i <= n,
                buckets@.len() == i,
                forall|k: int| 0 <= k < i ==> buckets@[k] == 0,
            decreases n - i,
        {
            buckets.push(0);
            i = i + 1;
        }
        let set = FixedSet { buckets };
        proof {
            assert forall|slot: nat| !set@.contains(slot) by {
                if slot < 64 * set.buckets@.len() {
                    lemma_no_bit((slot % 64) as u64);
                }
            }
            assert(set@ =~= Set::<nat>::empty());
        }
        set
    }

    /// Takes the slot of `value`.
    pub fn insert(&mut self, value: u32)
        requires
            old(self).wf(),
        ensures
            final(self).wf(),
            final(self).capacity() == old(self).capacity(),
            final(self)@ == old(self)@.insert(old(self).slot_of(value)),
    {
        let n = self.buckets.len();
        proof {
            lemma_mask_width(n);
            lemma_slot(value, n as u32);
        }
        let mask = (n - 1) as u32;
        let bucket = (value >> 6) & mask;
        let bit_pos = value & 0x3f;
        let word = self.buckets[bucket as usize];
        self.buckets.set(bucket as usize, word | (1u64 << bit_pos));
        proof {
            let slot = old(self).slot_of(value);
            assert(slot == bucket as nat * 64 + bit_pos as nat);
            assert forall|s: nat| self@.contains(s) == old(self)@.insert(slot).contains(s) by {
                if s < 64 * n {
                    let b = s as int / 64;
                    if b == bucket as int {
                        lemma_set_bit(word, bit_pos as u64, (s % 64) as u64);
                    }
                }
            }
            assert(self@ =~= old(self)@.insert(slot));
        }
    }

    /// Whether the slot of `value` is taken.
    pub fn is_member(&self, value: u32) -> (member: bool)
        requires
            self.wf(),
        ensures
            member == self.holds(value),
    {
        let n = self.buckets.len();
        proof {
            lemma_mask_width(n);
            lemma_slot(value, n as u32);
        }
        let mask = (n - 1) as u32;
        let bucket = (value >> 6) & mask;
        let bit_pos = value & 0x3f;
        proof {
            let slot = self.slot_of(value);
            assert(slot == bucket as nat * 64 + bit_pos as nat);
            assert(slot as int / 64 == bucket as int);
            assert(slot % 64 == bit_pos as nat);
        }
        (self.buckets[bucket as usize] & (1u64 << bit_pos)) != 0
    }
}

} // verus!
