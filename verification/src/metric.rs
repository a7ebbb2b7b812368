//! Score ordering per distance metric, and the integer kernels of the
//! byte-quantized dot products.
//!
//! A score is the bit pattern of a single-precision number. Scores are
//! ordered as IEEE 754's total order orders the numbers they encode; which
//! end of that order is the better one depends on the metric.
use crate::storage::Quantization;
use core::cmp::Ordering;
use vstd::prelude::*;

verus! {

/// The bit pattern of `2.0`.
pub const SCORE_TWO: u32 = 0x4000_0000;

/// The bit pattern of `0.0`.
pub const SCORE_ZERO: u32 = 0;

/// The bit pattern of positive infinity.
pub const SCORE_INFINITY: u32 = 0x7F80_0000;

/// The longest pair of unsigned-byte vectors whose dot product fits in 32 bits.
pub const MAX_DOT_LEN_U8: usize = 66051;

/// The longest pair of signed-byte vectors whose dot product fits in 32 bits.
pub const MAX_DOT_LEN_I8: usize = 131071;

/// How two vectors are scored against each other. The two similarities,
/// cosine and dot product, are better the greater they are; the two
/// distances are better the smaller they are.
#[derive(Debug, Clone, Copy, PartialEq, Eq)]
pub enum DistanceMetricKind {
    Cosine,
    Euclidean,
    Hamming,
    DotProduct,
}

/// A metric kind together with the representation of the vectors it scores.
#[derive(Debug, Clone, Copy)]
pub struct DistanceMetric {
    kind: DistanceMetricKind,
    quantization: Quantization,
}

/// The place of a bit pattern in the total order of the numbers: patterns
/// with the sign bit clear keep their value, those with it set are mirrored
/// below zero, so that `-0.0` is `-1` and the all-ones pattern is the least.
pub open spec fn total_key(bits: u32) -> int {
    if bits < 0x8000_0000 {
        bits as int
    } else {
        0x7FFF_FFFF - bits
    }
}

/// Whether a greater number is a better score under `kind`.
pub open spec fn higher_is_better(kind: DistanceMetricKind) -> bool {
    kind is Cosine || kind is DotProduct
}

/// The sum of the products of the components of `a` and `b`, pair by pair.
pub open spec fn dot_sum_u8(a: Seq<u8>, b: Seq<u8>) -> int
    decreases a.len(),
{
    if a.len() == 0 || b.len() == 0 {
        0
    } else {
        dot_sum_u8(a.drop_last(), b.drop_last()) + a.last() * b.last()
    }
}

/// The sum of the products of the components of `a` and `b`, pair by pair.
pub open spec fn dot_sum_i8(a: Seq<i8>, b: Seq<i8>) -> int
    decreases a.len(),
{
    if a.len() == 0 || b.len() == 0 {
        0
    } else {
        dot_sum_i8(a.drop_last(), b.drop_last()) + a.last() * b.last()
    }
}

/// The key of `bits` in the total order, as a machine integer.
pub fn score_key(bits: u32) -> (key: i32)
    ensures
        key == total_key(bits),
{
    if bits < 0x8000_0000 {
        bits as i32
    } else {
        let mirrored: i64 = 0x7FFF_FFFF - (bits as i64);
        mirrored as i32
    }
}

impl DistanceMetric {
    pub closed spec fn spec_kind(&self) -> DistanceMetricKind {
        self.kind
    }

    pub closed spec fn spec_quantization(&self) -> Quantization {
        self.quantization
    }

    /// How good `score` is under this metric: a greater rank is a better
    /// score, and two scores have the same rank only if they are the same
    /// bit pattern.
    pub open spec fn rank_of(&self, score: u32) -> int {
        if higher_is_better(self.spec_kind()) {
            total_key(score)
        } else {
            -1 - total_key(score)
        }
    }

    pub fn new(kind: DistanceMetricKind, quantization: Quantization) -> (metric: Self)
        ensures
            metric.spec_kind() == kind,
            metric.spec_quantization() == quantization,
    {
        Self { kind, quantization }
    }

    pub fn kind(&self) -> (kind: DistanceMetricKind)
        ensures
            kind == self.spec_kind(),
    {
        self.kind
    }

    pub fn quantization(&self) -> (quantization: Quantization)
        ensures
            quantization == self.spec_quantization(),
    {
        self.quantization
    }

    /// The score that has rank `rank`.
    pub open spec fn score_at(&self, rank: int) -> u32 {
        let key = if higher_is_better(self.spec_kind()) {
            rank
        } else {
            -1 - rank
        };
        if key >= 0 {
            key as u32
        } else {
            (0x7FFF_FFFF - key) as u32
        }
    }

    /// The score that has rank `rank`.
    pub fn score_of_rank(&self, rank: i32) -> (score: u32)
        ensures
            score == self.score_at(rank as int),
            self.rank_of(score) == rank,
    {
        let key: i64 = match self.kind {
            DistanceMetricKind::Cosine | DistanceMetricKind::DotProduct => rank as i64,
            DistanceMetricKind::Euclidean | DistanceMetricKind::Hamming => -1 - (rank as i64),
        };
        if key >= 0 {
            key as u32
        } else {
            (0x7FFF_FFFF - key) as u32
        }
    }

    /// The rank of `score` as a machine integer.
    pub fn rank(&self, score: u32) -> (rank: i32)
        ensures
            rank == self.rank_of(score),
    {
        let key = score_key(score);
        match self.kind {
            DistanceMetricKind::Cosine | DistanceMetricKind::DotProduct => key,
            DistanceMetricKind::Euclidean | DistanceMetricKind::Hamming => -1 - key,
        }
    }

    /// Orders two scores by how good they are: `Greater` says that `a` is the
    /// better one.
    pub fn cmp_score(&self, a: u32, b: u32) -> (order: Ordering)
        ensures
            (order == Ordering::Less) == (self.rank_of(a) < self.rank_of(b)),
            (order == Ordering::Greater) == (self.rank_of(a) > self.rank_of(b)),
            (order == Ordering::Equal) == (a == b),
    {
        let rank_a = self.rank(a);
        let rank_b = self.rank(b);
        if rank_a < rank_b {
            Ordering::Less
        } else if rank_a > rank_b {
            Ordering::Greater
        } else {
            Ordering::Equal
        }
    }

    /// The score from which the search for a list's weakest entry starts.
    pub fn max_value(&self) -> (score: u32)
        ensures
            score == max_score(self.spec_kind()),
    {
        match self.kind {
            DistanceMetricKind::Cosine => SCORE_TWO,
            DistanceMetricKind::Euclidean => SCORE_ZERO,
            DistanceMetricKind::Hamming => SCORE_ZERO,
            DistanceMetricKind::DotProduct => SCORE_INFINITY,
        }
    }
}

/// The starting score of each metric: `2.0` for cosine, `0.0` for the two
/// distances, positive infinity for the dot product.
pub open spec fn max_score(kind: DistanceMetricKind) -> u32 {
    match kind {
        DistanceMetricKind::Cosine => SCORE_TWO,
        DistanceMetricKind::Euclidean => SCORE_ZERO,
        DistanceMetricKind::Hamming => SCORE_ZERO,
        DistanceMetricKind::DotProduct => SCORE_INFINITY,
    }
}

/// Every rank within 32 bits is the rank of the score found for it.
pub proof fn lemma_score_at(metric: DistanceMetric, rank: int)
    requires
        -0x8000_0000 <= rank <= 0x7FFF_FFFF,
    ensures
        metric.rank_of(metric.score_at(rank)) == rank,
{
}

/// Ranks are ordered exactly as the metric prefers, and no two scores share
/// one.
pub proof fn lemma_rank_is_total(metric: DistanceMetric, a: u32, b: u32)
    ensures
        metric.rank_of(a) == metric.rank_of(b) <==> a == b,
        -0x8000_0000 <= metric.rank_of(a) <= 0x7FFF_FFFF,
        metric.score_at(metric.rank_of(a)) == a,
{
}

proof fn lemma_dot_u8_bound(a: Seq<u8>, b: Seq<u8>)
    requires
        a.len() == b.len(),
    ensures
        0 <= dot_sum_u8(a, b) <= a.len() * 65025,
    decreases a.len(),
{
    if a.len() > 0 {
        lemma_dot_u8_bound(a.drop_last(), b.drop_last());
        let x = a.last();
        let y = b.last();
        assert(0 <= x * y <= 65025) by (nonlinear_arith)
            requires
                0 <= x <= 255,
                0 <= y <= 255,
        ;
    }
}

proof fn lemma_dot_i8_bound(a: Seq<i8>, b: Seq<i8>)
    requires
        a.len() == b.len(),
    ensures
        -(a.len() * 16384) <= dot_sum_i8(a, b) <= a.len() * 16384,
    decreases a.len(),
{
    if a.len() > 0 {
        lemma_dot_i8_bound(a.drop_last(), b.drop_last());
        let x = a.last();
        let y = b.last();
        assert(-16384 <= x * y <= 16384) by (nonlinear_arith)
            requires
                -128 <= x <= 127,
                -128 <= y <= 127,
        ;
    }
}

/// The integer dot product of two unsigned-byte vectors. Dividing it by
/// `255 * 255` gives the normalized score.
pub fn dot_product_u8(a: &[u8], b: &[u8]) -> (sum: u32)
    requires
        a@.len() == b@.len(),
        a@.len() <= MAX_DOT_LEN_U8,
    ensures
        sum == dot_sum_u8(a@, b@),
{
    let mut sum: u32 = 0;
    let mut i: usize = 0;
    while i < a.len()
        invariant
            a@.len() == b@.len(),
            a@.len() <= MAX_DOT_LEN_U8,
            i <= a@.len(),
            sum == dot_sum_u8(a@.take(i as int), b@.take(i as int)),
        decreases a@.len() - i,
    {
        proof {
            lemma_dot_u8_bound(a@.take(i as int), b@.take(i as int));
            lemma_dot_u8_bound(a@.take(i + 1), b@.take(i + 1));
            assert(a@.take(i + 1).drop_last() == a@.take(i as int));
            assert(b@.take(i + 1).drop_last() == b@.take(i as int));
        }
        let x: u32 = a[i] as u32;
        let y: u32 = b[i] as u32;
        assert(x * y <= 65025) by (nonlinear_arith)
            requires
                x <= 255,
                y <= 255,
        ;
        sum = sum + x * y;
        i = i + 1;
    }
    proof {
        assert(a@.take(i as int) == a@);
        assert(b@.take(i as int) == b@);
    }
    sum
}

/// The integer dot product of two signed-byte vectors. Dividing it by
/// `128 * 128` gives the normalized score.
pub fn dot_product_i8(a: &[i8], b: &[i8]) -> (sum: i32)
    requires
        a@.len() == b@.len(),
        a@.len() <= MAX_DOT_LEN_I8,
    ensures
        sum == dot_sum_i8(a@, b@),
{
    let mut sum: i32 = 0;
    let mut i: usize = 0;
    while i < a.len()
        invariant
            a@.len() == b@.len(),
            a@.len() <= MAX_DOT_LEN_I8,
            i <= a@.len(),
            sum == dot_sum_i8(a@.take(i as int), b@.take(i as int)),
        decreases a@.len() - i,
    {
        proof {
            lemma_dot_i8_bound(a@.take(i as int), b@.take(i as int));
            lemma_dot_i8_bound(a@.take(i + 1), b@.take(i + 1));
            assert(a@.take(i + 1).drop_last() == a@.take(i as int));
            assert(b@.take(i + 1).drop_last() == b@.take(i as int));
        }
        let x: i32 = a[i] as i32;
        let y: i32 = b[i] as i32;
        assert(-16384 <= x * y <= 16384) by (nonlinear_arith)
            requires
                -128 <= x <= 127,
                -128 <= y <= 127,
        ;
        sum = sum + x * y;
        i = i + 1;
    }
    proof {
        assert(a@.take(i as int) == a@);
        assert(b@.take(i as int) == b@);
    }
    sum
}

} // verus!
