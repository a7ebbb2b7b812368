//! The stored forms of a vector: the raw components, and a quantized copy
//! with the vector's squared magnitude in front.
//!
//! Components and magnitudes are bit patterns of single-precision numbers.
//! Turning a component into its quantized code is arithmetic on the number
//! and is done by the caller; this module lays the codes out as bytes and
//! reads them back.
use crate::arena::DynAlloc;
use vstd::arithmetic::div_mod::lemma_fundamental_div_mod_converse;
use vstd::prelude::*;

verus! {

/// How the components of a stored vector are encoded.
#[derive(Debug, Clone, Copy, PartialEq, Eq)]
pub enum Quantization {
    SignedByte,
    UnsignedByte,
    HalfPrecisionFP,
    FullPrecisionFP,
}

/// The number of bytes that one component takes under `quantization`.
pub open spec fn component_size(quantization: Quantization) -> nat {
    match quantization {
        Quantization::SignedByte | Quantization::UnsignedByte => 1,
        Quantization::HalfPrecisionFP => 2,
        Quantization::FullPrecisionFP => 4,
    }
}

impl Quantization {
    pub fn size(&self) -> (size: usize)
        ensures
            size == component_size(*self),
    {
        match self {
            Self::SignedByte | Self::UnsignedByte => 1,
            Self::HalfPrecisionFP => 2,
            Self::FullPrecisionFP => 4,
        }
    }
}

/// Byte `k` of `code`, counted from the least significant one.
pub open spec fn code_byte(code: u32, k: nat) -> u8 {
    ((code >> ((8 * k) as u32)) & 0xff) as u8
}

/// The bytes of `codes` laid out one component after the other, `width`
/// bytes each, least significant byte first.
pub open spec fn packed(codes: Seq<u32>, width: nat) -> Seq<u8> {
    Seq::new(codes.len() * width, |j: int| code_byte(codes[j / width as int], (j % width as int) as nat))
}

/// The signed byte with the same bits as `byte`.
pub open spec fn signed_byte(byte: u8) -> i8 {
    if byte < 128 {
        byte as i8
    } else {
        (byte - 256) as i8
    }
}

/// The 16-bit value whose bytes, least significant first, are `low` and `high`.
pub open spec fn join2(low: u8, high: u8) -> u16 {
    (low as u16) | ((high as u16) << 8)
}

/// The 32-bit value whose bytes, least significant first, are `b0` to `b3`.
pub open spec fn join4(b0: u8, b1: u8, b2: u8, b3: u8) -> u32 {
    (b0 as u32) | ((b1 as u32) << 8) | ((b2 as u32) << 16) | ((b3 as u32) << 24)
}

/// The signed bytes that `bytes` hold.
pub open spec fn signed_bytes_of(bytes: Seq<u8>) -> Seq<i8> {
    Seq::new(bytes.len(), |i: int| signed_byte(bytes[i]))
}

/// The 16-bit values that `bytes` hold, two bytes each. A trailing odd byte
/// is left out.
pub open spec fn half_precision_of(bytes: Seq<u8>) -> Seq<u16> {
    Seq::new((bytes.len() / 2) as nat, |i: int| join2(bytes[2 * i], bytes[2 * i + 1]))
}

/// The 32-bit values that `bytes` hold, four bytes each. Trailing bytes that
/// do not make up a value are left out.
pub open spec fn full_precision_of(bytes: Seq<u8>) -> Seq<u32> {
    Seq::new(
        (bytes.len() / 4) as nat,
        |i: int| join4(bytes[4 * i], bytes[4 * i + 1], bytes[4 * i + 2], bytes[4 * i + 3]),
    )
}

/// The quantized form of a vector.
#[derive(Debug)]
pub struct QuantVec {
    mag: u32,
    vec: Vec<u8>,
}

/// The raw form of a vector: one bit pattern per component.
#[derive(Debug)]
pub struct RawVec {
    vec: Vec<u32>,
}

/// The shape of the quantized vectors of one arena.
#[derive(Debug, Clone, Copy)]
pub struct QuantShape {
    pub quantization: Quantization,
    pub dims: u16,
}

/// What a quantized vector is made from: the bit pattern of the raw
/// vector's dot product with itself, and the code of each component.
#[derive(Debug)]
pub struct QuantArgs {
    pub mag: u32,
    pub codes: Vec<u32>,
}

proof fn lemma_code_bytes(code: u32)
    by (bit_vector)
    ensures
        (code & 0xff) <= 0xff,
        ((code >> 8u32) & 0xff) <= 0xff,
        ((code >> 16u32) & 0xff) <= 0xff,
        ((code >> 24u32) & 0xff) <= 0xff,
        (code >> 0u32) == code,
        (((code & 0xff) as u8) as u32) | ((((code >> 8u32) & 0xff) as u8) as u32) << 8 | ((((code
            >> 16u32) & 0xff) as u8) as u32) << 16 | ((((code >> 24u32) & 0xff) as u8) as u32) << 24
            == code,
{
}

proof fn lemma_join2(low: u8, high: u8)
    by (bit_vector)
    ensures
        (low as u16) | ((high as u16) << 8) == (low as u16) + 256 * (high as u16),
{
}

proof fn lemma_join4(b0: u8, b1: u8, b2: u8, b3: u8)
    by (bit_vector)
    ensures
        (b0 as u32) | ((b1 as u32) << 8) | ((b2 as u32) << 16) | ((b3 as u32) << 24) == (b0 as u32)
            + 0x100 * (b1 as u32) + 0x1_0000 * (b2 as u32) + 0x100_0000 * (b3 as u32),
{
}

proof fn lemma_position(i: int, k: int, width: int)
    requires
        0 <= k < width,
        0 <= i,
    ensures
        (i * width + k) / width == i,
        (i * width + k) % width == k,
{
    lemma_fundamental_div_mod_converse(i * width + k, width, i, k);
}

fn pack(codes: &Vec<u32>, width: usize) -> (bytes: Vec<u8>)
    requires
        width == 1 || width == 2 || width == 4,
        codes@.len() <= 0xFFFF,
    ensures
        bytes@ == packed(codes@, width as nat),
{
    let mut bytes: Vec<u8> = Vec::new();
    let mut i: usize = 0;
    while i < codes.len()
        invariant
            width == 1 || width == 2 || width == 4,
            codes@.len() <= 0xFFFF,
            i <= codes@.len(),
            bytes@.len() == i * width,
            forall|j: int|
                0 <= j < bytes@.len() ==> bytes@[j] == code_byte(
                    codes@[j / width as int],
                    (j % width as int) as nat,
                ),
        decreases codes@.len() - i,
    {
        let code = codes[i];
        proof {
            lemma_code_bytes(code);
        }
        let ghost before = bytes@;
        bytes.push((code & 0xff) as u8);
        if width >= 2 {
            bytes.push(((code >> 8) & 0xff) as u8);
        }
        if width == 4 {
            bytes.push(((code >> 16) & 0xff) as u8);
            bytes.push(((code >> 24) & 0xff) as u8);
        }
        proof {
            assert forall|j: int| 0 <= j < bytes@.len() implies bytes@[j] == code_byte(
                codes@[j / width as int],
                (j % width as int) as nat,
            ) by {
                if j >= before.len() {
                    let k = j - i * width;
                    lemma_position(i as int, k, width as int);
                } else {
                    assert(bytes@[j] == before[j]);
                }
            }
        }
        i = i + 1;
    }
    proof {
        assert(bytes@ =~= packed(codes@, width as nat));
    }
    bytes
}

impl QuantVec {
    /// The bit pattern of the raw vector's dot product with itself.
    pub closed spec fn spec_mag(&self) -> u32 {
        self.mag
    }

    /// The packed codes.
    pub closed spec fn bytes(&self) -> Seq<u8> {
        self.vec@
    }

    /// The vector has `dims` components encoded under `quantization`.
    pub open spec fn wf(&self, quantization: Quantization, dims: u16) -> bool {
        self.bytes().len() == dims * component_size(quantization)
    }

    pub fn mag(&self) -> (mag: u32)
        ensures
            mag == self.spec_mag(),
    {
        self.mag
    }

    /// The components of a vector stored as unsigned bytes.
    pub fn as_unsigned_byte(&self) -> (components: &[u8])
        ensures
            components@ == self.bytes(),
    {
        self.vec.as_slice()
    }

    /// The components of a vector stored as signed bytes.
    pub fn as_signed_byte(&self) -> (components: Vec<i8>)
        ensures
            components@ == signed_bytes_of(self.bytes()),
    {
        let mut components: Vec<i8> = Vec::new();
        let mut i: usize = 0;
        while i < self.vec.len()
            invariant
                i <= self.vec@.len(),
                components@.len() == i,
                forall|j: int| 0 <= j < i ==> components@[j] == signed_byte(self.vec@[j]),
            decreases self.vec@.len() - i,
        {
            let byte = self.vec[i];
            let component: i8 = if byte < 128 {
                byte as i8
            } else {
                ((byte as i16) - 256) as i8
            };
            components.push(component);
            i = i + 1;
        }
        proof {
            assert(components@ =~= signed_bytes_of(self.bytes()));
        }
        components
    }

    /// The bit patterns of the components of a vector stored in half
    /// precision. A trailing odd byte is left out.
    pub fn as_half_precision_fp(&self) -> (components: Vec<u16>)
        ensures
            components@ == half_precision_of(self.bytes()),
    {
        let count = self.vec.len() / 2;
        let mut components: Vec<u16> = Vec::new();
        let mut i: usize = 0;
        while i < count
            invariant
                count == self.vec@.len() / 2,
                2 * count <= self.vec@.len() <= usize::MAX,
                i <= count,
                components@.len() == i,
                forall|j: int|
                    0 <= j < i ==> components@[j] == join2(self.vec@[2 * j], self.vec@[2 * j + 1]),
            decreases count - i,
        {
            let low = self.vec[2 * i];
            let high = self.vec[2 * i + 1];
            proof {
                lemma_join2(low, high);
            }
            components.push((low as u16) + 256 * (high as u16));
            i = i + 1;
        }
        proof {
            assert(components@ =~= half_precision_of(self.bytes()));
        }
        components
    }

    /// The bit patterns of the components of a vector stored in full
    /// precision. Trailing bytes that do not make up a component are left
    /// out.
    pub fn as_full_precision_fp(&self) -> (components: Vec<u32>)
        ensures
            components@ == full_precision_of(self.bytes()),
    {
        let count = self.vec.len() / 4;
        let mut components: Vec<u32> = Vec::new();
        let mut i: usize = 0;
        while i < count
            invariant
                count == self.vec@.len() / 4,
                4 * count <= self.vec@.len() <= usize::MAX,
                i <= count,
                components@.len() == i,
                forall|j: int|
                    0 <= j < i ==> components@[j] == join4(
                        self.vec@[4 * j],
                        self.vec@[4 * j + 1],
                        self.vec@[4 * j + 2],
                        self.vec@[4 * j + 3],
                    ),
            decreases count - i,
        {
            let b0 = self.vec[4 * i];
            let b1 = self.vec[4 * i + 1];
            let b2 = self.vec[4 * i + 2];
            let b3 = self.vec[4 * i + 3];
            proof {
                lemma_join4(b0, b1, b2, b3);
            }
            components.push(
                (b0 as u32) + 0x100 * (b1 as u32) + 0x1_0000 * (b2 as u32) + 0x100_0000 * (b3 as u32),
            );
            i = i + 1;
        }
        proof {
            assert(components@ =~= full_precision_of(self.bytes()));
        }
        components
    }
}

impl RawVec {
    /// The bit patterns of the components.
    pub closed spec fn view(&self) -> Seq<u32> {
        self.vec@
    }

    /// The bit patterns of the components.
    pub fn components(&self) -> (components: &[u32])
        ensures
            components@ == self@,
    {
        self.vec.as_slice()
    }
}

impl DynAlloc for QuantVec {
    type Metadata = QuantShape;

    type Args = QuantArgs;

    open spec fn record_size(metadata: QuantShape) -> nat {
        4 + metadata.dims as nat * component_size(metadata.quantization)
    }

    open spec fn record_align() -> usize {
        4
    }

    /// There is one code for each component.
    open spec fn accepts(metadata: QuantShape, args: QuantArgs) -> bool {
        args.codes@.len() == metadata.dims
    }

    /// The record carries the given magnitude, and the low bytes of each
    /// code in turn.
    open spec fn is_built(record: Self, metadata: QuantShape, args: QuantArgs) -> bool {
        &&& record.spec_mag() == args.mag
        &&& record.bytes() == packed(args.codes@, component_size(metadata.quantization))
        &&& record.wf(metadata.quantization, metadata.dims)
    }

    fn align() -> (alignment: usize) {
        4
    }

    fn size(metadata: QuantShape) -> (size: usize) {
        let multiplier = metadata.quantization.size();
        4 + (metadata.dims as usize) * multiplier
    }

    fn new_at(metadata: QuantShape, args: QuantArgs) -> (record: Self) {
        let vec = match metadata.quantization {
            Quantization::SignedByte => pack(&args.codes, 1),
            Quantization::UnsignedByte => pack(&args.codes, 1),
            Quantization::HalfPrecisionFP => pack(&args.codes, 2),
            Quantization::FullPrecisionFP => pack(&args.codes, 4),
        };
        QuantVec { mag: args.mag, vec }
    }
}

impl DynAlloc for RawVec {
    type Metadata = u16;

    type Args = Vec<u32>;

    open spec fn record_size(metadata: u16) -> nat {
        4 * metadata as nat
    }

    open spec fn record_align() -> usize {
        4
    }

    /// There is one bit pattern for each component.
    open spec fn accepts(metadata: u16, args: Vec<u32>) -> bool {
        args@.len() == metadata
    }

    open spec fn is_built(record: Self, metadata: u16, args: Vec<u32>) -> bool {
        record@ == args@
    }

    fn align() -> (alignment: usize) {
        4
    }

    fn size(metadata: u16) -> (size: usize) {
        4 * (metadata as usize)
    }

    fn new_at(metadata: u16, args: Vec<u32>) -> (record: Self) {
        RawVec { vec: args }
    }
}

proof fn lemma_zero_byte(k: u32)
    by (bit_vector)
    requires
        k < 4,
    ensures
        ((0u32 >> ((8 * k) as u32)) & 0xff) as u8 == 0,
{
}

/// The codes of an all-zero vector are laid out as zero bytes.
pub proof fn lemma_packed_zeros(codes: Seq<u32>, width: nat)
    requires
        1 <= width <= 4,
        forall|i: int| 0 <= i < codes.len() ==> codes[i] == 0,
    ensures
        forall|j: int| 0 <= j < packed(codes, width).len() ==> #[trigger] packed(codes, width)[j] == 0,
{
    assert forall|j: int| 0 <= j < packed(codes, width).len() implies #[trigger] packed(
        codes,
        width,
    )[j] == 0 by {
        let i = j / width as int;
        let k = j % width as int;
        vstd::arithmetic::div_mod::lemma_fundamental_div_mod(j, width as int);
        vstd::arithmetic::div_mod::lemma_mod_pos_bound(j, width as int);
        vstd::arithmetic::div_mod::lemma_div_pos_is_pos(j, width as int);
        assert(i < codes.len()) by (nonlinear_arith)
            requires
                j == width * i + k,
                0 <= k < width,
                j < codes.len() * width,
                width > 0,
        ;
        lemma_zero_byte(k as u32);
    }
}

/// Storing codes in full precision and reading them back gives the codes.
pub proof fn lemma_full_precision_round_trip(codes: Seq<u32>)
    ensures
        full_precision_of(packed(codes, 4)) == codes,
{
    let bytes = packed(codes, 4);
    assert(bytes.len() / 4 == codes.len());
    assert forall|i: int| 0 <= i < codes.len() implies full_precision_of(bytes)[i] == codes[i] by {
        lemma_position(i, 0, 4);
        lemma_position(i, 1, 4);
        lemma_position(i, 2, 4);
        lemma_position(i, 3, 4);
        lemma_code_bytes(codes[i]);
    }
    assert(full_precision_of(bytes) =~= codes);
}

/// A vector built in full precision holds the codes it was built from.
pub proof fn lemma_full_precision_is_lossless(record: QuantVec, dims: u16, args: QuantArgs)
    requires
        QuantVec::is_built(
            record,
            (QuantShape { quantization: Quantization::FullPrecisionFP, dims }),
            args,
        ),
    ensures
        full_precision_of(record.bytes()) == args.codes@,
{
    lemma_full_precision_round_trip(args.codes@);
}

} // verus!
