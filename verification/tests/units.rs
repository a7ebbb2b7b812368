use std::cmp::Ordering;
use vector_db::arena::DynAlloc;
use vector_db::fixedset::next_pow2_u16;
use vector_db::fixedset::FixedSet;
use vector_db::handle::DoubleHandle;
use vector_db::handle::Handle;
use vector_db::handle::HandleA;
use vector_db::handle::HandleB;
use vector_db::mem_project::len_to_cap;
use vector_db::mem_project::mem_project;
use vector_db::metric::dot_product_i8;
use vector_db::metric::dot_product_u8;
use vector_db::metric::score_key;
use vector_db::metric::DistanceMetric;
use vector_db::metric::DistanceMetricKind;
use vector_db::random::AtomicRng;
use vector_db::random::ThreadSafeRng;
use vector_db::select::not_above;
use vector_db::select::select_best;
use vector_db::storage::QuantArgs;
use vector_db::storage::QuantShape;
use vector_db::storage::QuantVec;
use vector_db::storage::Quantization;
use vector_db::storage::RawVec;

#[test]
fn next_pow2_is_the_least_power_of_two_above() {
    assert_eq!(next_pow2_u16(0), 1);
    assert_eq!(next_pow2_u16(1), 1);
    assert_eq!(next_pow2_u16(2), 2);
    assert_eq!(next_pow2_u16(3), 4);
    assert_eq!(next_pow2_u16(5), 8);
    assert_eq!(next_pow2_u16(16), 16);
    assert_eq!(next_pow2_u16(17), 32);
    assert_eq!(next_pow2_u16(32768), 32768);
    assert_eq!(next_pow2_u16(32769), 65536);
    assert_eq!(next_pow2_u16(65535), 65536);
}

#[test]
fn a_set_holds_what_was_put_in() {
    let mut set = FixedSet::new(4);
    for value in [0u32, 5, 63, 64, 255] {
        assert!(!set.is_member(value));
    }
    set.insert(5);
    set.insert(64);
    assert!(set.is_member(5));
    assert!(set.is_member(64));
    assert!(!set.is_member(0));
    assert!(!set.is_member(6));
    assert!(!set.is_member(63));
    assert!(!set.is_member(5 + 64));
    assert!(!set.is_member(255));
}

#[test]
fn values_a_capacity_apart_share_a_slot() {
    let mut set = FixedSet::new(4);
    set.insert(5);
    assert!(set.is_member(5 + 256));
    assert!(set.is_member(5 + 1024));
    assert!(!set.is_member(5 + 128));

    let mut small = FixedSet::new(0);
    small.insert(70);
    assert!(small.is_member(6));
    assert!(small.is_member(70));
    assert!(!small.is_member(7));
}

#[test]
fn a_set_for_many_values_keeps_them_apart() {
    let mut set = FixedSet::new(32);
    for value in (0..2048u32).step_by(3) {
        set.insert(value);
    }
    for value in 0..2048u32 {
        assert_eq!(set.is_member(value), value % 3 == 0);
    }
}

#[test]
fn handles_carry_their_index() {
    let handle: Handle<u8> = Handle::new(7);
    assert_eq!(*handle, 7);
    assert!(handle.is_valid());
    let other: Handle<u16> = handle.cast();
    assert_eq!(*other, 7);
    assert_eq!(handle, Handle::new(7));
    assert_ne!(handle, Handle::new(8));
    let copy = handle;
    assert_eq!(copy.clone(), handle);

    let invalid: Handle<u8> = Handle::invalid();
    assert_eq!(*invalid, 0xFFFF_FFFF);
    assert!(!invalid.is_valid());
}

#[test]
fn a_double_handle_splits_into_its_halves() {
    let handle: DoubleHandle<u8, u16> = DoubleHandle::new(11);
    assert_eq!(*handle, 11);
    assert!(handle.is_valid());
    let (a, b) = handle.split();
    assert_eq!(*a, 11);
    assert_eq!(*b, 11);
    assert_eq!(handle.handle_a(), a);
    assert_eq!(handle.handle_b(), b);
    let back: DoubleHandle<u8, u32> = a.into_double();
    assert_eq!(*back, 11);
    let from_b: DoubleHandle<u16, u8> = b.into_double();
    assert_eq!(*from_b, 11);
    let plain_a: Handle<u64> = a.cast();
    let plain_b: Handle<u64> = b.cast();
    assert_eq!(plain_a, plain_b);

    assert!(!DoubleHandle::<u8, u8>::invalid().is_valid());
    assert!(!HandleA::<u8>::invalid().is_valid());
    assert!(!HandleB::<u8>::invalid().is_valid());
    assert!(HandleA::<u8>::new(0).is_valid());
    assert!(HandleB::<u8>::new(0xFFFF_FFFE).is_valid());
}

fn sample_scores() -> Vec<u32> {
    let mut scores = vec![
        0.0f32.to_bits(),
        (-0.0f32).to_bits(),
        1.0f32.to_bits(),
        (-1.0f32).to_bits(),
        2.0f32.to_bits(),
        0.5f32.to_bits(),
        f32::INFINITY.to_bits(),
        f32::NEG_INFINITY.to_bits(),
        f32::NAN.to_bits(),
        (-f32::NAN).to_bits(),
        f32::MIN_POSITIVE.to_bits(),
        f32::MAX.to_bits(),
        f32::MIN.to_bits(),
        1,
        0x8000_0001,
        0x7FFF_FFFF,
        0xFFFF_FFFF,
    ];
    let mut state: u32 = 1;
    for _ in 0..40 {
        state = state.wrapping_mul(1664525).wrapping_add(1013904223);
        scores.push(state);
    }
    scores
}

#[test]
fn scores_are_ordered_as_the_numbers_are() {
    let q = Quantization::FullPrecisionFP;
    let scores = sample_scores();
    for kind in [DistanceMetricKind::Cosine, DistanceMetricKind::DotProduct] {
        let metric = DistanceMetric::new(kind, q);
        for a in &scores {
            for b in &scores {
                let expected = f32::from_bits(*a).total_cmp(&f32::from_bits(*b));
                assert_eq!(metric.cmp_score(*a, *b), expected);
            }
        }
    }
    for kind in [DistanceMetricKind::Euclidean, DistanceMetricKind::Hamming] {
        let metric = DistanceMetric::new(kind, q);
        for a in &scores {
            for b in &scores {
                let expected = f32::from_bits(*b).total_cmp(&f32::from_bits(*a));
                assert_eq!(metric.cmp_score(*a, *b), expected);
            }
        }
    }
}

#[test]
fn a_higher_similarity_and_a_lower_distance_are_better() {
    let q = Quantization::UnsignedByte;
    let cosine = DistanceMetric::new(DistanceMetricKind::Cosine, q);
    let euclidean = DistanceMetric::new(DistanceMetricKind::Euclidean, q);
    let one = 1.0f32.to_bits();
    let half = 0.5f32.to_bits();
    assert_eq!(cosine.cmp_score(one, half), Ordering::Greater);
    assert_eq!(cosine.cmp_score(half, one), Ordering::Less);
    assert_eq!(cosine.cmp_score(half, half), Ordering::Equal);
    assert_eq!(euclidean.cmp_score(one, half), Ordering::Less);
    assert_eq!(euclidean.cmp_score(half, one), Ordering::Greater);
    assert_eq!(cosine.cmp_score((-0.0f32).to_bits(), 0.0f32.to_bits()), Ordering::Less);
    assert_eq!(cosine.kind(), DistanceMetricKind::Cosine);
    assert_eq!(cosine.quantization(), Quantization::UnsignedByte);
}

#[test]
fn ranks_and_scores_go_back_and_forth() {
    assert_eq!(score_key(0), 0);
    assert_eq!(score_key(0x8000_0000), -1);
    assert_eq!(score_key(0x7FFF_FFFF), i32::MAX);
    assert_eq!(score_key(0xFFFF_FFFF), i32::MIN);
    assert_eq!(score_key(1.0f32.to_bits()), 0x3F80_0000);
    let q = Quantization::FullPrecisionFP;
    for kind in [
        DistanceMetricKind::Cosine,
        DistanceMetricKind::Euclidean,
        DistanceMetricKind::Hamming,
        DistanceMetricKind::DotProduct,
    ] {
        let metric = DistanceMetric::new(kind, q);
        for score in sample_scores() {
            assert_eq!(metric.score_of_rank(metric.rank(score)), score);
        }
    }
    let euclidean = DistanceMetric::new(DistanceMetricKind::Euclidean, q);
    assert_eq!(euclidean.rank(0), -1);
    assert_eq!(euclidean.rank(0x8000_0000), 0);
}

#[test]
fn each_metric_has_its_starting_score() {
    let q = Quantization::FullPrecisionFP;
    let start = |kind| f32::from_bits(DistanceMetric::new(kind, q).max_value());
    assert_eq!(start(DistanceMetricKind::Cosine), 2.0);
    assert_eq!(start(DistanceMetricKind::Euclidean), 0.0);
    assert_eq!(start(DistanceMetricKind::Hamming), 0.0);
    assert_eq!(start(DistanceMetricKind::DotProduct), f32::INFINITY);
}

#[test]
fn byte_dot_products_are_exact() {
    assert_eq!(dot_product_u8(&[], &[]), 0);
    assert_eq!(dot_product_u8(&[1, 2, 3], &[4, 5, 6]), 32);
    assert_eq!(dot_product_u8(&[255; 4], &[255; 4]), 260100);
    assert_eq!(dot_product_u8(&vec![255; 66051], &vec![255; 66051]), 4294966275);
    assert_eq!(dot_product_i8(&[], &[]), 0);
    assert_eq!(dot_product_i8(&[-128, 127], &[-128, -1]), 16257);
    assert_eq!(dot_product_i8(&[1, -2, 3], &[-4, 5, -6]), -32);
    assert_eq!(dot_product_i8(&vec![-128; 131071], &vec![-128; 131071]), 2147467264);
    assert_eq!(dot_product_i8(&vec![-128; 131071], &vec![127; 131071]), -2130690176);
}

#[test]
fn components_take_one_two_or_four_bytes() {
    assert_eq!(Quantization::SignedByte.size(), 1);
    assert_eq!(Quantization::UnsignedByte.size(), 1);
    assert_eq!(Quantization::HalfPrecisionFP.size(), 2);
    assert_eq!(Quantization::FullPrecisionFP.size(), 4);
    let shape = |quantization| QuantShape { quantization, dims: 10 };
    assert_eq!(QuantVec::size(shape(Quantization::SignedByte)), 14);
    assert_eq!(QuantVec::size(shape(Quantization::HalfPrecisionFP)), 24);
    assert_eq!(QuantVec::size(shape(Quantization::FullPrecisionFP)), 44);
    assert_eq!(QuantVec::align(), 4);
    assert_eq!(RawVec::size(10), 40);
    assert_eq!(RawVec::align(), 4);
}

fn signed_code(x: f32) -> u32 {
    ((x * 127.0).round().clamp(-128.0, 127.0) as i8) as u8 as u32
}

fn unsigned_code(x: f32) -> u32 {
    ((x * 255.0).round().clamp(0.0, 255.0) as u8) as u32
}

#[test]
fn quantizer_boundary() {
    let v = [1.0f32, -1.0, 0.0];
    let signed = QuantVec::new_at(
        QuantShape { quantization: Quantization::SignedByte, dims: 3 },
        QuantArgs { mag: 2.0f32.to_bits(), codes: v.iter().map(|x| signed_code(*x)).collect() },
    );
    assert_eq!(signed.as_signed_byte(), vec![127, -127, 0]);
    assert_eq!(f32::from_bits(signed.mag()), 2.0);

    let unsigned = QuantVec::new_at(
        QuantShape { quantization: Quantization::UnsignedByte, dims: 3 },
        QuantArgs { mag: 2.0f32.to_bits(), codes: v.iter().map(|x| unsigned_code(*x)).collect() },
    );
    assert_eq!(unsigned.as_unsigned_byte(), &[255, 0, 0]);
}

#[test]
fn codes_are_laid_out_low_byte_first() {
    let half = QuantVec::new_at(
        QuantShape { quantization: Quantization::HalfPrecisionFP, dims: 2 },
        QuantArgs { mag: 0, codes: vec![0x3C00, 0xC001] },
    );
    assert_eq!(half.as_unsigned_byte(), &[0x00, 0x3C, 0x01, 0xC0]);
    assert_eq!(half.as_half_precision_fp(), vec![0x3C00, 0xC001]);

    let full = QuantVec::new_at(
        QuantShape { quantization: Quantization::FullPrecisionFP, dims: 2 },
        QuantArgs { mag: 0, codes: vec![0x0102_0304, 0xA0B0_C0D0] },
    );
    assert_eq!(full.as_unsigned_byte(), &[4, 3, 2, 1, 0xD0, 0xC0, 0xB0, 0xA0]);
    assert_eq!(full.as_full_precision_fp(), vec![0x0102_0304, 0xA0B0_C0D0]);

    let bytes = QuantVec::new_at(
        QuantShape { quantization: Quantization::UnsignedByte, dims: 2 },
        QuantArgs { mag: 0, codes: vec![0x0123, 0xFFFF_FF80] },
    );
    assert_eq!(bytes.as_unsigned_byte(), &[0x23, 0x80]);
    assert_eq!(bytes.as_signed_byte(), vec![0x23, -128]);
}

#[test]
fn full_precision_keeps_every_component() {
    let mut state: u32 = 77;
    let mut components = vec![f32::NAN, -0.0, f32::INFINITY, f32::MIN_POSITIVE, 1.0e-40];
    for _ in 0..200 {
        state = state.wrapping_mul(1664525).wrapping_add(1013904223);
        components.push(f32::from_bits(state));
    }
    let codes: Vec<u32> = components.iter().map(|x| x.to_bits()).collect();
    let stored = QuantVec::new_at(
        QuantShape { quantization: Quantization::FullPrecisionFP, dims: codes.len() as u16 },
        QuantArgs { mag: 0, codes: codes.clone() },
    );
    assert_eq!(stored.as_full_precision_fp(), codes);

    let raw = RawVec::new_at(codes.len() as u16, codes.clone());
    assert_eq!(raw.components(), &codes[..]);
}

#[test]
fn selection_keeps_the_best_in_order() {
    let items = vec![(1, 5), (3, 2), (3, 9), (-4, 0), (2, 2)];
    assert_eq!(select_best(&items, 3), vec![(3, 9), (3, 2), (2, 2)]);
    assert_eq!(select_best(&items, 0), vec![]);
    assert_eq!(select_best(&items, 5), vec![(3, 9), (3, 2), (2, 2), (1, 5), (-4, 0)]);
    assert_eq!(select_best(&items, 9), vec![(3, 9), (3, 2), (2, 2), (1, 5), (-4, 0)]);
    assert_eq!(select_best(&vec![], 4), vec![]);
    assert_eq!(select_best(&vec![(7, 1), (7, 1)], 1), vec![(7, 1)]);
    assert_eq!(
        select_best(&vec![(i32::MIN, 0), (i32::MAX, u32::MAX), (0, 0)], 2),
        vec![(i32::MAX, u32::MAX), (0, 0)]
    );
}

#[test]
fn selection_agrees_with_a_full_sort() {
    let mut state: u32 = 2;
    let mut items = Vec::new();
    for _ in 0..300 {
        state = state.wrapping_mul(1664525).wrapping_add(1013904223);
        items.push(((state >> 24) as i32 - 128, state % 16));
    }
    let mut sorted = items.clone();
    sorted.sort();
    sorted.reverse();
    for top_k in [0usize, 1, 10, 299, 300, 301] {
        let kept = select_best(&items, top_k);
        assert_eq!(kept, sorted[..top_k.min(300)].to_vec());
    }
}

#[test]
fn candidates_are_ordered_by_rank_then_node() {
    assert!(not_above((1, 9), (2, 0)));
    assert!(!not_above((2, 0), (1, 9)));
    assert!(not_above((2, 3), (2, 3)));
    assert!(not_above((2, 3), (2, 4)));
    assert!(!not_above((2, 4), (2, 3)));
}

#[test]
fn the_generator_follows_its_recurrence() {
    let mut rng = AtomicRng::new(42);
    assert_eq!(rng.next_u64(), 42);
    assert_eq!(rng.next_u64(), 9039304369631583587);
    assert_eq!(rng.next_u64(), 8647191391818483560);
    assert_eq!(rng.next_u64(), 10334312345110439241);

    let mut wrapped = AtomicRng::new(u64::MAX);
    assert_eq!(wrapped.next_u64(), u64::MAX);
    assert_eq!(wrapped.next_u64(), 1u64.wrapping_sub(6364136223846793005));

    let mut a = AtomicRng::new(7);
    let mut b = AtomicRng::new(7);
    for _ in 0..100 {
        assert_eq!(a.next_u64(), b.next_u64());
    }
}

#[test]
fn capacities_are_powers_of_two() {
    assert_eq!(len_to_cap(0), 0);
    assert_eq!(len_to_cap(1), 1);
    assert_eq!(len_to_cap(2), 2);
    assert_eq!(len_to_cap(3), 4);
    assert_eq!(len_to_cap(977), 1024);
    assert_eq!(len_to_cap(1024), 1024);
    assert_eq!(len_to_cap(1025), 2048);
    assert_eq!(len_to_cap(1 << 63), 1 << 63);
    assert_eq!(len_to_cap((1 << 62) + 1), 1 << 63);
}

fn upper_nodes(levels: u8, dataset_size: u32) -> u32 {
    let mut total = 0.0;
    for level in 1..=levels {
        total += 0.4f64.powi(level as i32) * dataset_size as f64;
    }
    total as u32
}

#[test]
fn memory_projection() {
    let word = std::mem::size_of::<usize>() as u64;
    let q = Quantization::FullPrecisionFP;
    let upper = upper_nodes(4, 1_000_000);
    assert_eq!(upper, 649600);
    let bytes = mem_project(16, 32, 128, q, 1_000_000, upper);
    let expected = 232
        + (1024 * word + 1_000_000 * 272)
        + (1024 * word + 649_600 * 148)
        + (1024 * word + 1_000_000 * 1024);
    assert_eq!(bytes, expected);
    assert!(bytes > 0);

    assert_eq!(mem_project(16, 32, 128, q, 0, 0), 232);
    assert_eq!(
        mem_project(2, 2, 1, Quantization::SignedByte, 1, 0),
        232 + (word + 32) + (word + 5)
    );
}

#[test]
fn memory_projection_grows_with_the_data() {
    let q = Quantization::FullPrecisionFP;
    let mut last = 0;
    for n in [0u32, 1, 1000, 1024, 1025, 50_000, 1_000_000, 4_000_000] {
        let bytes = mem_project(16, 32, 128, q, n, upper_nodes(4, n));
        assert!(bytes > last);
        last = bytes;
    }
    let mut last = 0;
    for dims in [1u16, 2, 64, 128, 1000, 65535] {
        let bytes = mem_project(16, 32, dims, q, 1_000_000, upper_nodes(4, 1_000_000));
        assert!(bytes > last);
        last = bytes;
    }
}
