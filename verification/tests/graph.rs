use vector_db::arena::DynAlloc;
use vector_db::graph::Graph;
use vector_db::graph::SearchResult;
use vector_db::metric::dot_product_u8;
use vector_db::metric::DistanceMetricKind;
use vector_db::storage::QuantArgs;
use vector_db::storage::QuantShape;
use vector_db::storage::QuantVec;
use vector_db::storage::Quantization;
use vector_db::storage::RawVec;
use vector_db::NodeId;

fn dot(a: &[f32], b: &[f32]) -> f32 {
    let mut total = 0.0f32;
    for i in 0..a.len() {
        total += a[i] * b[i];
    }
    total
}

fn cosine_from_dot(dot_product: f32, mag_a: f32, mag_b: f32) -> f32 {
    let denominator = mag_a * mag_b;
    if denominator == 0.0 {
        0.0
    } else {
        dot_product / denominator
    }
}

fn floats_of_bytes(bytes: &[u8]) -> Vec<f32> {
    bytes.chunks(4).map(|c| f32::from_le_bytes([c[0], c[1], c[2], c[3]])).collect()
}

fn floats_of_bits(bits: &[u32]) -> Vec<f32> {
    bits.iter().map(|b| f32::from_bits(*b)).collect()
}

fn cosine_full(a: &QuantVec, b: &QuantVec) -> u32 {
    let x = floats_of_bytes(a.as_unsigned_byte());
    let y = floats_of_bytes(b.as_unsigned_byte());
    cosine_from_dot(dot(&x, &y), f32::from_bits(a.mag()), f32::from_bits(b.mag())).to_bits()
}

fn cosine_u8(a: &QuantVec, b: &QuantVec) -> u32 {
    let sum = dot_product_u8(a.as_unsigned_byte(), b.as_unsigned_byte());
    let dot_product = sum as f32 / 65025.0;
    cosine_from_dot(dot_product, f32::from_bits(a.mag()), f32::from_bits(b.mag())).to_bits()
}

fn cosine_raw(a: &RawVec, b: &RawVec) -> u32 {
    let x = floats_of_bits(a.components());
    let y = floats_of_bits(b.components());
    cosine_from_dot(dot(&x, &y), dot(&x, &x), dot(&y, &y)).to_bits()
}

fn level_of(draw: u64, max: u8) -> u8 {
    let factor = 0.4f64;
    let max_power = factor.powi(max as i32 + 1);
    let u = draw as f64 / (u64::MAX as f64 + 1.0);
    let thresh = 1.0 - u * (1.0 - max_power);
    let mut n = 0;
    let mut current = factor;
    while n < max {
        if current <= thresh {
            return n;
        }
        current *= factor;
        n += 1;
    }
    n
}

fn raw_bits(v: &[f32]) -> Vec<u32> {
    v.iter().map(|x| x.to_bits()).collect()
}

fn quantize(v: &[f32], quantization: Quantization) -> QuantArgs {
    let codes = v
        .iter()
        .map(|x| match quantization {
            Quantization::SignedByte => ((x * 127.0).round().clamp(-128.0, 127.0) as i8) as u8 as u32,
            Quantization::UnsignedByte => ((x * 255.0).round().clamp(0.0, 255.0) as u8) as u32,
            Quantization::HalfPrecisionFP => 0,
            Quantization::FullPrecisionFP => x.to_bits(),
        })
        .collect();
    QuantArgs { mag: dot(v, v).to_bits(), codes }
}

fn insert(graph: &mut Graph, v: &[f32], quantization: Quantization, ef: u16) -> NodeId {
    match quantization {
        Quantization::UnsignedByte => {
            graph.index(raw_bits(v), quantize(v, quantization), ef, &cosine_u8, &level_of)
        }
        _ => graph.index(raw_bits(v), quantize(v, quantization), ef, &cosine_full, &level_of),
    }
}

fn search(
    graph: &Graph,
    v: &[f32],
    quantization: Quantization,
    ef: u16,
    top_k: u16,
) -> Vec<SearchResult> {
    let shape = QuantShape { quantization, dims: v.len() as u16 };
    let query = RawVec::new_at(v.len() as u16, raw_bits(v));
    let quantized = QuantVec::new_at(shape, quantize(v, quantization));
    match quantization {
        Quantization::UnsignedByte => {
            graph.search(&query, &quantized, ef, top_k, &cosine_u8, &cosine_raw)
        }
        _ => graph.search(&query, &quantized, ef, top_k, &cosine_full, &cosine_raw),
    }
}

struct Uniform(u64);

impl Uniform {
    fn next(&mut self) -> f32 {
        self.0 ^= self.0 << 13;
        self.0 ^= self.0 >> 7;
        self.0 ^= self.0 << 17;
        ((self.0 >> 40) as f32) / 16777216.0
    }

    fn unit_vector(&mut self, dims: usize) -> Vec<f32> {
        let v: Vec<f32> = (0..dims).map(|_| self.next()).collect();
        let norm = dot(&v, &v).sqrt();
        v.iter().map(|x| x / norm).collect()
    }
}

fn brute_force(data: &[Vec<f32>], query: &[f32], top_k: usize) -> Vec<u32> {
    let mut scored: Vec<(f32, u32)> = data
        .iter()
        .enumerate()
        .map(|(i, v)| (cosine_from_dot(dot(query, v), dot(query, query), dot(v, v)), i as u32))
        .collect();
    scored.sort_by(|a, b| b.0.total_cmp(&a.0));
    scored.iter().take(top_k).map(|s| s.1).collect()
}

fn recall(found: &[SearchResult], truth: &[u32]) -> f32 {
    let hits = found.iter().filter(|r| truth.contains(&r.node.0)).count();
    hits as f32 / truth.len() as f32
}

fn assert_best_first(results: &[SearchResult]) {
    for pair in results.windows(2) {
        assert!(f32::from_bits(pair[0].score) >= f32::from_bits(pair[1].score));
    }
}

#[test]
fn a_new_graph_holds_the_root_alone() {
    let graph = Graph::new(8, 16, 4, 3, Quantization::FullPrecisionFP, DistanceMetricKind::Cosine);
    assert_eq!(graph.len(), 1);
    assert_eq!(graph.upper_len(), 3);
}

#[test]
fn empty_graph_search_returns_nothing() {
    let graph = Graph::new(8, 16, 4, 3, Quantization::FullPrecisionFP, DistanceMetricKind::Cosine);
    let results = search(&graph, &[1.0, 0.0, 0.0, 0.0], Quantization::FullPrecisionFP, 10, 5);
    assert_eq!(results.len(), 0);
}

#[test]
fn two_points_come_back_in_order() {
    let q = Quantization::FullPrecisionFP;
    let mut graph = Graph::new(8, 16, 4, 3, q, DistanceMetricKind::Cosine);
    let first = insert(&mut graph, &[1.0, 0.0, 0.0, 0.0], q, 10);
    let second = insert(&mut graph, &[0.0, 1.0, 0.0, 0.0], q, 10);
    assert_eq!(first, NodeId(0));
    assert_eq!(second, NodeId(1));
    assert_eq!(graph.len(), 3);

    let results = search(&graph, &[1.0, 0.0, 0.0, 0.0], q, 10, 2);
    assert_eq!(results.len(), 2);
    assert_eq!(results[0].node, first);
    assert!((f32::from_bits(results[0].score) - 1.0).abs() < 1e-6);
    assert_eq!(results[1].node, second);
    assert!(f32::from_bits(results[1].score).abs() < 1e-6);
}

#[test]
fn search_quantized_skips_the_second_stage() {
    let q = Quantization::UnsignedByte;
    let mut graph = Graph::new(8, 16, 2, 2, q, DistanceMetricKind::Cosine);
    insert(&mut graph, &[1.0, 0.0], q, 10);
    insert(&mut graph, &[0.6, 0.8], q, 10);
    insert(&mut graph, &[0.0, 1.0], q, 10);
    let v = [0.0f32, 1.0];
    let shape = QuantShape { quantization: q, dims: 2 };
    let query = QuantVec::new_at(shape, quantize(&v, q));
    let results = graph.search_quantized(&query, 10, 2, &cosine_u8);
    assert_eq!(results.len(), 2);
    assert_eq!(results[0].node, NodeId(2));
    assert_eq!(results[1].node, NodeId(1));
    assert_eq!(f32::from_bits(results[0].score), 1.0);
    let expected = (204.0f32 * 255.0 / 65025.0) / (1.0 * 1.0);
    assert_eq!(f32::from_bits(results[1].score), expected);
    assert_best_first(&results);
}

#[test]
fn top_k_zero_returns_nothing() {
    let q = Quantization::FullPrecisionFP;
    let mut graph = Graph::new(4, 4, 2, 1, q, DistanceMetricKind::Cosine);
    insert(&mut graph, &[1.0, 0.0], q, 4);
    let results = search(&graph, &[1.0, 0.0], q, 4, 0);
    assert_eq!(results.len(), 0);
}

#[test]
fn every_insert_adds_one_vector() {
    let q = Quantization::FullPrecisionFP;
    let mut graph = Graph::new(4, 8, 8, 3, q, DistanceMetricKind::Cosine);
    let mut uniform = Uniform(7);
    for i in 0..200u32 {
        let v = uniform.unit_vector(8);
        let id = insert(&mut graph, &v, q, 16);
        assert_eq!(id, NodeId(i));
        assert_eq!(graph.len(), i as usize + 2);
    }
    assert!(graph.upper_len() >= 3);
    assert!(graph.upper_len() <= 3 + 3 * 200);
}

#[test]
fn results_come_best_first() {
    let q = Quantization::FullPrecisionFP;
    let mut graph = Graph::new(8, 16, 8, 3, q, DistanceMetricKind::Cosine);
    let mut uniform = Uniform(99);
    for _ in 0..300 {
        let v = uniform.unit_vector(8);
        insert(&mut graph, &v, q, 32);
    }
    for _ in 0..20 {
        let query = uniform.unit_vector(8);
        let results = search(&graph, &query, q, 32, 10);
        assert_eq!(results.len(), 10);
        assert_best_first(&results);
        for result in &results {
            assert!((result.node.0 as usize) < graph.len() - 1);
        }
    }
}

#[test]
fn an_inserted_vector_finds_itself() {
    let q = Quantization::FullPrecisionFP;
    let mut graph = Graph::new(8, 16, 16, 3, q, DistanceMetricKind::Cosine);
    let mut uniform = Uniform(5);
    let mut data = Vec::new();
    for _ in 0..100 {
        let v = uniform.unit_vector(16);
        insert(&mut graph, &v, q, 64);
        data.push(v);
    }
    let mut hits = 0;
    for (i, v) in data.iter().enumerate() {
        let results = search(&graph, v, q, 64, 1);
        assert_eq!(results.len(), 1);
        if results[0].node == NodeId(i as u32) {
            hits += 1;
            assert!((f32::from_bits(results[0].score) - 1.0).abs() < 1e-5);
        }
    }
    assert!(hits >= 95);
}

#[test]
fn recall_floor_on_a_thousand_points() {
    let q = Quantization::FullPrecisionFP;
    let mut graph = Graph::new(16, 32, 32, 4, q, DistanceMetricKind::Cosine);
    let mut uniform = Uniform(2024);
    let mut data = Vec::new();
    for _ in 0..1000 {
        let v = uniform.unit_vector(32);
        insert(&mut graph, &v, q, 100);
        data.push(v);
    }
    assert_eq!(graph.len(), 1001);
    let mut total = 0.0;
    let queries = 20;
    for _ in 0..queries {
        let query = uniform.unit_vector(32);
        let results = search(&graph, &query, q, 100, 10);
        assert_best_first(&results);
        total += recall(&results, &brute_force(&data, &query, 10));
    }
    assert!(total / queries as f32 >= 0.85);
}

#[test]
fn dense_recall_with_unsigned_bytes() {
    let q = Quantization::UnsignedByte;
    let mut graph = Graph::new(16, 32, 16, 4, q, DistanceMetricKind::Cosine);
    let mut uniform = Uniform(31337);
    let mut data = Vec::new();
    for _ in 0..500 {
        let v = uniform.unit_vector(16);
        insert(&mut graph, &v, q, 64);
        data.push(v);
    }
    let mut total = 0.0;
    let queries = 50;
    for _ in 0..queries {
        let query = uniform.unit_vector(16);
        let results = search(&graph, &query, q, 64, 10);
        assert_best_first(&results);
        total += recall(&results, &brute_force(&data, &query, 10));
    }
    assert!(total / queries as f32 >= 0.80);
}

#[test]
fn a_walk_visits_the_best_candidate_first() {
    let q = Quantization::FullPrecisionFP;
    let mut graph = Graph::new(8, 16, 2, 1, q, DistanceMetricKind::Cosine);
    let data = [[0.6f32, 0.8], [1.0, 0.0], [0.8, 0.6], [0.0, 1.0], [-1.0, 0.0]];
    for v in &data {
        insert(&mut graph, v, q, 16);
    }
    let v = [1.0f32, 0.0];
    let shape = QuantShape { quantization: q, dims: 2 };
    let query = QuantVec::new_at(shape, quantize(&v, q));

    let none = graph.search_quantized(&query, 1, 5, &cosine_full);
    assert_eq!(none.len(), 0);

    let one = graph.search_quantized(&query, 2, 5, &cosine_full);
    assert_eq!(one.len(), 1);
    assert_eq!(one[0].node, NodeId(1));
    assert_eq!(f32::from_bits(one[0].score), 1.0);

    let two = graph.search_quantized(&query, 3, 5, &cosine_full);
    assert_eq!(two.len(), 2);
    assert_eq!(two[0].node, NodeId(1));
    assert_eq!(two[1].node, NodeId(2));

    let all = graph.search_quantized(&query, 16, 5, &cosine_full);
    let ids: Vec<u32> = all.iter().map(|r| r.node.0).collect();
    assert_eq!(ids, vec![1, 2, 0, 3, 4]);
    assert_best_first(&all);
}

#[test]
fn many_inserts_then_a_sorted_search() {
    let q = Quantization::UnsignedByte;
    let mut graph = Graph::new(8, 16, 8, 4, q, DistanceMetricKind::Cosine);
    let mut uniform = Uniform(11);
    let threads = 8;
    let each = 250;
    for _ in 0..threads * each {
        let v = uniform.unit_vector(8);
        insert(&mut graph, &v, q, 16);
    }
    assert_eq!(graph.len(), threads * each + 1);
    let query = uniform.unit_vector(8);
    let results = search(&graph, &query, q, 32, 10);
    assert_eq!(results.len(), 10);
    assert_best_first(&results);
}

fn top_level(_draw: u64, max: u8) -> u8 {
    max
}

fn beyond_top_level(_draw: u64, _max: u8) -> u8 {
    255
}

fn ground_level(_draw: u64, _max: u8) -> u8 {
    0
}

#[test]
fn a_vector_gets_a_node_on_every_level_up_to_its_own() {
    let q = Quantization::FullPrecisionFP;
    let mut graph = Graph::new(4, 8, 4, 3, q, DistanceMetricKind::Cosine);
    let mut uniform = Uniform(3);
    assert_eq!(graph.upper_len(), 3);
    for i in 0..10usize {
        let v = uniform.unit_vector(4);
        graph.index(raw_bits(&v), quantize(&v, q), 8, &cosine_full, &ground_level);
        assert_eq!(graph.upper_len(), 3);
        assert_eq!(graph.len(), i + 2);
    }
    for i in 0..10usize {
        let v = uniform.unit_vector(4);
        graph.index(raw_bits(&v), quantize(&v, q), 8, &cosine_full, &top_level);
        assert_eq!(graph.upper_len(), 3 + 3 * (i + 1));
    }
    for i in 0..10usize {
        let v = uniform.unit_vector(4);
        graph.index(raw_bits(&v), quantize(&v, q), 8, &cosine_full, &beyond_top_level);
        assert_eq!(graph.upper_len(), 33 + 3 * (i + 1));
    }
    assert_eq!(graph.len(), 31);
    let query = uniform.unit_vector(4);
    let results = search(&graph, &query, q, 16, 5);
    assert_eq!(results.len(), 5);
    assert_best_first(&results);
}

#[test]
fn levels_are_drawn_from_the_seeded_generator() {
    let q = Quantization::FullPrecisionFP;
    let mut a = Graph::new(4, 8, 4, 4, q, DistanceMetricKind::Cosine);
    let mut b = Graph::new(4, 8, 4, 4, q, DistanceMetricKind::Cosine);
    let mut uniform = Uniform(17);
    let mut grew = false;
    for _ in 0..100 {
        let v = uniform.unit_vector(4);
        let before = a.upper_len();
        insert(&mut a, &v, q, 8);
        insert(&mut b, &v, q, 8);
        assert_eq!(a.upper_len(), b.upper_len());
        assert!(a.upper_len() - before <= 4);
        grew = grew || a.upper_len() > before;
    }
    assert!(grew);
    let query = uniform.unit_vector(4);
    let from_a: Vec<(u32, u32)> =
        search(&a, &query, q, 16, 5).iter().map(|r| (r.node.0, r.score)).collect();
    let from_b: Vec<(u32, u32)> =
        search(&b, &query, q, 16, 5).iter().map(|r| (r.node.0, r.score)).collect();
    assert_eq!(from_a, from_b);
}

fn squared_distance(a: &QuantVec, b: &QuantVec) -> u32 {
    let x = floats_of_bytes(a.as_unsigned_byte());
    let y = floats_of_bytes(b.as_unsigned_byte());
    let mut total = 0.0f32;
    for i in 0..x.len() {
        total += (x[i] - y[i]) * (x[i] - y[i]);
    }
    total.to_bits()
}

fn squared_distance_raw(a: &RawVec, b: &RawVec) -> u32 {
    let x = floats_of_bits(a.components());
    let y = floats_of_bits(b.components());
    let mut total = 0.0f32;
    for i in 0..x.len() {
        total += (x[i] - y[i]) * (x[i] - y[i]);
    }
    total.to_bits()
}

#[test]
fn with_a_distance_the_nearest_comes_first() {
    let q = Quantization::FullPrecisionFP;
    let mut graph = Graph::new(4, 8, 2, 2, q, DistanceMetricKind::Euclidean);
    let data = [[3.0f32, 0.0], [1.0, 1.0], [0.0, 2.0], [5.0, 5.0], [1.0, 0.5]];
    for v in &data {
        graph.index(raw_bits(v), quantize(v, q), 16, &squared_distance, &level_of);
    }
    let v = [1.0f32, 0.0];
    let query = RawVec::new_at(2, raw_bits(&v));
    let quantized = QuantVec::new_at(QuantShape { quantization: q, dims: 2 }, quantize(&v, q));
    let results =
        graph.search(&query, &quantized, 16, 3, &squared_distance, &squared_distance_raw);
    let found: Vec<(u32, f32)> =
        results.iter().map(|r| (r.node.0, f32::from_bits(r.score))).collect();
    assert_eq!(found, vec![(4, 0.25), (1, 1.0), (0, 4.0)]);
}

fn dot_signed(a: &QuantVec, b: &QuantVec) -> u32 {
    let sum = vector_db::metric::dot_product_i8(&a.as_signed_byte(), &b.as_signed_byte());
    (sum as f32 / 16384.0).to_bits()
}

fn dot_raw(a: &RawVec, b: &RawVec) -> u32 {
    dot(&floats_of_bits(a.components()), &floats_of_bits(b.components())).to_bits()
}

#[test]
fn signed_bytes_under_the_dot_product() {
    let q = Quantization::SignedByte;
    let mut graph = Graph::new(4, 8, 2, 2, q, DistanceMetricKind::DotProduct);
    let data = [[1.0f32, 0.0], [-1.0, 0.0], [0.5, 0.5], [0.0, -1.0]];
    for v in &data {
        graph.index(raw_bits(v), quantize(v, q), 16, &dot_signed, &level_of);
    }
    let v = [1.0f32, 0.0];
    let quantized = QuantVec::new_at(QuantShape { quantization: q, dims: 2 }, quantize(&v, q));
    let first = graph.search_quantized(&quantized, 16, 4, &dot_signed);
    let found: Vec<(u32, f32)> =
        first.iter().map(|r| (r.node.0, f32::from_bits(r.score))).collect();
    assert_eq!(
        found,
        vec![
            (0, 16129.0 / 16384.0),
            (2, 8128.0 / 16384.0),
            (3, 0.0),
            (1, -16129.0 / 16384.0)
        ]
    );

    let query = RawVec::new_at(2, raw_bits(&v));
    let results = graph.search(&query, &quantized, 16, 2, &dot_signed, &dot_raw);
    let reranked: Vec<(u32, f32)> =
        results.iter().map(|r| (r.node.0, f32::from_bits(r.score))).collect();
    assert_eq!(reranked, vec![(0, 1.0), (2, 0.5)]);
}
