//! Indexes over proximity graphs.
use diskann::metric::Distance;
use diskann::metric::MetricKind;
use numkong::{cast, f16, Angular, Dot, EachScale, Euclidean};
use rand::Rng;
use diskann::beam::BeamSearchConfig;
use diskann::candidate::{Candidate, Hit};
use diskann::filter::Filter;
use diskann::filtered::FilteredDiskANN;
use diskann::incremental::{
    IncrementalConfig, IncrementalDiskANN, IncrementalQuantizedConfig, QuantizerKind,
};
use diskann::index::{DiskANN, DiskAnnParams};
use diskann::pq::PQConfig;
use diskann::quantized::{QuantizedConfig, QuantizedDiskANN};
use rand::rngs::StdRng;
use rand::SeedableRng;
use std::collections::HashSet;
use diskann::beam::{beam_search, SearchSpace};
use diskann::filtered::{deserialize_labels, serialize_labels};
use diskann::delta::is_delta_id;
use diskann::index::{CORE_FORMAT_VERSION, CORE_MAGIC};
use diskann::queue::Queue;
use diskann::vamana::{prune_neighbors, Table};
use diskann::word::lt;

/// The metrics that the kernels compute.
#[derive(Clone, Copy, Debug, PartialEq)]
#[allow(dead_code)]
enum Metric {
    L2,
    L2Sq,
    Cosine,
    Dot,
}

#[allow(dead_code)]
const L2: Metric = Metric::L2;

fn floats(words: &[u32]) -> &[f32] {
    bytemuck::cast_slice(words)
}

fn num(word: u32) -> f32 {
    f32::from_bits(word)
}

impl Distance for Metric {
    fn eval(&self, a: &[u32], b: &[u32]) -> u32 {
        let (a, b) = (floats(a), floats(b));
        let d = match self {
            Metric::L2 => f32::euclidean(a, b).unwrap() as f32,
            Metric::L2Sq => f32::sqeuclidean(a, b).unwrap() as f32,
            Metric::Cosine => f32::angular(a, b).unwrap() as f32,
            Metric::Dot => 1.0 - f32::dot(a, b).unwrap() as f32,
        };
        d.to_bits()
    }
    fn square_l2(&self, a: &[u32], b: &[u32]) -> u32 {
        (f32::sqeuclidean(floats(a), floats(b)).unwrap() as f32).to_bits()
    }
    fn kind(&self) -> MetricKind {
        match self {
            Metric::L2 => MetricKind::L2,
            Metric::L2Sq => MetricKind::L2Sq,
            _ => MetricKind::Other,
        }
    }
    fn name(&self) -> String {
        format!("{:?}", self)
    }
    fn sum(&self, a: u32, b: u32) -> u32 {
        (num(a) + num(b)).to_bits()
    }
    fn difference(&self, a: u32, b: u32) -> u32 {
        (num(a) - num(b)).to_bits()
    }
    fn product(&self, a: u32, b: u32) -> u32 {
        (num(a) * num(b)).to_bits()
    }
    fn quotient(&self, a: u32, b: u32) -> u32 {
        (num(a) / num(b)).to_bits()
    }
    fn root(&self, a: u32) -> u32 {
        num(a).sqrt().to_bits()
    }
    fn count(&self, n: usize) -> u32 {
        (n as f32).to_bits()
    }
    fn rounded(&self, a: u32) -> u32 {
        num(a).round() as u32
    }
    fn to_half(&self, v: &[u32]) -> Vec<u16> {
        let mut halves = vec![f16::ZERO; v.len()];
        cast(floats(v), &mut halves).unwrap();
        halves.iter().map(|h| h.0).collect()
    }
    fn from_half(&self, v: &[u16]) -> Vec<u32> {
        let halves: Vec<f16> = v.iter().map(|h| f16(*h)).collect();
        let mut out = vec![0.0f32; v.len()];
        cast(&halves, &mut out).unwrap();
        words(&out)
    }
    fn half_l2(&self, a: &[u16], b: &[u16]) -> u32 {
        let a: Vec<f16> = a.iter().map(|h| f16(*h)).collect();
        let b: Vec<f16> = b.iter().map(|h| f16(*h)).collect();
        f16::sqeuclidean(&a, &b).unwrap().to_bits()
    }
    fn to_bytes(&self, v: &[u32], factor: u32, shift: u32) -> Vec<u8> {
        let mut scaled = vec![0.0f32; v.len()];
        f32::each_scale(floats(v), num(factor), num(shift), &mut scaled).unwrap();
        let mut out = vec![0u8; v.len()];
        cast(&scaled, &mut out).unwrap();
        out
    }
    fn portion(&self, total: u32) -> u32 {
        (rand::thread_rng().gen::<f32>() * num(total)).to_bits()
    }
}

fn words(v: &[f32]) -> Vec<u32> {
    v.iter().map(|x| x.to_bits()).collect()
}

#[allow(dead_code)]
fn rows(vectors: &[Vec<f32>]) -> Vec<Vec<u32>> {
    vectors.iter().map(|v| words(v)).collect()
}

fn pairs(found: &[Candidate]) -> Vec<(u32, f32)> {
    found.iter().map(|c| (c.id, num(c.dist))).collect()
}

fn hits(found: &[Hit]) -> Vec<(u64, f32)> {
    found.iter().map(|c| (c.id, num(c.dist))).collect()
}

/// Searches with plain numbers.
trait Find {
    type Id;
    fn find(&self, query: &[f32], k: usize, beam: usize) -> Vec<Self::Id>;
    fn find_with_dists(&self, query: &[f32], k: usize, beam: usize) -> Vec<(Self::Id, f32)>;
}

impl<'a> Find for DiskANN<'a, Metric> {
    type Id = u32;
    fn find(&self, query: &[f32], k: usize, beam: usize) -> Vec<u32> {
        assert!(self.validate());
        self.search(&words(query), k, beam)
    }
    fn find_with_dists(&self, query: &[f32], k: usize, beam: usize) -> Vec<(u32, f32)> {
        pairs(&self.search_with_dists(&words(query), k, beam))
    }
}

impl<'a> Find for QuantizedDiskANN<'a, Metric> {
    type Id = u32;
    fn find(&self, query: &[f32], k: usize, beam: usize) -> Vec<u32> {
        assert!(self.validate());
        self.search(&words(query), k, beam)
    }
    fn find_with_dists(&self, query: &[f32], k: usize, beam: usize) -> Vec<(u32, f32)> {
        pairs(&self.search_with_dists(&words(query), k, beam))
    }
}

impl<'a> Find for FilteredDiskANN<'a, Metric> {
    type Id = u32;
    fn find(&self, query: &[f32], k: usize, beam: usize) -> Vec<u32> {
        self.search(&words(query), k, beam)
    }
    fn find_with_dists(&self, query: &[f32], k: usize, beam: usize) -> Vec<(u32, f32)> {
        pairs(&self.search_filtered_with_dists(&words(query), k, beam, &Filter::NoFilter))
    }
}

impl<'a> Find for IncrementalDiskANN<'a, Metric> {
    type Id = u64;
    fn find(&self, query: &[f32], k: usize, beam: usize) -> Vec<u64> {
        assert!(self.validate());
        self.search(&words(query), k, beam)
    }
    fn find_with_dists(&self, query: &[f32], k: usize, beam: usize) -> Vec<(u64, f32)> {
        hits(&self.search_with_dists(&words(query), k, beam))
    }
}

fn random_vectors(n: usize, dim: usize, seed: u64) -> Vec<Vec<f32>> {
    let mut rng = StdRng::seed_from_u64(seed);
    (0..n)
        .map(|_| (0..dim).map(|_| rng.gen::<f32>()).collect())
        .collect()
}

fn brute_force_knn_l2(vectors: &[Vec<f32>], query: &[f32], k: usize) -> Vec<u32> {
    let mut dists: Vec<(u32, f32)> = vectors
        .iter()
        .enumerate()
        .map(|(i, v)| (i as u32, euclid(query, v)))
        .collect();
    dists.sort_by(|a, b| a.1.partial_cmp(&b.1).unwrap());
    dists.iter().take(k).map(|(i, _)| *i).collect()
}

fn recall_at_k(retrieved: &[u32], ground_truth: &[u32]) -> f32 {
    let gt_set: HashSet<u32> = ground_truth.iter().copied().collect();
    let hits = retrieved.iter().filter(|id| gt_set.contains(id)).count();
    hits as f32 / ground_truth.len().max(1) as f32
}

fn euclid(a: &[f32], b: &[f32]) -> f32 {
    a.iter()
        .zip(b)
        .map(|(x, y)| (x - y) * (x - y))
        .sum::<f32>()
        .sqrt()
}

fn plain(v: &[u32]) -> Vec<f32> {
    v.iter().map(|x| num(*x)).collect()
}

/// No duplicates, rising distances, and as many as there should be.
fn assert_search_invariants(results: &[(u32, f32)], k: usize, num_vectors: usize) {
    let expected_count = k.min(num_vectors);
    assert_eq!(results.len(), expected_count);
    let ids: HashSet<u32> = results.iter().map(|(id, _)| *id).collect();
    assert_eq!(ids.len(), results.len(), "duplicate ids: {:?}", results);
    for (id, dist) in results {
        assert!(*dist >= 0.0, "negative distance for id {}: {}", id, dist);
        assert!(dist.is_finite(), "distance for id {} is {}", id, dist);
    }
    for pair in results.windows(2) {
        assert!(pair[0].1 <= pair[1].1 + 1e-6, "not sorted: {:?}", pair);
    }
}

fn default_ann_params() -> DiskAnnParams {
    DiskAnnParams {
        max_degree: 32,
        build_beam_width: 128,
        alpha: 1.2f32.to_bits(),
    }
}

fn unrestricted() -> BeamSearchConfig {
    BeamSearchConfig::default()
}

#[test]
fn test_small_index_l2() {

    let vectors = vec![
        vec![0.0, 0.0],
        vec![1.0, 0.0],
        vec![0.0, 1.0],
        vec![1.0, 1.0],
        vec![0.5, 0.5],
    ];

    let index = DiskANN::build_index_default(&rows(&vectors), L2).unwrap();

    let q = vec![0.1, 0.1];
    let nns = index.find(&q, 3, 8);
    assert_eq!(nns.len(), 3);

    // Verify the first neighbor is quite close in L2
    let v = plain(&index.get_vector(nns[0] as usize));
    assert!(euclid(&q, &v) < 1.0);
}

#[test]
fn test_cosine() {

    let vectors = vec![
        vec![1.0, 0.0, 0.0],
        vec![0.0, 1.0, 0.0],
        vec![0.0, 0.0, 1.0],
        vec![1.0, 1.0, 0.0],
        vec![1.0, 0.0, 1.0],
    ];

    let index =
        DiskANN::build_index_default(&rows(&vectors), Metric::Cosine).unwrap();

    let q = vec![2.0, 0.0, 0.0]; // parallel to [1,0,0]
    let nns = index.find(&q, 2, 8);
    assert_eq!(nns.len(), 2);

    // Top neighbor should have high cosine similarity (close direction)
    let v = plain(&index.get_vector(nns[0] as usize));
    let dot = v.iter().zip(&q).map(|(a, b)| a * b).sum::<f32>();
    let n1 = v.iter().map(|x| x * x).sum::<f32>().sqrt();
    let n2 = q.iter().map(|x| x * x).sum::<f32>().sqrt();
    let cos = dot / (n1 * n2);
    assert!(cos > 0.7);
}

#[test]
fn test_grid_connectivity() {

    // 5x5 grid
    let mut vectors = Vec::new();
    for i in 0..5 {
        for j in 0..5 {
            vectors.push(vec![i as f32, j as f32]);
        }
    }

    let index = DiskANN::build_index_with_params(&rows(&vectors),
        L2,
        DiskAnnParams {
            max_degree: 4,
            build_beam_width: 64,
            alpha: 1.5f32.to_bits(),
        },
    )
    .unwrap();

    for target in 0..vectors.len() {
        let q = &vectors[target];
        let nns = index.find(q, 10, 32);
        if !nns.contains(&(target as u32)) {
            let v = plain(&index.get_vector(nns[0] as usize));
            assert!(euclid(q, &v) < 2.0);
        }
        for &nb in nns.iter().take(5) {
            let v = plain(&index.get_vector(nb as usize));
            assert!(euclid(q, &v) < 5.0);
        }
    }
}

#[test]
fn test_medium_random() {

    let n = 200usize;
    let d = 32usize;
    let mut rng = rand::thread_rng();
    let vectors: Vec<Vec<f32>> = (0..n)
        .map(|_| (0..d).map(|_| rng.gen::<f32>()).collect())
        .collect();

    let index = DiskANN::build_index_with_params(&rows(&vectors),
        L2,
        DiskAnnParams {
            max_degree: 32,
            build_beam_width: 128,
            alpha: 1.2f32.to_bits(),
        },
    )
    .unwrap();

    let q: Vec<f32> = (0..d).map(|_| rng.gen::<f32>()).collect();
    let res = index.find(&q, 10, 64);
    assert_eq!(res.len(), 10);

    // Ensure distances are nondecreasing
    let dists: Vec<f32> = res
        .iter()
        .map(|&id| {
            let v = plain(&index.get_vector(id as usize));
            euclid(&q, &v)
        })
        .collect();
    let mut sorted = dists.clone();
    sorted.sort_by(|a, b| a.partial_cmp(b).unwrap());
    assert_eq!(dists, sorted);
}

#[test]
fn test_to_bytes_from_bytes_round_trip() {

    let vectors = vec![
        vec![0.0, 0.0],
        vec![1.0, 0.0],
        vec![0.0, 1.0],
        vec![1.0, 1.0],
        vec![0.5, 0.5],
    ];

    let index = DiskANN::build_index_default(&rows(&vectors), L2).unwrap();
    let bytes = index.to_bytes();

    let index2 = DiskANN::from_bytes(bytes, L2).unwrap();
    assert_eq!(index2.num_vectors, 5);
    assert_eq!(index2.dim, 2);

    let q = vec![0.9, 0.9];
    let res1 = index.find(&q, 3, 8);
    let res2 = index2.find(&q, 3, 8);
    assert_eq!(res1, res2);
}

#[test]
fn test_from_shared_bytes() {

    let vectors = vec![
        vec![0.0, 0.0],
        vec![1.0, 0.0],
        vec![0.0, 1.0],
        vec![1.0, 1.0],
    ];

    let index = DiskANN::build_index_default(&rows(&vectors), L2).unwrap();
    let bytes = index.to_bytes();
    let shared: std::sync::Arc<[u8]> = bytes.into();

    let index2 = DiskANN::from_shared_bytes(shared, L2).unwrap();
    assert_eq!(index2.num_vectors, 4);
    assert_eq!(index2.dim, 2);

    let q = vec![0.9, 0.9];
    let res = index2.find(&q, 2, 8);
    assert_eq!(res[0], 3); // [1,1]
}

#[test]
fn test_core_magic_number_in_bytes() {

    let vectors = vec![vec![1.0, 2.0], vec![3.0, 4.0]];
    let index = DiskANN::build_index_default(&rows(&vectors), L2).unwrap();
    let bytes = index.to_bytes();

    // First 4 bytes should be CORE_MAGIC
    let magic = u32::from_le_bytes(bytes[0..4].try_into().unwrap());
    assert_eq!(
        magic, CORE_MAGIC,
        "Expected magic 0x{:08X}, got 0x{:08X}",
        CORE_MAGIC, magic
    );

    // Next 4 bytes should be version
    let version = u32::from_le_bytes(bytes[4..8].try_into().unwrap());
    assert_eq!(version, CORE_FORMAT_VERSION);
}

#[test]
fn test_quantized_pq_basic() {

    let dim = 32;
    let vectors = random_vectors(200, dim, 42);
    let pq_config = PQConfig {
        num_subspaces: 4,
        num_centroids: 64,
        kmeans_iterations: 10,
        training_sample_size: 0,
    };
    let config = QuantizedConfig { rerank_size: 0 };
    let ann_params = DiskAnnParams {
        max_degree: 32,
        build_beam_width: 128,
        alpha: 1.2f32.to_bits(),
    };

    let index = QuantizedDiskANN::build_pq(&rows(&vectors),
        L2,
        ann_params,
        pq_config,
        config,
    )
    .unwrap();

    let query = &vectors[0];
    let results = index.find(query, 10, 64);
    assert_eq!(results.len(), 10);

    let gt = brute_force_knn_l2(&vectors, query, 10);
    let recall = recall_at_k(&results, &gt);
    assert!(
        recall >= 0.3,
        "PQ recall@10 too low: {recall} (expected >= 0.3)"
    );
}

#[test]
fn test_quantized_f16_basic() {

    let dim = 32;
    let vectors = random_vectors(200, dim, 43);
    let config = QuantizedConfig { rerank_size: 0 };
    let ann_params = DiskAnnParams {
        max_degree: 32,
        build_beam_width: 128,
        alpha: 1.2f32.to_bits(),
    };

    let index =
        QuantizedDiskANN::build_f16(&rows(&vectors), L2, ann_params, config)
            .unwrap();

    let query = &vectors[0];
    let results = index.find(query, 10, 64);
    assert_eq!(results.len(), 10);

    let gt = brute_force_knn_l2(&vectors, query, 10);
    let recall = recall_at_k(&results, &gt);
    assert!(
        recall >= 0.7,
        "F16 recall@10 too low: {recall} (expected >= 0.7)"
    );
}

#[test]
fn test_quantized_int8_basic() {

    let dim = 32;
    let vectors = random_vectors(200, dim, 44);
    let config = QuantizedConfig { rerank_size: 0 };
    let ann_params = DiskAnnParams {
        max_degree: 32,
        build_beam_width: 128,
        alpha: 1.2f32.to_bits(),
    };

    let index =
        QuantizedDiskANN::build_int8(&rows(&vectors), L2, ann_params, config)
            .unwrap();

    let query = &vectors[0];
    let results = index.find(query, 10, 64);
    assert_eq!(results.len(), 10);

    let gt = brute_force_knn_l2(&vectors, query, 10);
    let recall = recall_at_k(&results, &gt);
    assert!(
        recall >= 0.7,
        "Int8 recall@10 too low: {recall} (expected >= 0.7)"
    );
}

#[test]
fn test_reranking_improves_recall() {

    let dim = 32;
    let vectors = random_vectors(200, dim, 45);
    let pq_config = PQConfig {
        num_subspaces: 4,
        num_centroids: 64,
        kmeans_iterations: 10,
        training_sample_size: 0,
    };
    let ann_params = DiskAnnParams {
        max_degree: 32,
        build_beam_width: 128,
        alpha: 1.2f32.to_bits(),
    };

    let index_no_rr = QuantizedDiskANN::build_pq(&rows(&vectors),
        L2,
        ann_params,
        pq_config,
        QuantizedConfig { rerank_size: 0 },
    )
    .unwrap();

    let index_rr = QuantizedDiskANN::build_pq(&rows(&vectors),
        L2,
        ann_params,
        pq_config,
        QuantizedConfig { rerank_size: 50 },
    )
    .unwrap();

    // Average recall over several queries
    let num_queries = 20;
    let mut total_no_rr = 0.0f32;
    let mut total_rr = 0.0f32;

    for i in 0..num_queries {
        let query = &vectors[i];
        let gt = brute_force_knn_l2(&vectors, query, 10);
        let res_no_rr = index_no_rr.find(query, 10, 64);
        let res_rr = index_rr.find(query, 10, 64);
        total_no_rr += recall_at_k(&res_no_rr, &gt);
        total_rr += recall_at_k(&res_rr, &gt);
    }

    let avg_no_rr = total_no_rr / num_queries as f32;
    let avg_rr = total_rr / num_queries as f32;

    // Re-ranking should generally improve or at least match recall
    assert!(
        avg_rr >= avg_no_rr - 0.05,
        "Re-ranking should not significantly degrade recall: no_rr={avg_no_rr}, rr={avg_rr}"
    );
}

#[test]
fn test_to_bytes_from_bytes() {

    let dim = 32;
    let vectors = random_vectors(100, dim, 47);
    let ann_params = DiskAnnParams {
        max_degree: 32,
        build_beam_width: 64,
        alpha: 1.2f32.to_bits(),
    };
    let config = QuantizedConfig { rerank_size: 0 };

    let index =
        QuantizedDiskANN::build_int8(&rows(&vectors), L2, ann_params, config)
            .unwrap();

    let query = &vectors[0];
    let res_before = index.find(query, 5, 32);

    let bytes = index.to_bytes();
    let loaded = QuantizedDiskANN::from_bytes(&bytes, L2, config).unwrap();

    assert_eq!(loaded.num_vectors(), index.num_vectors());
    let res_after = loaded.find(query, 5, 32);
    assert_eq!(res_before, res_after);
}

#[test]
fn test_pq_distance_table_used() {

    let dim = 32;
    let vectors = random_vectors(100, dim, 48);
    let pq_config = PQConfig {
        num_subspaces: 4,
        num_centroids: 64,
        kmeans_iterations: 10,
        training_sample_size: 0,
    };
    let config = QuantizedConfig { rerank_size: 0 };
    let ann_params = DiskAnnParams {
        max_degree: 32,
        build_beam_width: 64,
        alpha: 1.2f32.to_bits(),
    };

    let index = QuantizedDiskANN::build_pq(&rows(&vectors),
        L2,
        ann_params,
        pq_config,
        config,
    )
    .unwrap();

    let query = &vectors[0];
    let results = index.find_with_dists(query, 10, 32);

    // All returned distances should be non-negative
    for (id, dist) in &results {
        assert!(*dist >= 0.0, "Negative distance for id {id}: {dist}");
        assert!(*dist < f32::MAX, "MAX distance for id {id}");
    }

    // Distances should be non-decreasing
    for pair in results.windows(2) {
        assert!(
            pair[0].1 <= pair[1].1 + 1e-6,
            "Distances not sorted: {} > {}",
            pair[0].1,
            pair[1].1
        );
    }
}

#[test]
fn test_quantized_search_with_dists() {

    let dim = 32;
    let vectors = random_vectors(100, dim, 49);
    let config = QuantizedConfig { rerank_size: 20 };
    let ann_params = DiskAnnParams {
        max_degree: 32,
        build_beam_width: 64,
        alpha: 1.2f32.to_bits(),
    };

    let index =
        QuantizedDiskANN::build_f16(&rows(&vectors), L2, ann_params, config)
            .unwrap();

    let query = &vectors[0];
    let results = index.find_with_dists(query, 5, 32);
    assert_eq!(results.len(), 5);

    // With reranking, distances should be exact L2 (the root of the sum of squares)
    for (id, dist) in &results {
        let v = plain(&index.get_vector(*id as usize));
        let exact: f32 = query
            .iter()
            .zip(&v)
            .map(|(a, b)| (a - b) * (a - b))
            .sum::<f32>()
            .sqrt();
        assert!(
            (dist - exact).abs() < 1e-4,
            "Distance mismatch for id {id}: returned {dist}, exact {exact}"
        );
    }

    // Distances should be non-decreasing
    for pair in results.windows(2) {
        assert!(pair[0].1 <= pair[1].1 + 1e-6);
    }
}

#[test]
fn test_filtered_search_basic() {

    // Create vectors with categories
    let vectors: Vec<Vec<f32>> = (0..100).map(|i| vec![i as f32, (i * 2) as f32]).collect();

    // Labels: [category] where category = i % 5
    let labels: Vec<Vec<u64>> = (0..100).map(|i| vec![i % 5]).collect();

    let index = FilteredDiskANN::build(&rows(&vectors), labels.clone(), L2).unwrap();

    // Search without filter
    let results = index.find(&[50.0, 100.0], 5, 32);
    assert_eq!(results.len(), 5);

    // Search with filter: only category 0
    let filter = Filter::label_eq(0, 0);
    let results = index.search_filtered(&words(&[50.0, 100.0]), 5, 32, &filter);

    // All results should be category 0
    for id in &results {
        assert_eq!(labels[*id as usize][0], 0);
    }
}

#[test]
fn test_filtered_search_selectivity() {

    // 1000 vectors, 10 categories
    let vectors: Vec<Vec<f32>> = (0..1000)
        .map(|i| vec![(i % 100) as f32, ((i / 100) * 10) as f32])
        .collect();

    let labels: Vec<Vec<u64>> = (0..1000)
        .map(|i| vec![i % 10]) // ~100 per category
        .collect();

    let index = FilteredDiskANN::build(&rows(&vectors), labels.clone(), L2).unwrap();

    // Verify count
    let filter = Filter::label_eq(0, 3);
    assert_eq!(index.count_matching(&filter), 100);

    // Search for category 3
    let results = index.search_filtered(&words(&[50.0, 50.0]), 10, 64, &filter);
    assert!(results.len() <= 10);

    for id in &results {
        assert_eq!(labels[*id as usize][0], 3);
    }
}

#[test]
fn test_filtered_to_bytes_from_bytes() {

    let vectors: Vec<Vec<f32>> = (0..50).map(|i| vec![i as f32, i as f32]).collect();
    let labels: Vec<Vec<u64>> = (0..50).map(|i| vec![i % 3]).collect();

    let index = FilteredDiskANN::build(&rows(&vectors), labels.clone(), L2).unwrap();
    let bytes = index.to_bytes();

    let index2 = FilteredDiskANN::from_bytes(&bytes, L2).unwrap();
    assert_eq!(index2.num_vectors(), 50);
    assert_eq!(index2.num_fields(), 1);

    let filter = Filter::label_eq(0, 1);
    let results = index2.search_filtered(&words(&[25.0, 25.0]), 5, 32, &filter);
    for id in &results {
        assert_eq!(index2.get_labels(*id as usize).unwrap()[0], 1);
    }
}

#[test]
fn test_incremental_basic() {

    // Build initial index
    let vectors = vec![
        vec![0.0, 0.0],
        vec![1.0, 0.0],
        vec![0.0, 1.0],
        vec![1.0, 1.0],
    ];

    let index = IncrementalDiskANN::build_default(&rows(&vectors), L2).unwrap();

    // Search should work
    let results = index.find(&[0.1, 0.1], 2, 8);
    assert_eq!(results.len(), 2);
}

#[test]
fn test_incremental_add() {

    let vectors = vec![vec![0.0, 0.0], vec![1.0, 0.0]];

    let mut index = IncrementalDiskANN::build_default(&rows(&vectors), L2).unwrap();

    // Add new vectors
    let new_vecs = vec![vec![0.5, 0.5], vec![2.0, 2.0]];
    let new_ids = index.add_vectors(&rows(&new_vecs)).unwrap();
    assert_eq!(new_ids.len(), 2);
    assert!(is_delta_id(new_ids[0]));

    // Search should find the new vector
    let results = index.find_with_dists(&[0.5, 0.5], 1, 8);
    assert!(!results.is_empty());

    // The closest should be the one we just added at [0.5, 0.5]
    let (_best_id, best_dist) = results[0];
    assert!(
        best_dist < 0.01,
        "Expected to find [0.5, 0.5], got dist {}",
        best_dist
    );
}

#[test]
fn test_incremental_delete() {

    let vectors = vec![
        vec![0.0, 0.0], // id 0
        vec![1.0, 0.0], // id 1
        vec![0.0, 1.0], // id 2
    ];

    let mut index = IncrementalDiskANN::build_default(&rows(&vectors), L2).unwrap();

    // Delete vector 0
    index.delete_vectors(&[0]).unwrap();
    assert!(index.is_deleted(0));

    // Search near [0,0] should not return id 0
    let results = index.find(&[0.0, 0.0], 3, 8);
    assert!(
        !results.contains(&0),
        "Deleted vector should not appear in results"
    );
}

#[test]
fn test_incremental_compact() {

    let vectors = vec![
        vec![0.0, 0.0],
        vec![1.0, 0.0],
        vec![0.0, 1.0],
        vec![1.0, 1.0],
    ];

    let mut index = IncrementalDiskANN::build_default(&rows(&vectors), L2).unwrap();

    // Add some vectors
    index
        .add_vectors(&rows(&[vec![2.0, 2.0], vec![3.0, 3.0]]))
        .unwrap();

    // Delete some
    index.delete_vectors(&[0, 1]).unwrap();

    let stats_before = index.stats();
    assert_eq!(stats_before.base_vectors, 4);
    assert_eq!(stats_before.delta_vectors, 2);
    assert_eq!(stats_before.tombstones, 2);

    // Compact
    index.compact().unwrap();

    let stats_after = index.stats();
    assert_eq!(stats_after.base_vectors, 4); // 4 base - 2 deleted + 2 delta = 4
    assert_eq!(stats_after.delta_vectors, 0);
    assert_eq!(stats_after.tombstones, 0);

    // Search should still work
    let results = index.find(&[2.0, 2.0], 1, 8);
    assert!(!results.is_empty());
}

#[test]
fn test_delta_only() {
    // Test index with no base, only delta
    let config = IncrementalConfig::default();
    let mut index = IncrementalDiskANN::new_empty(2, L2, config);

    // Add vectors
    let vecs = vec![
        vec![0.0, 0.0],
        vec![1.0, 0.0],
        vec![0.0, 1.0],
        vec![1.0, 1.0],
        vec![0.5, 0.5],
    ];
    index.add_vectors(&rows(&vecs)).unwrap();

    // Search
    let results = index.find_with_dists(&[0.5, 0.5], 3, 8);
    assert_eq!(results.len(), 3);

    // Closest should be [0.5, 0.5]
    let best_vec = plain(&index.get_vector(results[0].0).unwrap());
    let dist = euclid(&best_vec, &[0.5, 0.5]);
    assert!(dist < 0.01);
}

#[test]
fn test_incremental_to_bytes_from_bytes() {

    let vectors = vec![
        vec![0.0, 0.0],
        vec![1.0, 0.0],
        vec![0.0, 1.0],
        vec![1.0, 1.0],
    ];

    let mut index = IncrementalDiskANN::build_default(&rows(&vectors), L2).unwrap();

    // Add delta vectors
    index
        .add_vectors(&rows(&[vec![0.5, 0.5], vec![2.0, 2.0]]))
        .unwrap();

    // Delete one
    index.delete_vectors(&[0]).unwrap();

    let bytes = index.to_bytes();

    let index2 = IncrementalDiskANN::from_bytes(
        &bytes,
        L2,
        IncrementalConfig::default(),
    )
    .unwrap();

    let stats = index2.stats();
    assert_eq!(stats.base_vectors, 4);
    assert_eq!(stats.delta_vectors, 2);
    assert_eq!(stats.tombstones, 1);

    // Search should exclude tombstone and include delta
    let results = index2.find(&[0.5, 0.5], 3, 8);
    assert!(!results.contains(&0), "Deleted vector should not appear");
}

#[test]
fn incremental_test_incremental_backward_compat_bytes() {

    let vectors = vec![vec![0.0, 0.0], vec![1.0, 0.0], vec![0.0, 1.0]];

    // Build old-format bytes manually: [has_base:u8][base_len:u64][base_bytes][dim:u64]...
    let base = DiskANN::build_index_default(&rows(&vectors), L2).unwrap();
    let base_bytes = base.to_bytes();
    let mut old_bytes = Vec::new();
    old_bytes.push(1u8); // has_base
    old_bytes.extend_from_slice(&(base_bytes.len() as u64).to_le_bytes());
    old_bytes.extend_from_slice(&base_bytes);
    old_bytes.extend_from_slice(&(2u64).to_le_bytes()); // dim
    old_bytes.extend_from_slice(&0u64.to_le_bytes()); // num_delta = 0
    old_bytes.extend_from_slice(&0u64.to_le_bytes()); // num_graph = 0
    old_bytes.extend_from_slice(&(-1i64).to_le_bytes()); // entry_point = None
    old_bytes.extend_from_slice(&(32u64).to_le_bytes()); // max_degree
    old_bytes.extend_from_slice(&0u64.to_le_bytes()); // num_tombstones = 0

    let loaded = IncrementalDiskANN::from_bytes(
        &old_bytes,
        L2,
        IncrementalConfig::default(),
    )
    .unwrap();

    assert_eq!(loaded.stats().base_vectors, 3);
    assert_eq!(loaded.stats().delta_vectors, 0);
    assert!(!loaded.has_labels());
    assert!(!loaded.has_quantizer());

    let results = loaded.find(&[0.0, 0.0], 2, 8);
    assert_eq!(results.len(), 2);
}

#[test]
fn test_search_invariants_base_index() {

    let vectors = random_vectors(200, 32, 100);
    let index =
        DiskANN::build_index_with_params(&rows(&vectors), L2, default_ann_params())
            .unwrap();

    for k in [1, 5, 10, 50] {
        let query = &vectors[0];
        let results = index.find_with_dists(query, k, 64);
        assert_search_invariants(&results, k, 200);
    }
}

#[test]
fn test_search_invariants_quantized_pq() {

    let vectors = random_vectors(200, 32, 101);
    let pq_config = PQConfig {
        num_subspaces: 4,
        num_centroids: 64,
        kmeans_iterations: 10,
        training_sample_size: 0,
    };
    let index = QuantizedDiskANN::build_pq(&rows(&vectors),
        L2,
        default_ann_params(),
        pq_config,
        QuantizedConfig { rerank_size: 0 },
    )
    .unwrap();

    for k in [1, 5, 10, 50] {
        let results = index.find_with_dists(&vectors[0], k, 64);
        assert_search_invariants(&results, k, 200);
    }
}

#[test]
fn test_search_invariants_quantized_f16() {

    let vectors = random_vectors(200, 32, 102);
    let index = QuantizedDiskANN::build_f16(&rows(&vectors),
        L2,
        default_ann_params(),
        QuantizedConfig { rerank_size: 0 },
    )
    .unwrap();

    for k in [1, 5, 10, 50] {
        let results = index.find_with_dists(&vectors[0], k, 64);
        assert_search_invariants(&results, k, 200);
    }
}

#[test]
fn test_search_invariants_quantized_int8() {

    let vectors = random_vectors(200, 32, 103);
    let index = QuantizedDiskANN::build_int8(&rows(&vectors),
        L2,
        default_ann_params(),
        QuantizedConfig { rerank_size: 0 },
    )
    .unwrap();

    for k in [1, 5, 10, 50] {
        let results = index.find_with_dists(&vectors[0], k, 64);
        assert_search_invariants(&results, k, 200);
    }
}

#[test]
fn test_search_invariants_quantized_reranked() {

    let vectors = random_vectors(200, 32, 104);
    let pq_config = PQConfig {
        num_subspaces: 4,
        num_centroids: 64,
        kmeans_iterations: 10,
        training_sample_size: 0,
    };
    let index = QuantizedDiskANN::build_pq(&rows(&vectors),
        L2,
        default_ann_params(),
        pq_config,
        QuantizedConfig { rerank_size: 50 },
    )
    .unwrap();

    for k in [1, 5, 10] {
        let results = index.find_with_dists(&vectors[0], k, 64);
        assert_search_invariants(&results, k, 200);
    }
}

#[test]
fn test_search_invariants_filtered() {

    let vectors = random_vectors(200, 32, 105);
    let labels: Vec<Vec<u64>> = (0..200).map(|i| vec![i as u64 % 5]).collect();
    let index = FilteredDiskANN::build(&rows(&vectors), labels.clone(), L2).unwrap();

    let query = &vectors[0];
    let results = index.search_filtered(&words(query), 10, 64, &Filter::NoFilter);
    assert_eq!(results.len(), 10);
    let ids: HashSet<u32> = results.iter().copied().collect();
    assert_eq!(
        ids.len(),
        results.len(),
        "Duplicate IDs in filtered results"
    );
}

#[test]
fn test_search_invariants_incremental() {

    let vectors = random_vectors(100, 32, 106);
    let index = IncrementalDiskANN::build_default(&rows(&vectors), L2).unwrap();

    let query = &vectors[0];
    let results = index.find_with_dists(query, 10, 64);
    assert_eq!(results.len(), 10);

    // No duplicates
    let ids: HashSet<u64> = results.iter().map(|(id, _)| *id).collect();
    assert_eq!(ids.len(), results.len());

    // Sorted
    for pair in results.windows(2) {
        assert!(pair[0].1 <= pair[1].1 + 1e-6);
    }
}

#[test]
fn test_single_vector_index() {

    let vectors = vec![vec![1.0, 2.0, 3.0]];
    let index =
        DiskANN::build_index_with_params(&rows(&vectors), L2, default_ann_params())
            .unwrap();

    assert_eq!(index.num_vectors, 1);
    assert_eq!(index.dim, 3);

    // Search for 1 neighbor — should return the only vector
    let results = index.find(&[1.0, 2.0, 3.0], 1, 8);
    assert_eq!(results.len(), 1);
    assert_eq!(results[0], 0);

    // Search for k > n — should return only 1 result
    let results = index.find(&[0.0, 0.0, 0.0], 10, 8);
    assert_eq!(results.len(), 1);
}

#[test]
fn test_two_vector_index() {

    let vectors = vec![vec![0.0, 0.0], vec![10.0, 10.0]];
    let index =
        DiskANN::build_index_with_params(&rows(&vectors), L2, default_ann_params())
            .unwrap();

    // Query close to first vector
    let results = index.find(&[0.1, 0.1], 2, 8);
    assert_eq!(results.len(), 2);
    assert_eq!(results[0], 0);
    assert_eq!(results[1], 1);

    // Query close to second vector
    let results = index.find(&[9.9, 9.9], 2, 8);
    assert_eq!(results.len(), 2);
    assert_eq!(results[0], 1);
    assert_eq!(results[1], 0);
}

#[test]
fn test_k_greater_than_num_vectors() {

    let vectors = random_vectors(5, 16, 200);
    let index =
        DiskANN::build_index_with_params(&rows(&vectors), L2, default_ann_params())
            .unwrap();

    let results = index.find_with_dists(&vectors[0], 100, 64);
    assert_eq!(results.len(), 5, "Should return all 5 vectors when k=100");
    assert_search_invariants(&results, 100, 5);
}

#[test]
fn test_beam_width_one() {

    let vectors = random_vectors(50, 16, 201);
    let index =
        DiskANN::build_index_with_params(&rows(&vectors), L2, default_ann_params())
            .unwrap();

    // beam_width=1 is a degenerate case — should still return valid results
    let results = index.find_with_dists(&vectors[0], 1, 1);
    assert_eq!(results.len(), 1);
    assert!(results[0].1 >= 0.0);
}

#[test]
fn test_identical_vectors() {

    // All vectors are the same
    let vectors = vec![vec![1.0f32, 2.0, 3.0]; 10];
    let index =
        DiskANN::build_index_with_params(&rows(&vectors), L2, default_ann_params())
            .unwrap();

    let results = index.find_with_dists(&[1.0, 2.0, 3.0], 5, 8);
    assert_eq!(results.len(), 5);
    // All distances should be 0
    for (_, dist) in &results {
        assert!(
            *dist < 1e-6,
            "Distance to identical vector should be ~0, got {}",
            dist
        );
    }
}

#[test]
fn test_empty_vectors_rejected() {

    let vectors: Vec<Vec<f32>> = vec![];
    let result = DiskANN::build_index_default(&rows(&vectors), L2);
    assert!(result.is_err(), "Empty vectors should be rejected");
}

#[test]
fn test_dimension_mismatch_rejected() {

    let vectors = vec![vec![1.0, 2.0], vec![1.0, 2.0, 3.0]];
    let result = DiskANN::build_index_default(&rows(&vectors), L2);
    assert!(result.is_err(), "Mismatched dimensions should be rejected");
}

#[test]
fn test_quantized_single_vector() {

    let vectors = vec![vec![1.0f32; 32]];
    let index = QuantizedDiskANN::build_f16(&rows(&vectors),
        L2,
        default_ann_params(),
        QuantizedConfig { rerank_size: 0 },
    )
    .unwrap();

    let results = index.find(&[1.0f32; 32], 5, 8);
    assert_eq!(results.len(), 1);
    assert_eq!(results[0], 0);
}

#[test]
fn test_quantized_k_greater_than_n() {

    let vectors = random_vectors(5, 32, 202);
    let index = QuantizedDiskANN::build_int8(&rows(&vectors),
        L2,
        default_ann_params(),
        QuantizedConfig { rerank_size: 0 },
    )
    .unwrap();

    let results = index.find_with_dists(&vectors[0], 100, 64);
    assert_eq!(results.len(), 5);
    assert_search_invariants(&results, 100, 5);
}

#[test]
fn test_graph_connectivity_from_medoid() {

    let vectors = random_vectors(500, 16, 400);
    let index = DiskANN::build_index_with_params(&rows(&vectors),
        L2,
        DiskAnnParams {
            max_degree: 16,
            build_beam_width: 64,
            alpha: 1.2f32.to_bits(),
        },
    )
    .unwrap();

    // Check that search can find every vector when queried with itself
    let found_count = (0..500)
        .filter(|&i| {
            let q = &vectors[i];
            let results = index.find(q, 1, 64);
            results.contains(&(i as u32))
        })
        .count();

    let reachability = found_count as f32 / 500.0;
    assert!(
        reachability > 0.95,
        "Reachability from medoid should be > 95%, got {:.1}% ({}/500)",
        reachability * 100.0,
        found_count
    );
}

#[test]
fn test_graph_connectivity_small() {

    // Small graph — every node should be findable
    let vectors = random_vectors(20, 8, 401);
    let index = DiskANN::build_index_with_params(&rows(&vectors),
        L2,
        DiskAnnParams {
            max_degree: 8,
            build_beam_width: 32,
            alpha: 1.5f32.to_bits(),
        },
    )
    .unwrap();

    // With high beam width, we should find every single vector
    for i in 0..20 {
        let q = &vectors[i];
        let results = index.find(q, 5, 32);
        assert!(
            results.contains(&(i as u32)),
            "Vector {} not found in its own search (results: {:?})",
            i,
            results
        );
    }
}

#[test]
fn test_corrupted_bytes_too_small() {
    let result = DiskANN::from_bytes(vec![0u8; 3], L2);
    assert!(result.is_err(), "3 bytes should be too small for metadata");
}

#[test]
fn test_quantized_from_bytes_too_small() {
    let result =
        QuantizedDiskANN::from_bytes(&[0u8; 5], L2, QuantizedConfig::default());
    assert!(result.is_err(), "5 bytes should be too small");
}

#[test]
fn test_recall_regression_l2_1000v() {

    let dim = 64;
    let n = 1000;
    let vectors = random_vectors(n, dim, 600);
    let index = DiskANN::build_index_with_params(&rows(&vectors),
        L2,
        DiskAnnParams {
            max_degree: 32,
            build_beam_width: 128,
            alpha: 1.2f32.to_bits(),
        },
    )
    .unwrap();

    // Test recall over 50 queries
    let queries = random_vectors(50, dim, 601);
    let mut total_recall = 0.0f32;
    for query in &queries {
        let results = index.find(query, 10, 64);
        let gt = brute_force_knn_l2(&vectors, query, 10);
        total_recall += recall_at_k(&results, &gt);
    }
    let avg_recall = total_recall / 50.0;
    assert!(
        avg_recall >= 0.85,
        "L2 recall@10 on 1000 vectors should be >= 85%, got {:.1}%",
        avg_recall * 100.0
    );
}

#[test]
fn test_recall_regression_cosine_1000v() {

    let dim = 64;
    let n = 1000;
    let vectors = random_vectors(n, dim, 602);
    let index = DiskANN::build_index_with_params(&rows(&vectors),
        Metric::Cosine,
        DiskAnnParams {
            max_degree: 32,
            build_beam_width: 128,
            alpha: 1.2f32.to_bits(),
        },
    )
    .unwrap();

    // For cosine, the search should still return reasonable results
    let queries = random_vectors(50, dim, 603);
    let mut all_found = true;
    for query in &queries {
        let results = index.find(query, 10, 64);
        if results.len() != 10 {
            all_found = false;
        }
    }
    assert!(all_found, "All queries should return exactly 10 results");
}

#[test]
fn test_recall_quantized_f16_vs_exact() {

    let dim = 64;
    let vectors = random_vectors(500, dim, 604);
    let ann_params = default_ann_params();

    let exact_index =
        DiskANN::build_index_with_params(&rows(&vectors), L2, ann_params)
            .unwrap();

    let quant_index = QuantizedDiskANN::build_f16(&rows(&vectors),
        L2,
        ann_params,
        QuantizedConfig { rerank_size: 0 },
    )
    .unwrap();

    // F16 quantized search should have recall very close to exact graph search
    let queries = random_vectors(30, dim, 605);
    let mut agreement = 0.0f32;
    for query in &queries {
        let exact_res = exact_index.find(query, 10, 64);
        let quant_res = quant_index.find(query, 10, 64);
        let exact_set: HashSet<u32> = exact_res.iter().copied().collect();
        let quant_set: HashSet<u32> = quant_res.iter().copied().collect();
        agreement += exact_set.intersection(&quant_set).count() as f32 / 10.0;
    }
    let avg_agreement = agreement / 30.0;
    assert!(
        avg_agreement >= 0.80,
        "F16 quantized vs exact agreement should be >= 80%, got {:.1}%",
        avg_agreement * 100.0
    );
}

#[test]
fn test_recall_quantized_int8_vs_exact() {

    let dim = 64;
    let vectors = random_vectors(500, dim, 606);
    let ann_params = default_ann_params();

    let exact_index =
        DiskANN::build_index_with_params(&rows(&vectors), L2, ann_params)
            .unwrap();

    let quant_index = QuantizedDiskANN::build_int8(&rows(&vectors),
        L2,
        ann_params,
        QuantizedConfig { rerank_size: 0 },
    )
    .unwrap();

    let queries = random_vectors(30, dim, 607);
    let mut agreement = 0.0f32;
    for query in &queries {
        let exact_res = exact_index.find(query, 10, 64);
        let quant_res = quant_index.find(query, 10, 64);
        let exact_set: HashSet<u32> = exact_res.iter().copied().collect();
        let quant_set: HashSet<u32> = quant_res.iter().copied().collect();
        agreement += exact_set.intersection(&quant_set).count() as f32 / 10.0;
    }
    let avg_agreement = agreement / 30.0;
    assert!(
        avg_agreement >= 0.75,
        "Int8 quantized vs exact agreement should be >= 75%, got {:.1}%",
        avg_agreement * 100.0
    );
}

#[test]
fn test_recall_reranking_strictly_helps() {

    let dim = 64;
    let vectors = random_vectors(500, dim, 608);
    let pq_config = PQConfig {
        num_subspaces: 8,
        num_centroids: 256,
        kmeans_iterations: 15,
        training_sample_size: 0,
    };
    let ann_params = default_ann_params();

    let index_no = QuantizedDiskANN::build_pq(&rows(&vectors),
        L2,
        ann_params,
        pq_config,
        QuantizedConfig { rerank_size: 0 },
    )
    .unwrap();

    let index_yes = QuantizedDiskANN::build_pq(&rows(&vectors),
        L2,
        ann_params,
        pq_config,
        QuantizedConfig { rerank_size: 100 },
    )
    .unwrap();

    let queries = random_vectors(30, dim, 609);
    let mut total_no = 0.0f32;
    let mut total_yes = 0.0f32;
    for query in &queries {
        let gt = brute_force_knn_l2(&vectors, query, 10);
        total_no += recall_at_k(&index_no.find(query, 10, 64), &gt);
        total_yes += recall_at_k(&index_yes.find(query, 10, 64), &gt);
    }
    let avg_no = total_no / 30.0;
    let avg_yes = total_yes / 30.0;
    assert!(
        avg_yes >= avg_no,
        "Reranking should improve recall: without={:.1}%, with={:.1}%",
        avg_no * 100.0,
        avg_yes * 100.0
    );
}

#[test]
fn test_filtered_no_matches() {

    let vectors = random_vectors(100, 16, 700);
    let labels: Vec<Vec<u64>> = (0..100).map(|_| vec![0]).collect();
    let index = FilteredDiskANN::build(&rows(&vectors), labels.clone(), L2).unwrap();

    // Filter for label == 999 — no matches
    let results = index.search_filtered(&words(&vectors[0]), 10, 64, &Filter::label_eq(0, 999));
    assert_eq!(results.len(), 0, "No vectors match label 999");
}

#[test]
fn test_filtered_all_match() {

    let vectors = random_vectors(100, 16, 701);
    let labels: Vec<Vec<u64>> = (0..100).map(|_| vec![1]).collect();
    let index = FilteredDiskANN::build(&rows(&vectors), labels.clone(), L2).unwrap();

    // Filter for label == 1 — all match, should behave like unfiltered
    let filtered = index.search_filtered(&words(&vectors[0]), 10, 64, &Filter::label_eq(0, 1));
    let unfiltered = index.search_filtered(&words(&vectors[0]), 10, 64, &Filter::NoFilter);

    assert_eq!(filtered.len(), 10);
    assert_eq!(unfiltered.len(), 10);

    // Results should overlap significantly
    let f_set: HashSet<u32> = filtered.iter().copied().collect();
    let u_set: HashSet<u32> = unfiltered.iter().copied().collect();
    let overlap = f_set.intersection(&u_set).count();
    assert!(
        overlap >= 7,
        "All-match filter should approximate unfiltered: overlap {}/10",
        overlap
    );
}

#[test]
fn test_incremental_delete_all() {

    let vectors = random_vectors(20, 16, 800);
    let mut index = IncrementalDiskANN::build_default(&rows(&vectors), L2).unwrap();

    // Delete all base vectors
    let ids: Vec<u64> = (0..20).collect();
    index.delete_vectors(&ids).unwrap();

    let results = index.find(&vectors[0], 10, 32);
    assert_eq!(results.len(), 0, "All deleted — should return empty");
}

#[test]
fn test_incremental_add_then_search() {

    let vectors = random_vectors(50, 16, 801);
    let mut index = IncrementalDiskANN::build_default(&rows(&vectors[..20]), L2).unwrap();

    // Add more vectors
    let new_ids = index.add_vectors(&rows(&vectors[20..30])).unwrap();
    assert_eq!(new_ids.len(), 10);

    let stats = index.stats();
    assert_eq!(stats.base_vectors, 20);
    assert_eq!(stats.delta_vectors, 10);
    assert_eq!(stats.total_live, 30);

    // Search should find results from both base and delta
    let results = index.find(&vectors[25], 5, 32);
    assert!(!results.is_empty());
}

#[test]
fn test_incremental_delete_idempotent() {

    let vectors = random_vectors(20, 16, 802);
    let mut index = IncrementalDiskANN::build_default(&rows(&vectors), L2).unwrap();

    // Delete same ID twice — should not panic or error
    index.delete_vectors(&[0]).unwrap();
    index.delete_vectors(&[0]).unwrap();

    assert!(index.is_deleted(0));
    assert_eq!(index.stats().tombstones, 1);
}

#[test]
fn test_quantized_batch_search_matches_individual() {

    let vectors = random_vectors(200, 32, 900);
    let index = QuantizedDiskANN::build_f16(&rows(&vectors),
        L2,
        default_ann_params(),
        QuantizedConfig { rerank_size: 0 },
    )
    .unwrap();

    let queries: Vec<Vec<f32>> = vectors[0..10].to_vec();
    let batch_results = index.search_batch(&rows(&queries), 10, 64);

    for (i, query) in queries.iter().enumerate() {
        let single_results = index.find(query, 10, 64);
        assert_eq!(
            batch_results[i], single_results,
            "Batch result {} differs from single search",
            i
        );
    }
}

#[test]
fn test_to_bytes_from_bytes_preserves_all_quantizers() {
    for (label, seed) in [("pq", 910u64), ("f16", 911), ("int8", 912)] {

        let vectors = random_vectors(100, 32, seed);
        let config = QuantizedConfig { rerank_size: 0 };
        let ann_params = default_ann_params();

        let index: QuantizedDiskANN<Metric> = match label {
            "pq" => {
                let pq_config = PQConfig {
                    num_subspaces: 4,
                    num_centroids: 64,
                    kmeans_iterations: 10,
                    training_sample_size: 0,
                };
                QuantizedDiskANN::build_pq(&rows(&vectors),
                    L2,
                    ann_params,
                    pq_config,
                    config,
                )
                .unwrap()
            }
            "f16" => {
                QuantizedDiskANN::build_f16(&rows(&vectors), L2, ann_params, config).unwrap()
            }
            "int8" => QuantizedDiskANN::build_int8(&rows(&vectors), L2, ann_params, config)
                .unwrap(),
            _ => unreachable!(),
        };

        let query = &vectors[0];
        let res_before = index.find(query, 5, 32);

        let bytes = index.to_bytes();
        let loaded = QuantizedDiskANN::from_bytes(&bytes, L2, config).unwrap();
        let res_after = loaded.find(query, 5, 32);

        assert_eq!(
            res_before, res_after,
            "to_bytes/from_bytes round-trip failed for {}",
            label
        );
    }
}

#[test]
fn test_beam_search_matches_brute_force() {

    let dim = 32;
    let n = 500;
    let vectors = random_vectors(n, dim, 1100);

    let index = DiskANN::build_index_with_params(&rows(&vectors),
        L2,
        DiskAnnParams {
            max_degree: 32,
            build_beam_width: 128,
            alpha: 1.2f32.to_bits(),
        },
    )
    .unwrap();

    // Test with multiple queries using high beam width for best recall
    let queries = random_vectors(20, dim, 1101);
    let mut total_recall = 0.0f32;

    for query in &queries {
        let beam_results = index.find(query, 10, 128);
        let brute_results = brute_force_knn_l2(&vectors, query, 10);
        total_recall += recall_at_k(&beam_results, &brute_results);
    }

    let avg_recall = total_recall / 20.0;
    assert!(
        avg_recall >= 0.90,
        "Beam search recall@10 vs brute force should be >= 90%, got {:.1}%",
        avg_recall * 100.0
    );
}

#[test]
fn test_quantized_filtered_search_basic() {

    let dim = 32;
    let n = 200;
    let vectors = random_vectors(n, dim, 1300);

    // Labels: category = i % 5
    let labels: Vec<Vec<u64>> = (0..n).map(|i| vec![i as u64 % 5]).collect();

    let index = QuantizedDiskANN::build_f16(&rows(&vectors),
        L2,
        default_ann_params(),
        QuantizedConfig { rerank_size: 0 },
    )
    .unwrap();

    // Search for category 2
    let filter = Filter::label_eq(0, 2);
    let results = index.search_filtered(&words(&vectors[0]), 10, 64, &labels, &filter);

    // All results should be category 2
    for &id in &results {
        assert_eq!(
            labels[id as usize][0], 2,
            "Expected category 2 for id {}, got {}",
            id, labels[id as usize][0]
        );
    }

    // Should find at least some results
    assert!(
        !results.is_empty(),
        "Should find at least one matching result"
    );
}

#[test]
fn test_quantized_filtered_search_with_reranking() {

    let dim = 32;
    let n = 200;
    let vectors = random_vectors(n, dim, 1301);
    let labels: Vec<Vec<u64>> = (0..n).map(|i| vec![i as u64 % 3]).collect();

    let index = QuantizedDiskANN::build_f16(&rows(&vectors),
        L2,
        default_ann_params(),
        QuantizedConfig { rerank_size: 50 },
    )
    .unwrap();

    let filter = Filter::label_eq(0, 1);
    let results = pairs(&index.search_filtered_with_dists(&words(&vectors[0]), 10, 64, &labels, &filter));

    // All results should be category 1
    for &(id, _) in &results {
        assert_eq!(labels[id as usize][0], 1);
    }

    // With reranking, distances should be exact
    for &(id, dist) in &results {
        let v = plain(&index.get_vector(id as usize));
        let exact: f32 = vectors[0]
            .iter()
            .zip(&v)
            .map(|(a, b)| (a - b) * (a - b))
            .sum::<f32>()
            .sqrt();
        assert!(
            (dist - exact).abs() < 1e-4,
            "Distance mismatch for id {}: returned {}, exact {}",
            id,
            dist,
            exact
        );
    }

    // Distances should be non-decreasing
    for pair in results.windows(2) {
        assert!(pair[0].1 <= pair[1].1 + 1e-6);
    }
}

#[test]
fn test_quantized_filtered_no_matches() {

    let dim = 32;
    let n = 100;
    let vectors = random_vectors(n, dim, 1302);
    let labels: Vec<Vec<u64>> = (0..n).map(|_| vec![0]).collect();

    let index = QuantizedDiskANN::build_f16(&rows(&vectors),
        L2,
        default_ann_params(),
        QuantizedConfig { rerank_size: 0 },
    )
    .unwrap();

    // Filter for non-existent label
    let results = index.search_filtered(&words(&vectors[0]), 10, 64, &labels, &Filter::label_eq(0, 999));
    assert_eq!(results.len(), 0, "No vectors match label 999");
}

#[test]
fn test_quantized_filtered_none_filter() {

    let dim = 32;
    let n = 100;
    let vectors = random_vectors(n, dim, 1303);
    let labels: Vec<Vec<u64>> = (0..n).map(|i| vec![i as u64 % 5]).collect();

    let index = QuantizedDiskANN::build_f16(&rows(&vectors),
        L2,
        default_ann_params(),
        QuantizedConfig { rerank_size: 0 },
    )
    .unwrap();

    // Filter::NoFilter should behave like unfiltered search
    let filtered = index.search_filtered(&words(&vectors[0]), 10, 64, &labels, &Filter::NoFilter);
    let unfiltered = index.find(&vectors[0], 10, 64);
    assert_eq!(filtered, unfiltered);
}

#[test]
fn test_incremental_filtered_basic() {

    let vectors = random_vectors(100, 32, 1400);
    let labels: Vec<Vec<u64>> = (0..100).map(|i| vec![i as u64 % 5]).collect();

    let index = IncrementalDiskANN::build_with_labels(&rows(&vectors),
        labels.clone(), L2,
        IncrementalConfig::default(),
    )
    .unwrap();

    assert!(index.has_labels());

    // Search with filter: only category 2
    let filter = Filter::label_eq(0, 2);
    let results = index.search_filtered(&words(&vectors[0]), 10, 64, &filter);

    // All results should be category 2
    for &id in &results {
        let idx = id as usize;
        assert_eq!(labels[idx][0], 2, "Expected category 2 for id {}", id);
    }

    assert!(!results.is_empty(), "Should find at least one result");
}

#[test]
fn test_incremental_filtered_add_with_labels() {

    let vectors = random_vectors(50, 32, 1401);
    let labels: Vec<Vec<u64>> = (0..50).map(|i| vec![i as u64 % 3]).collect();

    let mut index = IncrementalDiskANN::build_with_labels(&rows(&vectors),
        labels.clone(), L2,
        IncrementalConfig::default(),
    )
    .unwrap();

    // Add vectors with label category 9 (unique, easy to test)
    let new_vecs = random_vectors(10, 32, 1402);
    let new_labels: Vec<Vec<u64>> = (0..10).map(|_| vec![9]).collect();
    let new_ids = index
        .add_vectors_with_labels(&rows(&new_vecs), new_labels)
        .unwrap();
    assert_eq!(new_ids.len(), 10);

    // Search for category 9 — should find the delta vectors
    let filter = Filter::label_eq(0, 9);
    let results = index.search_filtered(&words(&new_vecs[0]), 5, 64, &filter);
    assert!(!results.is_empty(), "Should find added labeled vectors");
}

#[test]
fn test_incremental_filtered_delete() {

    let vectors = random_vectors(50, 32, 1403);
    let labels: Vec<Vec<u64>> = (0..50).map(|_| vec![1]).collect(); // all category 1

    let mut index = IncrementalDiskANN::build_with_labels(&rows(&vectors),
        labels.clone(), L2,
        IncrementalConfig::default(),
    )
    .unwrap();

    // Delete some vectors
    index.delete_vectors(&[0, 1, 2]).unwrap();

    // Filtered search should exclude tombstoned vectors
    let filter = Filter::label_eq(0, 1);
    let results = index.search_filtered(&words(&vectors[5]), 10, 64, &filter);

    let result_set: HashSet<u64> = results.iter().copied().collect();
    assert!(!result_set.contains(&0), "Deleted id 0 should not appear");
    assert!(!result_set.contains(&1), "Deleted id 1 should not appear");
    assert!(!result_set.contains(&2), "Deleted id 2 should not appear");
}

#[test]
fn test_incremental_filtered_compact() {

    let vectors = random_vectors(50, 32, 1404);
    let labels: Vec<Vec<u64>> = (0..50).map(|i| vec![i as u64 % 3]).collect();

    let mut index = IncrementalDiskANN::build_with_labels(&rows(&vectors),
        labels.clone(), L2,
        IncrementalConfig::default(),
    )
    .unwrap();

    // Add some labeled vectors
    let new_vecs = random_vectors(10, 32, 1405);
    let new_labels: Vec<Vec<u64>> = (0..10).map(|_| vec![7]).collect();
    index
        .add_vectors_with_labels(&rows(&new_vecs), new_labels)
        .unwrap();

    // Delete some base vectors
    index.delete_vectors(&[0, 1]).unwrap();

    // Compact
    index.compact().unwrap();

    assert!(index.has_labels());
    let stats = index.stats();
    assert_eq!(stats.tombstones, 0);
    assert_eq!(stats.delta_vectors, 0);

    // Labels should survive compaction — search for category 7
    let filter = Filter::label_eq(0, 7);
    let results = index.search_filtered(&words(&new_vecs[0]), 5, 64, &filter);
    assert!(
        !results.is_empty(),
        "Category 7 vectors should survive compaction"
    );
}

#[test]
fn test_incremental_quantized_f16() {

    let vectors = random_vectors(100, 32, 1500);

    let index = IncrementalDiskANN::build_quantized_f16(&rows(&vectors), L2,
        IncrementalConfig::default(),
        IncrementalQuantizedConfig { rerank_size: 0 },
    )
    .unwrap();

    assert!(index.has_quantizer());

    let results = index.find(&vectors[0], 10, 64);
    assert_eq!(results.len(), 10);

    // Should have reasonable results (close to query vector)
    let best = plain(&index.get_vector(results[0]).unwrap());
    let dist: f32 = vectors[0]
        .iter()
        .zip(&best)
        .map(|(a, b)| (a - b) * (a - b))
        .sum::<f32>()
        .sqrt();
    assert!(dist < 2.0, "Best result too far: {}", dist);
}

#[test]
fn test_incremental_quantized_pq() {

    let vectors = random_vectors(200, 32, 1501);
    let pq_config = PQConfig {
        num_subspaces: 4,
        num_centroids: 64,
        kmeans_iterations: 10,
        training_sample_size: 0,
    };

    let index = IncrementalDiskANN::build_quantized_pq(&rows(&vectors), L2,
        IncrementalConfig::default(),
        pq_config,
        IncrementalQuantizedConfig { rerank_size: 0 },
    )
    .unwrap();

    let results = index.find(&vectors[0], 10, 64);
    assert_eq!(results.len(), 10);
}

#[test]
fn test_incremental_quantized_add() {

    let vectors = random_vectors(50, 32, 1502);

    let mut index = IncrementalDiskANN::build_quantized_f16(&rows(&vectors), L2,
        IncrementalConfig::default(),
        IncrementalQuantizedConfig { rerank_size: 0 },
    )
    .unwrap();

    // Add more vectors
    let new_vecs = random_vectors(10, 32, 1503);
    index.add_vectors(&rows(&new_vecs)).unwrap();

    let stats = index.stats();
    assert_eq!(stats.base_vectors, 50);
    assert_eq!(stats.delta_vectors, 10);

    // Search should work and find results from both base and delta
    let results = index.find(&new_vecs[0], 5, 64);
    assert!(!results.is_empty());
}

#[test]
fn test_incremental_quantized_compact() {

    let vectors = random_vectors(50, 32, 1504);

    let mut index = IncrementalDiskANN::build_quantized_f16(&rows(&vectors), L2,
        IncrementalConfig::default(),
        IncrementalQuantizedConfig { rerank_size: 0 },
    )
    .unwrap();

    // Add and delete
    index.add_vectors(&rows(&random_vectors(10, 32, 1505))).unwrap();
    index.delete_vectors(&[0, 1]).unwrap();

    // Compact
    index.compact().unwrap();

    assert!(index.has_quantizer());
    let stats = index.stats();
    assert_eq!(stats.tombstones, 0);
    assert_eq!(stats.delta_vectors, 0);

    // Search should still work
    let results = index.find(&vectors[5], 5, 64);
    assert!(!results.is_empty());
}

#[test]
fn test_incremental_full_combo() {

    let dim = 32;
    let n = 100;
    let vectors = random_vectors(n, dim, 1600);
    let labels: Vec<Vec<u64>> = (0..n).map(|i| vec![i as u64 % 5]).collect();
    let pq_config = PQConfig {
        num_subspaces: 4,
        num_centroids: 64,
        kmeans_iterations: 10,
        training_sample_size: 0,
    };

    let mut index = IncrementalDiskANN::build_full(&rows(&vectors),
        labels.clone(), L2,
        IncrementalConfig::default(),
        QuantizerKind::PQ(pq_config),
        IncrementalQuantizedConfig { rerank_size: 0 },
    )
    .unwrap();

    assert!(index.has_labels());
    assert!(index.has_quantizer());

    // Add labeled vectors
    let new_vecs = random_vectors(10, dim, 1601);
    let new_labels: Vec<Vec<u64>> = (0..10).map(|_| vec![8]).collect();
    index
        .add_vectors_with_labels(&rows(&new_vecs), new_labels)
        .unwrap();

    // Delete some base vectors
    index.delete_vectors(&[0, 1, 2]).unwrap();

    // Unfiltered search
    let results = index.find(&vectors[5], 10, 64);
    let result_set: HashSet<u64> = results.iter().copied().collect();
    assert!(!result_set.contains(&0));
    assert!(!result_set.contains(&1));
    assert!(!result_set.contains(&2));

    // Filtered search: category 8 (delta only)
    let filter = Filter::label_eq(0, 8);
    let filtered_results = index.search_filtered(&words(&new_vecs[0]), 5, 64, &filter);
    assert!(
        !filtered_results.is_empty(),
        "Should find category 8 delta vectors"
    );

    // Filtered search: category 3 (base only)
    let filter3 = Filter::label_eq(0, 3);
    let filtered_base = index.search_filtered(&words(&vectors[3]), 5, 64, &filter3);
    for &id in &filtered_base {
        // id should be a base vector with label category 3
        let idx = id as usize;
        assert_eq!(labels[idx][0], 3);
    }
}

#[test]
fn test_incremental_filtered_bytes_roundtrip() {

    let vectors = random_vectors(50, 32, 1700);
    let labels: Vec<Vec<u64>> = (0..50).map(|i| vec![i as u64 % 3]).collect();

    let mut index = IncrementalDiskANN::build_with_labels(&rows(&vectors),
        labels.clone(), L2,
        IncrementalConfig::default(),
    )
    .unwrap();

    // Add some labeled delta vectors
    let new_vecs = random_vectors(5, 32, 1701);
    let new_labels: Vec<Vec<u64>> = (0..5).map(|_| vec![9]).collect();
    index
        .add_vectors_with_labels(&rows(&new_vecs), new_labels)
        .unwrap();
    index.delete_vectors(&[0]).unwrap();

    let bytes = index.to_bytes();

    let loaded =
        IncrementalDiskANN::from_bytes(&bytes, L2, IncrementalConfig::default())
            .unwrap();

    assert!(loaded.has_labels());
    let stats = loaded.stats();
    assert_eq!(stats.base_vectors, 50);
    assert_eq!(stats.delta_vectors, 5);
    assert_eq!(stats.tombstones, 1);

    // Filtered search should still work after roundtrip
    let filter = Filter::label_eq(0, 9);
    let results = loaded.search_filtered(&words(&new_vecs[0]), 3, 64, &filter);
    assert!(
        !results.is_empty(),
        "Should find category 9 after roundtrip"
    );
}

#[test]
fn test_incremental_quantized_bytes_roundtrip() {

    let vectors = random_vectors(50, 32, 1702);

    let mut index = IncrementalDiskANN::build_quantized_f16(&rows(&vectors), L2,
        IncrementalConfig::default(),
        IncrementalQuantizedConfig { rerank_size: 0 },
    )
    .unwrap();

    index.add_vectors(&rows(&random_vectors(5, 32, 1703))).unwrap();

    let query = &vectors[0];
    let res_before = index.find(query, 5, 64);

    let bytes = index.to_bytes();
    let loaded =
        IncrementalDiskANN::from_bytes(&bytes, L2, IncrementalConfig::default())
            .unwrap();

    assert!(loaded.has_quantizer());
    let res_after = loaded.find(query, 5, 64);

    // Results should be the same after roundtrip
    assert_eq!(
        res_before, res_after,
        "Results changed after bytes roundtrip"
    );
}

#[test]
fn correctness_test_incremental_backward_compat_bytes() {

    let vectors = random_vectors(30, 16, 1704);

    // Build old-format bytes: [has_base:u8][base_len:u64][base_bytes][dim:u64]...
    let base =
        DiskANN::build_index_with_params(&rows(&vectors), L2, default_ann_params())
            .unwrap();
    let base_bytes = base.to_bytes();

    let mut old_bytes = Vec::new();
    old_bytes.push(1u8); // has_base
    old_bytes.extend_from_slice(&(base_bytes.len() as u64).to_le_bytes());
    old_bytes.extend_from_slice(&base_bytes);
    old_bytes.extend_from_slice(&(16u64).to_le_bytes()); // dim
    old_bytes.extend_from_slice(&0u64.to_le_bytes()); // num_delta = 0
    old_bytes.extend_from_slice(&0u64.to_le_bytes()); // num_graph = 0
    old_bytes.extend_from_slice(&(-1i64).to_le_bytes()); // entry_point = None
    old_bytes.extend_from_slice(&(32u64).to_le_bytes()); // max_degree
    old_bytes.extend_from_slice(&0u64.to_le_bytes()); // num_tombstones = 0

    let loaded = IncrementalDiskANN::from_bytes(
        &old_bytes,
        L2,
        IncrementalConfig::default(),
    )
    .unwrap();

    assert_eq!(loaded.stats().base_vectors, 30);
    assert!(!loaded.has_labels());
    assert!(!loaded.has_quantizer());

    // Search should work
    let results = loaded.find(&vectors[0], 5, 32);
    assert_eq!(results.len(), 5);
}

#[test]
fn test_beam_search_multi_seed() {

    // Build an index and search with it
    let vectors = random_vectors(100, 16, 1800);
    let mut index = IncrementalDiskANN::build_default(&rows(&vectors), L2).unwrap();

    // Add a delta so we have two components
    let delta_vecs = random_vectors(20, 16, 1801);
    index.add_vectors(&rows(&delta_vecs)).unwrap();

    // Search should find results from both base and delta
    let results = index.find_with_dists(&delta_vecs[0], 10, 64);
    assert_eq!(results.len(), 10);

    // Distances should be sorted
    for pair in results.windows(2) {
        assert!(pair[0].1 <= pair[1].1 + 1e-6);
    }

    // No duplicate IDs
    let ids: HashSet<u64> = results.iter().map(|(id, _)| *id).collect();
    assert_eq!(ids.len(), results.len());
}

#[test]
fn test_incremental_search_regression() {

    let dim = 32;
    let n = 200;
    let vectors = random_vectors(n, dim, 1900);
    let mut index = IncrementalDiskANN::build_default(&rows(&vectors), L2).unwrap();

    // Add delta vectors
    let delta_vecs = random_vectors(50, dim, 1901);
    index.add_vectors(&rows(&delta_vecs)).unwrap();

    // Delete some base vectors
    index.delete_vectors(&[0, 1, 2, 3, 4]).unwrap();

    // Test recall: search for known vectors
    let mut found_base = 0;
    let mut found_delta = 0;

    for i in 5..20 {
        let results = index.find(&vectors[i], 1, 64);
        if !results.is_empty() && results[0] == i as u64 {
            found_base += 1;
        }
    }

    for v in delta_vecs.iter().take(10) {
        let results = index.find(v, 1, 64);
        if !results.is_empty() {
            // The closest result should be very close to the query
            let best_vec = plain(&index.get_vector(results[0]).unwrap());
            let dist: f32 = v
                .iter()
                .zip(&best_vec)
                .map(|(a, b)| (a - b) * (a - b))
                .sum::<f32>()
                .sqrt();
            if dist < 0.01 {
                found_delta += 1;
            }
        }
    }

    assert!(
        found_base >= 10,
        "Should find at least 10/15 base vectors, found {}",
        found_base
    );
    assert!(
        found_delta >= 5,
        "Should find at least 5/10 delta vectors, found {}",
        found_delta
    );
}

#[test]
fn test_persistence_and_open() {
    let vectors = vec![
        vec![0.0, 0.0],
        vec![1.0, 0.0],
        vec![0.0, 1.0],
        vec![1.0, 1.0],
    ];
    let file = DiskANN::build_index_default(&rows(&vectors), L2).unwrap().to_bytes();

    let idx2 = DiskANN::open_index_with(&file, L2).unwrap();
    assert_eq!(idx2.num_vectors, 4);
    assert_eq!(idx2.dim, 2);

    let q = vec![0.9, 0.9];
    let res = idx2.find(&q, 2, 8);
    // [1,1] should be best
    assert_eq!(res[0], 3);
}

#[test]
fn test_new_format_round_trip() {
    let vectors = random_vectors(50, 16, 1200);
    let index =
        DiskANN::build_index_with_params(&rows(&vectors), L2, default_ann_params()).unwrap();

    let query = &vectors[0];
    let res_before = index.find(query, 5, 32);

    let file = index.to_bytes();
    let reopened = DiskANN::open_index_with(&file, L2).unwrap();
    let res_after = reopened.find(query, 5, 32);
    assert_eq!(res_before, res_after);

    let bytes = index.to_bytes();
    let from_bytes = DiskANN::from_bytes(bytes, L2).unwrap();
    let res_bytes = from_bytes.find(query, 5, 32);
    assert_eq!(res_before, res_bytes);
}

#[test]
fn test_corrupted_index_file() {
    let result = DiskANN::open_index_with(b"garbage data that is not an index", L2);
    assert!(result.is_err(), "Should fail on corrupted index file");
}

#[test]
fn test_truncated_index_file() {
    // Just 4 bytes, not enough for the length of the header
    let result = DiskANN::open_index_with(&[0u8; 4], L2);
    assert!(result.is_err(), "Should fail on truncated index file");
}

#[test]
fn test_corrupted_sidecar_file() {
    let vectors = random_vectors(50, 32, 500);
    let base = DiskANN::build_index_with_params(&rows(&vectors), L2, default_ann_params()).unwrap();
    let result = QuantizedDiskANN::from_quantized_bytes(
        base,
        b"not a valid sidecar file",
        QuantizedConfig::default(),
    );
    assert!(result.is_err(), "Should fail on corrupted sidecar");
}

#[test]
fn test_save_load_roundtrip() {
    let dim = 32;
    let vectors = random_vectors(100, dim, 46);
    let ann_params = DiskAnnParams {
        max_degree: 32,
        build_beam_width: 64,
        alpha: 1.2f32.to_bits(),
    };
    let config = QuantizedConfig { rerank_size: 10 };
    let index = QuantizedDiskANN::build_f16(&rows(&vectors), L2, ann_params, config).unwrap();

    let query = &vectors[0];
    let res_before = index.find(query, 5, 32);

    let base_file = index.base().to_bytes();
    let sidecar = index.quantized_to_bytes();
    let base = DiskANN::open_index_with(&base_file, L2).unwrap();
    let loaded = QuantizedDiskANN::from_quantized_bytes(base, &sidecar, config).unwrap();

    assert_eq!(loaded.num_vectors(), index.num_vectors());
    assert_eq!(loaded.dim(), index.dim());

    let res_after = loaded.find(query, 5, 32);
    assert_eq!(res_before, res_after);
}

#[test]
fn test_quantized_persistence_preserves_codes() {
    let vectors = random_vectors(100, 32, 901);
    let config = QuantizedConfig { rerank_size: 0 };
    let index =
        QuantizedDiskANN::build_int8(&rows(&vectors), L2, default_ann_params(), config).unwrap();

    let queries = random_vectors(10, 32, 902);
    let results_before: Vec<Vec<u32>> = queries.iter().map(|q| index.find(q, 5, 32)).collect();

    let base_file = index.base().to_bytes();
    let sidecar = index.quantized_to_bytes();
    let base = DiskANN::open_index_with(&base_file, L2).unwrap();
    let loaded = QuantizedDiskANN::from_quantized_bytes(base, &sidecar, config).unwrap();

    let results_after: Vec<Vec<u32>> = queries.iter().map(|q| loaded.find(q, 5, 32)).collect();
    assert_eq!(results_before, results_after, "Results changed after save/load");
}

#[test]
fn test_filtered_persistence() {
    let vectors: Vec<Vec<f32>> = (0..50).map(|i| vec![i as f32, i as f32]).collect();
    let labels: Vec<Vec<u64>> = (0..50).map(|i| vec![i % 3, i]).collect();
    let built = FilteredDiskANN::build(&rows(&vectors), labels.clone(), L2).unwrap();
    let index_file = built.inner().to_bytes();
    let label_file = serialize_labels(&labels, 2);

    // Reopen
    let inner = DiskANN::open_index_with(&index_file, L2).unwrap();
    let (labels_read, fields) = deserialize_labels(&label_file).unwrap();
    let index = FilteredDiskANN::assemble(inner, labels_read, fields).unwrap();
    assert_eq!(index.num_vectors(), 50);
    assert_eq!(index.num_fields(), 2);

    let filter = Filter::label_eq(0, 1);
    let results = index.search_filtered(&words(&[25.0, 25.0]), 5, 32, &filter);
    for id in &results {
        assert_eq!(index.get_labels(*id as usize).unwrap()[0], 1);
    }
}

struct Sketch {
    positions: Vec<[f32; 2]>,
    links: Vec<Vec<u32>>,
    query: [f32; 2],
    odd_only: bool,
}

impl SearchSpace for Sketch {
    fn distance(&self, id: u32) -> u32 {
        let p = &self.positions[id as usize];
        let q = &self.query;
        ((q[0] - p[0]).powi(2) + (q[1] - p[1]).powi(2)).sqrt().to_bits()
    }
    fn neighbors(&self, id: u32) -> Vec<u32> {
        self.links[id as usize].clone()
    }
    fn keep(&self, id: u32) -> bool {
        !self.odd_only || id % 2 == 1
    }
    fn scale(&self, dist: u32, factor: u32) -> u32 {
        (num(dist) * num(factor)).to_bits()
    }
}

/// Five nodes:
///   0 --1.0-- 1 --1.0-- 2
///   |                   |
///  2.0                 1.0
///   |                   |
///   3 ------1.5------- 4
fn sketch(odd_only: bool) -> Sketch {
    Sketch {
        positions: vec![[0.0, 0.0], [1.0, 0.0], [2.0, 0.0], [0.0, 2.0], [2.0, 1.0]],
        links: vec![vec![1, 3], vec![0, 2], vec![1, 4], vec![0, 4], vec![2, 3]],
        query: [2.1, 0.9],
        odd_only,
    }
}

#[test]
fn a_filter_holds_without_an_expanded_beam() {
    let results = pairs(&beam_search(&sketch(true), &[0], 5, 5, unrestricted()));
    let ids: Vec<u32> = results.iter().map(|r| r.0).collect();
    assert_eq!(ids, vec![1, 3]);
}

#[test]
fn test_beam_search_small_graph() {
    let results = pairs(&beam_search(&sketch(false), &[0], 5, 3, unrestricted()));

    assert_eq!(results.len(), 3);
    // Node 4 (2,1) should be closest to query (2.1, 0.9)
    assert_eq!(results[0].0, 4);
    // Node 2 (2,0) should be second closest
    assert_eq!(results[1].0, 2);
    // Distances should be sorted
    assert!(results[0].1 <= results[1].1);
    assert!(results[1].1 <= results[2].1);
}

#[test]
fn test_beam_search_with_filter() {
    let results = pairs(&beam_search(
        &sketch(true),
        &[0],
        5,
        3,
        BeamSearchConfig {
            expanded_beam: Some(10),
            max_iterations: Some(20),
            early_term_factor: Some(1.5f32.to_bits()),
        },
    ));

    // Should only contain odd ids
    for (id, _) in &results {
        assert!(id % 2 == 1, "Expected only odd IDs, got {}", id);
    }
    // Should find at least nodes 1 and 3
    let ids: HashSet<u32> = results.iter().map(|(id, _)| *id).collect();
    assert!(ids.contains(&1));
    assert!(ids.contains(&3));
}

#[test]
fn test_candidate_ordering() {
    let a = Candidate { dist: 1.0f32.to_bits(), id: 0 };
    let b = Candidate { dist: 2.0f32.to_bits(), id: 1 };
    let c = Candidate { dist: 0.5f32.to_bits(), id: 2 };

    // The smaller distance is less
    assert!(lt(a.dist, b.dist));
    assert!(lt(c.dist, a.dist));

    // Nearest first
    let mut min_heap: Queue<u32> = Queue::new(true);
    min_heap.push(a);
    min_heap.push(b);
    min_heap.push(c);
    assert_eq!(min_heap.pop().unwrap().id, 2); // dist 0.5
    assert_eq!(min_heap.pop().unwrap().id, 0); // dist 1.0
    assert_eq!(min_heap.pop().unwrap().id, 1); // dist 2.0

    // Farthest first
    let mut max_heap: Queue<u32> = Queue::new(false);
    max_heap.push(a);
    max_heap.push(b);
    max_heap.push(c);
    assert_eq!(max_heap.peek().unwrap().id, 1); // dist 2.0 at top
}

fn around_first(vectors: &[Vec<f32>], ids: &[u32]) -> Vec<Candidate> {
    ids.iter()
        .map(|&id| Candidate {
            dist: L2.eval(&words(&vectors[0]), &words(&vectors[id as usize])),
            id,
        })
        .collect()
}

#[test]
fn test_prune_neighbors_alpha() {
    let vectors = vec![
        vec![0.0, 0.0], // node 0 (center)
        vec![1.0, 0.0], // node 1
        vec![1.2, 0.0], // node 2 (close to node 1)
        vec![0.0, 2.0], // node 3 (far from node 1)
    ];
    let candidates = around_first(&vectors, &[1, 2, 3]);
    let table_rows = rows(&vectors);
    let table = Table { vectors: &table_rows, dist: L2 };

    let pruned = prune_neighbors(&table, 0, &candidates, 3, 1.0f32.to_bits());

    // Node 1 should always be included (closest)
    assert!(pruned.contains(&1));
    // Node 3 should be included (it is in a different direction)
    assert!(pruned.contains(&3));
}

#[test]
fn test_prune_neighbors_max_degree() {
    let vectors = vec![
        vec![0.0, 0.0],
        vec![1.0, 0.0],
        vec![0.0, 1.0],
        vec![1.0, 1.0],
        vec![2.0, 0.0],
        vec![0.0, 2.0],
    ];
    let candidates = around_first(&vectors, &[1, 2, 3, 4, 5]);
    let table_rows = rows(&vectors);
    let table = Table { vectors: &table_rows, dist: L2 };

    // max_degree=2: should return at most 2 neighbors
    let pruned = prune_neighbors(&table, 0, &candidates, 2, 1.2f32.to_bits());
    assert_eq!(pruned.len(), 2);
    assert!(!pruned.is_empty());

    // max_degree=5: should return all 5
    let pruned = prune_neighbors(&table, 0, &candidates, 5, 1.2f32.to_bits());
    assert_eq!(pruned.len(), 5);

    // max_degree=1: should return exactly 1 (the closest)
    let pruned = prune_neighbors(&table, 0, &candidates, 1, 1.2f32.to_bits());
    assert_eq!(pruned.len(), 1);
}
