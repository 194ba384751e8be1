//! Quantizers, files of vectors, filters and storage.
use diskann::codec::VectorQuantizer;
use diskann::filter::Filter;
use diskann::formats::{
    read_bvecs, read_bvecs_as_f32, read_fvecs, read_ivecs, write_bvecs, write_fvecs, write_ivecs,
};
use diskann::metric::Distance;
use diskann::metric::MetricKind;
use numkong::{cast, f16, Angular, Dot, EachScale, Euclidean};
use rand::Rng;
use diskann::pq::{PQConfig, ProductQuantizer};
use diskann::rabitq::{RaBitQ, ROUNDS};
use diskann::rotation::{rotate, unrotate};
use diskann::sq::{F16Quantizer, Int8Quantizer};
use diskann::storage::Storage;
use rand::rngs::StdRng;
use rand::SeedableRng;
use std::collections::HashSet;
use std::sync::Arc;

/// The metrics that the kernels compute.
#[derive(Clone, Copy, Debug, PartialEq)]
#[allow(dead_code)]
enum Metric {
    L2,
    L2Sq,
    Cosine,
    Dot,
    /// Euclidean distance, with a fixed part in place of a random one: in training, only
    /// the first centroid and those of empty clusters are then left to chance.
    Steady,
}

#[allow(dead_code)]
const L2: Metric = Metric::L2;

fn floats(words: &[u32]) -> &[f32] {
    bytemuck::cast_slice(words)
}

fn num(word: u32) -> f32 {
    f32::from_bits(word)
}

impl Distance for Metric {
    fn eval(&self, a: &[u32], b: &[u32]) -> u32 {
        let (a, b) = (floats(a), floats(b));
        let d = match self {
            Metric::L2 | Metric::Steady => f32::euclidean(a, b).unwrap() as f32,
            Metric::L2Sq => f32::sqeuclidean(a, b).unwrap() as f32,
            Metric::Cosine => f32::angular(a, b).unwrap() as f32,
            Metric::Dot => 1.0 - f32::dot(a, b).unwrap() as f32,
        };
        d.to_bits()
    }
    fn square_l2(&self, a: &[u32], b: &[u32]) -> u32 {
        (f32::sqeuclidean(floats(a), floats(b)).unwrap() as f32).to_bits()
    }
    fn kind(&self) -> MetricKind {
        match self {
            Metric::L2 | Metric::Steady => MetricKind::L2,
            Metric::L2Sq => MetricKind::L2Sq,
            _ => MetricKind::Other,
        }
    }
    fn name(&self) -> String {
        format!("{:?}", self)
    }
    fn sum(&self, a: u32, b: u32) -> u32 {
        (num(a) + num(b)).to_bits()
    }
    fn difference(&self, a: u32, b: u32) -> u32 {
        (num(a) - num(b)).to_bits()
    }
    fn product(&self, a: u32, b: u32) -> u32 {
        (num(a) * num(b)).to_bits()
    }
    fn quotient(&self, a: u32, b: u32) -> u32 {
        (num(a) / num(b)).to_bits()
    }
    fn root(&self, a: u32) -> u32 {
        num(a).sqrt().to_bits()
    }
    fn count(&self, n: usize) -> u32 {
        (n as f32).to_bits()
    }
    fn rounded(&self, a: u32) -> u32 {
        num(a).round() as u32
    }
    fn to_half(&self, v: &[u32]) -> Vec<u16> {
        let mut halves = vec![f16::ZERO; v.len()];
        cast(floats(v), &mut halves).unwrap();
        halves.iter().map(|h| h.0).collect()
    }
    fn from_half(&self, v: &[u16]) -> Vec<u32> {
        let halves: Vec<f16> = v.iter().map(|h| f16(*h)).collect();
        let mut out = vec![0.0f32; v.len()];
        cast(&halves, &mut out).unwrap();
        words(&out)
    }
    fn half_l2(&self, a: &[u16], b: &[u16]) -> u32 {
        let a: Vec<f16> = a.iter().map(|h| f16(*h)).collect();
        let b: Vec<f16> = b.iter().map(|h| f16(*h)).collect();
        f16::sqeuclidean(&a, &b).unwrap().to_bits()
    }
    fn to_bytes(&self, v: &[u32], factor: u32, shift: u32) -> Vec<u8> {
        let mut scaled = vec![0.0f32; v.len()];
        f32::each_scale(floats(v), num(factor), num(shift), &mut scaled).unwrap();
        let mut out = vec![0u8; v.len()];
        cast(&scaled, &mut out).unwrap();
        out
    }
    fn portion(&self, total: u32) -> u32 {
        let part = match self {
            Metric::Steady => 0.5,
            _ => rand::thread_rng().gen::<f32>(),
        };
        (part * num(total)).to_bits()
    }
}

fn words(v: &[f32]) -> Vec<u32> {
    v.iter().map(|x| x.to_bits()).collect()
}

#[allow(dead_code)]
fn rows(vectors: &[Vec<f32>]) -> Vec<Vec<u32>> {
    vectors.iter().map(|v| words(v)).collect()
}

fn plain(v: &[u32]) -> Vec<f32> {
    v.iter().map(|x| num(*x)).collect()
}

/// Codes of plain numbers.
trait Codec {
    fn code(&self, v: &[f32]) -> Vec<u8>;
    fn back(&self, codes: &[u8]) -> Vec<f32>;
    fn gap(&self, query: &[f32], codes: &[u8]) -> f32;
    fn ratio(&self, dim: usize) -> f32;
}

impl<Q: VectorQuantizer> Codec for Q {
    fn code(&self, v: &[f32]) -> Vec<u8> {
        self.encode(L2, &words(v))
    }
    fn back(&self, codes: &[u8]) -> Vec<f32> {
        plain(&self.decode(L2, codes))
    }
    fn gap(&self, query: &[f32], codes: &[u8]) -> f32 {
        num(self.asymmetric_distance(L2, &words(query), codes))
    }
    fn ratio(&self, dim: usize) -> f32 {
        num(self.compression_ratio(L2, dim))
    }
}

fn there_and_back<Q: VectorQuantizer>(q: &Q, v: &[f32]) -> Vec<f32> {
    q.back(&q.code(v))
}

fn square(a: &[f32], b: &[f32]) -> f32 {
    a.iter().zip(b).map(|(x, y)| (x - y) * (x - y)).sum()
}

fn drawn(n: usize, dim: usize, seed: u64, factor: f32, shift: f32) -> Vec<Vec<f32>> {
    let mut rng = StdRng::seed_from_u64(seed);
    (0..n)
        .map(|_| (0..dim).map(|_| rng.gen::<f32>() * factor + shift).collect())
        .collect()
}

fn random_vectors(n: usize, dim: usize, seed: u64) -> Vec<Vec<f32>> {
    drawn(n, dim, seed, 1.0, 0.0)
}

fn wide_vectors(n: usize, dim: usize, seed: u64) -> Vec<Vec<f32>> {
    drawn(n, dim, seed, 10.0, -5.0)
}

fn signed_vectors(n: usize, dim: usize, seed: u64) -> Vec<Vec<f32>> {
    drawn(n, dim, seed, 2.0, -1.0)
}

fn brute_force_knn_l2(vectors: &[Vec<f32>], query: &[f32], k: usize) -> Vec<u32> {
    let mut dists: Vec<(u32, f32)> = vectors
        .iter()
        .enumerate()
        .map(|(i, v)| (i as u32, square(query, v).sqrt()))
        .collect();
    dists.sort_by(|a, b| a.1.partial_cmp(&b.1).unwrap());
    dists.iter().take(k).map(|(i, _)| *i).collect()
}

#[test]
fn test_pq_encode_decode() {
    let vectors = random_vectors(1000, 64, 42);
    let config = PQConfig {
        num_subspaces: 8,
        num_centroids: 256,
        kmeans_iterations: 10,
        training_sample_size: 0,
    };

    let pq = ProductQuantizer::train(L2, &rows(&vectors), config).unwrap();

    // Encode and decode
    let original = &vectors[0];
    let codes = pq.code(original);
    let decoded = pq.back(&codes);

    // Should have same dimension
    assert_eq!(decoded.len(), original.len());

    // Decoded should be somewhat close to original (lossy compression)
    let dist = square(original, &decoded);
    assert!(
        dist < original.len() as f32 * 0.1,
        "Reconstruction error too high: {dist}"
    );
}

#[test]
fn test_pq_asymmetric_distance() {
    let vectors = random_vectors(500, 32, 123);
    let config = PQConfig {
        num_subspaces: 4,
        num_centroids: 64,
        kmeans_iterations: 10,
        training_sample_size: 0,
    };

    let pq = ProductQuantizer::train(L2, &rows(&vectors), config).unwrap();

    let query = &vectors[0];
    let target = &vectors[100];

    let codes = pq.code(target);

    // Asymmetric distance should be similar to distance to decoded
    let asym_dist = pq.gap(query, &codes);
    let decoded = pq.back(&codes);
    let exact_dist = square(query, &decoded);

    // Should be very close (asymmetric uses same centroids)
    assert!(
        (asym_dist - exact_dist).abs() < 1e-5,
        "asym={asym_dist}, exact={exact_dist}"
    );
}

#[test]
fn test_pq_distance_table() {
    let vectors = random_vectors(500, 32, 456);
    let config = PQConfig {
        num_subspaces: 4,
        num_centroids: 64,
        kmeans_iterations: 10,
        training_sample_size: 0,
    };

    let pq = ProductQuantizer::train(L2, &rows(&vectors), config).unwrap();

    let query = &vectors[0];
    let table = pq.create_distance_table(L2, &words(query));

    // Compare table-based vs direct asymmetric distance
    for target in vectors.iter().take(10) {
        let codes = pq.code(target);
        let direct = pq.gap(query, &codes);
        let table_dist = num(pq.distance_with_table(L2, &table, &codes));

        assert!(
            (direct - table_dist).abs() < 1e-5,
            "direct={direct}, table={table_dist}"
        );
    }
}

#[test]
fn test_pq_batch_encode() {
    let vectors = random_vectors(100, 64, 789);
    let config = PQConfig::default();

    let pq = ProductQuantizer::train(L2, &rows(&vectors), config).unwrap();
    let codes = pq.encode_batch(L2, &rows(&vectors));

    assert_eq!(codes.len(), vectors.len());
    for code in &codes {
        assert_eq!(code.len(), config.num_subspaces);
    }
}

#[test]
fn test_pq_save_load() {
    let vectors = random_vectors(200, 64, 111);
    let config = PQConfig {
        num_subspaces: 8,
        num_centroids: 128,
        kmeans_iterations: 5,
        training_sample_size: 0,
    };

    let pq = ProductQuantizer::train(L2, &rows(&vectors), config).unwrap();
    let codes_before = pq.code(&vectors[0]);
    let file = pq.save();

    let pq_loaded = ProductQuantizer::load(&file).unwrap();
    let codes_after = pq_loaded.code(&vectors[0]);

    assert_eq!(codes_before, codes_after);
}

#[test]
fn test_pq_stats() {
    let vectors = random_vectors(100, 128, 222);
    let config = PQConfig {
        num_subspaces: 8,
        num_centroids: 256,
        kmeans_iterations: 5,
        training_sample_size: 0,
    };

    let pq = ProductQuantizer::train(L2, &rows(&vectors), config).unwrap();
    let stats = pq.stats(L2);

    assert_eq!(stats.dim, 128);
    assert_eq!(stats.num_subspaces, 8);
    assert_eq!(stats.num_centroids, 256);
    assert_eq!(stats.subspace_dim, 16);
    assert_eq!(stats.code_size_bytes, 8);
    assert!(num(stats.compression_ratio) > 50.0); // 128*4 / 8 = 64x
}

#[test]
fn test_pq_preserves_ordering() {
    let vectors = random_vectors(500, 64, 333);
    let config = PQConfig {
        num_subspaces: 8,
        num_centroids: 256,
        kmeans_iterations: 15,
        training_sample_size: 0,
    };

    let pq = ProductQuantizer::train(Metric::Steady, &rows(&vectors), config).unwrap();

    let query = &vectors[0];

    // Compute true distances
    let mut true_dists: Vec<(usize, f32)> = vectors
        .iter()
        .enumerate()
        .skip(1)
        .map(|(i, v)| (i, square(query, v)))
        .collect();
    true_dists.sort_by(|a, b| a.1.partial_cmp(&b.1).unwrap());

    // Compute PQ distances
    let table = pq.create_distance_table(L2, &words(query));
    let codes: Vec<Vec<u8>> = vectors.iter().map(|v| pq.code(v)).collect();

    let mut pq_dists: Vec<(usize, f32)> = codes
        .iter()
        .enumerate()
        .skip(1)
        .map(|(i, c)| (i, num(pq.distance_with_table(L2, &table, c))))
        .collect();
    pq_dists.sort_by(|a, b| a.1.partial_cmp(&b.1).unwrap());

    // Check recall@10: how many of true top-10 appear in PQ top-10
    let true_top10: std::collections::HashSet<_> =
        true_dists.iter().take(10).map(|(i, _)| *i).collect();
    let pq_top10: std::collections::HashSet<_> =
        pq_dists.iter().take(10).map(|(i, _)| *i).collect();

    let recall: f32 = true_top10.intersection(&pq_top10).count() as f32 / 10.0;
    assert!(
        recall >= 0.5,
        "PQ recall@10 too low: {recall}. Expected >= 0.5"
    );
}

#[test]
fn test_f16_encode_decode_round_trip() {
    let q = F16Quantizer::new(4);
    let vec = vec![1.0f32, -2.5, 0.0, 3.14];
    let codes = q.code(&vec);
    assert_eq!(codes.len(), 8); // 4 dims * 2 bytes
    let decoded = q.back(&codes);
    assert_eq!(decoded.len(), 4);
    for (orig, dec) in vec.iter().zip(&decoded) {
        assert!((orig - dec).abs() < 0.01, "orig={orig}, dec={dec}");
    }
}

#[test]
fn test_f16_asymmetric_distance() {
    let q = F16Quantizer::new(4);
    let query = vec![1.0f32, 2.0, 3.0, 4.0];
    let target = vec![5.0f32, 6.0, 7.0, 8.0];
    let codes = q.code(&target);

    let dist = q.gap(&query, &codes);
    let decoded = q.back(&codes);
    let expected: f32 = query
        .iter()
        .zip(&decoded)
        .map(|(a, b)| (a - b) * (a - b))
        .sum();

    assert!(
        (dist - expected).abs() < 0.1,
        "dist={dist}, expected={expected}"
    );
}

#[test]
fn test_f16_large_vectors() {
    let q = F16Quantizer::new(128);
    let vectors = wide_vectors(100, 128, 42);
    for v in &vectors {
        let codes = q.code(v);
        let decoded = q.back(&codes);
        let max_err: f32 = v
            .iter()
            .zip(&decoded)
            .map(|(a, b)| (a - b).abs())
            .fold(0.0, f32::max);
        assert!(max_err < 0.05, "Max f16 error too high: {max_err}");
    }
}

#[test]
fn test_f16_save_load() {
    let q = F16Quantizer::new(64);
    let file = q.save();
    let loaded = F16Quantizer::load(&file).unwrap();
    assert_eq!(q.dim(), loaded.dim());
}

#[test]
fn test_f16_compression_ratio() {
    let q = F16Quantizer::new(128);
    assert!((q.ratio(128) - 2.0).abs() < 0.01);
}

#[test]
fn test_f16_stats() {
    let q = F16Quantizer::new(128);
    let stats = q.stats();
    assert_eq!(stats.dim, 128);
    assert_eq!(stats.code_size_bytes, 256);
    assert!((num(stats.compression_ratio) - 2.0).abs() < 0.01);
}

#[test]
fn test_int8_train_encode_decode() {
    let vectors = wide_vectors(500, 32, 42);
    let q = Int8Quantizer::train(L2, &rows(&vectors)).unwrap();

    let original = &vectors[0];
    let codes = q.code(original);
    assert_eq!(codes.len(), 32);

    let decoded = q.back(&codes);
    assert_eq!(decoded.len(), 32);

    // Reconstruction error should be small relative to range
    let max_err: f32 = original
        .iter()
        .zip(&decoded)
        .map(|(a, b)| (a - b).abs())
        .fold(0.0, f32::max);
    // Each dimension has range ~10 (from -5 to 5), quantized to 256 levels
    // So max error should be ~10/255 about 0.04
    assert!(max_err < 0.1, "Max int8 error too high: {max_err}");
}

#[test]
fn test_int8_asymmetric_distance() {
    let vectors = wide_vectors(500, 32, 123);
    let q = Int8Quantizer::train(L2, &rows(&vectors)).unwrap();

    let query = &vectors[0];
    let target = &vectors[100];
    let codes = q.code(target);

    let asym_dist = q.gap(query, &codes);
    let decoded = q.back(&codes);
    let expected: f32 = query
        .iter()
        .zip(&decoded)
        .map(|(a, b)| (a - b) * (a - b))
        .sum();

    // Should be very close since both use same dequantization
    assert!(
        (asym_dist - expected).abs() < 0.01 * expected,
        "asym={asym_dist}, expected={expected}"
    );
}

#[test]
fn test_int8_constant_dimension() {
    // Edge case: a dimension with all same values
    let vectors = vec![
        vec![1.0, 5.0, 5.0],
        vec![2.0, 5.0, 5.0],
        vec![3.0, 5.0, 5.0],
    ];
    let q = Int8Quantizer::train(L2, &rows(&vectors)).unwrap();
    let codes = q.code(&vectors[0]);
    let decoded = q.back(&codes);
    // Constant dim should decode back accurately
    assert!((decoded[1] - 5.0).abs() < 0.1);
    assert!((decoded[2] - 5.0).abs() < 0.1);
}

#[test]
fn test_int8_save_load() {
    let vectors = wide_vectors(200, 16, 42);
    let q = Int8Quantizer::train(L2, &rows(&vectors)).unwrap();

    let codes_before = q.code(&vectors[0]);
    let file = q.save();

    let loaded = Int8Quantizer::load(&file).unwrap();
    let codes_after = loaded.code(&vectors[0]);

    assert_eq!(codes_before, codes_after);
}

#[test]
fn test_int8_compression_ratio() {
    let vectors = wide_vectors(100, 128, 42);
    let q = Int8Quantizer::train(L2, &rows(&vectors)).unwrap();
    assert!((q.ratio(128) - 4.0).abs() < 0.01);
}

#[test]
fn test_int8_stats() {
    let vectors = wide_vectors(100, 64, 42);
    let q = Int8Quantizer::train(L2, &rows(&vectors)).unwrap();
    let stats = q.stats();
    assert_eq!(stats.dim, 64);
    assert_eq!(stats.code_size_bytes, 64);
    assert!((num(stats.compression_ratio) - 4.0).abs() < 0.01);
}

#[test]
fn test_int8_preserves_ordering() {
    let vectors = wide_vectors(200, 32, 456);
    let q = Int8Quantizer::train(L2, &rows(&vectors)).unwrap();

    let query = &vectors[0];

    // True distances
    let mut true_dists: Vec<(usize, f32)> = vectors
        .iter()
        .enumerate()
        .skip(1)
        .map(|(i, v)| {
            let d: f32 = query.iter().zip(v).map(|(a, b)| (a - b) * (a - b)).sum();
            (i, d)
        })
        .collect();
    true_dists.sort_by(|a, b| a.1.partial_cmp(&b.1).unwrap());

    // Quantized distances
    let codes: Vec<Vec<u8>> = vectors.iter().map(|v| q.code(v)).collect();
    let mut quant_dists: Vec<(usize, f32)> = codes
        .iter()
        .enumerate()
        .skip(1)
        .map(|(i, c)| (i, q.gap(query, c)))
        .collect();
    quant_dists.sort_by(|a, b| a.1.partial_cmp(&b.1).unwrap());

    // Check recall@10
    let true_top10: std::collections::HashSet<_> =
        true_dists.iter().take(10).map(|(i, _)| *i).collect();
    let quant_top10: std::collections::HashSet<_> =
        quant_dists.iter().take(10).map(|(i, _)| *i).collect();
    let recall = true_top10.intersection(&quant_top10).count() as f32 / 10.0;
    assert!(recall >= 0.6, "Int8 recall@10 too low: {recall}");
}

#[test]
fn test_trait_object_dispatch() {
    let f16q = F16Quantizer::new(4);
    let vec = vec![1.0f32, 2.0, 3.0, 4.0];
    assert_eq!(there_and_back(&f16q, &vec).len(), 4);

    let vectors = wide_vectors(50, 4, 42);
    let int8q = Int8Quantizer::train(L2, &rows(&vectors)).unwrap();
    assert_eq!(there_and_back(&int8q, &vec).len(), 4);
}

#[test]
fn test_rotation_is_orthogonal() {
    let vs = signed_vectors(4, 100, 1);
    let q = RaBitQ::train(L2, &rows(&vs)).unwrap();
    assert_eq!(q.padded_dim(), 128);
    let mut v = vec![0.0f32; 128];
    v[..100].copy_from_slice(&vs[0]);
    let n0: f32 = v.iter().map(|x| x * x).sum();
    let orig = v.clone();
    let mut turned = words(&v);
    rotate(L2, &mut turned, &q.signs, ROUNDS);
    let n1: f32 = plain(&turned).iter().map(|x| x * x).sum();
    assert!((n0 - n1).abs() < 1e-3 * n0);
    unrotate(L2, &mut turned, &q.signs, ROUNDS);
    for (a, b) in plain(&turned).iter().zip(&orig) {
        assert!((a - b).abs() < 1e-4);
    }
}

#[test]
fn test_self_distance_near_zero_and_table_matches() {
    let vs = signed_vectors(200, 128, 2);
    let q = RaBitQ::train(L2, &rows(&vs)).unwrap();
    assert_eq!(q.code_size(), 24);
    let codes: Vec<Vec<u8>> = vs.iter().map(|v| q.code(v)).collect();
    let pq = q.query(L2, &words(&vs[0]));
    let scale = square(&vs[0], &vs[1]);
    assert!(num(q.distance(L2, &pq, &codes[0])).abs() < 0.05 * scale);
    for (v, c) in vs.iter().zip(&codes).take(20) {
        assert_eq!(num(q.distance(L2, &pq, c)), q.gap(&vs[0], c));
        let est = num(q.distance(L2, &pq, c));
        let exact = square(&vs[0], v);
        assert!(
            (est - exact).abs() < 0.35 * exact + 0.02 * scale,
            "est={est} exact={exact}"
        );
    }
}

#[test]
fn test_decode_and_ordering() {
    let vs = signed_vectors(500, 64, 3);
    let q = RaBitQ::train(L2, &rows(&vs)).unwrap();
    let codes: Vec<Vec<u8>> = vs.iter().map(|v| q.code(v)).collect();
    let d = q.back(&codes[0]);
    assert_eq!(d.len(), 64);
    assert!(square(&vs[0], &d) < square(&vs[0], &vs[1]));

    let query = &vs[0];
    let mut exact: Vec<(usize, f32)> = vs
        .iter()
        .enumerate()
        .skip(1)
        .map(|(i, v)| (i, square(query, v)))
        .collect();
    exact.sort_by(|a, b| a.1.partial_cmp(&b.1).unwrap());
    let pq = q.query(L2, &words(query));
    let mut est: Vec<(usize, f32)> = codes
        .iter()
        .enumerate()
        .skip(1)
        .map(|(i, c)| (i, num(q.distance(L2, &pq, c))))
        .collect();
    est.sort_by(|a, b| a.1.partial_cmp(&b.1).unwrap());
    let top: std::collections::HashSet<usize> = exact.iter().take(10).map(|x| x.0).collect();
    let hits = est.iter().take(30).filter(|x| top.contains(&x.0)).count();
    assert!(hits >= 7, "recall@10 in top-30 too low: {hits}/10");
}

#[test]
fn test_pq_num_centroids_exceeds_256() {
    let vectors = random_vectors(100, 64, 300);
    let config = PQConfig {
        num_subspaces: 8,
        num_centroids: 512,
        kmeans_iterations: 5,
        training_sample_size: 0,
    };
    let result = ProductQuantizer::train(L2, &rows(&vectors), config);
    assert!(result.is_err(), "num_centroids > 256 should be rejected");
}

#[test]
fn test_pq_dim_not_divisible_by_subspaces() {
    let vectors = random_vectors(100, 65, 301);
    let config = PQConfig {
        num_subspaces: 8,
        num_centroids: 256,
        kmeans_iterations: 5,
        training_sample_size: 0,
    };
    let result = ProductQuantizer::train(L2, &rows(&vectors), config);
    assert!(result.is_err(), "Dimension 65 not divisible by 8 subspaces");
}

#[test]
fn test_pq_single_subspace() {
    let vectors = random_vectors(200, 32, 302);
    let config = PQConfig {
        num_subspaces: 1,
        num_centroids: 256,
        kmeans_iterations: 10,
        training_sample_size: 0,
    };
    let pq = ProductQuantizer::train(L2, &rows(&vectors), config).unwrap();
    let stats = pq.stats(L2);
    assert_eq!(stats.num_subspaces, 1);
    assert_eq!(stats.code_size_bytes, 1);

    // Should still produce valid codes
    let codes = pq.code(&vectors[0]);
    assert_eq!(codes.len(), 1);
    let decoded = pq.back(&codes);
    assert_eq!(decoded.len(), 32);
}

#[test]
fn test_pq_max_subspaces() {
    // num_subspaces == dim: each byte represents one dimension
    let vectors = random_vectors(200, 32, 303);
    let config = PQConfig {
        num_subspaces: 32,
        num_centroids: 256,
        kmeans_iterations: 10,
        training_sample_size: 0,
    };
    let pq = ProductQuantizer::train(L2, &rows(&vectors), config).unwrap();
    let codes = pq.code(&vectors[0]);
    assert_eq!(codes.len(), 32);

    // Recall should be high with 32 subspaces
    let query = &vectors[0];
    let table = pq.create_distance_table(L2, &words(query));
    let mut dists: Vec<(usize, f32)> = vectors
        .iter()
        .enumerate()
        .skip(1)
        .map(|(i, v)| (i, num(pq.distance_with_table(L2, &table, &pq.code(v)))))
        .collect();
    dists.sort_by(|a, b| a.1.partial_cmp(&b.1).unwrap());

    let pq_top10: HashSet<usize> = dists.iter().take(10).map(|(i, _)| *i).collect();
    let gt = brute_force_knn_l2(&vectors, query, 10);
    let gt_set: HashSet<usize> = gt.iter().map(|&i| i as usize).collect();
    let recall = pq_top10.intersection(&gt_set).count() as f32 / 10.0;
    assert!(
        recall >= 0.6,
        "PQ-32 recall@10 should be >= 0.6, got {}",
        recall
    );
}

#[test]
fn test_f16_extreme_values() {
    let q = F16Quantizer::new(4);
    // Test with values near f16 range limits
    let vector = vec![65504.0, -65504.0, 0.0, 1e-7]; // f16 max, min, zero, tiny
    let codes = q.code(&vector);
    let decoded = q.back(&codes);
    assert_eq!(decoded.len(), 4);
    // Large values should survive
    assert!((decoded[0] - 65504.0).abs() < 1.0);
    assert!((decoded[1] + 65504.0).abs() < 1.0);
    assert!((decoded[2] - 0.0).abs() < 1e-4);
}

#[test]
fn test_int8_single_vector_training() {
    // Training on a single vector: scale should be 1.0 (constant), not panic
    let vectors = vec![vec![1.0, 2.0, 3.0]];
    let q = Int8Quantizer::train(L2, &rows(&vectors)).unwrap();
    let codes = q.code(&vectors[0]);
    let decoded = q.back(&codes);
    // With a single vector, all dims are constant → scale=1.0, so decode is approximate
    assert_eq!(decoded.len(), 3);
}

#[test]
fn test_int8_negative_values() {
    let vectors = vec![
        vec![-10.0, -5.0, 0.0, 5.0, 10.0],
        vec![-8.0, -3.0, 2.0, 7.0, 12.0],
        vec![-12.0, -7.0, -2.0, 3.0, 8.0],
    ];
    let q = Int8Quantizer::train(L2, &rows(&vectors)).unwrap();

    for v in &vectors {
        let codes = q.code(v);
        let decoded = q.back(&codes);
        for (orig, dec) in v.iter().zip(&decoded) {
            assert!((orig - dec).abs() < 0.2, "orig={}, dec={}", orig, dec);
        }
    }
}

#[test]
fn test_filter_eq() {
    let filter = Filter::label_eq(0, 5);
    assert!(filter.matches(&[5, 10]));
    assert!(!filter.matches(&[4, 10]));
    assert!(!filter.matches(&[]));
}

#[test]
fn test_filter_in() {
    let filter = Filter::label_in(0, &[1, 3, 5]);
    assert!(filter.matches(&[1]));
    assert!(filter.matches(&[3]));
    assert!(filter.matches(&[5]));
    assert!(!filter.matches(&[2]));
}

#[test]
fn test_filter_range() {
    let filter = Filter::label_range(0, 10, 20);
    assert!(filter.matches(&[10]));
    assert!(filter.matches(&[15]));
    assert!(filter.matches(&[20]));
    assert!(!filter.matches(&[9]));
    assert!(!filter.matches(&[21]));
}

#[test]
fn test_filter_and() {
    let filter = Filter::and(vec![Filter::label_eq(0, 5), Filter::label_gt(1, 10)]);
    assert!(filter.matches(&[5, 15]));
    assert!(!filter.matches(&[5, 5]));
    assert!(!filter.matches(&[4, 15]));
}

#[test]
fn test_filter_or() {
    let filter = Filter::or(vec![Filter::label_eq(0, 5), Filter::label_eq(0, 10)]);
    assert!(filter.matches(&[5]));
    assert!(filter.matches(&[10]));
    assert!(!filter.matches(&[7]));
}

#[test]
fn test_fvecs_round_trip() {
    let vectors = vec![
        vec![1.0f32, 2.0, 3.0],
        vec![4.0, 5.0, 6.0],
        vec![7.0, 8.0, 9.0],
    ];
    let file = write_fvecs(&rows(&vectors));
    let loaded = read_fvecs(&file).unwrap();
    assert_eq!(rows(&vectors), loaded);
}

#[test]
fn test_ivecs_round_trip() {
    let vectors = vec![vec![10i32, 20, 30], vec![40, 50, 60]];
    let file = write_ivecs(&vectors);
    let loaded = read_ivecs(&file).unwrap();
    assert_eq!(vectors, loaded);
}

#[test]
fn test_bvecs_round_trip() {
    let vectors = vec![vec![0u8, 128, 255], vec![1, 2, 3]];
    let file = write_bvecs(&vectors);
    let loaded = read_bvecs(&file).unwrap();
    assert_eq!(vectors, loaded);
}

#[test]
fn test_bvecs_as_f32() {
    let vectors = vec![vec![0u8, 255]];
    let file = write_bvecs(&vectors);
    let loaded = read_bvecs_as_f32(&file, L2).unwrap();
    assert_eq!(loaded.len(), 1);
    assert!((num(loaded[0][0]) - 0.0).abs() < 1e-6);
    assert!((num(loaded[0][1]) - 1.0).abs() < 1e-6);
}

#[test]
fn test_fvecs_empty() {
    let vectors: Vec<Vec<f32>> = vec![];
    let file = write_fvecs(&rows(&vectors));
    let loaded = read_fvecs(&file).unwrap();
    assert!(loaded.is_empty());
}

#[test]
fn test_fvecs_varying_would_fail() {
    // Each vector has its own number of components
    let vectors = vec![vec![1.0f32, 2.0], vec![3.0, 4.0, 5.0]];
    let file = write_fvecs(&rows(&vectors));
    let loaded = read_fvecs(&file).unwrap();
    assert_eq!(loaded[0].len(), 2);
    assert_eq!(loaded[1].len(), 3);
}

#[test]
fn test_owned_deref() {
    let data = vec![1u8, 2, 3, 4];
    let s = Storage::Owned(data.clone());
    assert_eq!(s.as_slice(), &data[..]);
}

#[test]
fn test_shared_deref() {
    let data: Arc<[u8]> = Arc::from(vec![10u8, 20, 30]);
    let s = Storage::Shared(data.clone());
    assert_eq!(s.as_slice(), &*data);
}

#[test]
fn negative_integers_and_exact_bytes() {
    let vectors = vec![vec![-1i32, i32::MIN], vec![]];
    let file = write_ivecs(&vectors);
    assert_eq!(
        file,
        vec![2, 0, 0, 0, 255, 255, 255, 255, 0, 0, 0, 128, 0, 0, 0, 0]
    );
    assert_eq!(read_ivecs(&file).unwrap(), vectors);
}

#[test]
fn a_vector_cut_short_is_an_error() {
    let file = write_fvecs(&rows(&[vec![1.0f32, 2.0]]));
    assert!(read_fvecs(&file[..file.len() - 1]).is_err());
    // Fewer than four bytes at the end are passed over
    let mut longer = file.clone();
    longer.push(7);
    assert_eq!(read_fvecs(&longer).unwrap().len(), 1);
    assert!(read_bvecs(&[3, 0, 0, 0, 1, 2]).is_err());
    assert!(read_ivecs(&[1, 0, 0, 0, 1]).is_err());
    assert!(read_bvecs_as_f32(&[1, 0, 0, 0], L2).is_err());
}

#[test]
fn every_component_of_a_byte_vector_is_scaled() {
    let loaded = read_bvecs_as_f32(&write_bvecs(&vec![vec![51u8]]), L2).unwrap();
    assert_eq!(loaded[0][0], (51.0f32 / 255.0).to_bits());
}

#[test]
fn other_filters() {
    assert!(Filter::label_lt(0, 5).matches(&[4]));
    assert!(!Filter::label_lt(0, 5).matches(&[5]));
    assert!(!Filter::label_lt(1, 5).matches(&[4]));
    assert!(Filter::label_gt(0, 5).matches(&[6]));
    assert!(!Filter::label_gt(0, 5).matches(&[5]));
    assert!(Filter::NoFilter.matches(&[]));
    assert!(Filter::and(vec![]).matches(&[1]));
    assert!(!Filter::or(vec![]).matches(&[1]));
}

#[test]
fn training_faults() {
    let none: Vec<Vec<u32>> = vec![];
    assert!(RaBitQ::train(L2, &none).is_err());
    assert!(Int8Quantizer::train(L2, &none).is_err());
    assert!(ProductQuantizer::train(L2, &none, PQConfig::default()).is_err());
    let uneven = rows(&[vec![1.0f32, 2.0], vec![1.0]]);
    assert!(RaBitQ::train(L2, &uneven).is_err());
    assert!(Int8Quantizer::train(L2, &uneven).is_err());
}

#[test]
fn quantizer_files_are_laid_out_as_fields() {
    let q = F16Quantizer::new(64);
    assert_eq!(q.save(), vec![64, 0, 0, 0, 0, 0, 0, 0]);
    assert!(F16Quantizer::load(&[1, 2, 3]).is_err());
    let q = Int8Quantizer::from_params(2, 1.0f32.to_bits(), 0.5f32.to_bits());
    let file = q.save();
    assert_eq!(q.scale(), &vec![1.0f32.to_bits(); 2]);
    assert_eq!(q.offset(), &vec![0.5f32.to_bits(); 2]);
    assert_eq!(file.len(), 40);
    assert_eq!(file[..16], [2, 0, 0, 0, 0, 0, 0, 0, 2, 0, 0, 0, 0, 0, 0, 0]);
    let again = Int8Quantizer::load(&file).unwrap();
    assert_eq!((again.dim(), again.scale(), again.offset()), (2, q.scale(), q.offset()));
    assert!(Int8Quantizer::load(&file[..39]).is_err());
    assert!(ProductQuantizer::load(&[0; 7]).is_err());
}

#[test]
fn byte_codes_are_exact() {
    let q = Int8Quantizer::train(L2, &rows(&[vec![0.0f32, 255.0], vec![10.0, 20.0]])).unwrap();
    assert_eq!(num(q.scale()[0]), 10.0 / 255.0);
    assert_eq!(num(q.scale()[1]), 235.0 / 255.0);
    assert_eq!((num(q.offset()[0]), num(q.offset()[1])), (0.0, 20.0));
    assert_eq!(q.code(&[10.0, 20.0]), vec![255, 0]);

    let q = Int8Quantizer::train(L2, &rows(&[vec![0.0f32, 0.0], vec![1.0, 200.0]])).unwrap();
    assert_eq!(q.code(&[1.0, 200.0]), vec![255, 255]);
    assert_eq!(q.code(&[0.0, 200.0]), vec![0, 255]);
    assert!((q.gap(&[0.0, 200.0], &[255, 255]) - 1.0).abs() < 1e-5);

    let q = Int8Quantizer::train(L2, &rows(&[vec![0.0f32, 1.0], vec![255.0, 256.0]])).unwrap();
    assert_eq!((num(q.scale()[0]), num(q.scale()[1])), (1.0, 1.0));
    let codes = q.code(&[3.0, 251.0]);
    assert_eq!(codes, vec![3, 250]);
    assert_eq!(q.back(&codes), vec![3.0, 251.0]);
    assert_eq!(q.gap(&[5.0, 251.0], &codes), 4.0);
}

#[test]
fn half_precision_codes_are_exact() {
    let q = F16Quantizer::new(2);
    let codes = q.code(&[1.0, -2.0]);
    assert_eq!(codes, vec![0x00, 0x3c, 0x00, 0xc0]);
    assert_eq!(q.back(&codes), vec![1.0, -2.0]);
    assert_eq!(q.gap(&[4.0, 2.0], &codes), 25.0);
}
