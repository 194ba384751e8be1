//! Postings: building, searching, changing, storing and opening them again.
use diskann::metric::Distance;
use diskann::metric::MetricKind;
use numkong::{cast, f16, Angular, Dot, EachScale, Euclidean};
use diskann::error::{DiskAnnError, Fault};
use diskann::meta::Meta;
use diskann::pq::PQConfig;
use diskann::incremental::QuantizerKind;
use diskann::snapshot::Manifest;
use diskann::spfresh::{SPFresh, SPFreshConfig, FREE};
use rand::rngs::StdRng;
use rand::{Rng, SeedableRng};
use std::collections::{HashMap, HashSet};

/// The metrics that the kernels compute.
#[derive(Clone, Copy, Debug, PartialEq)]
#[allow(dead_code)]
enum Metric {
    L2,
    L2Sq,
    Cosine,
    Dot,
}

#[allow(dead_code)]
const L2: Metric = Metric::L2;

fn floats(words: &[u32]) -> &[f32] {
    bytemuck::cast_slice(words)
}

fn num(word: u32) -> f32 {
    f32::from_bits(word)
}

impl Distance for Metric {
    fn eval(&self, a: &[u32], b: &[u32]) -> u32 {
        let (a, b) = (floats(a), floats(b));
        let d = match self {
            Metric::L2 => f32::euclidean(a, b).unwrap() as f32,
            Metric::L2Sq => f32::sqeuclidean(a, b).unwrap() as f32,
            Metric::Cosine => f32::angular(a, b).unwrap() as f32,
            Metric::Dot => 1.0 - f32::dot(a, b).unwrap() as f32,
        };
        d.to_bits()
    }
    fn square_l2(&self, a: &[u32], b: &[u32]) -> u32 {
        (f32::sqeuclidean(floats(a), floats(b)).unwrap() as f32).to_bits()
    }
    fn kind(&self) -> MetricKind {
        match self {
            Metric::L2 => MetricKind::L2,
            Metric::L2Sq => MetricKind::L2Sq,
            _ => MetricKind::Other,
        }
    }
    fn name(&self) -> String {
        format!("{:?}", self)
    }
    fn sum(&self, a: u32, b: u32) -> u32 {
        (num(a) + num(b)).to_bits()
    }
    fn difference(&self, a: u32, b: u32) -> u32 {
        (num(a) - num(b)).to_bits()
    }
    fn product(&self, a: u32, b: u32) -> u32 {
        (num(a) * num(b)).to_bits()
    }
    fn quotient(&self, a: u32, b: u32) -> u32 {
        (num(a) / num(b)).to_bits()
    }
    fn root(&self, a: u32) -> u32 {
        num(a).sqrt().to_bits()
    }
    fn count(&self, n: usize) -> u32 {
        (n as f32).to_bits()
    }
    fn rounded(&self, a: u32) -> u32 {
        num(a).round() as u32
    }
    fn to_half(&self, v: &[u32]) -> Vec<u16> {
        let mut halves = vec![f16::ZERO; v.len()];
        cast(floats(v), &mut halves).unwrap();
        halves.iter().map(|h| h.0).collect()
    }
    fn from_half(&self, v: &[u16]) -> Vec<u32> {
        let halves: Vec<f16> = v.iter().map(|h| f16(*h)).collect();
        let mut out = vec![0.0f32; v.len()];
        cast(&halves, &mut out).unwrap();
        words(&out)
    }
    fn half_l2(&self, a: &[u16], b: &[u16]) -> u32 {
        let a: Vec<f16> = a.iter().map(|h| f16(*h)).collect();
        let b: Vec<f16> = b.iter().map(|h| f16(*h)).collect();
        f16::sqeuclidean(&a, &b).unwrap().to_bits()
    }
    fn to_bytes(&self, v: &[u32], factor: u32, shift: u32) -> Vec<u8> {
        let mut scaled = vec![0.0f32; v.len()];
        f32::each_scale(floats(v), num(factor), num(shift), &mut scaled).unwrap();
        let mut out = vec![0u8; v.len()];
        cast(&scaled, &mut out).unwrap();
        out
    }
    fn portion(&self, total: u32) -> u32 {
        (rand::thread_rng().gen::<f32>() * num(total)).to_bits()
    }
}

fn words(v: &[f32]) -> Vec<u32> {
    v.iter().map(|x| x.to_bits()).collect()
}

#[allow(dead_code)]
fn rows(vectors: &[Vec<f32>]) -> Vec<Vec<u32>> {
    vectors.iter().map(|v| words(v)).collect()
}

type Index = SPFresh<'static, Metric>;

fn plain(v: &[u32]) -> Vec<f32> {
    v.iter().map(|x| num(*x)).collect()
}

fn euclid(a: &[f32], b: &[f32]) -> f32 {
    num(L2.eval(&words(a), &words(b)))
}

fn rv(n: usize, dim: usize, seed: u64) -> Vec<Vec<f32>> {
    let mut r = StdRng::seed_from_u64(seed);
    (0..n)
        .map(|_| (0..dim).map(|_| r.gen::<f32>()).collect())
        .collect()
}

/// 40 Gaussian clusters in the unit cube with sigma 0.05.
fn rc(n: usize, dim: usize, seed: u64) -> Vec<Vec<f32>> {
    let mut r = StdRng::seed_from_u64(seed);
    let mut cr = StdRng::seed_from_u64(99);
    let centers: Vec<Vec<f32>> = (0..40)
        .map(|_| (0..dim).map(|_| cr.gen::<f32>()).collect())
        .collect();
    (0..n)
        .map(|i| {
            centers[i % 40]
                .iter()
                .map(|c| c + 0.05 * (r.gen::<f32>() - 0.5))
                .collect()
        })
        .collect()
}

fn build(vs: &[Vec<f32>], cfg: SPFreshConfig, q: Option<QuantizerKind>) -> Index {
    let idx = Index::build(&rows(vs), L2, cfg, q).unwrap();
    assert!(idx.validate() && idx.is_ready());
    idx
}

fn recall(idx: &Index, vs: &[Vec<f32>], queries: &[Vec<f32>], probe: usize) -> f32 {
    let mut hits = 0;
    for q in queries {
        let mut d: Vec<(u64, f32)> = vs
            .iter()
            .enumerate()
            .filter(|(i, _)| !idx.is_deleted(*i as u64))
            .map(|(i, v)| (i as u64, euclid(q, v)))
            .collect();
        d.sort_by(|a, b| a.1.partial_cmp(&b.1).unwrap());
        let gt: HashSet<u64> = d.iter().take(10).map(|x| x.0).collect();
        hits += idx
            .search(&words(q), 10, probe)
            .iter()
            .filter(|id| gt.contains(id))
            .count();
    }
    hits as f32 / (10 * queries.len()) as f32
}

/// The part of the live entries that stand in the posting with the nearest centroid.
fn npa_ratio(idx: &Index) -> f32 {
    let live: Vec<usize> = (0..idx.block_cid.len())
        .filter(|&b| idx.block_cid[b] != FREE)
        .collect();
    let (mut ok, mut n) = (0, 0);
    for &b in &live {
        for i in 0..idx.postings.len(b) {
            let id = idx.postings.id(b, i);
            let v = match idx.get_vector(id) {
                Some(v) => v,
                None => continue,
            };
            let best = live
                .iter()
                .min_by(|&&x, &&y| {
                    num(L2.eval(&v, &idx.block_centroid[x]))
                        .partial_cmp(&num(L2.eval(&v, &idx.block_centroid[y])))
                        .unwrap()
                })
                .unwrap();
            ok += (*best == b) as usize;
            n += 1;
        }
    }
    ok as f32 / n as f32
}

fn answers(idx: &Index, q: &[f32], k: usize, probe: usize) -> Vec<(u64, u32)> {
    idx.search_with_dists(&words(q), k, probe)
        .iter()
        .map(|h| (h.id, h.dist))
        .collect()
}

/// Writes an index and opens it again.
fn reopened(idx: &Index) -> Result<Index, DiskAnnError> {
    let blocks: Vec<u8> = (0..idx.block_cid.len() as u32)
        .flat_map(|b| idx.block_bytes(b))
        .collect();
    Index::open(&idx.meta(), &idx.graph.to_bytes(), blocks, idx.raw.clone(), L2)
}

#[test]
fn build_search_recall() {
    let vs = rc(3000, 32, 1);
    let cfg = SPFreshConfig {
        max_posting_size: 64,
        ..Default::default()
    };
    let idx = build(&vs, cfg, None);
    let st = idx.stats();
    assert_eq!(st.live, 3000);
    assert!(
        st.max_posting < 64,
        "postings not split: {}",
        st.max_posting
    );
    assert!(recall(&idx, &vs, &rc(50, 32, 2), 8) >= 0.95);
    assert!(npa_ratio(&idx) >= 0.95);
}

#[test]
fn uniform_data_splits_keep_npa() {
    let vs = rv(3000, 32, 1);
    let cfg = SPFreshConfig {
        max_posting_size: 64,
        reassign_neighbors: 128,
        ..Default::default()
    };
    let idx = build(&vs, cfg, None);
    assert!(idx.stats().max_posting < 64);
    assert!(npa_ratio(&idx) >= 0.95);
}

#[test]
fn insert_splits_delete_gc() {
    let vs = rc(3000, 32, 3);
    let cfg = SPFreshConfig {
        max_posting_size: 64,
        min_posting_size: 8,
        ..Default::default()
    };
    let mut idx = build(&vs[..500], cfg, None);
    let p0 = idx.stats().postings;
    for chunk in vs[500..].chunks(700) {
        idx.insert(&rows(chunk)).unwrap();
    }
    assert!(idx.stats().postings > p0);
    assert!(idx.stats().max_posting < 64);
    let qs = rc(50, 32, 4);
    assert!(recall(&idx, &vs, &qs, 8) >= 0.9);
    assert!(npa_ratio(&idx) >= 0.95);
    let del: Vec<u64> = (0..3000).step_by(3).collect();
    idx.delete(&del);
    assert!(idx.is_deleted(0) && !idx.is_deleted(1) && idx.get_vector(0).is_none());
    assert!(idx
        .search(&words(&vs[0]), 10, 8)
        .iter()
        .all(|id| id % 3 != 0));
    assert!(recall(&idx, &vs, &qs, 8) >= 0.9);
    let p1 = idx.stats().postings;
    idx.gc().unwrap();
    let st = idx.stats();
    assert!(st.postings <= p1 && st.live == 2000 && st.max_posting < 64);
    assert!(recall(&idx, &vs, &qs, 8) >= 0.9);
    assert!(idx.validate() && idx.is_ready());
}

#[test]
fn quantized_variants() {
    let vs = rc(2000, 32, 5);
    let qs = rc(30, 32, 6);
    let pq = PQConfig {
        num_subspaces: 8,
        num_centroids: 64,
        kmeans_iterations: 10,
        training_sample_size: 0,
    };
    for (name, q, min) in [
        ("f16", QuantizerKind::F16, 0.9),
        ("int8", QuantizerKind::Int8, 0.9),
        ("pq", QuantizerKind::PQ(pq), 0.6),
        ("rabitq", QuantizerKind::RaBitQ, 0.6),
    ] {
        let cfg = SPFreshConfig {
            max_posting_size: 64,
            rerank_size: 40,
            ..Default::default()
        };
        let idx = build(&vs, cfg, Some(q));
        let r = recall(&idx, &vs, &qs, 8);
        assert!(r >= min, "{name}: recall {r}");
        let (id, d) = answers(&idx, &vs[7], 1, 8)[0];
        assert_eq!(id, 7);
        assert!(num(d).abs() < 1e-3);
    }
}

#[test]
fn save_open_compact() {
    let vs = rc(1500, 16, 7);
    let cfg = SPFreshConfig {
        max_posting_size: 32,
        rerank_size: 20,
        ..Default::default()
    };
    let mut idx = build(&vs, cfg, Some(QuantizerKind::F16));
    idx.delete(&[1, 2]);
    let before = answers(&idx, &vs[3], 5, 4);
    let mut idx = reopened(&idx).unwrap();
    assert!(idx.validate() && idx.is_ready());
    assert_eq!(answers(&idx, &vs[3], 5, 4), before);
    assert!(idx.is_deleted(1) && idx.stats().live == 1498);
    idx.compact().unwrap();
    assert_eq!(answers(&idx, &vs[3], 5, 4), before);
    let ids = idx.insert(&rows(&rc(300, 16, 8))).unwrap();
    assert_eq!(ids[0], 1500);
    assert_eq!(
        idx.search(&idx.get_vector(ids[5]).unwrap(), 1, 4),
        vec![ids[5]]
    );
}

/// Objects by name.
#[derive(Default)]
struct Store {
    objects: HashMap<String, Vec<u8>>,
}

impl Store {
    /// Stores a snapshot of an index unless there is one of that version.
    fn publish(&mut self, idx: &mut Index, kept: &mut Option<Manifest>) -> Option<Vec<u64>> {
        let s = idx.snapshot(kept.as_ref());
        let v = s.manifest.version;
        for (b, _) in &s.blocks {
            self.objects
                .insert(format!("v{v}/postings/{b}"), idx.block_bytes(*b));
        }
        for c in &s.chunks {
            self.objects
                .insert(format!("v{v}/vectors/{c}"), idx.chunk_bytes(*c));
        }
        self.objects
            .insert(format!("v{v}/centroids"), idx.graph.to_bytes());
        let bytes = s.manifest.to_bytes();
        if self.objects.contains_key(&format!("manifest-v{v}")) {
            return None;
        }
        self.objects.insert(format!("manifest-v{v}"), bytes.clone());
        self.objects.insert("manifest".to_string(), bytes);
        idx.finish_snapshot(&s.blocks, s.next_id);
        let written = s.manifest.block_ver.clone();
        *kept = Some(s.manifest);
        Some(written)
    }

    /// Fetches what differs from what is cached, and opens the index.
    fn restore(&self, cache: &mut Cache) -> (Index, Manifest) {
        let m = Manifest::from_bytes(&self.objects["manifest"]).unwrap();
        let meta = Meta::from_bytes(&m.meta).unwrap();
        let (_, block, _, _) = meta.sizes().unwrap();
        let held = cache.manifest.as_ref();
        let blocks = m
            .stale_blocks(held)
            .iter()
            .map(|b| match m.block_ver[*b] {
                0 => vec![],
                v => self.objects[&format!("v{v}/postings/{b}")].clone(),
            })
            .collect();
        let chunks = m
            .stale_chunks(held)
            .iter()
            .map(|c| self.objects[&format!("v{}/vectors/{c}", m.raw_chunk_ver[*c])].clone())
            .collect();
        cache.blocks = m.restore_blocks(held, cache.blocks.clone(), block, blocks);
        let count = meta.next_id as usize;
        cache.raw = m.restore_chunks(held, cache.raw.clone(), count, meta.dim, chunks);
        let raw: Vec<u32> = cache
            .raw
            .chunks(4)
            .map(|c| u32::from_le_bytes([c[0], c[1], c[2], c[3]]))
            .collect();
        let graph = &self.objects[&format!("v{}/centroids", m.version)];
        let mut idx = Index::open(&m.meta, graph, cache.blocks.clone(), raw, L2).unwrap();
        assert!(idx.validate() && idx.is_ready());
        idx.finish_snapshot(&vec![], meta.next_id);
        cache.manifest = Some(Manifest::from_bytes(&self.objects["manifest"]).unwrap());
        (idx, m)
    }
}

/// What is kept of the last snapshot that was fetched.
#[derive(Default)]
struct Cache {
    manifest: Option<Manifest>,
    blocks: Vec<u8>,
    raw: Vec<u8>,
}

#[test]
fn snapshot_restore_roundtrip() {
    let mut store = Store::default();
    let mut cache = Cache::default();
    let vs = rc(1500, 16, 7);
    let cfg = SPFreshConfig {
        max_posting_size: 32,
        rerank_size: 20,
        ..Default::default()
    };
    let mut idx = build(&vs, cfg, Some(QuantizerKind::F16));
    let mut kept: Option<Manifest> = None;
    store.publish(&mut idx, &mut kept).unwrap();
    assert_eq!(kept.as_ref().unwrap().version, 1);
    idx.insert(&rows(&rc(5, 16, 8))).unwrap();
    idx.delete(&[1, 2]);
    let written = store.publish(&mut idx, &mut kept).unwrap();
    assert_eq!(kept.as_ref().unwrap().version, 2);
    let touched = written.iter().filter(|&&v| v == 2).count();
    assert!(
        touched <= 20 && touched < written.len(),
        "snapshot was not incremental: {touched}"
    );
    assert!(idx.dirty.is_empty());
    idx.insert(&rows(&rc(295, 16, 11))).unwrap();
    store.publish(&mut idx, &mut kept).unwrap();
    assert_eq!(kept.as_ref().unwrap().version, 3);
    let q = vs[3].clone();
    let expect = answers(&idx, &q, 5, 4);
    for _ in 0..2 {
        let (r, _) = store.restore(&mut cache);
        assert_eq!(answers(&r, &q, 5, 4), expect);
        assert!(
            r.is_deleted(1)
                && r.stats().live == 1798
                && r.stats().postings == idx.stats().postings
        );
    }
    let (mut r, m) = store.restore(&mut cache);
    let mut r_kept = Some(m);
    r.insert(&rows(&rc(10, 16, 9))).unwrap();
    store.publish(&mut r, &mut r_kept).unwrap();
    assert_eq!(r_kept.as_ref().unwrap().version, 4);
    idx.insert(&rows(&rc(10, 16, 10))).unwrap();
    assert!(
        store.publish(&mut idx, &mut kept).is_none(),
        "concurrent publish must fail"
    );
}

#[test]
fn a_restored_cache_holds_nothing_stale() {
    let mut store = Store::default();
    let mut cache = Cache::default();
    let mut kept: Option<Manifest> = None;
    let mut idx = build(&rc(300, 8, 21), SPFreshConfig::default(), None);
    store.publish(&mut idx, &mut kept).unwrap();
    store.restore(&mut cache);
    let m = Manifest::from_bytes(&store.objects["manifest"]).unwrap();
    assert!(m.stale_blocks(cache.manifest.as_ref()).is_empty());
    assert!(m.stale_chunks(cache.manifest.as_ref()).is_empty());
    assert_eq!(m.stale_chunks(None), vec![0]);
    // Each insertion is fetched by one more restore
    idx.insert(&rows(&rc(3, 8, 22))).unwrap();
    store.publish(&mut idx, &mut kept).unwrap();
    let (r, m) = store.restore(&mut cache);
    assert_eq!(m.version, 2);
    for id in 0..303 {
        assert_eq!(r.get_vector(id), idx.get_vector(id));
    }
    let q = rc(1, 8, 23).remove(0);
    assert_eq!(answers(&r, &q, 20, 50), answers(&idx, &q, 20, 50));
}

#[test]
fn manifests_are_laid_out_as_fields() {
    let m = Manifest {
        version: 7,
        meta: build(&rc(20, 4, 1), SPFreshConfig::default(), None).meta(),
        block_ver: vec![7, 0],
        raw_chunk_ver: vec![3],
    };
    let bytes = m.to_bytes();
    assert_eq!(bytes[..8], [7, 0, 0, 0, 0, 0, 0, 0]);
    assert_eq!(bytes[8..8 + m.meta.len()], m.meta[..]);
    assert_eq!(bytes.len(), 8 + m.meta.len() + 8 + 16 + 8 + 8);
    let again = Manifest::from_bytes(&bytes).unwrap();
    assert_eq!(again.version, 7);
    assert_eq!(again.meta, m.meta);
    assert_eq!(again.block_ver, m.block_ver);
    assert_eq!(again.raw_chunk_ver, m.raw_chunk_ver);
    assert!(Manifest::from_bytes(&bytes[..bytes.len() - 1]).is_err());
    assert!(Manifest::from_bytes(&[]).is_err());
}

#[test]
fn a_full_probe_finds_the_nearest() {
    let vs = rv(400, 6, 31);
    let cfg = SPFreshConfig {
        max_posting_size: 16,
        ..Default::default()
    };
    let idx = build(&vs, cfg, None);
    for q in rv(20, 6, 32) {
        let mut right: Vec<u32> = vs
            .iter()
            .map(|v| L2.eval(&words(&q), &words(v)))
            .collect();
        right.sort_by(|a, b| num(*a).partial_cmp(&num(*b)).unwrap());
        let found: Vec<u32> = answers(&idx, &q, 10, 4000).iter().map(|x| x.1).collect();
        assert_eq!(found, right[..10]);
    }
}

#[test]
fn probing_by_ratio_passes_over_far_postings() {
    let vs = rc(800, 8, 41);
    let cfg = SPFreshConfig {
        max_posting_size: 16,
        probe_ratio: 1.0f32.to_bits(),
        ..Default::default()
    };
    let near = build(&vs, cfg, None);
    let found = answers(&near, &vs[5], 100, 40);
    assert!(!found.is_empty() && found.len() < 16);
}

#[test]
fn rows_of_a_batch_are_single_searches() {
    let vs = rc(300, 8, 51);
    let idx = build(&vs, SPFreshConfig::default(), None);
    let batch = idx.search_batch(&rows(&vs[..5]), 3, 4);
    for (row, q) in batch.iter().zip(&vs) {
        assert_eq!(*row, idx.search(&words(q), 3, 4));
        assert_eq!(idx.search(&words(q), 3, usize::MAX).len(), 3);
    }
}

#[test]
fn faults_of_building_and_inserting() {
    let none: Vec<Vec<u32>> = vec![];
    assert!(matches!(
        Index::build(&none, L2, SPFreshConfig::default(), None),
        Err(DiskAnnError::IndexError(Fault::NoVectors))
    ));
    let uneven = rows(&[vec![1.0f32, 2.0], vec![1.0]]);
    assert!(Index::build(&uneven, L2, SPFreshConfig::default(), None).is_err());
    let mut idx = build(&rc(50, 4, 61), SPFreshConfig::default(), None);
    assert!(idx.insert(&rows(&[vec![1.0f32]])).is_err());
    assert_eq!(idx.insert(&none).unwrap(), Vec::<u64>::new());
    assert_eq!(idx.stats().live, 50);
}

#[test]
fn deleting_twice_is_deleting_once() {
    let mut idx = build(&rc(50, 4, 71), SPFreshConfig::default(), None);
    idx.delete(&[3, 3, 1000]);
    idx.delete(&[3]);
    let st = idx.stats();
    assert_eq!((st.live, st.deleted), (49, 1));
    assert!(!idx.is_deleted(1000));
    assert!(idx.get_vector(1000).is_none());
    assert_eq!(idx.dim(), 4);
}

#[test]
fn missing_data_opens_as_zeros() {
    let idx = build(&rc(60, 4, 81), SPFreshConfig::default(), None);
    let blocks: Vec<u8> = (0..idx.block_cid.len() as u32)
        .flat_map(|b| idx.block_bytes(b))
        .collect();
    let (meta, graph, raw) = (idx.meta(), idx.graph.to_bytes(), idx.raw.clone());
    let open = |m: &[u8], g: &[u8], b: &[u8], r: &[u32]| {
        Index::open(m, g, b.to_vec(), r.to_vec(), L2).map(|i| i.stats().live)
    };
    assert_eq!(open(&meta, &graph, &blocks, &raw).unwrap(), 60);
    assert!(open(&meta[..10], &graph, &blocks, &raw).is_err());
    assert!(open(&meta, &graph[..10], &blocks, &raw).is_err());
    assert_eq!(open(&meta, &graph, &blocks[..9], &raw).unwrap(), 60);
    let half = Index::open(&meta, &graph, blocks.clone(), raw[..120].to_vec(), L2).unwrap();
    assert_eq!(half.get_vector(29), idx.get_vector(29));
    assert_eq!(half.get_vector(30).unwrap(), vec![0; 4]);
}

#[test]
fn descriptions_read_back() {
    for q in [
        None,
        Some(QuantizerKind::F16),
        Some(QuantizerKind::Int8),
        Some(QuantizerKind::RaBitQ),
        Some(QuantizerKind::PQ(PQConfig {
            num_subspaces: 2,
            num_centroids: 4,
            kmeans_iterations: 3,
            training_sample_size: 0,
        })),
    ] {
        let coded = q.is_some();
        let idx = build(&rc(60, 4, 91), SPFreshConfig::default(), q);
        let bytes = idx.meta();
        let m = Meta::from_bytes(&bytes).unwrap();
        assert_eq!(m.dim, 4);
        assert_eq!(m.cfg.max_posting_size, 128);
        assert_eq!(m.quantizer.is_some(), coded);
        assert_eq!(m.block_cid, idx.block_cid);
        assert_eq!(m.block_centroid, idx.block_centroid);
        assert_eq!((m.next_id, m.live), (60, 60));
        assert_eq!(m.to_bytes(), bytes);
        let again = reopened(&idx).unwrap();
        let q = rc(1, 4, 92).remove(0);
        assert_eq!(answers(&again, &q, 7, 4), answers(&idx, &q, 7, 4));
        assert_eq!(plain(&again.get_vector(3).unwrap()), plain(&idx.get_vector(3).unwrap()));
    }
}

#[test]
fn objects_are_written_at_their_places() {
    let m = Manifest {
        version: 3,
        meta: vec![],
        block_ver: vec![1, 0, 3],
        raw_chunk_ver: vec![3],
    };
    let before = Manifest {
        version: 2,
        meta: vec![],
        block_ver: vec![1, 2],
        raw_chunk_ver: vec![2],
    };
    assert_eq!(m.stale_blocks(Some(&before)), vec![1, 2]);
    let objects = vec![vec![], vec![7, 8]];
    let file = m.restore_blocks(Some(&before), vec![1, 2, 3, 4], 2, objects);
    assert_eq!(file, vec![1, 2, 0, 0, 7, 8]);
    let all = vec![vec![5, 6], vec![], vec![7, 8]];
    assert_eq!(m.restore_blocks(None, vec![], 2, all), vec![5, 6, 0, 0, 7, 8]);
    let none = Manifest {
        version: 1,
        meta: vec![],
        block_ver: vec![],
        raw_chunk_ver: vec![],
    };
    assert_eq!(none.restore_blocks(None, vec![9, 9, 9], 2, vec![]), vec![9, 9]);
    let words = vec![1u8; 8];
    assert_eq!(m.restore_chunks(Some(&before), vec![], 2, 1, vec![words.clone()]), words);
    assert_eq!(none.restore_chunks(None, vec![3], 1, 1, vec![]), vec![3, 0, 0, 0]);
}

#[test]
fn collecting_garbage_leaves_full_probes_as_they_are() {
    let vs = rv(300, 6, 91);
    let cfg = SPFreshConfig {
        max_posting_size: 16,
        min_posting_size: 8,
        ..Default::default()
    };
    let mut idx = build(&vs, cfg, None);
    idx.delete(&(0..200).collect::<Vec<u64>>());
    let queries = rv(10, 6, 92);
    let dists = |i: &Index| -> Vec<Vec<u32>> {
        queries
            .iter()
            .map(|q| answers(i, q, 10, 4000).iter().map(|x| x.1).collect())
            .collect()
    };
    let before = dists(&idx);
    assert!(before.iter().all(|d| d.len() == 10));
    idx.gc().unwrap();
    assert_eq!(dists(&idx), before);
}

#[test]
fn compacting_rebuilds_the_routing_graph_over_the_centroids() {
    let mut idx = build(
        &rc(600, 8, 93),
        SPFreshConfig { max_posting_size: 16, ..Default::default() },
        None,
    );
    idx.insert(&rows(&rc(200, 8, 94))).unwrap();
    idx.compact().unwrap();
    let live: Vec<usize> = (0..idx.block_cid.len()).filter(|&b| idx.block_cid[b] != FREE).collect();
    let base = idx.graph.base.as_ref().unwrap();
    assert_eq!((base.max_degree, base.num_vectors), (32, live.len()));
    assert!(idx.graph.delta.is_empty() && idx.graph.tombstones.is_empty());
    for &b in &live {
        assert_eq!(base.get_vector(idx.block_cid[b] as usize), idx.block_centroid[b]);
    }
    let mut idx = build(&rc(20, 4, 95), SPFreshConfig::default(), None);
    idx.delete(&(0..20).collect::<Vec<u64>>());
    idx.gc().unwrap();
    idx.compact().unwrap();
    assert!(idx.validate() && idx.is_ready());
}

#[test]
fn an_index_with_a_disorderly_routing_graph_is_not_valid() {
    let mut idx = build(&rc(200, 4, 96), SPFreshConfig::default(), None);
    idx.insert(&rows(&rc(200, 4, 97))).unwrap();
    assert!(idx.validate() && idx.graph.delta.is_tidy());
    idx.graph.rerank_size = 5;
    assert!(!idx.validate());
}

#[test]
fn changes_end_with_a_graph_over_the_centroids() {
    let vs = rc(500, 8, 98);
    let cfg = SPFreshConfig {
        max_posting_size: 16,
        min_posting_size: 4,
        ..Default::default()
    };
    let mut idx = build(&vs, cfg, None);
    let check = |idx: &Index| {
        let live = idx.block_cid.iter().filter(|&&c| c != FREE).count();
        let base = idx.graph.base.as_ref().unwrap();
        assert_eq!((base.max_degree, base.num_vectors), (32, live));
        assert!(idx.graph.delta.is_empty() && idx.graph.tombstones.is_empty());
    };
    check(&idx);
    idx.insert(&rows(&rc(300, 8, 99))).unwrap();
    check(&idx);
    idx.delete(&(0..400).collect::<Vec<u64>>());
    idx.gc().unwrap();
    check(&idx);
}

#[test]
fn blocks_are_used_again_in_a_later_epoch() {
    let cfg = SPFreshConfig {
        max_posting_size: 8,
        min_posting_size: 4,
        ..Default::default()
    };
    let mut idx = build(&rc(400, 4, 100), cfg, None);
    idx.delete(&(0..350).collect::<Vec<u64>>());
    idx.gc().unwrap();
    let freed = idx.free.len();
    assert!(freed > 0 && idx.free.iter().any(|f| f.1 == idx.epoch));
    let blocks = idx.block_cid.len();
    idx.insert(&rows(&rc(40, 4, 101))).unwrap();
    assert!(idx.free.iter().all(|f| f.1 <= idx.epoch));
    assert!(idx.free.len() < freed || idx.block_cid.len() == blocks);
}
