//! What holds of the library as a whole, on chosen values, and every way to fail.
use diskann::beam::{beam_search, BeamSearchConfig, SearchSpace};
use diskann::codec::VectorQuantizer;
use diskann::delta::{delta_local_idx, is_delta_id, DELTA_ID_OFFSET};
use diskann::error::{DiskAnnError, Fault};
use diskann::filter::Filter;
use diskann::filtered::{deserialize_labels, load_labels, serialize_labels, FilteredDiskANN};
use diskann::incremental::{
    IncrementalConfig, IncrementalDiskANN, IncrementalQuantizedConfig, QuantizerKind,
};
use diskann::index::{parse_metadata, DiskANN, DiskAnnParams};
use diskann::kmeans::{assign, kmeans, pick_weighted, total_weight};
use diskann::meta::Meta;
use diskann::metric::Distance;
use diskann::metric::MetricKind;
use numkong::{cast, f16, Angular, Dot, EachScale, Euclidean};
use diskann::pq::{PQConfig, ProductQuantizer};
use diskann::quantized::{QuantizedConfig, QuantizedDiskANN};
use diskann::quantizer::QuantizerState;
use diskann::rabitq::RaBitQ;
use diskann::rotation::fht;
use diskann::simd::{describe_capabilities, simd_info};
use diskann::snapshot::Manifest;
use diskann::spfresh::{SPFresh, SPFreshConfig};
use diskann::sq::{F16Quantizer, Int8Quantizer};
use diskann::vamana::calculate_medoid;
use diskann::word;
use rand::rngs::StdRng;
use rand::{Rng, SeedableRng};

/// The metrics that the kernels compute.
#[derive(Clone, Copy, Debug, PartialEq)]
#[allow(dead_code)]
enum Metric {
    L2,
    L2Sq,
    Cosine,
    Dot,
    /// A metric whose name is as long as the number says.
    Named(usize),
}

#[allow(dead_code)]
const L2: Metric = Metric::L2;

fn floats(words: &[u32]) -> &[f32] {
    bytemuck::cast_slice(words)
}

fn num(word: u32) -> f32 {
    f32::from_bits(word)
}

impl Distance for Metric {
    fn eval(&self, a: &[u32], b: &[u32]) -> u32 {
        let (a, b) = (floats(a), floats(b));
        let d = match self {
            Metric::L2 => f32::euclidean(a, b).unwrap() as f32,
            Metric::L2Sq => f32::sqeuclidean(a, b).unwrap() as f32,
            Metric::Cosine => f32::angular(a, b).unwrap() as f32,
            Metric::Named(_) => f32::euclidean(a, b).unwrap() as f32,
            Metric::Dot => 1.0 - f32::dot(a, b).unwrap() as f32,
        };
        d.to_bits()
    }
    fn square_l2(&self, a: &[u32], b: &[u32]) -> u32 {
        (f32::sqeuclidean(floats(a), floats(b)).unwrap() as f32).to_bits()
    }
    fn kind(&self) -> MetricKind {
        match self {
            Metric::L2 => MetricKind::L2,
            Metric::L2Sq => MetricKind::L2Sq,
            _ => MetricKind::Other,
        }
    }
    fn name(&self) -> String {
        match self {
            Metric::Named(n) => "m".repeat(*n),
            m => format!("{:?}", m),
        }
    }
    fn sum(&self, a: u32, b: u32) -> u32 {
        (num(a) + num(b)).to_bits()
    }
    fn difference(&self, a: u32, b: u32) -> u32 {
        (num(a) - num(b)).to_bits()
    }
    fn product(&self, a: u32, b: u32) -> u32 {
        (num(a) * num(b)).to_bits()
    }
    fn quotient(&self, a: u32, b: u32) -> u32 {
        (num(a) / num(b)).to_bits()
    }
    fn root(&self, a: u32) -> u32 {
        num(a).sqrt().to_bits()
    }
    fn count(&self, n: usize) -> u32 {
        (n as f32).to_bits()
    }
    fn rounded(&self, a: u32) -> u32 {
        num(a).round() as u32
    }
    fn to_half(&self, v: &[u32]) -> Vec<u16> {
        let mut halves = vec![f16::ZERO; v.len()];
        cast(floats(v), &mut halves).unwrap();
        halves.iter().map(|h| h.0).collect()
    }
    fn from_half(&self, v: &[u16]) -> Vec<u32> {
        let halves: Vec<f16> = v.iter().map(|h| f16(*h)).collect();
        let mut out = vec![0.0f32; v.len()];
        cast(&halves, &mut out).unwrap();
        words(&out)
    }
    fn half_l2(&self, a: &[u16], b: &[u16]) -> u32 {
        let a: Vec<f16> = a.iter().map(|h| f16(*h)).collect();
        let b: Vec<f16> = b.iter().map(|h| f16(*h)).collect();
        f16::sqeuclidean(&a, &b).unwrap().to_bits()
    }
    fn to_bytes(&self, v: &[u32], factor: u32, shift: u32) -> Vec<u8> {
        let mut scaled = vec![0.0f32; v.len()];
        f32::each_scale(floats(v), num(factor), num(shift), &mut scaled).unwrap();
        let mut out = vec![0u8; v.len()];
        cast(&scaled, &mut out).unwrap();
        out
    }
    fn portion(&self, total: u32) -> u32 {
        (rand::thread_rng().gen::<f32>() * num(total)).to_bits()
    }
}

fn words(v: &[f32]) -> Vec<u32> {
    v.iter().map(|x| x.to_bits()).collect()
}

#[allow(dead_code)]
fn rows(vectors: &[Vec<f32>]) -> Vec<Vec<u32>> {
    vectors.iter().map(|v| words(v)).collect()
}

fn points(n: usize, dim: usize, seed: u64) -> Vec<Vec<u32>> {
    let mut rng = StdRng::seed_from_u64(seed);
    (0..n)
        .map(|_| (0..dim).map(|_| rng.gen::<f32>().to_bits()).collect())
        .collect()
}

fn line(xs: &[f32]) -> Vec<Vec<u32>> {
    xs.iter().map(|x| vec![x.to_bits()]).collect()
}

fn build(vectors: &Vec<Vec<u32>>) -> DiskANN<'static, Metric> {
    DiskANN::build_index_default(vectors, L2).unwrap()
}

fn fault<T>(r: Result<T, DiskAnnError>) -> Fault {
    match r {
        Err(DiskAnnError::IndexError(fault)) => fault,
        Err(e) => panic!("{:?}", e),
        Ok(_) => panic!("no fault"),
    }
}

fn is_eof<T>(r: Result<T, DiskAnnError>) -> bool {
    matches!(r, Err(DiskAnnError::UnexpectedEof))
}

fn is_bincode<T>(r: Result<T, DiskAnnError>) -> bool {
    matches!(r, Err(DiskAnnError::Bincode(_)))
}

// Laws

/// A path of nodes on a line.
struct Path {
    places: Vec<f32>,
    from: f32,
}

impl SearchSpace for Path {
    fn distance(&self, id: u32) -> u32 {
        (self.places[id as usize] - self.from).abs().to_bits()
    }
    fn neighbors(&self, id: u32) -> Vec<u32> {
        let mut r = vec![];
        if id > 0 {
            r.push(id - 1);
        }
        if (id as usize) + 1 < self.places.len() {
            r.push(id + 1);
        }
        r
    }
    fn keep(&self, _: u32) -> bool {
        true
    }
    fn scale(&self, dist: u32, factor: u32) -> u32 {
        (num(dist) * num(factor)).to_bits()
    }
}

#[test]
fn a_wide_beam_is_exact() {
    let path = Path {
        places: vec![9.0, 1.0, 8.0, 2.0, 7.0, 3.0],
        from: 0.0,
    };
    let found = beam_search(&path, &[0], 6, 3, BeamSearchConfig::default());
    let ids: Vec<u32> = found.iter().map(|c| c.id).collect();
    assert_eq!(ids, vec![1, 3, 5]);
    // A beam of one is full from the start
    let narrow = beam_search(&path, &[2], 1, 3, BeamSearchConfig::default());
    assert_eq!(narrow.len(), 1);
    assert_eq!(narrow[0].id, 2);
}

#[test]
fn answers_can_be_reached() {
    let path = Path {
        places: vec![1.0, 2.0, 3.0],
        from: 0.0,
    };
    let found = beam_search(&path, &[2], 10, 10, BeamSearchConfig::default());
    assert_eq!(found.len(), 3);
    for c in &found {
        assert_eq!(c.dist, path.distance(c.id));
    }
    assert!(beam_search(&path, &[], 10, 10, BeamSearchConfig::default()).is_empty());
}

#[test]
fn the_medoid_is_nearest_to_the_mean() {
    assert_eq!(calculate_medoid(&line(&[0.0, 10.0, 4.0, 100.0, 30.0]), L2), 4);
    assert_eq!(calculate_medoid(&line(&[5.0]), L2), 0);
    // The first of two that are equally near
    assert_eq!(calculate_medoid(&line(&[0.0, 2.0]), L2), 0);
}

#[test]
fn links_are_sound_and_few() {
    let vectors = points(60, 4, 1);
    let index = DiskANN::build_index(&vectors, 5, 20, 1.2f32.to_bits(), L2).unwrap();
    assert!(index.validate());
    for i in 0..60u32 {
        let row = index.real_neighbors(i);
        assert!(row.len() <= 5);
        for (a, x) in row.iter().enumerate() {
            assert!(*x < 60 && *x != i);
            assert!(!row[a + 1..].contains(x));
        }
        let mut padded = row.clone();
        padded.resize(5, u32::MAX);
        assert_eq!(index.get_neighbors(i), padded);
    }
}

#[test]
fn a_built_index_loads() {
    let vectors = points(40, 3, 2);
    let index = build(&vectors);
    let file = index.to_bytes();
    let mapped = DiskANN::open_index_with(&file, L2).unwrap();
    let owned = DiskANN::from_bytes(file.clone(), L2).unwrap();
    for other in [&mapped, &owned] {
        assert!(other.validate());
        assert_eq!((other.dim, other.num_vectors, other.max_degree), (3, 40, 32));
        assert_eq!(file.len(), 1024 * 1024 + 40 * 3 * 4 + 40 * 32 * 4);
        assert_eq!(other.distance_name, "L2");
        for i in 0..40 {
            assert_eq!(other.get_vector(i), vectors[i]);
            assert_eq!(other.get_neighbors(i as u32), index.get_neighbors(i as u32));
        }
        assert_eq!(other.search(&vectors[7], 5, 30), index.search(&vectors[7], 5, 30));
    }
}

#[test]
fn metadata_is_laid_out_as_fields() {
    let file = build(&line(&[1.0, 2.0, 4.0])).to_bytes();
    assert_eq!(file[..8], [0x4e, 0x4e, 0x41, 0x44, 1, 0, 0, 0]);
    assert_eq!(file[8..16], [54, 0, 0, 0, 0, 0, 0, 0]);
    let m = parse_metadata(&file).unwrap();
    assert_eq!((m.dim, m.num_vectors, m.max_degree, m.medoid_id), (1, 3, 32, 1));
    assert_eq!(m.vectors_offset, 1024 * 1024);
    assert_eq!(m.adjacency_offset, 1024 * 1024 + 12);
    assert_eq!(m.distance_name, "L2");
    assert_eq!(file.len(), 1024 * 1024 + 12 + 3 * 32 * 4);
}

#[test]
fn the_older_layout_without_a_magic_word_loads() {
    let file = build(&line(&[1.0, 2.0, 4.0])).to_bytes();
    let mut older = file[8..].to_vec();
    older.splice(62..62, [0; 8]);
    let index = DiskANN::from_bytes(older.clone(), L2).unwrap();
    assert_eq!(index.num_vectors, 3);
    assert_eq!(DiskANN::open_index_with(&older, L2).unwrap().get_vector(2), line(&[4.0])[0]);
}

#[test]
fn a_table_gives_the_distance() {
    let vectors = points(100, 8, 3);
    let config = PQConfig {
        num_subspaces: 4,
        num_centroids: 16,
        kmeans_iterations: 5,
        training_sample_size: 0,
    };
    let pq = ProductQuantizer::train(L2, &vectors, config).unwrap();
    let table = pq.create_distance_table(L2, &vectors[0]);
    for v in &vectors[1..20] {
        let code = pq.encode(L2, v);
        assert_eq!(
            pq.distance_with_table(L2, &table, &code),
            pq.asymmetric_distance(L2, &vectors[0], &code)
        );
    }
}

#[test]
fn centroids_of_well_parted_groups() {
    let vectors = line(&[0.0, 2.0, 100.0, 102.0]);
    let mut found: Vec<f32> = kmeans(L2, &vectors, 2, 20).iter().map(|c| num(c[0])).collect();
    found.sort_by(|a, b| a.partial_cmp(b).unwrap());
    assert_eq!(found, vec![1.0, 101.0]);
    // Fewer vectors than centroids: the vectors come again
    assert_eq!(kmeans(L2, &line(&[3.0]), 3, 2).len(), 3);
    let (at, d) = assign(L2, &[99.0f32.to_bits()], &line(&[0.0, 100.0]));
    assert_eq!((at, num(d)), (1, 1.0));
}

#[test]
fn weights_pick_the_first_that_reaches_the_threshold() {
    let weights: Vec<u32> = words(&[1.0, 2.0, 4.0]);
    assert_eq!(num(total_weight(L2, &weights)), 7.0);
    assert_eq!(pick_weighted(L2, &weights, 0.5f32.to_bits()), 0);
    assert_eq!(pick_weighted(L2, &weights, 1.0f32.to_bits()), 0);
    assert_eq!(pick_weighted(L2, &weights, 3.0f32.to_bits()), 1);
    assert_eq!(pick_weighted(L2, &weights, 3.5f32.to_bits()), 2);
    assert_eq!(pick_weighted(L2, &weights, 100.0f32.to_bits()), 2);
}

#[test]
fn signs_are_kept_in_the_code() {
    let vectors = points(30, 70, 4);
    let q = RaBitQ::train(L2, &vectors).unwrap();
    assert_eq!((q.padded_dim(), q.code_size()), (128, 24));
    let again = RaBitQ::train(L2, &vectors).unwrap();
    assert_eq!(q.signs, again.signs);
    assert!(q.signs.iter().any(|s| num(*s) > 0.0) && q.signs.iter().any(|s| num(*s) < 0.0));
    assert_eq!(q.encode(L2, &vectors[3]), again.encode(L2, &vectors[3]));
    assert_ne!(q.encode(L2, &vectors[3]), q.encode(L2, &vectors[4]));
}

#[test]
fn the_transform_is_exact() {
    let mut v = words(&[1.0, 2.0, 3.0, 4.0]);
    fht(L2, &mut v);
    let plain: Vec<f32> = v.iter().map(|x| num(*x)).collect();
    assert_eq!(plain, vec![10.0, -2.0, -4.0, 0.0]);
}

#[test]
fn quantizer_records_read_back() {
    let vectors = points(40, 6, 5);
    let config = PQConfig {
        num_subspaces: 2,
        num_centroids: 4,
        kmeans_iterations: 3,
        training_sample_size: 0,
    };
    for q in [
        QuantizerState::PQ(ProductQuantizer::train(L2, &vectors, config).unwrap()),
        QuantizerState::F16(F16Quantizer::new(6)),
        QuantizerState::Int8(Int8Quantizer::train(L2, &vectors).unwrap()),
        QuantizerState::RaBitQ(RaBitQ::train(L2, &vectors).unwrap()),
    ] {
        let record = q.to_record();
        assert_eq!(record[..4], [q.quantizer_type_id(), 0, 0, 0]);
        let again = QuantizerState::from_record(&record).unwrap();
        assert!(again.validate());
        assert_eq!(again.to_record(), record);
        assert_eq!(again.encode(L2, &vectors[1]), q.encode(L2, &vectors[1]));
        assert!(is_bincode(QuantizerState::from_record(&record[..record.len() - 1])));
    }
    assert_eq!(
        QuantizerState::F16(F16Quantizer::new(6)).to_record(),
        vec![1, 0, 0, 0, 6, 0, 0, 0, 0, 0, 0, 0]
    );
}

#[test]
fn labels_read_back() {
    let labels = vec![vec![1u64, 2], vec![u64::MAX, 0]];
    let bytes = serialize_labels(&labels, 2);
    assert_eq!(bytes.len(), 8 + 16 + 32);
    assert_eq!(bytes[..8], [16, 0, 0, 0, 0, 0, 0, 0]);
    assert_eq!(deserialize_labels(&bytes).unwrap(), (labels.clone(), 2));
    assert_eq!(load_labels(&bytes).unwrap(), (labels, 2));
}

#[test]
fn filters_are_kept() {
    let vectors = points(80, 4, 6);
    let labels: Vec<Vec<u64>> = (0..80).map(|i| vec![i % 4]).collect();
    let index = FilteredDiskANN::build(&vectors, labels.clone(), L2).unwrap();
    let filter = Filter::label_eq(0, 3);
    for id in index.search_filtered(&vectors[0], 10, 40, &filter) {
        assert_eq!(id % 4, 3);
    }
    assert_eq!(index.count_matching(&filter), 20);
    let files = (index.index.to_bytes(), serialize_labels(&index.labels, index.num_fields));
    let again = FilteredDiskANN::open(&files.0, &files.1, L2).unwrap();
    assert_eq!(again.labels, labels);
    let loaded = FilteredDiskANN::from_bytes(&index.to_bytes(), L2).unwrap();
    for other in [&again, &loaded] {
        assert_eq!(
            other.search_filtered(&vectors[0], 10, 40, &filter),
            index.search_filtered(&vectors[0], 10, 40, &filter)
        );
    }
}

#[test]
fn a_sidecar_reads_back() {
    let vectors = points(50, 4, 7);
    let config = QuantizedConfig { rerank_size: 10 };
    let params = DiskAnnParams::default();
    let index = QuantizedDiskANN::build_int8(&vectors, L2, params, config).unwrap();
    let (base, sidecar) = (index.base().to_bytes(), index.quantized_to_bytes());
    assert_eq!(sidecar[..8], [0x4e, 0x4e, 0x41, 0x51, 1, 0, 0, 0]);
    let again = QuantizedDiskANN::open(&base, &sidecar, L2, config).unwrap();
    assert!(again.validate());
    assert_eq!(again.codes, index.codes);
    assert_eq!(again.search(&vectors[0], 5, 20), index.search(&vectors[0], 5, 20));
    let joined = QuantizedDiskANN::from_bytes(&index.to_bytes(), L2, config).unwrap();
    assert_eq!(joined.codes, index.codes);
    assert_eq!(joined.base().to_bytes(), base);
    assert_eq!(joined.search(&vectors[3], 5, 20), index.search(&vectors[3], 5, 20));
}

#[test]
fn a_sidecar_cut_or_changed_anywhere_in_its_header_is_refused() {
    let config = QuantizedConfig { rerank_size: 0 };
    let params = DiskAnnParams::default();
    let index = QuantizedDiskANN::build_f16(&points(6, 4, 7), L2, params, config).unwrap();
    let (base, sidecar) = (index.base().to_bytes(), index.quantized_to_bytes());
    for n in 0..sidecar.len() {
        assert!(QuantizedDiskANN::open(&base, &sidecar[..n], L2, config).is_err());
    }
    for at in 0..17 {
        let mut other = sidecar.clone();
        other[at] ^= 3;
        let found = fault(QuantizedDiskANN::open(&base, &other, L2, config).map(|i| i.code_size));
        assert_eq!(matches!(found, Fault::InvalidMagic { .. }), at < 4);
        assert_eq!(matches!(found, Fault::UnsupportedVersion { .. }), (4..8).contains(&at));
        assert_eq!(found == Fault::QuantizerMismatch, at == 8);
        assert_eq!(matches!(found, Fault::SidecarCount { .. }), at > 8);
    }
}

#[test]
fn a_space_is_searched_by_its_distances_and_links() {
    let a = Path { places: vec![9.0, 1.0, 8.0, 2.0], from: 0.0 };
    let b = Path { places: vec![14.0, 6.0, 13.0, 7.0], from: 5.0 };
    let config = BeamSearchConfig {
        expanded_beam: Some(2),
        max_iterations: Some(3),
        early_term_factor: Some(1.5f32.to_bits()),
    };
    for c in [BeamSearchConfig::default(), config] {
        let x = beam_search(&a, &[0], 2, 2, c);
        let y = beam_search(&b, &[0], 2, 2, c);
        assert!(!x.is_empty());
        assert_eq!(x.len(), y.len());
        for (x, y) in x.iter().zip(&y) {
            assert_eq!((x.id, x.dist), (y.id, y.dist));
        }
    }
}

#[test]
fn an_index_opened_again_answers_alike() {
    let vectors = points(400, 6, 12);
    for kind in [None, Some(QuantizerKind::F16), Some(QuantizerKind::RaBitQ)] {
        let mut index = SPFresh::build(&vectors, L2, SPFreshConfig::default(), kind).unwrap();
        index.insert(&points(30, 6, 13)).unwrap();
        index.delete(&[3, 401]);
        let blocks: Vec<u8> = (0..index.block_cid.len() as u32)
            .flat_map(|b| index.block_bytes(b))
            .collect();
        let (meta, graph, raw) = (index.meta(), index.graph.to_bytes(), index.raw.clone());
        let again = SPFresh::open(&meta, &graph, blocks, raw, L2).unwrap();
        for q in &vectors[..20] {
            assert_eq!(again.search(q, 7, 4), index.search(q, 7, 4));
        }
    }
}

#[test]
fn answers_are_vectors_with_their_distances() {
    let vectors = points(60, 4, 17);
    let query = vec![0.5f32.to_bits(); 4];
    let index = build(&vectors);
    let config = QuantizedConfig { rerank_size: 12 };
    let params = DiskAnnParams::default();
    let coded = QuantizedDiskANN::build_int8(&vectors, L2, params, config).unwrap();
    for found in [
        index.search_with_dists(&query, 7, 30),
        coded.search_with_dists(&query, 7, 30),
    ] {
        assert_eq!(found.len(), 7);
        for (i, c) in found.iter().enumerate() {
            assert!(c.id < 60);
            assert_eq!(c.dist, L2.eval(&query, &vectors[c.id as usize]));
            for other in &found[i + 1..] {
                assert!(other.id != c.id && num(c.dist) <= num(other.dist));
            }
        }
    }
}

#[test]
fn deleting_and_adding_in_an_incremental_index() {
    let vectors = points(50, 4, 8);
    let mut index = IncrementalDiskANN::build_default(&vectors, L2).unwrap();
    let more = points(5, 4, 9);
    let ids = index.add_vectors(&more).unwrap();
    assert_eq!(ids[0], DELTA_ID_OFFSET);
    assert!(is_delta_id(ids[4]) && !is_delta_id(49));
    assert_eq!(delta_local_idx(ids[4]), 4);
    for i in 0..50 {
        assert_eq!(index.get_vector(i).unwrap(), vectors[i as usize]);
    }
    assert_eq!(index.get_vector(ids[2]).unwrap(), more[2]);
    index.delete_vectors(&[3, ids[1]]).unwrap();
    let once = index.stats();
    index.delete_vectors(&[3, ids[1], 3]).unwrap();
    let twice = index.stats();
    assert_eq!((once.tombstones, once.total_live), (2, 53));
    assert_eq!((twice.tombstones, twice.total_live), (2, 53));
    assert!(index.is_deleted(3) && !index.is_deleted(4));
    assert!(!index.search(&vectors[3], 60, 100).contains(&3));
    index.compact().unwrap();
    let stats = index.stats();
    assert_eq!((stats.base_vectors, stats.delta_vectors, stats.tombstones), (53, 0, 0));
    let kept: Vec<Vec<u32>> = (0..53).map(|i| index.get_vector(i).unwrap()).collect();
    let mut right: Vec<Vec<u32>> = vectors.clone();
    right.remove(3);
    right.extend(more.iter().enumerate().filter(|(i, _)| *i != 1).map(|(_, v)| v.clone()));
    assert_eq!(kept, right);
}

#[test]
fn an_image_reads_back() {
    let vectors = points(40, 4, 10);
    let labels: Vec<Vec<u64>> = (0..40).map(|i| vec![i]).collect();
    let mut index = IncrementalDiskANN::build_full(
        &vectors,
        labels,
        L2,
        IncrementalConfig::default(),
        QuantizerKind::F16,
        IncrementalQuantizedConfig { rerank_size: 8 },
    )
    .unwrap();
    index
        .add_vectors_with_labels(&points(3, 4, 11), vec![vec![7], vec![8], vec![9]])
        .unwrap();
    index.delete_vectors(&[5]).unwrap();
    let bytes = index.to_bytes();
    let again = IncrementalDiskANN::from_bytes(&bytes, L2, IncrementalConfig::default()).unwrap();
    assert!(again.validate());
    assert_eq!(again.to_bytes(), bytes);
    let (a, b) = (again.stats(), index.stats());
    assert_eq!((a.base_vectors, a.delta_vectors), (b.base_vectors, b.delta_vectors));
    assert_eq!((a.tombstones, a.total_live, a.dim), (b.tombstones, b.total_live, b.dim));
    assert_eq!((a.base_vectors, a.delta_vectors, a.tombstones, a.total_live), (40, 3, 1, 42));
    assert!(again.has_labels() && again.has_quantizer());
    for id in (0..40).chain(DELTA_ID_OFFSET..DELTA_ID_OFFSET + 4) {
        assert_eq!(again.is_deleted(id), index.is_deleted(id));
        assert_eq!(again.get_vector(id), index.get_vector(id));
    }
    assert_eq!(again.search(&vectors[0], 9, 30), index.search(&vectors[0], 9, 30));
    let filter = Filter::label_lt(0, 9);
    assert_eq!(
        again.search_filtered(&vectors[0], 9, 30, &filter),
        index.search_filtered(&vectors[0], 9, 30, &filter)
    );
}

#[test]
fn ranks_refine_the_order() {
    let xs = [
        f32::NEG_INFINITY,
        -1.5,
        -0.0,
        0.0,
        1e-40,
        2.0,
        f32::INFINITY,
        f32::NAN,
        -f32::NAN,
    ];
    for a in xs {
        for b in xs {
            let (x, y) = (a.to_bits(), b.to_bits());
            assert_eq!(word::lt(x, y), a < b);
            assert_eq!(word::le(x, y), a <= b);
            assert_eq!(word::rank_of(x) < word::rank_of(y), a.total_cmp(&b).is_lt());
            assert_eq!(word::rank_of(x) == word::rank_of(y), x == y);
        }
        assert_eq!(word::nan(a.to_bits()), a.is_nan());
        assert_eq!(word::finite(a.to_bits()), a.is_finite());
        assert_eq!(word::abs(a.to_bits()), a.abs().to_bits());
        assert_eq!(word::negate(a.to_bits()), (-a).to_bits());
    }
    assert_eq!(num(word::max(1.0f32.to_bits(), 2.0f32.to_bits())), 2.0);
    assert_eq!(num(word::min(1.0f32.to_bits(), f32::NAN.to_bits())), 1.0);
}

#[test]
fn capabilities_are_told_by_name() {
    assert_eq!(describe_capabilities(0), "");
    assert_eq!(describe_capabilities(numkong::cap::HASWELL), "AVX2");
    let two = numkong::cap::SVE2 | numkong::cap::NEON;
    assert_eq!(describe_capabilities(two), "NEON, SVE2");
    assert_eq!(
        describe_capabilities(u64::MAX),
        "AVX2, AVX-512, AVX-512 VNNI, AVX-512 BF16, AVX-512 FP16, AMX, NEON, NEON FP16, \
         NEON SDOT, NEON BFDOT, SVE, SVE2, SME, RVV"
    );
    assert_eq!(simd_info(), describe_capabilities(numkong::available()));
}

#[test]
fn ratios_of_compression() {
    let vectors = points(20, 8, 12);
    assert_eq!(num(F16Quantizer::new(8).compression_ratio(L2, 8)), 2.0);
    let int8 = Int8Quantizer::train(L2, &vectors).unwrap();
    assert_eq!(num(int8.compression_ratio(L2, 8)), 4.0);
    let rq = RaBitQ::train(L2, &vectors).unwrap();
    assert_eq!(num(rq.compression_ratio(L2, 8)), 2.0);
}

// Faults

#[test]
fn faults_of_building() {
    let none: Vec<Vec<u32>> = vec![];
    assert_eq!(fault(DiskANN::build_index_default(&none, L2)), Fault::NoVectors);
    let uneven = rows(&[vec![1.0f32, 2.0], vec![1.0], vec![]]);
    assert_eq!(
        fault(DiskANN::build_index_default(&uneven, L2)),
        Fault::DimensionMismatch { index: 1, found: 1, expected: 2 }
    );
    let named = Metric::Named(1 << 20);
    assert_eq!(
        fault(DiskANN::build_index_default(&line(&[1.0]), named)),
        Fault::HeaderTooLarge
    );
}

#[test]
fn faults_of_headers() {
    let file = build(&line(&[1.0, 2.0])).to_bytes();
    let bytes = |b: &[u8]| DiskANN::from_bytes(b.to_vec(), L2).map(|i| i.dim);
    assert_eq!(fault(bytes(&file[..3])), Fault::NoMetadataLength);
    assert_eq!(fault(bytes(&file[..12])), Fault::NoHeader);
    assert_eq!(fault(bytes(&file[..40])), Fault::NoMetadata);
    let mut other = file.clone();
    other[4] = 9;
    assert_eq!(fault(bytes(&other)), Fault::UnsupportedVersion { version: 9 });
    assert_eq!(
        fault(DiskANN::open_index_with(&other, L2)),
        Fault::UnsupportedVersion { version: 9 }
    );
    assert!(is_eof(DiskANN::open_index_with(&file[..2], L2)));
    assert!(is_eof(DiskANN::open_index_with(&file[..10], L2)));
    assert_eq!(
        fault(DiskANN::open_index_with(&file[..40], L2)),
        Fault::InvalidMetadataLength { length: 54, file_size: 40 }
    );
    let mut short = file.clone();
    short[8] = 20;
    assert!(is_bincode(DiskANN::from_bytes(short, L2)));
}

#[test]
fn faults_of_training() {
    let config = PQConfig {
        num_subspaces: 3,
        num_centroids: 4,
        kmeans_iterations: 1,
        training_sample_size: 0,
    };
    let none: Vec<Vec<u32>> = vec![];
    assert_eq!(fault(ProductQuantizer::train(L2, &none, config)), Fault::NothingToTrainOn);
    assert_eq!(
        fault(ProductQuantizer::train(L2, &points(9, 4, 1), config)),
        Fault::NotDivisible { dim: 4, num_subspaces: 3 }
    );
    let many = PQConfig { num_centroids: 257, ..config };
    assert_eq!(
        fault(ProductQuantizer::train(L2, &points(9, 3, 1), many)),
        Fault::TooManyCentroids { num_centroids: 257 }
    );
    let huge = PQConfig { num_subspaces: usize::MAX, num_centroids: 256, ..config };
    assert_eq!(
        fault(ProductQuantizer::train(L2, &points(9, 4, 1), huge)),
        Fault::NotDivisible { dim: 4, num_subspaces: usize::MAX }
    );
    let uneven = rows(&[vec![1.0f32, 2.0], vec![1.0]]);
    let wrong = Fault::TrainingDimension { expected: 2, found: 1 };
    assert_eq!(fault(Int8Quantizer::train(L2, &uneven)), wrong);
    assert_eq!(fault(RaBitQ::train(L2, &uneven)), wrong);
    assert!(is_bincode(QuantizerState::from_record(&[9, 0, 0, 0])));
}

#[test]
fn faults_of_labels() {
    let vectors = points(3, 2, 1);
    assert_eq!(
        fault(FilteredDiskANN::build(&vectors, vec![vec![1], vec![2]], L2)),
        Fault::LabelCount { labels: 2, vectors: 3 }
    );
    let uneven = vec![vec![1], vec![2, 3], vec![4]];
    assert_eq!(
        fault(FilteredDiskANN::build(&vectors, uneven, L2)),
        Fault::LabelFields { index: 1, found: 2, expected: 1 }
    );
    let labels = serialize_labels(&vec![vec![1u64], vec![2], vec![3]], 1);
    assert_eq!(fault(deserialize_labels(&labels[..7])), Fault::NoLabels);
    assert_eq!(fault(deserialize_labels(&labels[..20])), Fault::NoLabelHead);
    assert_eq!(fault(deserialize_labels(&labels[..40])), Fault::LabelsTruncated);
    assert!(is_eof(load_labels(&labels[..7])));
    assert!(is_eof(load_labels(&labels[..20])));
    assert!(is_eof(load_labels(&labels[..40])));
    let index = FilteredDiskANN::build(&vectors, vec![vec![1], vec![2], vec![3]], L2).unwrap();
    let file = index.to_bytes();
    let load = |b: &[u8]| FilteredDiskANN::from_bytes(b, L2).map(|i| i.num_fields);
    assert_eq!(fault(load(&file[..7])), Fault::BufferTooSmall);
    assert_eq!(fault(load(&file[..100])), Fault::NoIndexData);
    let fewer = serialize_labels(&vec![vec![1u64], vec![2]], 1);
    let base = index.index.to_bytes();
    assert_eq!(
        fault(FilteredDiskANN::open(&base, &fewer, L2)),
        Fault::LabelCount { labels: 2, vectors: 3 }
    );
}

#[test]
fn faults_of_sidecars() {
    let vectors = points(5, 4, 2);
    let config = QuantizedConfig { rerank_size: 0 };
    let index = QuantizedDiskANN::build_f16(&vectors, L2, DiskAnnParams::default(), config).unwrap();
    let (base, good) = (index.base().to_bytes(), index.quantized_to_bytes());
    let open = |b: &[u8]| QuantizedDiskANN::open(&base, b, L2, config).map(|i| i.code_size);
    assert_eq!(open(&good).unwrap(), 8);
    assert_eq!(fault(open(&good[..20])), Fault::QuantizedTooSmall);
    let with = |at: usize, x: u8| {
        let mut b = good.clone();
        b[at] = x;
        b
    };
    assert_eq!(
        fault(open(&with(0, 0))),
        Fault::InvalidMagic { expected: 0x51414e4e, found: 0x51414e00 }
    );
    assert_eq!(fault(open(&with(4, 9))), Fault::UnsupportedVersion { version: 9 });
    assert_eq!(fault(open(&with(9, 4))), Fault::SidecarCount { sidecar: 4, base: 5 });
    assert_eq!(fault(open(&good[..40])), Fault::QuantizerTruncated);
    assert_eq!(fault(open(&with(8, 2))), Fault::QuantizerMismatch);
    assert_eq!(fault(open(&good[..good.len() - 1])), Fault::CodesTruncated);
    let joined = index.to_bytes();
    let load = |b: &[u8]| QuantizedDiskANN::from_bytes(b, L2, config).map(|i| i.code_size);
    assert_eq!(fault(load(&joined[..4])), Fault::BufferTooSmall);
    assert_eq!(fault(load(&joined[..50])), Fault::NoIndexData);
}

#[test]
fn faults_of_incremental_indexes() {
    let vectors = points(4, 2, 3);
    let mut index = IncrementalDiskANN::build_default(&vectors, L2).unwrap();
    assert_eq!(
        fault(index.add_vectors(&rows(&[vec![1.0f32, 2.0], vec![1.0]]))),
        Fault::AddedDimension { index: 1, found: 1, expected: 2 }
    );
    let bytes = index.to_bytes();
    let load = |b: &[u8]| {
        IncrementalDiskANN::from_bytes(b, L2, IncrementalConfig::default()).map(|i| i.dim)
    };
    assert_eq!(load(&bytes).unwrap(), 2);
    assert_eq!(fault(load(&bytes[..3])), Fault::IncrementalTooSmall);
    assert_eq!(fault(load(&bytes[..6])), Fault::IncrementalTruncated);
    assert_eq!(fault(load(&bytes[..bytes.len() - 1])), Fault::IncrementalTruncated);
    let mut other = bytes.clone();
    other[4] = 7;
    assert_eq!(fault(load(&other)), Fault::IncrementalVersion { version: 7 });
    index.delete_vectors(&[0, 1, 2, 3]).unwrap();
    assert_eq!(fault(index.compact()), Fault::NothingToCompact);
}

#[test]
fn an_image_cut_anywhere_is_refused() {
    let mut index = IncrementalDiskANN::build_default(&points(4, 2, 3), L2).unwrap();
    index.add_vectors(&rows(&[vec![1.0f32, 2.0]])).unwrap();
    index.delete_vectors(&[1]).unwrap();
    let bytes = index.to_bytes();
    let load = |n: usize| {
        IncrementalDiskANN::from_bytes(&bytes[..n], L2, IncrementalConfig::default()).map(|i| i.dim)
    };
    assert_eq!(load(bytes.len()).unwrap(), 2);
    for n in (0..300).chain(bytes.len() - 300..bytes.len()) {
        assert!(load(n).is_err());
    }
}

#[test]
fn images_begin_with_a_magic_word_and_a_version() {
    let index = IncrementalDiskANN::build_default(&points(4, 2, 3), L2).unwrap();
    assert_eq!(index.to_bytes()[..8], [0x52, 0x43, 0x4e, 0x49, 1, 0, 0, 0]);
    let empty: IncrementalDiskANN<Metric> =
        IncrementalDiskANN::new_empty(2, L2, IncrementalConfig::default());
    assert_eq!(empty.to_bytes().len(), 59);
}

#[test]
fn faults_of_postings() {
    let vectors = points(30, 3, 4);
    let mut index = SPFresh::build(&vectors, L2, SPFreshConfig::default(), None).unwrap();
    assert_eq!(
        fault(index.insert(&line(&[1.0]))),
        Fault::InsertedDimension { found: 1, expected: 3 }
    );
    let mut huge = Meta::from_bytes(&index.meta()).unwrap();
    huge.dim = usize::MAX;
    assert!(huge.sizes().is_none());
    let graph = index.graph.to_bytes();
    assert_eq!(
        fault(SPFresh::open(&huge.to_bytes(), &graph, vec![], vec![], L2)),
        Fault::OutOfRoom
    );
    let described = index.meta();
    let zeros = SPFresh::open(&described, &graph, vec![], vec![], L2).unwrap();
    assert_eq!(zeros.raw, vec![0; index.raw.len()]);
    assert_eq!(zeros.dim, 3);
    let mut half = index.raw.clone();
    half.truncate(7);
    let partly = SPFresh::open(&described, &graph, vec![], half.clone(), L2).unwrap();
    assert_eq!(partly.raw[..7], half[..]);
    assert_eq!(partly.raw[7..], zeros.raw[7..]);
    assert!(is_bincode(SPFresh::open(&described[..5], &graph, vec![], vec![], L2)));
    assert!(is_bincode(Manifest::from_bytes(&[1, 2])));
    let named = Metric::Named(1 << 20);
    assert_eq!(
        fault(SPFresh::build(&vectors, named, SPFreshConfig::default(), None)),
        Fault::HeaderTooLarge
    );
}

/// Nodes at given distances with given links.
struct Drawn {
    dists: Vec<f32>,
    links: Vec<Vec<u32>>,
}

impl SearchSpace for Drawn {
    fn distance(&self, id: u32) -> u32 {
        self.dists[id as usize].to_bits()
    }
    fn neighbors(&self, id: u32) -> Vec<u32> {
        self.links[id as usize].clone()
    }
    fn keep(&self, _: u32) -> bool {
        true
    }
    fn scale(&self, dist: u32, factor: u32) -> u32 {
        (num(dist) * num(factor)).to_bits()
    }
}

#[test]
fn the_nearest_waiting_node_is_expanded_first() {
    // Had node 1 been expanded before node 2, node 3 would have been found
    let space = Drawn {
        dists: vec![10.0, 5.0, 4.0, 1.0, 2.0],
        links: vec![vec![1, 2], vec![3], vec![4], vec![], vec![]],
    };
    let found = beam_search(&space, &[0], 2, 2, BeamSearchConfig::default());
    let found: Vec<(u32, f32)> = found.iter().map(|c| (c.id, num(c.dist))).collect();
    assert_eq!(found, vec![(4, 2.0), (2, 4.0)]);
}

#[test]
fn no_more_nodes_are_expanded_than_allowed() {
    let path = Path { places: vec![9.0, 8.0, 7.0, 6.0, 5.0], from: 0.0 };
    for limit in 0..6usize {
        let config = BeamSearchConfig {
            expanded_beam: None,
            max_iterations: Some(limit),
            early_term_factor: None,
        };
        let found = beam_search(&path, &[0], 10, 10, config);
        assert_eq!(found.len(), 5.min(limit + 1));
    }
}

#[test]
fn an_early_stop_leaves_far_nodes_unexpanded() {
    let space = Drawn {
        dists: vec![1.0, 4.0, 0.5],
        links: vec![vec![1], vec![2], vec![]],
    };
    for (factor, nearest) in [(2.0f32, 0), (5.0, 2)] {
        let config = BeamSearchConfig {
            expanded_beam: Some(10),
            max_iterations: None,
            early_term_factor: Some(factor.to_bits()),
        };
        assert_eq!(beam_search(&space, &[0], 10, 1, config)[0].id, nearest);
    }
}

#[test]
fn two_runs_of_a_search_return_one_list() {
    let vectors = points(90, 4, 21);
    let index = build(&vectors);
    let again = DiskANN::from_bytes(index.to_bytes(), L2).unwrap();
    for q in &vectors[..10] {
        let lists: Vec<Vec<(u32, u32)>> = [&index, &index, &again]
            .iter()
            .map(|i| i.search_with_dists(q, 8, 20).iter().map(|c| (c.id, c.dist)).collect())
            .collect();
        assert_eq!(lists[0].len(), 8);
        assert_eq!(lists[0], lists[1]);
        assert_eq!(lists[0], lists[2]);
    }
}

#[test]
fn a_search_without_a_filter_is_a_plain_search() {
    let vectors = points(80, 4, 22);
    let labels: Vec<Vec<u64>> = (0..80).map(|i| vec![i]).collect();
    let config = QuantizedConfig { rerank_size: 12 };
    let params = DiskAnnParams::default();
    let coded = QuantizedDiskANN::build_int8(&vectors, L2, params, config).unwrap();
    let mut index = IncrementalDiskANN::build_full(
        &vectors,
        labels.clone(),
        L2,
        IncrementalConfig::default(),
        QuantizerKind::F16,
        IncrementalQuantizedConfig { rerank_size: 8 },
    )
    .unwrap();
    index.add_vectors(&points(6, 4, 23)).unwrap();
    index.delete_vectors(&[4, 9]).unwrap();
    for q in &vectors[..10] {
        let a = coded.search_filtered_with_dists(q, 7, 20, &labels, &Filter::NoFilter);
        let b = coded.search_with_dists(q, 7, 20);
        let pairs = |v: &[diskann::candidate::Candidate]| -> Vec<(u32, u32)> {
            v.iter().map(|c| (c.id, c.dist)).collect()
        };
        assert_eq!(pairs(&a), pairs(&b));
        assert_eq!(a.len(), 7);
        let a = index.search_filtered_with_dists(q, 7, 20, &Filter::NoFilter);
        let b = index.search_with_dists(q, 7, 20);
        let pairs = |v: &[diskann::candidate::Hit]| -> Vec<(u64, u32)> {
            v.iter().map(|h| (h.id, h.dist)).collect()
        };
        assert_eq!(pairs(&a), pairs(&b));
        assert_eq!(a.len(), 7);
    }
}

#[test]
fn an_empty_index_finds_nothing_for_any_query() {
    let index = IncrementalDiskANN::new_empty(4, L2, IncrementalConfig::default());
    assert!(!index.has_entry());
    for n in 0..6 {
        let query = vec![0u32; n];
        assert!(index.search(&query, 3, 10).is_empty());
        assert!(index.search_filtered(&query, 3, 10, &Filter::label_eq(0, 1)).is_empty());
    }
    assert_eq!(index.search_batch(&vec![vec![], vec![1, 2]], 3, 10), vec![Vec::<u64>::new(); 2]);
    let mut index = index;
    index.add_vectors(&points(1, 4, 24)).unwrap();
    assert!(index.has_entry());
}

#[test]
fn vectors_and_rows_are_read_where_other_rows_are_unsound() {
    let vectors = points(20, 4, 25);
    let mut bytes = build(&vectors).to_bytes();
    let sound = DiskANN::from_bytes(bytes.clone(), L2).unwrap();
    let row = sound.get_neighbors(3);
    let at = sound.adjacency_offset as usize + 7 * sound.max_degree * 4;
    bytes[at..at + 4].copy_from_slice(&1_000_000u32.to_le_bytes());
    let index = DiskANN::from_bytes(bytes, L2).unwrap();
    assert!(sound.validate() && !index.validate());
    assert_eq!(index.get_neighbors(7)[0], 1_000_000);
    assert_eq!(index.get_neighbors(3), row);
    for i in 0..20 {
        assert_eq!(index.get_vector(i), vectors[i]);
        assert_eq!(index.distance_to(&vectors[0], i), L2.eval(&vectors[0], &vectors[i]));
    }
}

#[test]
fn added_vectors_have_labels_and_tidy_rows() {
    let labels: Vec<Vec<u64>> = (0..30).map(|i| vec![i]).collect();
    let config = IncrementalConfig::default();
    let mut index =
        IncrementalDiskANN::build_with_labels(&points(30, 4, 26), labels, L2, config).unwrap();
    index.add_vectors_with_labels(&points(2, 4, 27), vec![vec![70], vec![71]]).unwrap();
    index.add_vectors(&points(3, 4, 28)).unwrap();
    assert_eq!(index.delta_labels.len(), index.delta.vectors.len());
    assert_eq!(index.delta_labels[..2], [vec![70], vec![71]]);
    assert!(index.delta.is_tidy() && index.delta.entry_point.is_some());
    index.delta.graph[0].push(900);
    assert!(!index.delta.is_tidy());
}

#[test]
fn codes_name_the_nearest_centroids() {
    let vectors = points(60, 4, 29);
    let config = PQConfig { num_subspaces: 2, num_centroids: 8, ..Default::default() };
    let q = ProductQuantizer::train(L2, &vectors, config).unwrap();
    for v in &vectors {
        let code = q.encode(L2, v);
        for (m, c) in code.iter().enumerate() {
            let square = |c: usize| {
                let at = (m * q.num_centroids + c) * 2;
                num(L2.square_l2(&v[2 * m..2 * m + 2], &q.codebooks[at..at + 2]))
            };
            for other in 0..q.num_centroids {
                assert!(square(*c as usize) <= square(other));
            }
        }
    }
}

#[test]
fn training_again_gives_the_same_codes() {
    let vectors = points(40, 6, 30);
    let a = RaBitQ::train(L2, &vectors).unwrap();
    let b = RaBitQ::train(L2, &vectors).unwrap();
    for v in &vectors {
        assert_eq!(a.encode(L2, v), b.encode(L2, v));
    }
}

#[test]
fn a_labelled_index_reads_back() {
    let vectors = points(50, 4, 31);
    let labels: Vec<Vec<u64>> = (0..50).map(|i| vec![i % 3, i]).collect();
    let index = FilteredDiskANN::build(&vectors, labels, L2).unwrap();
    let again = FilteredDiskANN::from_bytes(&index.to_bytes(), L2).unwrap();
    assert_eq!(again.to_bytes(), index.to_bytes());
    assert_eq!((&again.labels, again.num_fields), (&index.labels, 2));
    let filter = Filter::label_eq(0, 1);
    for q in &vectors[..10] {
        let found: Vec<Vec<(u32, u32)>> = [&index, &again]
            .iter()
            .map(|i| {
                let r = i.search_filtered_with_dists(q, 5, 20, &filter);
                r.iter().map(|c| (c.id, c.dist)).collect()
            })
            .collect();
        assert_eq!(found[0].len(), 5);
        assert_eq!(found[0], found[1]);
    }
}

#[test]
fn codes_are_as_many_as_vectors() {
    let config = QuantizedConfig { rerank_size: 0 };
    let params = DiskAnnParams::default();
    let mut index = QuantizedDiskANN::build_f16(&points(9, 4, 32), L2, params, config).unwrap();
    assert_eq!(index.codes.len(), 9 * index.code_size);
    assert!(index.validate());
    index.codes.push(0);
    assert!(!index.validate());
}

#[test]
fn codes_can_be_made_for_a_loaded_index() {
    let vectors = points(40, 4, 33);
    let config = QuantizedConfig { rerank_size: 0 };
    let bytes = build(&vectors).to_bytes();
    let base = || DiskANN::from_bytes(bytes.clone(), L2).unwrap();
    let int8 = Int8Quantizer::train(L2, &vectors).unwrap();
    let right: Vec<u8> = vectors.iter().flat_map(|v| int8.encode(L2, v)).collect();
    let index = QuantizedDiskANN::from_int8(base(), int8, config);
    assert_eq!((index.code_size, index.codes), (4, right));
    let rq = RaBitQ::train(L2, &vectors).unwrap();
    let right: Vec<u8> = vectors.iter().flat_map(|v| rq.encode(L2, v)).collect();
    assert_eq!(QuantizedDiskANN::from_rabitq(base(), rq, config).codes, right);
    let pq_config = PQConfig { num_subspaces: 2, num_centroids: 8, ..Default::default() };
    let pq = ProductQuantizer::train(L2, &vectors, pq_config).unwrap();
    let right: Vec<u8> = vectors.iter().flat_map(|v| pq.encode(L2, v)).collect();
    assert_eq!(QuantizedDiskANN::from_pq(base(), pq, config).codes, right);
    let index = QuantizedDiskANN::from_f16(base(), config);
    assert_eq!(index.codes.len(), 40 * 8);
    assert_eq!(index.search(&vectors[7], 1, 20), vec![7]);
}
