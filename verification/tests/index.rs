//! The graph driven end to end: a test-side index that keeps the `f32` rows
//! and ids, answers the graph's distance requests with `iqdb-distance`, and
//! is checked through the `iqdb-index` traits.

use std::mem::size_of;
use std::sync::Arc;

use iqdb_distance::compute_batch;
use iqdb_hnsw::{
    ConfigFault, DistKey, HnswConfig, HnswError, HnswIndex as Graph, IdKey, Metric, Request,
    Scored, VERSION,
};
use iqdb_index::{Index, IndexCore, IndexStats};
use iqdb_types::{
    DistanceMetric, Filter, Hit, IqdbError, Metadata, Result, SearchParams, Value, VectorId,
};
use std::collections::HashSet;
use iqdb_flat::{FlatConfig, FlatIndex};


/// Map a metric tag onto the graph's metric.
fn lib_metric(metric: DistanceMetric) -> Option<Metric> {
    match metric {
        DistanceMetric::Cosine => Some(Metric::Cosine),
        DistanceMetric::DotProduct => Some(Metric::DotProduct),
        DistanceMetric::Euclidean => Some(Metric::Euclidean),
        DistanceMetric::Manhattan => Some(Metric::Manhattan),
        DistanceMetric::Hamming => Some(Metric::Hamming),
        _ => None,
    }
}

/// Map a caller's id onto the graph's id.
fn id_key(id: &VectorId) -> IdKey {
    match id {
        VectorId::U64(n) => IdKey::U64(*n),
        VectorId::Bytes(b) => IdKey::Bytes(b.to_vec()),
    }
}

/// Map a graph error onto the shared error type.
fn iqdb_error(e: HnswError) -> IqdbError {
    match e {
        HnswError::InvalidConfig(f) => IqdbError::InvalidConfig {
            reason: match f {
                ConfigFault::ZeroDim => "HnswIndex dim must be greater than zero",
                ConfigFault::ZeroM => "HnswConfig.m must be greater than zero",
                ConfigFault::EfConstructionBelowM => "HnswConfig.ef_construction must be >= m",
                ConfigFault::ZeroEfSearch => "HnswConfig.ef_search must be greater than zero",
                ConfigFault::ZeroFilterWiden => {
                    "HnswConfig.filter_widen must be greater than zero"
                }
                ConfigFault::SequenceOverflow => {
                    "HnswIndex insertion sequence counter overflowed u64"
                }
            },
        },
        HnswError::DimensionMismatch { expected, found } => {
            IqdbError::DimensionMismatch { expected, found }
        }
        HnswError::Duplicate => IqdbError::Duplicate,
        HnswError::NotFound => IqdbError::NotFound,
        HnswError::InvalidMetric => IqdbError::InvalidMetric,
        HnswError::InvalidFilter => IqdbError::InvalidFilter,
        HnswError::CapacityExceeded => IqdbError::ResourceLimitExceeded {
            kind: "total_vectors",
            max: u32::MAX as usize,
            found: u32::MAX as usize,
        },
    }
}

/// The order-preserving integer image of a distance (see `iqdb_hnsw::scored`).
fn dist_key(d: f32) -> DistKey {
    let b = d.to_bits();
    if b >> 31 == 0 {
        b | 0x8000_0000
    } else {
        !b
    }
}

/// The distance behind a key.
fn key_dist(k: DistKey) -> f32 {
    if k >> 31 == 1 {
        f32::from_bits(k & 0x7FFF_FFFF)
    } else {
        f32::from_bits(!k)
    }
}

// Floating point: the layer formula `floor(-ln(u) / ln(m))` is computed on
// `f64`, from the graph's open-unit draw `bits / 2^53`.
fn pick_layer(bits: u64, m_l_inv: f64) -> u8 {
    let u = (bits as f64) * (1.0 / ((1_u64 << 53) as f64));
    let raw = (-u.ln()) * m_l_inv;
    let layer = raw.floor();
    if !layer.is_finite() || layer < 0.0 {
        return 0;
    }
    if layer >= u8::MAX as f64 {
        return u8::MAX;
    }
    layer as u8
}

/// Hierarchical Navigable Small World approximate nearest-neighbour index.
#[derive(Debug)]
pub struct HnswIndex {
    graph: Graph,
    metric: DistanceMetric,
    m_l_inv: f64,
    vectors: Vec<Arc<[f32]>>,
    ids: Vec<VectorId>,
    memo: PairMemo,
}

/// Distances between stored rows already measured while inserting, in a
/// fixed-size table where a newer entry replaces an older one in its slot.
/// Stored rows never change and node numbers are never reused, so a
/// remembered distance is exactly what measuring again would give.
#[derive(Debug, Default)]
struct PairMemo {
    slots: Vec<(u32, u32, DistKey)>,
}

impl PairMemo {
    const SLOTS: usize = 1 << 18;

    fn slot(a: u32, b: u32) -> usize {
        let h = (u64::from(a).wrapping_mul(0x9E37_79B9_7F4A_7C15))
            ^ (u64::from(b).wrapping_mul(0xC2B2_AE3D_27D4_EB4F));
        ((h >> 32) as usize) & (Self::SLOTS - 1)
    }

    fn get(&self, a: u32, b: u32) -> Option<DistKey> {
        if self.slots.is_empty() {
            return None;
        }
        let (x, y, k) = self.slots[Self::slot(a, b)];
        if x == a && y == b {
            Some(k)
        } else {
            None
        }
    }

    fn put(&mut self, a: u32, b: u32, k: DistKey) {
        if self.slots.is_empty() {
            self.slots = vec![(u32::MAX, u32::MAX, 0); Self::SLOTS];
        }
        self.slots[Self::slot(a, b)] = (a, b, k);
    }
}

impl HnswIndex {
    /// Build an empty index for `dim`-component vectors compared under
    /// `metric`. Returns `InvalidConfig` on `dim == 0`, `m == 0`,
    /// `ef_construction < m`, `ef_search == 0` or `filter_widen == 0`.
    pub fn new_unconfigured(dim: usize, metric: DistanceMetric, cfg: HnswConfig) -> Result<Self> {
        cfg.validate(dim).map_err(iqdb_error)?;
        let lib = lib_metric(metric).ok_or(IqdbError::InvalidMetric)?;
        let graph = Graph::new_unconfigured(dim, lib, cfg).map_err(iqdb_error)?;
        Ok(Self {
            graph,
            metric,
            m_l_inv: 1.0_f64 / (cfg.m as f64).ln(),
            vectors: Vec::new(),
            ids: Vec::new(),
            memo: PairMemo::default(),
        })
    }

    /// The dimensionality the index was built for.
    pub fn dim(&self) -> usize {
        self.graph.dim()
    }

    /// The distance metric the index was built for.
    pub fn metric(&self) -> DistanceMetric {
        self.metric
    }

    /// The number of searchable (non-tombstoned) vectors.
    pub fn len(&self) -> usize {
        self.graph.len()
    }

    /// Whether no vector is searchable.
    pub fn is_empty(&self) -> bool {
        self.graph.is_empty()
    }

    /// The configuration the index was built with.
    pub fn config(&self) -> HnswConfig {
        self.graph.config()
    }

    /// The number of nodes whose top layer is `L`, for each layer `L`.
    pub fn node_layer_histogram(&self) -> Vec<usize> {
        self.graph.node_layer_histogram()
    }

    /// Search with an explicit beam width in place of `ef_search`.
    pub fn search_with_ef(&self, query: &[f32], params: &SearchParams, ef: usize) -> Result<Vec<Hit>> {
        self.run_search(query, params, ef)
    }

    /// Distances from the query (or a stored row) to the requested rows, as
    /// keys; a dot product is negated so that smaller is nearer.
    fn measure(&self, query: &[f32], req: &Request) -> Result<Vec<DistKey>> {
        let from: &[f32] = match req.from {
            None => query,
            Some(a) => &self.vectors[a as usize],
        };
        let negate = matches!(self.metric, DistanceMetric::DotProduct);
        if req.to.len() == 1 {
            // The common single-pair request of neighbour selection: no
            // scratch allocation.
            let row: [&[f32]; 1] = [&self.vectors[req.to[0] as usize][..]];
            let mut out = [0.0_f32; 1];
            compute_batch(self.metric, from, &row, &mut out)?;
            let d = if negate { -out[0] } else { out[0] };
            return Ok(vec![dist_key(d)]);
        }
        let mut rows: Vec<&[f32]> = Vec::with_capacity(req.to.len());
        for &n in &req.to {
            rows.push(&self.vectors[n as usize][..]);
        }
        let mut out = vec![0.0_f32; rows.len()];
        compute_batch(self.metric, from, &rows, &mut out)?;
        let mut keys: Vec<DistKey> = Vec::with_capacity(out.len());
        for &d in &out {
            keys.push(dist_key(if negate { -d } else { d }));
        }
        Ok(keys)
    }

    /// Distances from stored row `a` to the requested rows, remembering
    /// each in the memo.
    fn measure_between(&mut self, a: u32, req: &Request) -> Result<Vec<DistKey>> {
        let mut keys: Vec<DistKey> = Vec::with_capacity(req.to.len());
        for &b in &req.to {
            let k = match self.memo.get(a, b) {
                Some(k) => k,
                None => {
                    let row: [&[f32]; 1] = [&self.vectors[b as usize][..]];
                    let mut out = [0.0_f32; 1];
                    compute_batch(self.metric, &self.vectors[a as usize], &row, &mut out)?;
                    let negate = matches!(self.metric, DistanceMetric::DotProduct);
                    let k = dist_key(if negate { -out[0] } else { out[0] });
                    self.memo.put(a, b, k);
                    k
                }
            };
            keys.push(k);
        }
        Ok(keys)
    }

    fn run_search(&self, query: &[f32], params: &SearchParams, ef: usize) -> Result<Vec<Hit>> {
        let metric = match lib_metric(params.metric) {
            Some(m) => m,
            None => {
                if query.len() != self.graph.dim() {
                    return Err(IqdbError::DimensionMismatch {
                        expected: self.graph.dim(),
                        found: query.len(),
                    });
                }
                return Err(IqdbError::InvalidMetric);
            }
        };
        let mut op = self
            .graph
            .search_with_ef(query.len(), metric, params.k, params.filter.is_some(), ef)
            .map_err(iqdb_error)?;
        while let Some(req) = op.request(&self.graph) {
            let keys = self.measure(query, &req)?;
            op.supply(&self.graph, &keys);
        }
        let hits: Vec<Scored> = op
            .filtered_hits(&self.graph, &params.filter)
            .map_err(iqdb_error)?;
        Ok(hits
            .into_iter()
            .map(|s| Hit {
                id: self.ids[s.node as usize].clone(),
                distance: key_dist(s.dist),
                metadata: self.graph.metadata_at(s.node).clone(),
            })
            .collect())
    }

    // Machine-dependent: the footprint comes from `size_of` and the
    // capacities the allocator handed out.
    fn approximate_memory_bytes(&self) -> usize {
        let arc_header_bytes = 2 * size_of::<usize>();
        let vectors_bytes = self
            .vectors
            .iter()
            .map(|arc| arc.len() * size_of::<f32>() + arc_header_bytes)
            .sum::<usize>()
            + self.vectors.capacity() * size_of::<Arc<[f32]>>();
        let ids_bytes = self.ids.capacity() * size_of::<VectorId>();
        let metadata_bytes = self.graph.node_count() * size_of::<Option<Metadata>>();
        let n = self.graph.node_count();
        let column_bytes = n * (size_of::<u64>() + size_of::<bool>() + size_of::<u8>());
        let mut layers_bytes = 0_usize;
        for i in 0..n as u32 {
            let top = self.graph.top_layer_of(i);
            layers_bytes += size_of::<Vec<u32>>() * (top as usize + 1);
            for l in 0..=top {
                layers_bytes += self.graph.neighbours_at(i, l).len() * size_of::<u32>();
            }
        }
        let id_table_bytes = self.graph.len() * (size_of::<u64>() + size_of::<u32>());
        vectors_bytes + ids_bytes + metadata_bytes + column_bytes + layers_bytes + id_table_bytes
    }
}

impl IndexCore for HnswIndex {
    fn insert(&mut self, id: VectorId, vector: Arc<[f32]>, metadata: Option<Metadata>) -> Result<()> {
        let cfg = self.graph.config();
        assert!(cfg.m <= usize::MAX / 2, "attempt to multiply with overflow");
        let layer = pick_layer(self.graph.peek_layer_bits(), self.m_l_inv);
        let mut op = self
            .graph
            .begin_insert(id_key(&id), vector.len(), layer, metadata)
            .map_err(iqdb_error)?;
        self.vectors.push(Arc::clone(&vector));
        self.ids.push(id);
        while let Some(req) = op.request(&self.graph) {
            let keys = match req.from {
                Some(a) => self.measure_between(a, &req)?,
                None => self.measure(&vector, &req)?,
            };
            op.supply(&mut self.graph, &keys);
        }
        Ok(())
    }

    fn delete(&mut self, id: &VectorId) -> Result<()> {
        self.graph.delete(&id_key(id)).map_err(iqdb_error)
    }

    fn search(&self, query: &[f32], params: &SearchParams) -> Result<Vec<Hit>> {
        self.run_search(query, params, self.graph.config().ef_search)
    }

    fn len(&self) -> usize {
        HnswIndex::len(self)
    }

    fn is_empty(&self) -> bool {
        HnswIndex::is_empty(self)
    }

    fn dim(&self) -> usize {
        HnswIndex::dim(self)
    }

    fn metric(&self) -> DistanceMetric {
        HnswIndex::metric(self)
    }

    fn flush(&mut self) -> Result<()> {
        Ok(())
    }

    fn stats(&self) -> IndexStats {
        IndexStats {
            n_vectors: self.graph.len(),
            memory_bytes: self.approximate_memory_bytes(),
            disk_bytes: None,
            index_type: "hnsw",
            extra: None,
        }
    }
}

impl Index for HnswIndex {
    type Config = HnswConfig;

    fn new(dim: usize, metric: DistanceMetric, config: Self::Config) -> Result<Self> {
        Self::new_unconfigured(dim, metric, config)
    }
}

fn arc(v: &[f32]) -> Arc<[f32]> {
    Arc::from(v)
}

fn new_empty(dim: usize, metric: DistanceMetric) -> HnswIndex {
    HnswIndex::new(dim, metric, HnswConfig::default()).unwrap()
}

fn new_loaded(metric: DistanceMetric, n: u64) -> HnswIndex {
    let mut idx = HnswIndex::new(1, metric, HnswConfig::default()).unwrap();
    for i in 0..n {
        idx.insert(VectorId::from(i), arc(&[i as f32]), None)
            .unwrap();
    }
    idx
}

fn synthetic_row(i: usize, dim: usize) -> Vec<f32> {
    (0..dim).map(|j| ((i + j * 7) as f32).sin()).collect()
}

fn query_vector(seed: usize, dim: usize) -> Vec<f32> {
    (0..dim).map(|j| ((seed + j * 11) as f32).cos()).collect()
}

fn build(seed: u64, n: usize, dim: usize, metric: DistanceMetric) -> HnswIndex {
    let cfg = HnswConfig::default().with_seed(seed);
    let mut idx = HnswIndex::new(dim, metric, cfg).unwrap();
    for i in 0..n {
        idx.insert(VectorId::from(i as u64), arc(&synthetic_row(i, dim)), None)
            .unwrap();
    }
    idx
}

fn hits_bit_equal(a: &[Hit], b: &[Hit]) -> bool {
    if a.len() != b.len() {
        return false;
    }
    a.iter().zip(b.iter()).all(|(x, y)| {
        x.id == y.id && x.distance.to_bits() == y.distance.to_bits() && x.metadata == y.metadata
    })
}

fn color(c: &str) -> Metadata {
    [("color".to_string(), Value::String(c.to_string()))]
        .into_iter()
        .collect()
}

fn eq_color(c: &str) -> Filter {
    Filter::eq("color", Value::String(c.to_string()))
}

const N: usize = 1_000;
const DIM: usize = 32;
const K: usize = 10;
const QUERIES: usize = 50;
const RECALL_FLOOR: f64 = 0.95;

/// Beam width of the recall check: the corpus is uniform-random, the
/// hardest case for the graph.
const GATE_EF_SEARCH: usize = 128;

/// A SplitMix64 stream for test data.
struct Rng {
    state: u64,
}

impl Rng {
    fn new(seed: u64) -> Self {
        Self { state: seed }
    }
    fn next_u64(&mut self) -> u64 {
        self.state = self.state.wrapping_add(0x9E37_79B9_7F4A_7C15);
        let mut z = self.state;
        z = (z ^ (z >> 30)).wrapping_mul(0xBF58_476D_1CE4_E5B9);
        z = (z ^ (z >> 27)).wrapping_mul(0x94D0_49BB_1331_11EB);
        z ^ (z >> 31)
    }
    fn next_f32_unit(&mut self) -> f32 {
        let bits = (self.next_u64() >> 40) as u32;
        (bits as f32) / ((1_u32 << 24) as f32)
    }
}

fn make_row(rng: &mut Rng, dim: usize, metric: DistanceMetric) -> Vec<f32> {
    match metric {
        DistanceMetric::Hamming => (0..dim)
            .map(|_| {
                if rng.next_u64() & 1 == 0 {
                    0.0_f32
                } else {
                    1.0
                }
            })
            .collect(),
        _ => (0..dim).map(|_| rng.next_f32_unit() * 2.0 - 1.0).collect(),
    }
}

fn build_flat(metric: DistanceMetric, rows: &[Vec<f32>]) -> FlatIndex {
    let mut flat = FlatIndex::new(DIM, metric, FlatConfig).unwrap();
    for (i, row) in rows.iter().enumerate() {
        flat.insert(VectorId::from(i as u64), Arc::from(row.clone()), None)
            .unwrap();
    }
    flat
}

fn build_hnsw(metric: DistanceMetric, rows: &[Vec<f32>]) -> HnswIndex {
    let cfg = HnswConfig::default();
    let mut idx = HnswIndex::new(DIM, metric, cfg).unwrap();
    for (i, row) in rows.iter().enumerate() {
        idx.insert(VectorId::from(i as u64), Arc::from(row.clone()), None)
            .unwrap();
    }
    idx
}

fn metric_seed_offset(metric: DistanceMetric) -> u64 {
    match metric {
        DistanceMetric::Cosine => 1,
        DistanceMetric::DotProduct => 2,
        DistanceMetric::Euclidean => 3,
        DistanceMetric::Manhattan => 4,
        DistanceMetric::Hamming => 5,
        _ => 6,
    }
}

fn recall_for(metric: DistanceMetric) -> f64 {
    let mut data_rng = Rng::new(0x1234_5678_9ABC_DEF0_u64.wrapping_add(metric_seed_offset(metric)));
    let rows: Vec<Vec<f32>> = (0..N)
        .map(|_| make_row(&mut data_rng, DIM, metric))
        .collect();

    let flat = build_flat(metric, &rows);
    let hnsw = build_hnsw(metric, &rows);

    let mut query_rng = Rng::new(0x000C_AFEB_ABE0_u64.wrapping_add(metric_seed_offset(metric)));
    let params = SearchParams::new(K, metric);

    let mut total: f64 = 0.0;
    for _ in 0..QUERIES {
        let query = make_row(&mut query_rng, DIM, metric);
        let flat_hits = flat.search(&query, &params).unwrap();
        let hnsw_hits = hnsw
            .search_with_ef(&query, &params, GATE_EF_SEARCH)
            .unwrap();
        let flat_set: HashSet<_> = flat_hits.iter().map(|h| h.id.clone()).collect();
        let overlap = hnsw_hits
            .iter()
            .filter(|h| flat_set.contains(&h.id))
            .count();
        total += overlap as f64 / K as f64;
    }
    total / QUERIES as f64
}

#[test]
fn search_results_are_ascending_distance() {
    let mut idx = new_empty(1, DistanceMetric::Euclidean);
    for i in 0..50_u64 {
        idx.insert(VectorId::from(i), arc(&[i as f32]), None)
            .unwrap();
    }
    let hits = idx
        .search(&[0.0], &SearchParams::new(10, DistanceMetric::Euclidean))
        .unwrap();
    assert_eq!(hits.len(), 10);
    for window in hits.windows(2) {
        assert!(
            window[0].distance <= window[1].distance,
            "results not ascending: {window:?}",
        );
    }
}

#[test]
fn search_k_greater_than_n_returns_all_live() {
    let mut idx = new_empty(1, DistanceMetric::Euclidean);
    idx.insert(VectorId::from(1u64), arc(&[1.0]), None).unwrap();
    idx.insert(VectorId::from(2u64), arc(&[2.0]), None).unwrap();
    let hits = idx
        .search(&[0.0], &SearchParams::new(100, DistanceMetric::Euclidean))
        .unwrap();
    assert_eq!(hits.len(), 2);
}

#[test]
fn search_k_equal_n_returns_all() {
    let mut idx = new_empty(1, DistanceMetric::Euclidean);
    idx.insert(VectorId::from(1u64), arc(&[1.0]), None).unwrap();
    idx.insert(VectorId::from(2u64), arc(&[2.0]), None).unwrap();
    let hits = idx
        .search(&[0.0], &SearchParams::new(2, DistanceMetric::Euclidean))
        .unwrap();
    assert_eq!(hits.len(), 2);
}

#[test]
fn insert_dimension_mismatch_returns_typed_error() {
    let mut idx = new_empty(3, DistanceMetric::Euclidean);
    let err = idx
        .insert(VectorId::from(1u64), arc(&[0.0, 0.0]), None)
        .unwrap_err();
    assert_eq!(
        err,
        IqdbError::DimensionMismatch {
            expected: 3,
            found: 2,
        }
    );
}

#[test]
fn search_dimension_mismatch_returns_typed_error() {
    let idx = new_empty(3, DistanceMetric::Euclidean);
    let err = idx
        .search(
            &[0.0, 0.0],
            &SearchParams::new(1, DistanceMetric::Euclidean),
        )
        .unwrap_err();
    assert_eq!(
        err,
        IqdbError::DimensionMismatch {
            expected: 3,
            found: 2,
        }
    );
}

#[test]
fn search_metric_mismatch_returns_invalid_metric() {
    let mut idx = new_empty(2, DistanceMetric::Euclidean);
    idx.insert(VectorId::from(1u64), arc(&[1.0, 0.0]), None)
        .unwrap();
    let err = idx
        .search(&[0.0, 0.0], &SearchParams::new(1, DistanceMetric::Cosine))
        .unwrap_err();
    assert_eq!(err, IqdbError::InvalidMetric);
}

#[test]
fn insert_duplicate_id_returns_duplicate() {
    let mut idx = new_empty(1, DistanceMetric::Euclidean);
    idx.insert(VectorId::from(1u64), arc(&[0.0]), None).unwrap();
    let err = idx
        .insert(VectorId::from(1u64), arc(&[1.0]), None)
        .unwrap_err();
    assert_eq!(err, IqdbError::Duplicate);
}

#[test]
fn delete_missing_returns_not_found() {
    let mut idx = new_empty(1, DistanceMetric::Euclidean);
    let err = idx.delete(&VectorId::from(99u64)).unwrap_err();
    assert_eq!(err, IqdbError::NotFound);
}

#[test]
fn dim_and_metric_reflect_construction() {
    let idx = new_empty(7, DistanceMetric::Cosine);
    assert_eq!(idx.dim(), 7);
    assert_eq!(idx.metric(), DistanceMetric::Cosine);
}

#[test]
fn len_and_is_empty_track_inserts_and_deletes() {
    let mut idx = new_empty(1, DistanceMetric::Euclidean);
    assert!(idx.is_empty());
    assert_eq!(idx.len(), 0);

    idx.insert(VectorId::from(1u64), arc(&[1.0]), None).unwrap();
    assert!(!idx.is_empty());
    assert_eq!(idx.len(), 1);

    idx.insert(VectorId::from(2u64), arc(&[2.0]), None).unwrap();
    assert_eq!(idx.len(), 2);

    idx.delete(&VectorId::from(1u64)).unwrap();
    assert_eq!(idx.len(), 1);
}

#[test]
fn flush_is_ok_for_hnsw() {
    let mut idx = new_empty(1, DistanceMetric::Euclidean);
    idx.flush().unwrap();
}

#[test]
fn stats_reports_hnsw_index_type_and_counts() {
    let mut idx = new_empty(3, DistanceMetric::Euclidean);
    idx.insert(VectorId::from(1u64), arc(&[0.0, 0.0, 0.0]), None)
        .unwrap();
    let stats = idx.stats();
    assert_eq!(stats.n_vectors, 1);
    assert_eq!(stats.index_type, "hnsw");
    assert_eq!(stats.disk_bytes, None);
    assert!(stats.memory_bytes > 0);
    assert!(stats.extra.is_none());
}

#[test]
fn hnsw_index_is_object_safe_through_dyn_index_core() {
    let mut idx: Box<dyn IndexCore> =
        Box::new(HnswIndex::new(2, DistanceMetric::Cosine, HnswConfig::default()).unwrap());
    assert_eq!(idx.dim(), 2);
    assert_eq!(idx.metric(), DistanceMetric::Cosine);
    assert!(idx.is_empty());
    idx.insert(VectorId::from(1u64), arc(&[1.0, 0.0]), None)
        .unwrap();
    assert_eq!(idx.len(), 1);
    idx.flush().unwrap();
}

#[test]
fn invalid_configs_are_rejected_at_new() {
    let err = HnswIndex::new(0, DistanceMetric::Euclidean, HnswConfig::default()).unwrap_err();
    assert!(matches!(err, IqdbError::InvalidConfig { .. }));

    let cfg = HnswConfig::default().with_m(0);
    let err = HnswIndex::new(2, DistanceMetric::Euclidean, cfg).unwrap_err();
    assert!(matches!(err, IqdbError::InvalidConfig { .. }));

    let cfg = HnswConfig::default().with_m(64).with_ef_construction(10);
    let err = HnswIndex::new(2, DistanceMetric::Euclidean, cfg).unwrap_err();
    assert!(matches!(err, IqdbError::InvalidConfig { .. }));

    let cfg = HnswConfig::default().with_ef_search(0);
    let err = HnswIndex::new(2, DistanceMetric::Euclidean, cfg).unwrap_err();
    assert!(matches!(err, IqdbError::InvalidConfig { .. }));

    let cfg = HnswConfig::default().with_filter_widen(0);
    let err = HnswIndex::new(2, DistanceMetric::Euclidean, cfg).unwrap_err();
    assert!(matches!(err, IqdbError::InvalidConfig { .. }));
}

#[test]
fn version_is_semver_triplet() {
    assert_eq!(VERSION.split('.').count(), 3);
    assert!(VERSION.split('.').all(|part| !part.is_empty()));
}

#[test]
fn end_to_end_insert_then_search() {
    let mut idx = HnswIndex::new(2, DistanceMetric::Euclidean, HnswConfig::default()).unwrap();
    idx.insert(VectorId::from(1u64), arc(&[0.0, 0.0]), None)
        .unwrap();
    idx.insert(VectorId::from(2u64), arc(&[3.0, 4.0]), None)
        .unwrap();
    idx.insert(VectorId::from(3u64), arc(&[1.0, 0.0]), None)
        .unwrap();

    let hits = idx
        .search(
            &[0.0, 0.0],
            &SearchParams::new(2, DistanceMetric::Euclidean),
        )
        .unwrap();
    assert_eq!(hits.len(), 2);
    assert_eq!(hits[0].id, VectorId::U64(1));
    assert_eq!(hits[1].id, VectorId::U64(3));
}

#[test]
fn hnsw_config_satisfies_index_config_trait_bounds() {
    fn ensure_default_clone<T: Default + Clone>() -> T {
        let value = T::default();
        value.clone()
    }
    let _config: HnswConfig = ensure_default_clone();
}

#[test]
fn identical_seed_and_order_yields_byte_identical_hits_euclidean() {
    let dim = 32_usize;
    let n = 500_usize;
    let seed = 0xABCD_1234_5678_9ABC;
    let metric = DistanceMetric::Euclidean;

    let a = build(seed, n, dim, metric);
    let b = build(seed, n, dim, metric);

    let params = SearchParams::new(10, metric);
    for q in 0..50 {
        let query = query_vector(q, dim);
        let ha = a.search(&query, &params).unwrap();
        let hb = b.search(&query, &params).unwrap();
        assert!(
            hits_bit_equal(&ha, &hb),
            "divergent hits at query {q}: a={ha:?}, b={hb:?}",
        );
    }
}

#[test]
fn identical_seed_and_order_yields_byte_identical_hits_cosine() {
    let dim = 16_usize;
    let n = 400_usize;
    let seed = 7;
    let metric = DistanceMetric::Cosine;

    let a = build(seed, n, dim, metric);
    let b = build(seed, n, dim, metric);

    let params = SearchParams::new(5, metric);
    for q in 0..40 {
        let query = query_vector(q, dim);
        let ha = a.search(&query, &params).unwrap();
        let hb = b.search(&query, &params).unwrap();
        assert!(hits_bit_equal(&ha, &hb));
    }
}

#[test]
fn search_on_empty_index_returns_empty() {
    let idx = new_empty(3, DistanceMetric::Euclidean);
    let hits = idx
        .search(
            &[0.0, 0.0, 0.0],
            &SearchParams::new(5, DistanceMetric::Euclidean),
        )
        .unwrap();
    assert!(hits.is_empty());
}

#[test]
fn search_with_k_zero_returns_empty() {
    let mut idx = new_empty(2, DistanceMetric::Euclidean);
    idx.insert(VectorId::from(1u64), arc(&[0.0, 0.0]), None)
        .unwrap();
    let hits = idx
        .search(
            &[0.0, 0.0],
            &SearchParams::new(0, DistanceMetric::Euclidean),
        )
        .unwrap();
    assert!(hits.is_empty());
}

#[test]
fn single_vector_search_returns_that_vector() {
    let mut idx = new_empty(2, DistanceMetric::Euclidean);
    idx.insert(VectorId::from(42u64), arc(&[1.5, 2.5]), None)
        .unwrap();
    let hits = idx
        .search(
            &[0.0, 0.0],
            &SearchParams::new(1, DistanceMetric::Euclidean),
        )
        .unwrap();
    assert_eq!(hits.len(), 1);
    assert_eq!(hits[0].id, VectorId::U64(42));
}

#[test]
fn all_identical_vectors_search_does_not_panic_and_orders_deterministically() {
    let mut idx = new_empty(3, DistanceMetric::Euclidean);
    for i in 0..16_u64 {
        idx.insert(VectorId::from(i), arc(&[1.0, 1.0, 1.0]), None)
            .unwrap();
    }
    let hits = idx
        .search(
            &[1.0, 1.0, 1.0],
            &SearchParams::new(5, DistanceMetric::Euclidean),
        )
        .unwrap();
    assert_eq!(hits.len(), 5);
    for hit in &hits {
        assert!(
            hit.distance.abs() < 1e-6,
            "expected zero distance, got {}",
            hit.distance,
        );
    }
    let again = idx
        .search(
            &[1.0, 1.0, 1.0],
            &SearchParams::new(5, DistanceMetric::Euclidean),
        )
        .unwrap();
    let ids_first: Vec<_> = hits.iter().map(|h| h.id.clone()).collect();
    let ids_again: Vec<_> = again.iter().map(|h| h.id.clone()).collect();
    assert_eq!(ids_first, ids_again);
}

#[test]
fn equal_distance_ties_break_deterministically_by_insertion_order() {
    let mut idx = new_empty(1, DistanceMetric::Euclidean);
    idx.insert(VectorId::from(10u64), arc(&[1.0]), None)
        .unwrap();
    idx.insert(VectorId::from(20u64), arc(&[1.0]), None)
        .unwrap();
    idx.insert(VectorId::from(30u64), arc(&[1.0]), None)
        .unwrap();

    let hits = idx
        .search(&[0.0], &SearchParams::new(3, DistanceMetric::Euclidean))
        .unwrap();
    let ids: Vec<VectorId> = hits.iter().map(|h| h.id.clone()).collect();
    assert_eq!(
        ids,
        vec![VectorId::U64(10), VectorId::U64(20), VectorId::U64(30)],
        "tiebreaker should be insertion order",
    );
}

#[test]
fn query_dim_mismatch_returns_typed_error_not_panic() {
    let mut idx = new_empty(4, DistanceMetric::Euclidean);
    idx.insert(VectorId::from(1u64), arc(&[1.0, 0.0, 0.0, 0.0]), None)
        .unwrap();
    let err = idx
        .search(
            &[1.0, 0.0],
            &SearchParams::new(1, DistanceMetric::Euclidean),
        )
        .unwrap_err();
    assert_eq!(
        err,
        IqdbError::DimensionMismatch {
            expected: 4,
            found: 2,
        }
    );
}

#[test]
fn large_n_inserts_without_panic_or_overflow() {
    let mut idx = new_empty(8, DistanceMetric::Euclidean);
    for i in 0..1_000_u64 {
        let v: Vec<f32> = (0..8).map(|j| ((i + j as u64) as f32).sin()).collect();
        idx.insert(VectorId::from(i), arc(&v), None).unwrap();
    }
    assert_eq!(idx.len(), 1_000);
    let hits = idx
        .search(
            &[0.0, 0.0, 0.0, 0.0, 0.0, 0.0, 0.0, 0.0],
            &SearchParams::new(10, DistanceMetric::Euclidean),
        )
        .unwrap();
    assert_eq!(hits.len(), 10);
}

/// The headline filtered-search contract: only records whose metadata
/// satisfies the predicate come back, even when a non-matching record is
/// strictly nearer.
#[test]
fn filter_returns_only_matching_metadata() {
    let mut idx = HnswIndex::new(2, DistanceMetric::Euclidean, HnswConfig::default()).unwrap();

    // id 2 ("blue") is nearest to the origin, but the filter wants "red".
    idx.insert(VectorId::from(1u64), arc(&[0.0, 0.0]), Some(color("red")))
        .unwrap();
    idx.insert(VectorId::from(2u64), arc(&[0.1, 0.0]), Some(color("blue")))
        .unwrap();
    idx.insert(VectorId::from(3u64), arc(&[2.0, 0.0]), Some(color("red")))
        .unwrap();

    let params = SearchParams {
        filter: Some(eq_color("red")),
        ..SearchParams::new(5, DistanceMetric::Euclidean)
    };
    let hits = idx.search(&[0.0, 0.0], &params).unwrap();

    assert_eq!(hits.len(), 2, "exactly the two red records survive");
    assert!(
        hits.iter().all(|h| h.id != VectorId::U64(2)),
        "the blue record must never appear under an eq(\"red\") filter",
    );
    assert_eq!(hits[0].id, VectorId::U64(1));
    assert_eq!(hits[1].id, VectorId::U64(3));
    for window in hits.windows(2) {
        assert!(
            window[0].distance <= window[1].distance,
            "filtered results must stay ascending: {window:?}",
        );
    }
}

/// A predicate that matches nothing yields an empty result set, not an error.
#[test]
fn filter_with_no_matches_returns_empty() {
    let mut idx = HnswIndex::new(2, DistanceMetric::Euclidean, HnswConfig::default()).unwrap();
    idx.insert(VectorId::from(1u64), arc(&[0.0, 0.0]), Some(color("red")))
        .unwrap();
    idx.insert(VectorId::from(2u64), arc(&[1.0, 1.0]), Some(color("red")))
        .unwrap();

    let params = SearchParams {
        filter: Some(eq_color("green")),
        ..SearchParams::new(5, DistanceMetric::Euclidean)
    };
    let hits = idx.search(&[0.0, 0.0], &params).unwrap();
    assert!(hits.is_empty(), "no record is green");
}

/// A record with no metadata at all is rejected by an equality predicate —
/// the filter sees `None` and cannot match a concrete value.
#[test]
fn filter_excludes_records_without_metadata() {
    let mut idx = HnswIndex::new(2, DistanceMetric::Euclidean, HnswConfig::default()).unwrap();
    idx.insert(VectorId::from(1u64), arc(&[0.0, 0.0]), None)
        .unwrap();
    idx.insert(VectorId::from(2u64), arc(&[0.5, 0.0]), Some(color("red")))
        .unwrap();

    let params = SearchParams {
        filter: Some(eq_color("red")),
        ..SearchParams::new(5, DistanceMetric::Euclidean)
    };
    let hits = idx.search(&[0.0, 0.0], &params).unwrap();
    assert_eq!(hits.len(), 1);
    assert_eq!(hits[0].id, VectorId::U64(2));
}

/// A tombstoned record never returns, even when it satisfies the filter.
#[test]
fn filter_still_skips_tombstoned() {
    let mut idx = HnswIndex::new(2, DistanceMetric::Euclidean, HnswConfig::default()).unwrap();
    idx.insert(VectorId::from(1u64), arc(&[0.0, 0.0]), Some(color("red")))
        .unwrap();
    idx.insert(VectorId::from(2u64), arc(&[1.0, 0.0]), Some(color("red")))
        .unwrap();
    idx.delete(&VectorId::from(1u64)).unwrap();

    let params = SearchParams {
        filter: Some(eq_color("red")),
        ..SearchParams::new(5, DistanceMetric::Euclidean)
    };
    let hits = idx.search(&[0.0, 0.0], &params).unwrap();
    assert_eq!(hits.len(), 1);
    assert_eq!(hits[0].id, VectorId::U64(2));
}

#[test]
fn layer_zero_holds_about_fifteen_sixteenths_at_m16() {
    let dim = 16_usize;
    let n = 5_000_usize;
    let cfg = HnswConfig::default(); // m = 16
    let mut idx = HnswIndex::new(dim, DistanceMetric::Euclidean, cfg).unwrap();
    for i in 0..n {
        idx.insert(VectorId::from(i as u64), arc(&synthetic_row(i, dim)), None)
            .unwrap();
    }

    let hist = idx.node_layer_histogram();
    assert!(!hist.is_empty());
    let total: usize = hist.iter().sum();
    assert_eq!(total, n);

    let l0 = hist[0] as f64 / total as f64;
    // Expected ~ 15/16 = 0.9375.
    assert!(
        (l0 - 0.9375).abs() < 0.02,
        "layer-0 fraction {l0:.4} not near 15/16",
    );
}

#[test]
fn histogram_decays_monotonically_in_the_head() {
    let dim = 16_usize;
    let n = 5_000_usize;
    let cfg = HnswConfig::default();
    let mut idx = HnswIndex::new(dim, DistanceMetric::Euclidean, cfg).unwrap();
    for i in 0..n {
        idx.insert(VectorId::from(i as u64), arc(&synthetic_row(i, dim)), None)
            .unwrap();
    }
    let hist = idx.node_layer_histogram();
    assert!(
        hist.len() >= 3,
        "histogram has fewer than 3 layers: {hist:?}",
    );
    assert!(
        hist[0] > hist[1],
        "hist[0]={} not > hist[1]={}",
        hist[0],
        hist[1],
    );
    assert!(
        hist[1] >= hist[2],
        "hist[1]={} unexpectedly < hist[2]={}",
        hist[1],
        hist[2],
    );
}

#[test]
fn empty_index_has_empty_histogram() {
    let cfg = HnswConfig::default();
    let idx = HnswIndex::new(4, DistanceMetric::Euclidean, cfg).unwrap();
    assert!(idx.node_layer_histogram().is_empty());
}

#[test]
fn deleted_id_never_appears_in_search() {
    let mut idx = new_loaded(DistanceMetric::Euclidean, 50);
    idx.delete(&VectorId::from(7u64)).unwrap();

    let hits = idx
        .search(&[7.0], &SearchParams::new(10, DistanceMetric::Euclidean))
        .unwrap();
    for hit in &hits {
        assert_ne!(hit.id, VectorId::U64(7), "deleted id surfaced in results");
    }
    assert_eq!(idx.len(), 49);
}

#[test]
fn delete_then_reinsert_returns_id_again() {
    let mut idx = new_loaded(DistanceMetric::Euclidean, 30);
    idx.delete(&VectorId::from(5u64)).unwrap();
    idx.insert(VectorId::from(5u64), arc(&[99.0]), None)
        .unwrap();
    assert_eq!(idx.len(), 30);

    let hits = idx
        .search(&[99.0], &SearchParams::new(5, DistanceMetric::Euclidean))
        .unwrap();
    let ids: Vec<VectorId> = hits.iter().map(|h| h.id.clone()).collect();
    assert!(
        ids.contains(&VectorId::U64(5)),
        "re-inserted id missing: {ids:?}",
    );
}

#[test]
fn delete_all_leaves_search_returning_empty() {
    let mut idx = new_loaded(DistanceMetric::Euclidean, 8);
    for i in 0..8_u64 {
        idx.delete(&VectorId::from(i)).unwrap();
    }
    assert!(idx.is_empty());

    let hits = idx
        .search(&[0.0], &SearchParams::new(10, DistanceMetric::Euclidean))
        .unwrap();
    assert!(hits.is_empty());
}

#[test]
fn delete_then_search_returns_at_most_remaining() {
    let mut idx = new_loaded(DistanceMetric::Euclidean, 20);
    for i in 0..10_u64 {
        idx.delete(&VectorId::from(i)).unwrap();
    }
    let hits = idx
        .search(&[0.0], &SearchParams::new(50, DistanceMetric::Euclidean))
        .unwrap();
    assert!(hits.len() <= 10);
    for hit in &hits {
        if let VectorId::U64(n) = hit.id {
            assert!(n >= 10, "deleted id {n} surfaced");
        }
    }
}

#[test]
fn stats_n_vectors_excludes_tombstoned() {
    let mut idx = new_loaded(DistanceMetric::Euclidean, 10);
    idx.delete(&VectorId::from(0u64)).unwrap();
    idx.delete(&VectorId::from(1u64)).unwrap();
    assert_eq!(idx.stats().n_vectors, 8);
}

#[test]
fn recall_at_10_on_a_small_corpus_cosine() {
    let recall = recall_for(DistanceMetric::Cosine);
    assert!(
        recall >= RECALL_FLOOR,
        "Cosine recall@10 = {recall:.4} < {RECALL_FLOOR}",
    );
}

#[test]
fn recall_at_10_on_a_small_corpus_dotproduct() {
    let recall = recall_for(DistanceMetric::DotProduct);
    assert!(
        recall >= RECALL_FLOOR,
        "DotProduct recall@10 = {recall:.4} < {RECALL_FLOOR}",
    );
}

#[test]
fn recall_at_10_on_a_small_corpus_euclidean() {
    let recall = recall_for(DistanceMetric::Euclidean);
    assert!(
        recall >= RECALL_FLOOR,
        "Euclidean recall@10 = {recall:.4} < {RECALL_FLOOR}",
    );
}

#[test]
fn recall_at_10_on_a_small_corpus_manhattan() {
    let recall = recall_for(DistanceMetric::Manhattan);
    assert!(
        recall >= RECALL_FLOOR,
        "Manhattan recall@10 = {recall:.4} < {RECALL_FLOOR}",
    );
}

#[test]
fn recall_at_10_on_a_small_corpus_hamming() {
    let recall = recall_for(DistanceMetric::Hamming);
    assert!(
        recall >= RECALL_FLOOR,
        "Hamming recall@10 = {recall:.4} < {RECALL_FLOOR}",
    );
}

#[test]
fn a_filter_nested_too_deep_is_invalid() {
    let mut idx = new_empty(1, DistanceMetric::Euclidean);
    idx.insert(VectorId::from(1u64), arc(&[0.0]), Some(color("red")))
        .unwrap();
    let mut filter = eq_color("red");
    for _ in 0..70 {
        filter = Filter::Not(Box::new(filter));
    }
    let params = SearchParams {
        filter: Some(filter),
        ..SearchParams::new(5, DistanceMetric::Euclidean)
    };
    assert_eq!(idx.search(&[0.0], &params).unwrap_err(), IqdbError::InvalidFilter);
    let empty = new_empty(1, DistanceMetric::Euclidean);
    assert_eq!(empty.search(&[0.0], &params).unwrap_err(), IqdbError::InvalidFilter);
    let none_wanted = SearchParams { k: 0, ..params.clone() };
    assert_eq!(idx.search(&[0.0], &none_wanted).unwrap_err(), IqdbError::InvalidFilter);
}

#[test]
fn an_even_number_of_negations_keeps_the_filter() {
    let mut idx = new_empty(1, DistanceMetric::Euclidean);
    idx.insert(VectorId::from(1u64), arc(&[0.0]), Some(color("red")))
        .unwrap();
    idx.insert(VectorId::from(2u64), arc(&[1.0]), Some(color("blue")))
        .unwrap();
    let filter = Filter::Not(Box::new(Filter::Not(Box::new(eq_color("blue")))));
    let params = SearchParams {
        filter: Some(filter),
        ..SearchParams::new(5, DistanceMetric::Euclidean)
    };
    let hits = idx.search(&[0.0], &params).unwrap();
    assert_eq!(hits.len(), 1);
    assert_eq!(hits[0].id, VectorId::U64(2));
    assert_eq!(hits[0].metadata, Some(color("blue")));
}
