use iqdb_hnsw::{
    cap_at_layer, dist_lt, select_simple, sort_by_rank, take_topk_sorted, ConfigFault, HnswConfig, HnswError,
    HnswIndex, IdKey, Metric, Scored, SplitMix64, VERSION,
};

/// The order-preserving key of a distance.
fn key(d: f32) -> u32 {
    let b = d.to_bits();
    if b >> 31 == 0 {
        b | 0x8000_0000
    } else {
        !b
    }
}

/// The distance behind a key.
fn dist(k: u32) -> f32 {
    if k >> 31 == 1 {
        f32::from_bits(k & 0x7FFF_FFFF)
    } else {
        f32::from_bits(!k)
    }
}

fn s(d: f32, seq: u64, node: u32) -> Scored {
    Scored { dist: key(d), seq, node }
}

#[test]
fn default_values_are_the_documented_operating_point() {
    let cfg = HnswConfig::default();
    assert_eq!(cfg.m, 16);
    assert_eq!(cfg.ef_construction, 200);
    assert_eq!(cfg.ef_search, 64);
    assert_eq!(cfg.filter_widen, 4);
    assert_eq!(cfg.seed, 0xDEAD_BEEF_CAFE_F00D);
}

#[test]
fn with_helpers_compose() {
    let cfg = HnswConfig::default()
        .with_m(8)
        .with_ef_construction(100)
        .with_ef_search(32)
        .with_filter_widen(2)
        .with_seed(42);
    assert_eq!(cfg.m, 8);
    assert_eq!(cfg.ef_construction, 100);
    assert_eq!(cfg.ef_search, 32);
    assert_eq!(cfg.filter_widen, 2);
    assert_eq!(cfg.seed, 42);
}

#[test]
fn cap_at_layer_zero_is_two_m() {
    assert_eq!(cap_at_layer(16, 0), 32);
    assert_eq!(cap_at_layer(8, 0), 16);
}

#[test]
fn cap_at_layer_above_zero_is_m() {
    assert_eq!(cap_at_layer(16, 1), 16);
    assert_eq!(cap_at_layer(16, 5), 16);
}

#[test]
fn same_seed_produces_same_sequence() {
    let mut a = SplitMix64::new(0xCAFE_F00D);
    let mut b = SplitMix64::new(0xCAFE_F00D);
    for _ in 0..1024 {
        assert_eq!(a.next_u64(), b.next_u64());
    }
}

#[test]
fn different_seeds_diverge() {
    let mut a = SplitMix64::new(1);
    let mut b = SplitMix64::new(2);
    let mut equal = 0;
    for _ in 0..1024 {
        if a.next_u64() == b.next_u64() {
            equal += 1;
        }
    }
    assert!(equal < 4, "too much agreement: {equal}/1024");
}

/// The open-unit sample `bits / 2^53` of a draw.
fn open_unit(rng: &mut SplitMix64) -> f64 {
    (rng.next_open_bits() as f64) * (1.0 / ((1_u64 << 53) as f64))
}

#[test]
fn open_unit_is_in_unit_interval_exclusive_zero() {
    let mut rng = SplitMix64::new(7);
    for _ in 0..10_000 {
        let u = open_unit(&mut rng);
        assert!(u > 0.0 && u <= 1.0, "u = {u}");
    }
}

#[test]
fn open_unit_never_returns_zero_from_zero_seed() {
    let mut rng = SplitMix64::new(0);
    for _ in 0..10_000 {
        assert!(open_unit(&mut rng) > 0.0);
    }
}

#[test]
fn splitmix_matches_the_reference_outputs() {
    let mut rng = SplitMix64::new(0);
    assert_eq!(rng.next_u64(), 0xE220_A839_7B1D_CDAF);
    assert_eq!(rng.next_u64(), 0x6E78_9E6A_A1B9_65F4);
}

#[test]
fn peek_open_bits_is_the_next_draw() {
    let mut rng = SplitMix64::new(0xDEAD_BEEF_CAFE_F00D);
    for _ in 0..100 {
        let peeked = rng.peek_open_bits();
        assert_eq!(peeked, rng.next_open_bits());
        assert!(peeked > 0 && peeked < (1_u64 << 53));
    }
    let mut fresh = SplitMix64::new(0);
    let first = fresh.next_u64() >> 11;
    assert_eq!(SplitMix64::new(0).peek_open_bits(), first);
}

#[test]
fn ordering_is_by_distance_then_seq() {
    assert!(s(1.0, 100, 0) < s(2.0, 0, 1));
    assert!(s(1.0, 0, 0) < s(1.0, 1, 1));
    assert_eq!(s(1.0, 7, 0), s(1.0, 7, 99));
}

#[test]
fn precedes_agrees_with_the_order() {
    assert!(s(1.0, 100, 0).precedes(&s(2.0, 0, 1)));
    assert!(s(1.0, 0, 0).precedes(&s(1.0, 1, 1)));
    let a = s(1.0, 7, 0);
    let b = s(1.0, 7, 99);
    assert!(!a.precedes(&b) && !b.precedes(&a));
    assert_ne!(s(1.0, 7, 0), s(1.0, 8, 0));
    assert!(s(-1.0, 9, 0) < s(0.0, 0, 1));
}

#[test]
fn take_topk_sorted_returns_best_first() {
    let mut items = Vec::new();
    for (d, node) in [(5.0, 0), (1.0, 1), (4.0, 2), (2.0, 3), (3.0, 4)] {
        items.push(s(d, node as u64, node));
    }
    let top = take_topk_sorted(&items, 3);
    let nodes: Vec<u32> = top.iter().map(|x| x.node).collect();
    assert_eq!(nodes, vec![1, 3, 4]);
}

#[test]
fn take_topk_sorted_k_zero_is_empty() {
    let items = vec![s(1.0, 0, 0)];
    assert!(take_topk_sorted(&items, 0).is_empty());
}

#[test]
fn take_topk_sorted_k_greater_than_heap_returns_all() {
    let items = vec![s(2.0, 1, 1), s(1.0, 0, 0)];
    let top = take_topk_sorted(&items, 10);
    assert_eq!(top.len(), 2);
    assert_eq!(top[0].node, 0);
    assert_eq!(top[1].node, 1);
}

#[test]
fn nan_is_handled_via_total_cmp() {
    let items = vec![s(f32::NAN, 0, 0), s(1.0, 1, 1), s(2.0, 2, 2)];
    let top = take_topk_sorted(&items, 3);
    assert_eq!(top.len(), 3);
    assert_eq!(top[0].node, 1);
    assert_eq!(top[1].node, 2);
    assert!(dist(top[2].dist).is_nan());
}

#[test]
fn sort_by_rank_keeps_ties_in_order() {
    let items = vec![s(2.0, 5, 0), s(1.0, 3, 1), s(2.0, 5, 2), s(1.0, 1, 3)];
    let sorted = sort_by_rank(&items);
    let nodes: Vec<u32> = sorted.iter().map(|x| x.node).collect();
    assert_eq!(nodes, vec![3, 1, 0, 2]);
}

#[test]
fn dist_lt_follows_float_less_than() {
    assert!(dist_lt(key(1.0), key(2.0)));
    assert!(dist_lt(key(-3.0), key(-1.0)));
    assert!(dist_lt(key(f32::NEG_INFINITY), key(0.0)));
    assert!(!dist_lt(key(2.0), key(1.0)));
    assert!(!dist_lt(key(1.0), key(1.0)));
    assert!(!dist_lt(key(-0.0), key(0.0)));
    assert!(!dist_lt(key(f32::NAN), key(1.0)));
    assert!(!dist_lt(key(1.0), key(f32::NAN)));
    assert!(!dist_lt(key(-f32::NAN), key(1.0)));
}

#[test]
fn keys_round_trip_and_order_like_total_cmp() {
    let values = [f32::NEG_INFINITY, -2.5, -0.0, 0.0, 1e-30, 1.0, 7.25, f32::INFINITY];
    for w in values.windows(2) {
        assert!(key(w[0]) < key(w[1]));
    }
    for v in values {
        assert_eq!(dist(key(v)).to_bits(), v.to_bits());
    }
}

#[test]
fn validate_reports_the_first_failed_check() {
    let ok = HnswConfig::default();
    assert_eq!(ok.validate(4), Ok(()));
    assert_eq!(ok.validate(0), Err(HnswError::InvalidConfig(ConfigFault::ZeroDim)));
    assert_eq!(
        ok.with_m(0).validate(4),
        Err(HnswError::InvalidConfig(ConfigFault::ZeroM))
    );
    assert_eq!(
        ok.with_m(64).with_ef_construction(10).validate(4),
        Err(HnswError::InvalidConfig(ConfigFault::EfConstructionBelowM))
    );
    assert_eq!(
        ok.with_ef_search(0).validate(4),
        Err(HnswError::InvalidConfig(ConfigFault::ZeroEfSearch))
    );
    assert_eq!(
        ok.with_filter_widen(0).validate(4),
        Err(HnswError::InvalidConfig(ConfigFault::ZeroFilterWiden))
    );
    assert_eq!(
        ok.with_m(0).with_ef_search(0).validate(0),
        Err(HnswError::InvalidConfig(ConfigFault::ZeroDim))
    );
}

#[test]
fn id_keys_compare_by_value() {
    assert!(IdKey::U64(7).same(&IdKey::U64(7)));
    assert!(!IdKey::U64(7).same(&IdKey::U64(8)));
    assert!(IdKey::Bytes(vec![1, 2]).same(&IdKey::Bytes(vec![1, 2])));
    assert!(!IdKey::Bytes(vec![1, 2]).same(&IdKey::Bytes(vec![2, 1])));
    assert!(!IdKey::U64(1).same(&IdKey::Bytes(vec![1])));
    assert_eq!(IdKey::U64(7).bucket(), IdKey::U64(7).bucket());
    assert_eq!(IdKey::Bytes(vec![9; 3]).bucket(), IdKey::Bytes(vec![9; 3]).bucket());
}

#[test]
fn version_is_the_package_version() {
    assert_eq!(VERSION, "1.0.0");
}

/// A one-dimensional index: each node is a point on the line, and the
/// distance is the absolute difference.
struct Line {
    graph: HnswIndex,
    points: Vec<f32>,
    ids: Vec<u64>,
    m_l_inv: f64,
}

impl Line {
    fn new(cfg: HnswConfig) -> Line {
        Line {
            graph: HnswIndex::new_unconfigured(1, Metric::Euclidean, cfg).unwrap(),
            points: Vec::new(),
            ids: Vec::new(),
            m_l_inv: 1.0 / (cfg.m as f64).ln(),
        }
    }

    fn measure(&self, from: f32, to: &[u32]) -> Vec<u32> {
        to.iter()
            .map(|&n| key((self.points[n as usize] - from).abs()))
            .collect()
    }

    fn insert(&mut self, id: u64, p: f32) -> Result<(), HnswError> {
        let bits = self.graph.peek_layer_bits();
        let u = (bits as f64) / ((1_u64 << 53) as f64);
        let layer = ((-u.ln()) * self.m_l_inv).floor().min(255.0) as u8;
        let mut op = self.graph.begin_insert(IdKey::U64(id), 1, layer, None)?;
        self.points.push(p);
        self.ids.push(id);
        while let Some(req) = op.request(&self.graph) {
            let from = match req.from {
                None => p,
                Some(a) => self.points[a as usize],
            };
            let keys = self.measure(from, &req.to);
            op.supply(&mut self.graph, &keys);
        }
        Ok(())
    }

    fn search(&self, q: f32, k: usize, ef: usize) -> Vec<(u64, f32)> {
        let mut op = self
            .graph
            .search_with_ef(1, Metric::Euclidean, k, false, ef)
            .unwrap();
        while let Some(req) = op.request(&self.graph) {
            let from = match req.from {
                None => q,
                Some(a) => self.points[a as usize],
            };
            let keys = self.measure(from, &req.to);
            op.supply(&self.graph, &keys);
        }
        let accept = vec![true; op.results().len()];
        op.hits(&self.graph, &accept)
            .iter()
            .map(|h| (self.ids[h.node as usize], dist(h.dist)))
            .collect()
    }

    fn delete(&mut self, id: u64) -> Result<(), HnswError> {
        self.graph.delete(&IdKey::U64(id))
    }
}

#[test]
fn line_search_finds_the_nearest_points() {
    let mut line = Line::new(HnswConfig::default().with_m(4).with_ef_construction(16));
    for i in 0..200_u64 {
        line.insert(i, (i * 37 % 200) as f32).unwrap();
    }
    assert_eq!(line.graph.len(), 200);
    assert_eq!(line.graph.node_count(), 200);
    let hits = line.search(50.2, 3, 32);
    let points: Vec<f32> = hits.iter().map(|&(id, _)| (id * 37 % 200) as f32).collect();
    assert_eq!(points, vec![50.0, 51.0, 49.0]);
    for w in hits.windows(2) {
        assert!(w[0].1 <= w[1].1);
    }
}

#[test]
fn line_insert_errors_change_nothing() {
    let mut line = Line::new(HnswConfig::default());
    line.insert(1, 1.0).unwrap();
    assert_eq!(line.insert(1, 2.0), Err(HnswError::Duplicate));
    assert_eq!(
        line.graph.begin_insert(IdKey::U64(2), 3, 0, None).err(),
        Some(HnswError::DimensionMismatch { expected: 1, found: 3 })
    );
    assert_eq!(line.graph.len(), 1);
    assert_eq!(line.graph.node_count(), 1);
}

#[test]
fn line_delete_then_contains_is_false_and_reinsert_is_allowed() {
    let mut line = Line::new(HnswConfig::default().with_m(4).with_ef_construction(8));
    for i in 0..20_u64 {
        line.insert(i, i as f32).unwrap();
    }
    assert!(line.graph.contains(&IdKey::U64(7)));
    line.delete(7).unwrap();
    assert!(!line.graph.contains(&IdKey::U64(7)));
    assert_eq!(line.graph.len(), 19);
    assert_eq!(line.delete(7), Err(HnswError::NotFound));
    assert!(line.search(7.0, 20, 64).iter().all(|&(id, _)| id != 7));
    line.insert(7, 7.0).unwrap();
    assert!(line.graph.contains(&IdKey::U64(7)));
    assert_eq!(line.graph.len(), 20);
    assert_eq!(line.graph.node_count(), 21);
    assert_eq!(line.search(7.0, 1, 64)[0].0, 7);
}

#[test]
fn line_histogram_sums_to_node_count() {
    let mut line = Line::new(HnswConfig::default());
    assert!(line.graph.node_layer_histogram().is_empty());
    for i in 0..300_u64 {
        line.insert(i, i as f32).unwrap();
    }
    let hist = line.graph.node_layer_histogram();
    assert_eq!(hist.iter().sum::<usize>(), 300);
    let max_top = (0..300_u32).map(|i| line.graph.top_layer_of(i)).max().unwrap();
    assert_eq!(hist.len(), max_top as usize + 1);
    assert!(*hist.last().unwrap() > 0);
    for i in 0..300_u32 {
        let top = line.graph.top_layer_of(i);
        assert!(hist[top as usize] > 0);
        let list = line.graph.neighbours_at(i, 0);
        for (a, x) in list.iter().enumerate() {
            assert!(!list[a + 1..].contains(x), "node {i} repeats neighbour {x}");
        }
        assert!(line.graph.neighbours_at(i, 0).len() <= cap_at_layer(16, 0));
        for l in 1..=top {
            assert!(line.graph.neighbours_at(i, l).len() <= cap_at_layer(16, l));
        }
    }
}

#[test]
fn line_search_errors_and_empty_results() {
    let mut line = Line::new(HnswConfig::default());
    assert!(line.search(0.0, 5, 10).is_empty());
    line.insert(3, 3.0).unwrap();
    assert!(line.search(0.0, 0, 10).is_empty());
    assert_eq!(
        line.graph.search(2, Metric::Euclidean, 5, false).err(),
        Some(HnswError::DimensionMismatch { expected: 1, found: 2 })
    );
    assert_eq!(
        line.graph.search(1, Metric::Cosine, 5, false).err(),
        Some(HnswError::InvalidMetric)
    );
    assert_eq!(line.search(100.0, 5, 10), vec![(3, 97.0)]);
}

#[test]
fn new_unconfigured_rejects_bad_configs() {
    let bad = HnswIndex::new_unconfigured(0, Metric::Euclidean, HnswConfig::default());
    assert_eq!(bad.err(), Some(HnswError::InvalidConfig(ConfigFault::ZeroDim)));
    let bad = HnswIndex::new_unconfigured(4, Metric::Euclidean, HnswConfig::default().with_m(0));
    assert_eq!(bad.err(), Some(HnswError::InvalidConfig(ConfigFault::ZeroM)));
    let good = HnswIndex::new_unconfigured(4, Metric::Hamming, HnswConfig::default()).unwrap();
    assert_eq!(good.dim(), 4);
    assert_eq!(good.metric(), Metric::Hamming);
    assert!(good.is_empty());
    assert_eq!(good.config(), HnswConfig::default());
}

impl Line {
    /// Every neighbour of `node`, at each of its layers, is live and holds
    /// `node` back.
    fn links_back(&self, node: u32) -> bool {
        let top = self.graph.top_layer_of(node);
        (0..=top).all(|l| {
            self.graph.neighbours_at(node, l).iter().all(|&s| {
                self.graph.is_live(s) && self.graph.neighbours_at(s, l).contains(&node)
            })
        })
    }
}

#[test]
fn a_finished_insertion_is_linked_both_ways() {
    let mut line = Line::new(HnswConfig::default().with_m(2).with_ef_construction(4));
    for i in 0..150_u64 {
        if i % 7 == 3 {
            line.delete(i - 1).unwrap();
        }
        line.insert(i, ((i * 53) % 150) as f32).unwrap();
        let node = (line.graph.node_count() - 1) as u32;
        assert!(line.links_back(node), "node {node} not linked back");
        assert!(line.graph.neighbours_at(node, 0).len() > 0 || i == 0);
    }
}

#[test]
fn same_seed_gives_the_same_layer_draws_whatever_the_data() {
    let cfg = HnswConfig::default().with_seed(99);
    let mut a = Line::new(cfg);
    let mut b = Line::new(cfg);
    for i in 0..50_u64 {
        assert_eq!(a.graph.peek_layer_bits(), b.graph.peek_layer_bits());
        a.insert(i, i as f32).unwrap();
        b.insert(1000 + i, (i * i) as f32).unwrap();
        assert_eq!(a.graph.top_layer_of(i as u32), b.graph.top_layer_of(i as u32));
    }
    let c = Line::new(HnswConfig::default().with_seed(100));
    assert_ne!(c.graph.peek_layer_bits(), Line::new(cfg).graph.peek_layer_bits());
}

#[test]
fn len_counts_the_live_nodes() {
    let mut line = Line::new(HnswConfig::default());
    for i in 0..30_u64 {
        line.insert(i, i as f32).unwrap();
    }
    for i in (0..30_u64).step_by(3) {
        line.delete(i).unwrap();
    }
    let live = (0..30_u32).filter(|&i| line.graph.is_live(i)).count();
    assert_eq!(line.graph.len(), live);
    assert_eq!(live, 20);
    assert_eq!(line.graph.node_count(), 30);
}

#[test]
fn search_results_are_ascending_distinct_and_within_the_beam() {
    let mut line = Line::new(HnswConfig::default().with_m(4).with_ef_construction(16));
    for i in 0..100_u64 {
        line.insert(i, ((i * 31) % 100) as f32 * 0.5).unwrap();
    }
    let mut op = line.graph.search_with_ef(1, Metric::Euclidean, 3, true, 5).unwrap();
    while let Some(req) = op.request(&line.graph) {
        let keys = line.measure(20.25, &req.to);
        op.supply(&line.graph, &keys);
    }
    let results = op.results().clone();
    assert!(results.len() <= 5 * 4);
    assert!(results.len() >= 3);
    for w in results.windows(2) {
        assert!(w[0].precedes(&w[1]));
    }
    let mut nodes: Vec<u32> = results.iter().map(|r| r.node).collect();
    nodes.sort();
    nodes.dedup();
    assert_eq!(nodes.len(), results.len());
    let accept: Vec<bool> = results.iter().map(|r| r.node % 2 == 0).collect();
    let hits = op.hits(&line.graph, &accept);
    assert!(hits.len() <= 3);
    assert!(hits.iter().all(|h| h.node % 2 == 0));
    let expected: Vec<u32> = results
        .iter()
        .filter(|r| r.node % 2 == 0)
        .take(3)
        .map(|r| r.node)
        .collect();
    assert_eq!(hits.iter().map(|h| h.node).collect::<Vec<u32>>(), expected);
}

#[test]
fn select_simple_keeps_the_nearest() {
    let items = vec![s(3.0, 0, 0), s(1.0, 1, 1), s(2.0, 2, 2), s(1.0, 0, 3)];
    let nodes: Vec<u32> = select_simple(&items, 2).iter().map(|x| x.node).collect();
    assert_eq!(nodes, vec![3, 1]);
    assert!(select_simple(&items, 0).is_empty());
    assert!(select_simple(&Vec::new(), 3).is_empty());
    assert_eq!(select_simple(&items, 9).len(), 4);
}

impl Line {
    /// Insert `p` under `id`, returning every request the insertion made.
    fn insert_logged(&mut self, id: u64, p: f32, layer: u8) -> Vec<(Option<u32>, Vec<u32>)> {
        let mut op = self.graph.begin_insert(IdKey::U64(id), 1, layer, None).unwrap();
        self.points.push(p);
        self.ids.push(id);
        let mut log = Vec::new();
        while let Some(req) = op.request(&self.graph) {
            let from = match req.from {
                None => p,
                Some(a) => self.points[a as usize],
            };
            let keys = self.measure(from, &req.to);
            log.push((req.from, req.to.clone()));
            op.supply(&mut self.graph, &keys);
        }
        log
    }
}

#[test]
fn an_insertion_asks_from_the_new_vector_then_between_candidates() {
    let mut line = Line::new(HnswConfig::default().with_m(2).with_ef_construction(8));
    assert!(line.insert_logged(0, 0.0, 0).is_empty());
    let second = line.insert_logged(1, 1.0, 0);
    assert_eq!(second[0], (None, vec![0]));
    let third = line.insert_logged(2, 5.0, 0);
    assert_eq!(third[0], (None, vec![0]));
    // Both earlier nodes are candidates; the farther one (node 0) is
    // compared with the admitted nearer one (node 1) before it is kept.
    assert!(third.contains(&(Some(0), vec![1])));
    assert!(third.iter().all(|(from, _)| *from != Some(2)));
    // The pruned candidate fills the list back up to the cap.
    assert_eq!(line.graph.neighbours_at(2, 0).to_vec(), vec![1, 0]);
}

#[test]
fn a_started_search_first_asks_for_the_entry_point() {
    let mut line = Line::new(HnswConfig::default());
    for i in 0..10_u64 {
        line.insert(i, i as f32).unwrap();
    }
    let op = line.graph.search_with_ef(1, Metric::Euclidean, 3, false, 8).unwrap();
    let req = op.request(&line.graph).unwrap();
    assert_eq!(req.from, None);
    assert_eq!(req.to.len(), 1);
    let top = (0..10_u32).map(|i| line.graph.top_layer_of(i)).max().unwrap();
    assert_eq!(line.graph.top_layer_of(req.to[0]), top);
    let none = line.graph.search_with_ef(1, Metric::Euclidean, 0, false, 8).unwrap();
    assert!(none.request(&line.graph).is_none());
    assert!(none.results().is_empty());
}

#[test]
fn a_search_with_room_in_its_beam_reaches_every_node() {
    let mut line = Line::new(HnswConfig::default().with_m(4).with_ef_construction(16));
    for i in 0..40_u64 {
        line.insert(i, ((i * 17) % 40) as f32).unwrap();
    }
    let hits = line.search(13.5, 40, 200);
    assert_eq!(hits.len(), 40);
    let mut ids: Vec<u64> = hits.iter().map(|&(id, _)| id).collect();
    ids.sort();
    assert_eq!(ids, (0..40_u64).collect::<Vec<u64>>());
    assert!(hits.windows(2).all(|w| w[0].1 <= w[1].1));
}
