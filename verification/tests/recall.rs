use reason_ready::embedder::{DevPulseEmbedder, ModelSpec};
use reason_ready::error::RrfError;
use reason_ready::flat::FlatRecall;
use reason_ready::model::{Candidate, VectorRecord};
use reason_ready::registry::{Mode, ShapeFingerprint, ShapeRegistry};
use reason_ready::reranker::{DevPulseReranker, RerankSpec};

fn record(id: &str, v: &[f32], text: &str) -> VectorRecord {
    VectorRecord {
        id: id.to_string(),
        embedding: v.iter().map(|x| x.to_bits()).collect(),
        text: text.to_string(),
        metadata: "{}".to_string(),
        shape: "".to_string(),
    }
}

fn cosine(q: &[f32], bits: &[u32]) -> f32 {
    let v: Vec<f32> = bits.iter().map(|b| f32::from_bits(*b)).collect();
    let dot: f32 = q.iter().zip(&v).map(|(a, b)| a * b).sum();
    let norm = |x: &[f32]| x.iter().map(|a| a * a).sum::<f32>().sqrt();
    dot / (norm(q) * norm(&v))
}

fn search(store: &FlatRecall, q: &[f32], top_k: usize) -> Result<Vec<Candidate>, RrfError> {
    let scores: Vec<u32> =
        store.records().iter().map(|r| cosine(q, &r.embedding).to_bits()).collect();
    store.search(q.len(), &scores, top_k)
}

#[test]
fn upsert_search_roundtrip() {
    let mut store = FlatRecall::new();
    store
        .upsert(vec![
            record("a", &[1.0, 0.0, 0.0], "apple"),
            record("b", &[0.0, 1.0, 0.0], "banana"),
            record("c", &[0.9, 0.1, 0.0], "apricot"),
        ])
        .unwrap();

    assert_eq!(store.len(), 3);
    let hits = search(&store, &[1.0, 0.0, 0.0], 2).unwrap();
    assert_eq!(hits.len(), 2);
    assert_eq!(hits[0].id, "a");
    assert_eq!(hits[1].id, "c");
}

#[test]
fn dim_mismatch_is_rejected() {
    let mut store = FlatRecall::new();
    store.upsert(vec![record("a", &[1.0, 0.0], "x")]).unwrap();
    let err = store.upsert(vec![record("b", &[1.0, 0.0, 0.0], "y")]);
    assert!(matches!(err, Err(RrfError::DimMismatch { .. })));
}

#[test]
fn a_failed_upsert_puts_nothing_but_fixes_the_dimension() {
    let mut store = FlatRecall::new();
    let err = store.upsert(vec![record("a", &[1.0], "x"), record("b", &[1.0, 2.0], "y")]);
    assert!(matches!(err, Err(RrfError::DimMismatch { expected: 1, got: 2 })));
    assert_eq!(store.len(), 0);
    assert!(matches!(store.check_dim(2), Err(RrfError::DimMismatch { expected: 1, got: 2 })));
    assert!(store.check_dim(1).is_ok());
    assert!(matches!(
        store.check_query(3, 1),
        Err(RrfError::DimMismatch { expected: 1, got: 3 })
    ));
    assert!(store.upsert(Vec::new()).is_ok());
}

#[test]
fn records_are_replaced_and_removed_by_id() {
    let mut store = FlatRecall::default();
    for id in ["a", "b", "c", "d"] {
        store.upsert(vec![record(id, &[1.0], id)]).unwrap();
    }
    store.upsert(vec![record("b", &[2.0], "new"), record("b", &[3.0], "newest")]).unwrap();
    assert_eq!(store.len(), 4);
    store.remove("a");
    store.remove("nobody");
    let mut left: Vec<(String, String)> =
        store.records().iter().map(|r| (r.id.clone(), r.text.clone())).collect();
    left.sort();
    let want: Vec<(String, String)> = [("b", "newest"), ("c", "c"), ("d", "d")]
        .iter()
        .map(|(a, b)| (a.to_string(), b.to_string()))
        .collect();
    assert_eq!(left, want);
    store.remove("d");
    store.upsert(vec![record("c", &[4.0], "again")]).unwrap();
    assert_eq!(store.len(), 2);
}

#[test]
fn a_flat_search_ranks_by_score_alone() {
    let mut store = FlatRecall::new();
    store
        .upsert(vec![record("z", &[1.0], "1"), record("a", &[1.0], "2"), record("m", &[1.0], "3")])
        .unwrap();
    let s = |v: [f32; 3]| v.iter().map(|x| x.to_bits()).collect::<Vec<u32>>();
    let ids = |v: Vec<Candidate>| v.into_iter().map(|c| c.id).collect::<Vec<_>>();
    assert_eq!(ids(store.search(1, &s([0.5, 0.5, 0.9]), 3).unwrap()), vec!["m", "z", "a"]);
    assert!(store.search(1, &s([0.5, 0.5, 0.9]), 0).unwrap().is_empty());
    assert!(store.search(2, &s([0.5, 0.5, 0.9]), 0).unwrap().is_empty());
    assert!(matches!(
        store.search(2, &s([0.5, 0.5, 0.9]), 1),
        Err(RrfError::DimMismatch { expected: 1, got: 2 })
    ));
}

fn shape(keys: &[&str]) -> ShapeFingerprint {
    ShapeFingerprint::from_key(keys.join("|"))
}

#[test]
fn same_shape_registers_once_drift_registers_new() {
    let mut reg = ShapeRegistry::new();
    let (id1, new1) = reg.observe(&shape(&["from", "subject"]), Mode::Mail);
    let (id2, new2) = reg.observe(&shape(&["from", "subject"]), Mode::Mail);
    assert!(new1 && !new2);
    assert_eq!(id1, id2);

    // Drift: an extra field is a NEW sliver, never silent reuse.
    let (id3, new3) = reg.observe(&shape(&["from", "subject", "thread"]), Mode::Mail);
    assert!(new3);
    assert_ne!(id1, id3);
    assert_eq!(reg.slivers_of(Mode::Mail).len(), 2);
}

#[test]
fn slivers_are_listed_by_mode_in_the_order_of_their_ids() {
    let mut reg = ShapeRegistry::default();
    assert!(reg.is_empty());
    reg.observe(&shape(&["b"]), Mode::Mail);
    reg.observe(&shape(&["a"]), Mode::Other(1));
    reg.observe(&shape(&["c"]), Mode::Mail);
    // The mode stays the one of the first observation.
    assert_eq!(reg.observe(&shape(&["b"]), Mode::Other(1)), (0, false));
    let mail: Vec<(u64, String, u64)> =
        reg.slivers_of(Mode::Mail).iter().map(|s| (s.id, s.key.clone(), s.count)).collect();
    assert_eq!(mail, vec![(0, "b".to_string(), 2), (2, "c".to_string(), 1)]);
    assert_eq!(reg.slivers_of(Mode::Other(1)).len(), 1);
    assert!(reg.slivers_of(Mode::Other(2)).is_empty());
    assert_eq!(reg.len(), 3);
    assert!(!reg.is_empty());
}

#[test]
fn the_embedder_reports_honestly() {
    let spec = ModelSpec::qwen(1024);
    assert_eq!((spec.name.as_str(), spec.dim), ("devpulse-embed-qwen", 1024));
    assert!(spec.weights_path.is_none());
    let e = DevPulseEmbedder::new(spec);
    assert_eq!((e.dim(), e.model_name()), (1024, "devpulse-embed-qwen"));
    match e.embed(&vec!["x".to_string()]) {
        Err(RrfError::Embed(m)) => assert_eq!(
            m,
            "DevPULSE embedder `devpulse-embed-qwen` has no weights loaded (build with --features candle)"
        ),
        _ => panic!("no weights are wired"),
    }
    match e.load() {
        Err(RrfError::Embed(m)) => assert_eq!(
            m,
            "DevPULSE embedder requires the `candle` feature and tuned weights; use DeterministicEmbedder until they are wired"
        ),
        _ => panic!("no backbone is wired"),
    }
}

#[test]
fn the_reranker_reports_honestly() {
    let spec = RerankSpec::nemotron();
    assert_eq!(spec.name, "devpulse-rerank-nemotron");
    assert!(spec.weights_path.is_none());
    let r = DevPulseReranker::new(spec);
    assert_eq!(r.model_name(), "devpulse-rerank-nemotron");
    match r.rerank("q", Vec::new(), 3) {
        Err(RrfError::Rerank(m)) => assert_eq!(
            m,
            "DevPULSE reranker `devpulse-rerank-nemotron` has no weights loaded (build with --features candle)"
        ),
        _ => panic!("no weights are wired"),
    }
    match r.load() {
        Err(RrfError::Rerank(m)) => assert_eq!(
            m,
            "DevPULSE reranker requires the `candle` feature and tuned weights; use LexicalReranker until they are wired"
        ),
        _ => panic!("no backbone is wired"),
    }
}

#[test]
fn the_lists_of_the_modes_part_the_registry() {
    let mut reg = ShapeRegistry::new();
    let modes = [Mode::Mail, Mode::Other(1), Mode::Other(2)];
    for i in 0..30u32 {
        // A shape that is observed again stays under its first mode.
        let key = format!("k{}", i % 11);
        reg.observe(&ShapeFingerprint::from_key(key), modes[(i % 3) as usize]);
    }
    assert_eq!(reg.len(), 11);
    let mut seen = Vec::new();
    for m in modes {
        let list = reg.slivers_of(m);
        assert!(list.windows(2).all(|w| w[0].id < w[1].id));
        for s in list {
            assert_eq!(s.mode, m);
            assert_eq!(s.mode, modes[(s.id % 3) as usize]);
            seen.push(s.id);
        }
    }
    seen.sort();
    assert_eq!(seen, (0..11u64).collect::<Vec<_>>());
    assert!(reg.slivers_of(Mode::Other(9)).is_empty());
}

#[test]
fn every_observation_counts_once() {
    let mut reg = ShapeRegistry::new();
    let keys = ["a", "b", "a", "c", "a", "b"];
    for k in keys {
        reg.observe(&ShapeFingerprint::from_key(k.to_string()), Mode::Mail);
    }
    let counts: Vec<u64> = reg.slivers_of(Mode::Mail).iter().map(|s| s.count).collect();
    assert_eq!(counts, vec![3, 2, 1]);
    assert_eq!(counts.iter().sum::<u64>(), keys.len() as u64);
    assert_eq!(reg.len(), 3);
}
