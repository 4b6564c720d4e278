use std::collections::BTreeMap;

use reason_ready::census::Census;
use reason_ready::error::RrfError;
use reason_ready::index::Posting;
use reason_ready::keys::{decode_vec, encode_vec};
use reason_ready::kv::get_u64;
use reason_ready::model::{EstateInfo, StoredDoc, VectorRecord};
use reason_ready::score::{rank_top, Scored};
use reason_ready::search::{
    attach_payloads, bare_candidates, fusion_depth, fusion_inputs, hydrate, lexical_terms,
    scan_postings, vector_row,
};
use reason_ready::store::{
    guard_dim, plan_remove, plan_upsert, plan_upsert_that_fits, upsert_fits, Write,
};
use reason_ready::text::content_tokens;

fn rec(id: &str, text: &str, shape: &str) -> VectorRecord {
    VectorRecord {
        id: id.to_string(),
        embedding: vec![1, 2],
        text: text.to_string(),
        metadata: "{}".to_string(),
        shape: shape.to_string(),
    }
}

/// A store in memory: what the writes make of it.
#[derive(Default, Debug, PartialEq)]
struct Estate {
    docs: BTreeMap<String, (String, String, u32)>,
    vecs: BTreeMap<String, Vec<u32>>,
    postings: BTreeMap<(String, String), (u32, u32)>,
    doc_count: u64,
    total_tokens: u64,
    shapes: Option<Vec<u8>>,
}

impl Estate {
    fn stored_doc(&self, id: &str) -> Option<StoredDoc> {
        self.docs.get(id).map(|(text, shape, n)| StoredDoc {
            id: id.to_string(),
            text: text.clone(),
            metadata: "{}".to_string(),
            tags: Vec::new(),
            shape: shape.clone(),
            token_len: *n,
            connector_id: None,
        })
    }

    fn census(&self) -> Census {
        Census::read(self.shapes.as_deref()).unwrap()
    }

    fn apply(&mut self, writes: Vec<Write>) {
        for w in writes {
            match w {
                Write::PutDoc { doc } => {
                    assert!(doc.tags.is_empty() && doc.connector_id.is_none());
                    self.docs.insert(doc.id, (doc.text, doc.shape, doc.token_len));
                }
                Write::DeleteDoc { id } => {
                    self.docs.remove(&id);
                }
                Write::PutVec { id, embedding } => {
                    self.vecs.insert(id, embedding);
                }
                Write::DeleteVec { id } => {
                    self.vecs.remove(&id);
                }
                Write::PutPosting { term, id, posting } => {
                    self.postings.insert((term, id), (posting.tf, posting.len));
                }
                Write::DeletePosting { term, id } => {
                    self.postings.remove(&(term, id));
                }
                Write::PutDocCount { count } => self.doc_count = count,
                Write::PutTotalTokens { count } => self.total_tokens = count,
                Write::PutShapes { census } => self.shapes = Some(census.write().unwrap()),
            }
        }
    }

    fn upsert(&mut self, records: Vec<VectorRecord>) {
        let olds: Vec<Option<StoredDoc>> = records.iter().map(|r| self.stored_doc(&r.id)).collect();
        let census = self.census();
        assert!(upsert_fits(&records, self.doc_count, self.total_tokens, &census));
        let ws = plan_upsert(records, &olds, self.doc_count, self.total_tokens, census);
        self.apply(ws);
    }

    fn remove(&mut self, id: &str) {
        let old = self.stored_doc(id);
        let ws = plan_remove(id, old.as_ref(), self.doc_count, self.total_tokens, self.census());
        self.apply(ws);
    }

    fn check(&self) {
        assert_eq!(self.doc_count as usize, self.docs.len());
        let mut tokens = 0u64;
        let mut postings = 0;
        for (id, (text, _, n)) in &self.docs {
            let terms = content_tokens(text);
            assert_eq!(*n as usize, terms.len());
            tokens += *n as u64;
            let mut distinct = terms.clone();
            distinct.sort();
            distinct.dedup();
            postings += distinct.len();
            for t in distinct {
                let tf = terms.iter().filter(|x| **x == t).count() as u32;
                assert_eq!(self.postings[&(t, id.clone())], (tf, *n));
            }
            assert!(self.vecs.contains_key(id));
        }
        assert_eq!(self.postings.len(), postings);
        assert_eq!(self.vecs.len(), self.docs.len());
        assert_eq!(self.total_tokens, tokens);
    }
}

#[test]
fn upserts_are_indexed_counted_and_read_back() {
    let mut e = Estate::default();
    e.upsert(vec![rec("d1", "Rust rust estate", "s1"), rec("d2", "the estate", "s1")]);
    e.check();
    assert_eq!(e.postings[&("rust".to_string(), "d1".to_string())], (2, 3));
    assert_eq!(e.docs["d2"], ("the estate".to_string(), "s1".to_string(), 1));
    assert_eq!(e.vecs["d1"], vec![1, 2]);
    assert_eq!(e.census().get("s1"), 2);
}

#[test]
fn an_overwrite_retracts_the_old_version() {
    let mut e = Estate::default();
    e.upsert(vec![rec("d1", "alpha beta beta", "s1"), rec("d2", "beta", "s2")]);
    e.upsert(vec![rec("d1", "gamma", "s2")]);
    e.check();
    assert!(!e.postings.contains_key(&("beta".to_string(), "d1".to_string())));
    assert_eq!(e.census().get("s1"), 0);
    assert_eq!(e.census().get("s2"), 2);
    assert_eq!(e.total_tokens, 2);
}

#[test]
fn upserting_twice_is_upserting_once() {
    let mut a = Estate::default();
    a.upsert(vec![rec("d1", "one two two", "s")]);
    let mut b = Estate::default();
    b.upsert(vec![rec("d1", "one two two", "s")]);
    b.upsert(vec![rec("d1", "one two two", "s")]);
    assert_eq!(a, b);
}

#[test]
fn a_removal_undoes_an_upsert() {
    let mut e = Estate::default();
    e.upsert(vec![rec("d1", "alpha beta", "s1")]);
    e.upsert(vec![rec("d2", "beta gamma", "s2")]);
    e.remove("d2");
    e.check();
    assert_eq!(e.docs.len(), 1);
    assert_eq!(e.total_tokens, 2);
    assert_eq!(e.census().get("s2"), 0);
    let before = format!("{e:?}");
    e.remove("nobody");
    assert_eq!(format!("{e:?}"), before);
}

#[test]
fn counters_never_fall_below_zero() {
    let old = StoredDoc {
        id: "d".to_string(),
        text: "alpha".to_string(),
        metadata: "{}".to_string(),
        tags: Vec::new(),
        shape: "s".to_string(),
        token_len: 9,
        connector_id: None,
    };
    let mut e = Estate::default();
    let ws = plan_remove("d", Some(&old), 0, 3, Census::new());
    e.apply(ws);
    assert_eq!((e.doc_count, e.total_tokens), (0, 0));
    assert_eq!(e.census().get("s"), 0);
}

#[test]
fn the_first_upsert_fixes_the_dimension() {
    let info = EstateInfo { name: "e".to_string(), dim: None };
    let g = guard_dim(Some(info), &vec![rec("a", "x", "s")]);
    assert!(g.verdict.is_ok());
    let stored = g.info.unwrap();
    assert_eq!((stored.name.as_str(), stored.dim), ("e", Some(2)));

    // It is fixed even where a later record of the same upsert does not fit.
    let mut odd = rec("b", "y", "s");
    odd.embedding = vec![1, 2, 3];
    let info = EstateInfo { name: "e".to_string(), dim: None };
    let g = guard_dim(Some(info), &vec![rec("a", "x", "s"), odd]);
    assert_eq!(g.info.unwrap().dim, Some(2));
    assert!(matches!(g.verdict, Err(RrfError::DimMismatch { expected: 2, got: 3 })));
}

#[test]
fn a_later_upsert_does_not_change_the_dimension() {
    let info = EstateInfo { name: "e".to_string(), dim: None };
    let fixed = guard_dim(Some(info), &vec![rec("a", "x", "s")]).info.unwrap();
    let mut odd = rec("b", "y", "s");
    odd.embedding = vec![7];
    let g = guard_dim(
        Some(EstateInfo { name: "e".to_string(), dim: fixed.dim }),
        &vec![odd],
    );
    assert!(g.info.is_none());
    assert!(matches!(g.verdict, Err(RrfError::DimMismatch { expected: 2, got: 1 })));
    let g = guard_dim(Some(fixed), &vec![rec("c", "z", "s")]);
    assert!(g.info.is_none() && g.verdict.is_ok());
}

#[test]
fn another_dimension_is_refused() {
    let info = EstateInfo { name: "e".to_string(), dim: Some(5) };
    let g = guard_dim(Some(info), &vec![rec("a", "x", "s")]);
    assert!(g.info.is_none());
    assert!(matches!(g.verdict, Err(RrfError::DimMismatch { expected: 5, got: 2 })));
    let g = guard_dim(None, &vec![rec("a", "x", "s")]);
    assert!(matches!(g.verdict, Err(RrfError::Recall(m)) if m == "estate not initialized"));
}

#[test]
fn counters_without_room_are_told() {
    let records = vec![rec("a", "x", "s")];
    assert!(upsert_fits(&records, 0, 0, &Census::new()));
    assert!(!upsert_fits(&records, u64::MAX, 0, &Census::new()));
    assert!(!upsert_fits(&records, 0, u64::MAX, &Census::new()));
    let full = Census::read(Some(format!("{{\"s\":{}}}", u64::MAX).as_bytes())).unwrap();
    assert!(!upsert_fits(&records, 0, 0, &full));
}

#[test]
fn the_census_is_stored_as_json_and_read_back() {
    let mut c = Census::new();
    for s in ["b", "a\n\"", "b"] {
        c.count(s);
    }
    c.uncount("nobody");
    let bytes = c.write().unwrap();
    assert_eq!(bytes, b"{\"a\\n\\\"\":1,\"b\":2}".to_vec());
    let back = Census::read(Some(&bytes)).unwrap();
    assert_eq!((back.get("b"), back.get("a\n\""), back.get("c")), (2, 1, 0));
    assert!(matches!(Census::read(Some(b"[]")), Err(RrfError::Json(_))));
    assert_eq!(Census::read(None).unwrap().get("b"), 0);
}

#[test]
fn writes_go_to_rows_of_their_own() {
    let put = Write::PutPosting {
        term: "t".to_string(),
        id: "d".to_string(),
        posting: Posting { tf: 1, len: 1 },
    };
    assert_eq!((put.cf(), put.key()), ("terms", b"t\x00d".to_vec()));
    let vec = Write::DeleteVec { id: "d".to_string() };
    assert_eq!((vec.cf(), vec.key()), ("vecs", b"d".to_vec()));
    let doc = Write::DeleteDoc { id: "d".to_string() };
    assert_eq!((doc.cf(), doc.key()), ("docs", b"d".to_vec()));
    let n = Write::PutDocCount { count: 1 };
    let t = Write::PutTotalTokens { count: 1 };
    let s = Write::PutShapes { census: Census::new() };
    assert_eq!((n.cf(), t.cf(), s.cf()), ("meta", "meta", "meta"));
    assert!(n.key() != t.key() && t.key() != s.key() && n.key() != s.key());
}

#[test]
fn rows_hold_what_the_writes_say() {
    let put = |rows: &mut BTreeMap<(&'static str, Vec<u8>), Vec<u8>>, writes: Vec<Write>| {
        for w in writes {
            let at = (w.cf(), w.key());
            match w {
                Write::PutVec { embedding, .. } => rows.insert(at, encode_vec(&embedding)),
                Write::PutDocCount { count } => rows.insert(at, count.to_le_bytes().to_vec()),
                Write::PutTotalTokens { count } => rows.insert(at, count.to_le_bytes().to_vec()),
                Write::PutShapes { census } => rows.insert(at, census.write().unwrap()),
                Write::PutDoc { .. } | Write::PutPosting { .. } => rows.insert(at, Vec::new()),
                _ => rows.remove(&at),
            };
        }
    };
    let mut rows = BTreeMap::new();
    let records = vec![rec("d1", "alpha beta", "s"), rec("d2", "beta", "s")];
    put(&mut rows, plan_upsert(records, &vec![None, None], 0, 0, Census::new()));
    let count = |rows: &BTreeMap<(&'static str, Vec<u8>), Vec<u8>>, key: &str| {
        get_u64(rows.get(&("meta", key.as_bytes().to_vec())).map(|b| b.as_slice()))
    };
    assert_eq!((count(&rows, "doc_count"), count(&rows, "total_tokens")), (2, 3));
    assert_eq!(decode_vec(&rows[&("vecs", b"d2".to_vec())]), vec![1, 2]);
    assert_eq!(rows.keys().filter(|(cf, _)| *cf == "terms").count(), 3);

    let old = stored("d1", "alpha beta");
    let census = Census::read(rows.get(&("meta", b"shapes".to_vec())).map(|b| b.as_slice())).unwrap();
    put(&mut rows, plan_remove("d1", old.as_ref(), 2, 3, census));
    assert_eq!((count(&rows, "doc_count"), count(&rows, "total_tokens")), (1, 2));
    let terms: Vec<Vec<u8>> =
        rows.keys().filter(|(cf, _)| *cf == "terms").map(|(_, k)| k.clone()).collect();
    assert_eq!(terms, vec![b"beta\x00d2".to_vec()]);
    assert!(!rows.contains_key(&("vecs", b"d1".to_vec())));
}

#[test]
fn a_postings_scan_finds_just_the_term() {
    let p = |tf| Posting { tf, len: 9 };
    let rows: Vec<(Vec<u8>, Posting)> = vec![
        (b"rus\x00d1".to_vec(), p(1)),
        (b"rust\x00d1".to_vec(), p(2)),
        (b"rust\x00d2".to_vec(), p(3)),
        (b"rusty\x00d1".to_vec(), p(4)),
    ];
    let got = scan_postings(&rows, "rust");
    assert_eq!(got, vec![("d1".to_string(), p(2)), ("d2".to_string(), p(3))]);
    assert!(scan_postings(&rows, "go").is_empty());
    assert!(scan_postings(&rows, "zoo").is_empty());
}

#[test]
fn a_row_of_the_vectors_names_its_document() {
    assert_eq!(vector_row("d\u{e9}1".as_bytes()), "d\u{e9}1");
    assert_eq!(vector_row(&[b'a', 0xff, b'b']), "a\u{fffd}b");
}

#[test]
fn fusion_goes_four_times_as_deep_as_asked() {
    assert_eq!(fusion_depth(10), 40);
    assert_eq!(fusion_depth(0), 0);
    assert_eq!(fusion_depth(usize::MAX), usize::MAX);
}

#[test]
fn a_query_without_content_is_not_looked_up() {
    assert_eq!(lexical_terms("the Estate", 3), Some(vec!["estate".to_string()]));
    assert_eq!(lexical_terms("of the", 3), None);
    assert_eq!(lexical_terms("estate", 0), None);
}

fn scored(v: &[(&str, f32)]) -> Vec<Scored> {
    v.iter().map(|(id, s)| Scored { id: id.to_string(), score: s.to_bits() }).collect()
}

#[test]
fn fusion_takes_the_ranks_of_both_rankings() {
    let dense = scored(&[("a", 0.1), ("b", 0.9), ("c", 0.5), ("d", 0.2), ("e", 0.3)]);
    let lexical = scored(&[("c", 7.0), ("x", 9.0)]);
    let mut got = fusion_inputs(&dense, &lexical, 1);
    got.sort();
    // "a" is the fifth of the dense ranking, below the depth of four.
    assert_eq!(
        got,
        vec![
            ("b".to_string(), vec![1]),
            ("c".to_string(), vec![2, 2]),
            ("d".to_string(), vec![4]),
            ("e".to_string(), vec![3]),
            ("x".to_string(), vec![1]),
        ]
    );
}

fn stored(id: &str, text: &str) -> Option<StoredDoc> {
    Some(StoredDoc {
        id: id.to_string(),
        text: text.to_string(),
        metadata: "{\"k\":1}".to_string(),
        tags: Vec::new(),
        shape: "s".to_string(),
        token_len: 1,
        connector_id: None,
    })
}

#[test]
fn dense_results_without_a_payload_are_bare_and_hybrid_ones_are_dropped() {
    let ranked = scored(&[("a", 0.9), ("b", 0.5)]);
    let docs = vec![stored("a", "alpha"), None];
    let dense = attach_payloads(&ranked, &docs);
    assert_eq!(dense.len(), 2);
    assert_eq!((dense[0].text.as_str(), dense[0].metadata.as_str()), ("alpha", "{\"k\":1}"));
    assert_eq!((dense[1].id.as_str(), dense[1].text.as_str()), ("b", ""));
    assert_eq!(f32::from_bits(dense[1].score), 0.5);
    let hybrid = hydrate(&ranked, &docs);
    assert_eq!(hybrid.len(), 1);
    assert_eq!(hybrid[0].id, "a");
    let bare = bare_candidates(&ranked, 1);
    assert_eq!((bare.len(), bare[0].id.as_str(), bare[0].text.as_str()), (1, "a", ""));
}

#[test]
fn a_query_without_content_keeps_the_dense_order() {
    let dense = scored(&[("a", 0.1), ("b", 0.9), ("c", 0.5), ("d", 0.9), ("e", -0.3)]);
    assert_eq!(lexical_terms("of the", 3), None);
    let fused: Vec<Scored> = fusion_inputs(&dense, &Vec::new(), 3)
        .into_iter()
        .map(|(id, ranks)| {
            assert_eq!(ranks.len(), 1);
            Scored { id, score: (1.0f32 / (60.0 + ranks[0] as f32)).to_bits() }
        })
        .collect();
    let hybrid = rank_top(&fused, 3);
    let plain = rank_top(&dense, 3);
    let ids = |v: &Vec<Scored>| v.iter().map(|s| s.id.clone()).collect::<Vec<_>>();
    assert_eq!(ids(&hybrid), vec!["b", "d", "c"]);
    assert_eq!(ids(&hybrid), ids(&plain));
    for (i, s) in hybrid.iter().enumerate() {
        assert_eq!(f32::from_bits(s.score), 1.0 / (60.0 + (i + 1) as f32));
    }
    let docs = vec![stored("b", "beta"), stored("d", "delta"), stored("c", "gamma")];
    let (h, p) = (hydrate(&hybrid, &docs), attach_payloads(&plain, &docs));
    assert_eq!(h.len(), p.len());
    for (x, y) in h.iter().zip(&p) {
        assert_eq!((&x.id, &x.text, &x.metadata), (&y.id, &y.text, &y.metadata));
    }
}

#[test]
fn an_upsert_without_room_is_not_planned() {
    let one = || vec![rec("a", "alpha", "s")];
    assert!(plan_upsert_that_fits(one(), &vec![None], u64::MAX, 0, Census::new()).is_none());
    assert!(plan_upsert_that_fits(one(), &vec![None], 0, u64::MAX, Census::new()).is_none());
    let mut e = Estate::default();
    e.apply(plan_upsert_that_fits(one(), &vec![None], 0, 0, Census::new()).unwrap());
    e.check();
    // What counts is tokens: a text without any fits where no token does.
    let quiet = vec![rec("b", "of the", "s")];
    assert!(plan_upsert_that_fits(quiet, &vec![None], 0, u64::MAX, Census::new()).is_some());
}

#[test]
fn two_records_with_one_id_in_one_upsert_are_both_counted() {
    let mut e = Estate::default();
    e.upsert(vec![rec("a", "alpha", "s"), rec("a", "beta", "s")]);
    assert_eq!((e.doc_count, e.total_tokens), (2, 2));
    assert_eq!(e.docs["a"].0, "beta");
    assert_eq!(e.postings.len(), 2);
}
