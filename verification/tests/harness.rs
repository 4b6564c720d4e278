use reason_ready::bench::{arg, arg_str, synth_doc, synth_query, synth_term, xorshift, ROOTS};
use reason_ready::error::RrfError;
use reason_ready::eval::{
    arms, env_usize, first_relevant, gains, grade, has_data, ideal_gains, load_corpus,
    load_judgments, load_queries, path_of, recall_counts, worst_queries, ArmPath,
};

fn strs(v: &[&str]) -> Vec<String> {
    v.iter().map(|s| s.to_string()).collect()
}

fn plain_xorshift(x: &mut u64) -> u64 {
    *x ^= *x << 13;
    *x ^= *x >> 7;
    *x ^= *x << 17;
    *x
}

#[test]
fn the_generator_steps_as_it_should() {
    let mut a = 0x5EEDu64;
    let mut b = 0x5EEDu64;
    for _ in 0..100 {
        assert_eq!(xorshift(&mut a), plain_xorshift(&mut b));
        assert_eq!(a, b);
        assert_ne!(a, 0);
    }
}

fn plain_term(seed: &mut u64) -> String {
    let root = ROOTS[(plain_xorshift(seed) % ROOTS.len() as u64) as usize];
    let u = (plain_xorshift(seed) % 1000) as f64 / 1000.0;
    let suffix = ((u * u) * (8192.0 / ROOTS.len() as f64)) as u64;
    format!("{root}{suffix}")
}

#[test]
fn terms_have_the_suffix_that_floating_point_gives() {
    let mut a = 1u64;
    let mut b = 1u64;
    for _ in 0..20_000 {
        assert_eq!(synth_term(&mut a), plain_term(&mut b));
    }
    // Every draw there is.
    for n in 0..1000u64 {
        let u = n as f64 / 1000.0;
        let want = ((u * u) * (8192.0 / 34.0)) as u64;
        assert_eq!(8192 * n * n / 34_000_000, want, "{n}");
    }
}

#[test]
fn documents_and_queries_are_drawn() {
    let mut a = 0x5EEDu64;
    let mut b = 0x5EEDu64;
    let (id, text) = synth_doc(12, &mut a);
    assert_eq!(id, "doc-12");
    let len = 24 + (plain_xorshift(&mut b) % 40) as usize;
    let words: Vec<String> = (0..len).map(|_| plain_term(&mut b)).collect();
    assert_eq!(text, words.join(" "));
    assert_eq!(a, b);
    let q = synth_query(&mut a);
    let len = 2 + (plain_xorshift(&mut b) % 3) as usize;
    let words: Vec<String> = (0..len).map(|_| plain_term(&mut b)).collect();
    assert_eq!(q, words.join(" "));
    assert_eq!(a, b);
}

#[test]
fn arguments_have_defaults() {
    let args = strs(&["rrf-bench", "--docs", "500", "--store", "estate", "--top-k", "x", "--batch"]);
    assert_eq!(arg(&args, "--docs", 7), 500);
    assert_eq!(arg(&args, "--queries", 7), 7);
    assert_eq!(arg(&args, "--top-k", 10), 10);
    assert_eq!(arg(&args, "--batch", 256), 256);
    assert_eq!(arg_str(&args, "--store", "mem"), "estate");
    assert_eq!(arg_str(&args, "--batch", "none"), "none");
    assert_eq!(env_usize(Some("12"), 3), 12);
    assert_eq!(env_usize(Some("-1"), 3), 3);
    assert_eq!(env_usize(None, 3), 3);
}

const CORPUS: &str = "{\"_id\":\"d1\",\"title\":\"T\",\"text\":\"body\"}\n\n  \n{\"_id\":\"d2\",\"text\":\"only\"}\n{\"title\":\"\"}\n";

#[test]
fn a_corpus_prepends_titles() {
    let docs = load_corpus(CORPUS, 0).unwrap();
    let got: Vec<(&str, &str)> = docs.iter().map(|d| (d.id.as_str(), d.text.as_str())).collect();
    assert_eq!(got, vec![("d1", "T. body"), ("d2", "only"), ("", "")]);
    assert_eq!(load_corpus(CORPUS, 2).unwrap().len(), 2);
    assert!(load_corpus("", 0).unwrap().is_empty());
}

#[test]
fn a_broken_corpus_line_fails_unless_the_limit_comes_first() {
    let broken = "{\"_id\":\"d1\",\"text\":\"a\"}\nnot json\n";
    assert!(matches!(load_corpus(broken, 0), Err(RrfError::Json(_))));
    assert_eq!(load_corpus(broken, 1).unwrap().len(), 1);
}

const QRELS: &str = "query-id\tcorpus-id\tscore\nq1\td1\t2\nq1\td2\t1\nq2\td1\t0\n\nq3\td9\nq4\td4\t 1 \nq1\td2\t3\nq5\td1\tx\nq6\td1\t256\n";

const QUERIES: &str = "{\"_id\":\"q1\",\"text\":\"first\"}\n{\"_id\":\"q2\",\"text\":\"unjudged\"}\n{\"_id\":\"q1\",\"text\":\"again\"}\n{\"_id\":\"q4\",\"text\":\"fourth\"}\n";

#[test]
fn only_judged_queries_are_loaded_and_each_once() {
    let js = load_judgments(QRELS);
    let got: Vec<(&str, &str, u8)> =
        js.iter().map(|j| (j.query.as_str(), j.doc.as_str(), j.grade)).collect();
    assert_eq!(
        got,
        vec![("q1", "d1", 2), ("q1", "d2", 1), ("q4", "d4", 1), ("q1", "d2", 3)]
    );
    let qs = load_queries(QRELS, QUERIES, 0).unwrap();
    let got: Vec<(&str, &str)> = qs.iter().map(|q| (q.id.as_str(), q.text.as_str())).collect();
    assert_eq!(got, vec![("q1", "first"), ("q4", "fourth")]);
    // A later judgment of a document replaces an earlier one.
    assert_eq!(qs[0].rels.len(), 2);
    assert_eq!((grade(&qs[0].rels, "d1"), grade(&qs[0].rels, "d2")), (2, 3));
    assert_eq!(load_queries(QRELS, QUERIES, 1).unwrap().len(), 1);
    assert!(matches!(load_queries(QRELS, "{", 0), Err(RrfError::Json(_))));
    assert!(load_queries("", QUERIES, 0).unwrap().is_empty());
}

fn ndcg(gain: &[u8], ideal: &[u8]) -> f64 {
    let sum = |v: &[u8]| {
        v.iter()
            .enumerate()
            .map(|(i, g)| (2f64.powf(*g as f64) - 1.0) / ((i + 2) as f64).log2())
            .sum::<f64>()
    };
    sum(gain) / sum(ideal)
}

#[test]
fn metrics_are_computed_from_grades() {
    let rels: Vec<(String, u8)> =
        vec![("d1".into(), 1), ("d2".into(), 3), ("d3".into(), 0), ("d4".into(), 2)];
    let ids = strs(&["x", "d4", "d2"]);
    assert_eq!(gains(&ids, &rels, 10), vec![0, 2, 3]);
    assert_eq!(gains(&ids, &rels, 2), vec![0, 2]);
    assert_eq!(ideal_gains(&rels, 10), vec![3, 2, 1]);
    assert_eq!(ideal_gains(&rels, 2), vec![3, 2]);
    assert_eq!(recall_counts(&ids, &rels), (2, 3));
    assert_eq!(first_relevant(&ids, &rels), Some(2));
    assert_eq!(first_relevant(&strs(&["d3", "y"]), &rels), None);
    let perfect = strs(&["d2", "d4", "d1"]);
    assert_eq!(ndcg(&gains(&perfect, &rels, 10), &ideal_gains(&rels, 10)), 1.0);
    let n = ndcg(&gains(&ids, &rels, 10), &ideal_gains(&rels, 10));
    assert!((n - 0.574_14).abs() < 1e-4, "{n}");
}

#[test]
fn the_worst_queries_come_first() {
    let v: Vec<(String, u64)> = [("a", 0.5), ("b", 0.0), ("c", 0.5), ("d", -0.0), ("e", 0.1)]
        .iter()
        .map(|(id, x): &(&str, f64)| (id.to_string(), x.to_bits()))
        .collect();
    let got: Vec<String> = worst_queries(&v, 3).into_iter().map(|q| q.0).collect();
    assert_eq!(got, strs(&["d", "b", "e"]));
    let all: Vec<String> = worst_queries(&v, 9).into_iter().map(|q| q.0).collect();
    assert_eq!(all, strs(&["d", "b", "e", "a", "c"]));
}

#[test]
fn the_reranker_arm_runs_only_where_there_is_one() {
    assert_eq!(arms(false), vec!["bm25", "dense", "hybrid"]);
    assert_eq!(arms(true), vec!["bm25", "dense", "hybrid", "rro"]);
}

#[test]
fn every_arm_has_its_search() {
    let paths: Vec<Option<ArmPath>> = arms(true).into_iter().map(path_of).collect();
    assert_eq!(
        paths,
        vec![
            Some(ArmPath::Lexical),
            Some(ArmPath::Dense),
            Some(ArmPath::Hybrid),
            Some(ArmPath::Reranked),
        ]
    );
    assert_eq!(path_of("BM25"), None);
    assert_eq!(path_of(""), None);
}

#[test]
fn an_evaluation_needs_documents_and_queries() {
    let docs = load_corpus("{\"_id\":\"d\",\"text\":\"t\"}", 0).unwrap();
    let queries = load_queries("h\nq\td\t1", "{\"_id\":\"q\",\"text\":\"t\"}", 0).unwrap();
    assert!(has_data(&docs, &queries));
    assert!(!has_data(&docs, &Vec::new()));
    assert!(!has_data(&Vec::new(), &queries));
}

#[test]
fn no_ranking_beats_the_ideal() {
    let rels: Vec<(String, u8)> = [("a", 2), ("b", 0), ("c", 1), ("d", 2), ("e", 1)]
        .iter()
        .map(|(d, g)| (d.to_string(), *g))
        .collect();
    let rankings: [&[&str]; 5] = [
        &["b", "x", "e", "a"],
        &["e", "c", "b", "y", "z", "d"],
        &["x"],
        &["d", "a", "e", "c", "b"],
        &[],
    ];
    for k in 0..7usize {
        let ideal = ideal_gains(&rels, k);
        for r in rankings {
            let mut got = gains(&strs(r), &rels, k);
            got.sort_by(|a, b| b.cmp(a));
            for (j, g) in got.iter().enumerate() {
                assert!(*g <= ideal.get(j).copied().unwrap_or(0), "{r:?} at {k}");
            }
        }
        assert_eq!(gains(&strs(&["a", "d", "c", "e"]), &rels, k), ideal);
    }
}
