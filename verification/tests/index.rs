use reason_ready::index::{bm25_hits, fusion_ranks, group, term_counts, Hit, Posting, Postings};
use reason_ready::score::{rank_top, Scored};

/// Okapi BM25 with the usual parameters, over the hits of a document.
fn bm25(n_docs: u64, avgdl: f32, hits: &[Hit]) -> f32 {
    let (k1, b) = (1.2f32, 0.75f32);
    let n = n_docs.max(1) as f32;
    let avgdl = avgdl.max(1.0);
    let mut score = 0.0f32;
    for h in hits {
        let df = h.df as f32;
        let idf = (((n - df + 0.5) / (df + 0.5)) + 1.0).ln().max(0.0);
        let f = h.tf as f32;
        let denom = f + k1 * (1.0 - b + b * h.len as f32 / avgdl);
        score += idf * (f * (k1 + 1.0)) / denom;
    }
    score
}

fn fuse(lists: &Vec<Vec<String>>, k: f32) -> Vec<Scored> {
    let scored: Vec<Scored> = fusion_ranks(lists)
        .into_iter()
        .map(|(id, ranks)| {
            let mut score = 0.0f32;
            for r in ranks {
                score += 1.0 / (k + r as f32);
            }
            Scored { id, score: score.to_bits() }
        })
        .collect();
    rank_top(&scored, scored.len())
}

#[test]
fn rrf_prefers_agreement() {
    // "b" is ranked well by both lists; "a" and "c" only by one each.
    let lists: Vec<Vec<String>> =
        vec![vec!["a".into(), "b".into()], vec!["b".into(), "c".into()]];
    let fused = fuse(&lists, 60.0);
    assert_eq!(fused[0].id, "b");
}

#[test]
fn bm25_scores_rarer_terms_higher() {
    let common: Postings = (0..50)
        .map(|i| (format!("d{i}"), Posting { tf: 1, len: 10 }))
        .collect();
    let rare: Postings = vec![("d0".into(), Posting { tf: 1, len: 10 })];

    let hits = bm25_hits(&vec![("common".into(), common), ("rare".into(), rare)]);
    let score = |id: &str| {
        let (_, h) = hits.iter().find(|(d, _)| d == id).unwrap();
        bm25(100, 10.0, h)
    };
    // d0 matched both terms; its score must beat any common-only doc.
    let d0 = score("d0");
    let d1 = score("d1");
    assert!(d0 > d1);
}

#[test]
fn fusion_ranks_count_from_one_list_by_list() {
    let lists: Vec<Vec<String>> =
        vec![vec!["x".into(), "y".into()], vec!["y".into()], Vec::new()];
    let mut got = fusion_ranks(&lists);
    got.sort();
    assert_eq!(got, vec![("x".to_string(), vec![1]), ("y".to_string(), vec![2, 1])]);
}

#[test]
fn hits_carry_how_many_documents_have_the_term() {
    let a: Postings = vec![
        ("d1".into(), Posting { tf: 3, len: 9 }),
        ("d2".into(), Posting { tf: 1, len: 4 }),
    ];
    let none: Postings = Vec::new();
    let b: Postings = vec![("d2".into(), Posting { tf: 2, len: 4 })];
    let mut got = bm25_hits(&vec![("a".into(), a), ("n".into(), none), ("b".into(), b)]);
    got.sort_by(|x, y| x.0.cmp(&y.0));
    assert_eq!(got.len(), 2);
    assert_eq!(got[0], ("d1".to_string(), vec![Hit { df: 2, tf: 3, len: 9 }]));
    assert_eq!(
        got[1],
        ("d2".to_string(), vec![Hit { df: 2, tf: 1, len: 4 }, Hit { df: 1, tf: 2, len: 4 }])
    );
}

#[test]
fn terms_are_counted() {
    let words: Vec<String> =
        "to be or not to be".split(' ').map(|s| s.to_string()).collect();
    let mut got = term_counts(words);
    got.sort();
    let want: Vec<(String, u32)> = vec![
        ("be".into(), 2),
        ("not".into(), 1),
        ("or".into(), 1),
        ("to".into(), 2),
    ];
    assert_eq!(got, want);
}

#[test]
fn values_are_gathered_in_order() {
    let pairs: Vec<(String, u8)> =
        vec![("a".into(), 1), ("b".into(), 2), ("a".into(), 3), ("a".into(), 1)];
    let mut got = group(&pairs);
    got.sort();
    assert_eq!(got, vec![("a".to_string(), vec![1, 3, 1]), ("b".to_string(), vec![2])]);
}
