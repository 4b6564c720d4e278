use std::collections::BTreeMap;

use reason_ready::pending::{Op, Pending, Turn, APPLY_BATCH, PENDING_CAP};

fn emb(v: &[f32]) -> Vec<u32> {
    v.iter().map(|x| x.to_bits()).collect()
}

fn apply(graph: &mut BTreeMap<String, Vec<u32>>, ops: Vec<(String, Op)>) {
    for (id, op) in ops {
        match op {
            Op::Upsert(v) => {
                graph.insert(id, v);
            }
            Op::Remove => {
                graph.remove(&id);
            }
        }
    }
}

fn drain(pending: &mut Pending, graph: &mut BTreeMap<String, Vec<u32>>) -> usize {
    let mut batches = 0;
    while let Turn::Apply(ops) = pending.turn() {
        assert!(ops.len() <= APPLY_BATCH);
        apply(graph, ops);
        pending.finish_batch();
        batches += 1;
    }
    batches
}

#[test]
fn applier_drains_and_quiesce_waits() {
    let mut graph = BTreeMap::new();
    let mut pending = Pending::new();
    for i in 0..1000 {
        pending.push_upsert(format!("p{i}"), emb(&[i as f32, 1.0, 0.5]));
    }
    assert!(!pending.is_settled());
    assert_eq!(drain(&mut pending, &mut graph), 2);
    assert!(pending.is_settled());
    assert_eq!(graph.len(), 1000);

    // Overlay is empty once drained.
    let (ups, dels) = pending.overlay();
    assert!(ups.is_empty() && dels.is_empty());

    pending.stop();
    assert!(matches!(pending.turn(), Turn::Exit));
}

#[test]
fn overlay_sees_unapplied_upserts_and_removes() {
    // No applier: everything stays pending.
    let mut pending = Pending::new();
    pending.push_upsert("a".to_string(), emb(&[1.0, 0.0]));
    pending.push_remove("b".to_string());

    let (ups, dels) = pending.overlay();
    assert_eq!(ups.len(), 1);
    assert_eq!(ups[0].0, "a");
    let v: Vec<f32> = ups[0].1.iter().map(|b| f32::from_bits(*b)).collect();
    let q = [1.0f32, 0.0];
    let dot: f32 = v.iter().zip(q).map(|(x, y)| x * y).sum();
    let norm: f32 = v.iter().map(|x| x * x).sum::<f32>().sqrt();
    assert!(dot / norm > 0.99);
    assert_eq!(dels, vec!["b".to_string()]);
    pending.stop();
}

#[test]
fn the_latest_operation_wins() {
    let mut pending = Pending::new();
    pending.push_upsert("a".to_string(), emb(&[1.0]));
    pending.push_remove("a".to_string());
    pending.push_upsert("b".to_string(), emb(&[1.0]));
    pending.push_upsert("b".to_string(), emb(&[2.0]));
    let (ups, dels) = pending.overlay();
    assert_eq!(ups, vec![("b".to_string(), emb(&[2.0]))]);
    assert_eq!(dels, vec!["a".to_string()]);
    let mut graph = BTreeMap::new();
    graph.insert("a".to_string(), emb(&[0.0]));
    drain(&mut pending, &mut graph);
    assert_eq!(graph.into_iter().collect::<Vec<_>>(), vec![("b".to_string(), emb(&[2.0]))]);
}

#[test]
fn what_is_being_applied_stays_visible() {
    let mut pending = Pending::new();
    pending.push_upsert("a".to_string(), emb(&[1.0]));
    pending.push_remove("b".to_string());
    let ops = match pending.turn() {
        Turn::Apply(ops) => ops,
        _ => panic!("work is queued"),
    };
    assert_eq!(ops.len(), 2);
    assert!(!pending.is_settled());
    let (ups, dels) = pending.overlay();
    assert_eq!(ups, vec![("a".to_string(), emb(&[1.0]))]);
    assert_eq!(dels, vec!["b".to_string()]);

    // A later write lies over what is in flight.
    pending.push_remove("a".to_string());
    let (ups, dels) = pending.overlay();
    assert!(ups.is_empty());
    assert_eq!(dels.len(), 2);

    pending.finish_batch();
    let (ups, dels) = pending.overlay();
    assert!(ups.is_empty());
    assert_eq!(dels, vec!["a".to_string()]);
}

#[test]
fn an_id_that_is_queued_twice_is_applied_once() {
    let mut pending = Pending::new();
    for i in 0..3 {
        pending.push_upsert("a".to_string(), emb(&[i as f32]));
    }
    match pending.turn() {
        Turn::Apply(ops) => {
            assert_eq!(ops.len(), 1);
            assert!(matches!(&ops[0].1, Op::Upsert(v) if *v == emb(&[2.0])));
        }
        _ => panic!("work is queued"),
    }
    pending.finish_batch();
    assert!(matches!(pending.turn(), Turn::Wait));
}

#[test]
fn producers_wait_at_the_cap_until_shutdown() {
    let mut pending = Pending::new();
    for _ in 0..PENDING_CAP - 1 {
        pending.push_remove("a".to_string());
    }
    assert!(!pending.must_wait());
    pending.push_remove("b".to_string());
    assert!(pending.must_wait());
    pending.stop();
    assert!(!pending.must_wait());
    assert!(pending.is_settled());
}

#[test]
fn the_last_push_of_an_id_is_applied_last() {
    let mut pending = Pending::new();
    let mut pushed: BTreeMap<String, Vec<Option<u32>>> = BTreeMap::new();
    let mut made: Vec<(String, Option<u32>)> = Vec::new();
    for round in 0..4u32 {
        for i in 0..700u32 {
            let id = format!("p{}", (i * 7 + round) % 300);
            let n = round * 1000 + i;
            if i % 5 == 0 {
                pending.push_remove(id.clone());
                pushed.entry(id).or_default().push(None);
            } else {
                pending.push_upsert(id.clone(), vec![n]);
                pushed.entry(id).or_default().push(Some(n));
            }
        }
        if let Turn::Apply(ops) = pending.turn() {
            // More is pushed while the batch is applied.
            pending.push_upsert("p0".to_string(), vec![round]);
            pushed.entry("p0".to_string()).or_default().push(Some(round));
            for (id, op) in ops {
                made.push((id, match op {
                    Op::Upsert(v) => Some(v[0]),
                    Op::Remove => None,
                }));
            }
            pending.finish_batch();
        }
    }
    while let Turn::Apply(ops) = pending.turn() {
        for (id, op) in ops {
            made.push((id, match op {
                Op::Upsert(v) => Some(v[0]),
                Op::Remove => None,
            }));
        }
        pending.finish_batch();
    }
    assert!(pending.is_settled());
    for (id, ops) in &pushed {
        let calls: Vec<Option<u32>> =
            made.iter().filter(|(x, _)| x == id).map(|(_, op)| *op).collect();
        assert_eq!(calls.last(), ops.last(), "{id}");
        // The calls are among the pushes, in their order.
        let mut rest = ops.iter();
        assert!(calls.iter().all(|c| rest.any(|o| o == c)), "{id}");
    }
    assert!(made.iter().all(|(id, _)| pushed.contains_key(id)));
}
