use fjall::{Database, KeyspaceCreateOptions};
use reason_ready::keys::{CF_DOCS, CF_TDF, CF_TERMS, CF_VECS};
use reason_ready::kv::{
    family_options, get_u64, keyspace_options, merge_i64_add, open_plan, point_lookup, read_i64,
    vector_family, write_i64, Batch, Compression, EstateConfig, KvOp,
};
use reason_ready::search::posting_row;

#[test]
fn keyspaces_map_to_column_families_and_survive_restart() {
    let dir = tempfile::tempdir().unwrap();
    let db = Database::builder(dir.path()).open().unwrap();

    // A keyspace per column family.
    let nodes = db
        .keyspace("nodes", KeyspaceCreateOptions::default)
        .unwrap();
    let vecs = db.keyspace("vecs", KeyspaceCreateOptions::default).unwrap();

    nodes.insert("n1", "alpha").unwrap();
    vecs.insert("n1", [1u8, 2, 3]).unwrap();

    assert_eq!(nodes.get("n1").unwrap().as_deref(), Some(&b"alpha"[..]));
    assert_eq!(vecs.get("n1").unwrap().as_deref(), Some(&[1u8, 2, 3][..]));

    // Reopen: durable across restart.
    drop((nodes, vecs, db));
    let db = Database::builder(dir.path()).open().unwrap();
    let nodes = db
        .keyspace("nodes", KeyspaceCreateOptions::default)
        .unwrap();
    assert_eq!(nodes.get("n1").unwrap().as_deref(), Some(&b"alpha"[..]));
}

#[test]
fn cross_keyspace_batch_is_atomic() {
    let dir = tempfile::tempdir().unwrap();
    let db = Database::builder(dir.path()).open().unwrap();
    let docs = db.keyspace("docs", KeyspaceCreateOptions::default).unwrap();
    let terms = db
        .keyspace("terms", KeyspaceCreateOptions::default)
        .unwrap();

    // A doc and its postings land together or not at all.
    let mut batch = db.batch();
    batch.insert(&docs, "d1", "hello world");
    batch.insert(&terms, "hello\x00d1", "");
    batch.insert(&terms, "world\x00d1", "");
    batch.commit().unwrap();

    assert!(docs.get("d1").unwrap().is_some());
    assert!(terms.get("hello\x00d1").unwrap().is_some());
    assert!(terms.get("world\x00d1").unwrap().is_some());
}

#[test]
fn prefix_scan_walks_one_terms_postings_list() {
    let dir = tempfile::tempdir().unwrap();
    let db = Database::builder(dir.path()).open().unwrap();
    let terms = db
        .keyspace("terms", KeyspaceCreateOptions::default)
        .unwrap();

    // `term \x00 doc_id` rows: a prefix scan over `term \x00` walks exactly
    // that term's list.
    for doc in ["d1", "d2", "d9"] {
        terms.insert(format!("rust\x00{doc}"), "").unwrap();
    }
    terms.insert("go\x00d1", "").unwrap();

    let hits: Vec<String> = terms
        .prefix(b"rust\x00")
        .map(|guard| {
            let k = guard.key().unwrap();
            String::from_utf8_lossy(&k).into_owned()
        })
        .collect();
    assert_eq!(
        hits.len(),
        3,
        "prefix scan returns only `rust` postings: {hits:?}"
    );
    assert!(hits.iter().all(|k| k.starts_with("rust\x00")));

    // The rows of a walk from the prefix on, as the library takes them.
    let mut ids = Vec::new();
    for guard in terms.range(b"rust\x00".to_vec()..) {
        let k = guard.key().unwrap();
        match posting_row(b"rust\x00", k.as_ref()) {
            Some(id) => ids.push(id),
            None => break,
        }
    }
    assert_eq!(ids, vec!["d1", "d2", "d9"]);
}

#[test]
fn df_counter_replacement_without_merge_operators() {
    let dir = tempfile::tempdir().unwrap();
    let db = Database::builder(dir.path()).open().unwrap();
    let tdf = db.keyspace("tdf", KeyspaceCreateOptions::default).unwrap();

    let bump = |delta: i64| {
        let mut batch = Batch::new();
        batch.merge_df(CF_TDF, b"rust".to_vec(), delta);
        let totals = batch.totals().unwrap();
        let current: Vec<Option<Vec<u8>>> = totals
            .iter()
            .map(|c| tdf.get(&c.key).unwrap().map(|b| b.as_ref().to_vec()))
            .collect();
        for op in batch.resolve(&totals, &current) {
            match op {
                KvOp::Put { key, value, .. } => tdf.insert(key, value).unwrap(),
                _ => unreachable!(),
            }
        }
    };
    bump(1);
    bump(1);
    bump(1);
    bump(-1);
    let df = i64::from_le_bytes(
        tdf.get("rust")
            .unwrap()
            .unwrap()
            .as_ref()
            .try_into()
            .unwrap(),
    );
    assert_eq!(
        df, 2,
        "df counter nets correctly via RMW — no merge operator needed"
    );
}

#[test]
fn a_batch_composes_deltas_and_keeps_the_order_of_writes() {
    let mut batch = Batch::new();
    batch.put_cf(CF_DOCS, b"d1".to_vec(), b"old".to_vec());
    batch.merge_df(CF_TDF, b"rust".to_vec(), 1);
    batch.merge_df(CF_TDF, b"go".to_vec(), -1);
    batch.put_cf(CF_DOCS, b"d1".to_vec(), b"new".to_vec());
    batch.delete_cf(CF_VECS, b"d2".to_vec());
    batch.merge_df(CF_TDF, b"rust".to_vec(), 2);
    let totals = batch.totals().unwrap();
    let got: Vec<(&str, Vec<u8>, i64)> =
        totals.iter().map(|c| (c.cf, c.key.clone(), c.delta)).collect();
    assert_eq!(got, vec![("tdf", b"go".to_vec(), -1), ("tdf", b"rust".to_vec(), 3)]);
    let current = vec![None, Some(40i64.to_le_bytes().to_vec())];
    let ops: Vec<(char, Vec<u8>, Vec<u8>)> = batch
        .resolve(&totals, &current)
        .into_iter()
        .map(|op| match op {
            KvOp::Put { key, value, .. } => ('p', key, value),
            KvOp::Delete { key, .. } => ('d', key, Vec::new()),
            KvOp::MergeDf { .. } => unreachable!(),
        })
        .collect();
    assert_eq!(
        ops,
        vec![
            ('p', b"d1".to_vec(), b"old".to_vec()),
            ('p', b"d1".to_vec(), b"new".to_vec()),
            ('d', b"d2".to_vec(), Vec::new()),
            ('p', b"go".to_vec(), (-1i64).to_le_bytes().to_vec()),
            ('p', b"rust".to_vec(), 43i64.to_le_bytes().to_vec()),
        ]
    );
}

#[test]
fn deltas_that_leave_the_range_of_a_counter_are_refused() {
    let mut batch = Batch::new();
    batch.merge_df(CF_TDF, b"k".to_vec(), i64::MAX);
    batch.merge_df(CF_TDF, b"other".to_vec(), 1);
    assert!(batch.totals().is_some());
    batch.merge_df(CF_TDF, b"k".to_vec(), 1);
    assert!(batch.totals().is_none());
}

#[test]
fn both_ways_to_commit_deltas_agree() {
    let existing = 5i64.to_le_bytes();
    let deltas = [1i64, -3, 7];
    let operands: Vec<Vec<u8>> = deltas.iter().map(|d| d.to_le_bytes().to_vec()).collect();
    let merged = merge_i64_add(Some(&existing), &operands);

    let mut batch = Batch::new();
    for d in deltas {
        batch.merge_df(CF_TDF, b"t".to_vec(), d);
    }
    let totals = batch.totals().unwrap();
    let ops = batch.resolve(&totals, &vec![Some(existing.to_vec())]);
    assert_eq!(ops.len(), 1);
    assert!(matches!(&ops[0], KvOp::Put { value, .. } if *value == merged));
    assert_eq!(merged, 10i64.to_le_bytes().to_vec());
    assert_eq!(merge_i64_add(None, &Vec::new()), 0i64.to_le_bytes().to_vec());
}

#[test]
fn counters_are_read_back_and_short_buffers_are_tolerated() {
    for n in [0i64, 1, -1, i64::MIN, i64::MAX] {
        assert_eq!(write_i64(n), n.to_le_bytes().to_vec());
        assert_eq!(read_i64(&write_i64(n)), n);
    }
    assert_eq!(read_i64(&[]), 0);
    assert_eq!(read_i64(&[2, 1]), 258);
    assert_eq!(read_i64(&[1, 0, 0, 0, 0, 0, 0, 0, 99]), 1);
    assert_eq!(get_u64(None), 0);
    assert_eq!(get_u64(Some(&u64::MAX.to_le_bytes())), u64::MAX);
    assert_eq!(get_u64(Some(&[7, 0, 0, 0, 0, 0, 0, 0, 1])), 7);
}

#[test]
fn keyspaces_are_tuned_to_how_they_are_read() {
    let docs = keyspace_options(CF_DOCS, 64);
    assert!(docs.expect_point_read_hits);
    assert_eq!(docs.bloom_bits, Some(10));
    assert_eq!(docs.compression, Compression::Lz4);
    assert_eq!(docs.separation_threshold, None);
    assert_eq!(docs.max_memtable_size, 64);

    let vecs = keyspace_options(CF_VECS, 1);
    assert_eq!(vecs.bloom_bits, Some(10));
    assert_eq!(vecs.compression, Compression::Off);
    assert_eq!(vecs.separation_threshold, Some(4 * 1024));

    let terms = keyspace_options(CF_TERMS, 1);
    assert!(!terms.expect_point_read_hits);
    assert_eq!(terms.bloom_bits, None);
    assert_eq!(terms.compression, Compression::Lz4);

    assert!(point_lookup("coll") && point_lookup("tdf") && !point_lookup("pidx"));
    assert!(vector_family("mvecs") && !vector_family("docs"));

    let t = family_options(CF_TERMS, 9);
    assert!(t.term_prefix_filter && !t.counter_merge);
    assert_eq!(t.block_size, 16 * 1024);
    assert_eq!(t.write_buffer_size, 9);
    let d = family_options(CF_TDF, 9);
    assert!(d.counter_merge && !d.term_prefix_filter);
    assert_eq!(family_options(CF_VECS, 9).min_blob_size, Some(4 * 1024));
}

#[test]
fn the_memtable_budget_is_stated() {
    let config = EstateConfig {
        block_cache_bytes: 1 << 20,
        background_jobs: 0,
        write_buffer_bytes: 64 << 20,
        fsync_writes: true,
    };
    let plan = open_plan(&config, 16);
    assert_eq!(plan.memtable_budget, 2 << 30);
    assert_eq!(plan.worker_threads, 1);
    assert_eq!(plan.cache_bytes, 1 << 20);
    assert_eq!(plan.write_buffer_bytes, 64 << 20);
    assert!(plan.fsync);
    assert_eq!(open_plan(&EstateConfig { background_jobs: 6, ..config }, 1).worker_threads, 6);
}

#[test]
fn a_batch_hands_its_writes_out_as_they_were_staged() {
    let mut batch = Batch::new();
    batch.merge_df(CF_TDF, b"t".to_vec(), -4);
    batch.put_cf(CF_DOCS, b"d".to_vec(), b"v".to_vec());
    batch.delete_cf(CF_VECS, b"d".to_vec());
    let ops = batch.into_ops();
    assert_eq!(ops.len(), 3);
    assert!(matches!(&ops[0], KvOp::MergeDf { cf: "tdf", key, delta: -4 } if key == b"t"));
    assert!(matches!(&ops[1], KvOp::Put { cf: "docs", key, value } if key == b"d" && value == b"v"));
    assert!(matches!(&ops[2], KvOp::Delete { cf: "vecs", key } if key == b"d"));
}
