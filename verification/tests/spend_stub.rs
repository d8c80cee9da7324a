//! The stub engine over a table of bare nullifiers.

use spendability_pir::hashtable_pir::HashTableDb;
use spendability_pir::pir_types::{PirEngine, YpirScenario};
use spendability_pir::spend_server::pir_stub::StubPirEngine;
use spendability_pir::spend_types::{hash_to_bucket, BUCKET_BYTES, DB_BYTES, NUM_BUCKETS};

#[test]
fn test_stub_pir_setup_and_query() {
    let engine = StubPirEngine;
    let scenario = YpirScenario {
        num_items: NUM_BUCKETS as u64,
        item_size_bits: (BUCKET_BYTES * 8) as u64,
    };

    let mut db = HashTableDb::new();
    let mut nf = [0u8; 32];
    nf[0..4].copy_from_slice(&42u32.to_le_bytes());
    for (i, byte) in nf.iter_mut().enumerate().skip(4) {
        *byte = i as u8;
    }
    db.insert_block(1, [1u8; 32], &[nf]).unwrap();

    let pir_bytes = db.to_pir_bytes();
    let state = engine.setup(&pir_bytes, &scenario).unwrap();

    let bucket_idx = hash_to_bucket(&nf);
    let query = bucket_idx.to_le_bytes();
    let result = engine.answer_query(&state, &query).unwrap();

    assert_eq!(result.len(), BUCKET_BYTES);
    let found = result.chunks_exact(32).any(|chunk| chunk == nf);
    assert!(found, "nullifier not found in returned bucket");
}

#[test]
fn test_stub_pir_invalid_query() {
    let engine = StubPirEngine;
    let scenario = YpirScenario {
        num_items: NUM_BUCKETS as u64,
        item_size_bits: (BUCKET_BYTES * 8) as u64,
    };
    let db_bytes = vec![0u8; DB_BYTES];
    let state = engine.setup(&db_bytes, &scenario).unwrap();

    assert!(engine.answer_query(&state, &[0, 1]).is_err());
}

#[test]
fn test_stub_pir_out_of_range() {
    let engine = StubPirEngine;
    let scenario = YpirScenario {
        num_items: NUM_BUCKETS as u64,
        item_size_bits: (BUCKET_BYTES * 8) as u64,
    };
    let db_bytes = vec![0u8; DB_BYTES];
    let state = engine.setup(&db_bytes, &scenario).unwrap();

    let idx = (NUM_BUCKETS as u32).to_le_bytes();
    assert!(engine.answer_query(&state, &idx).is_err());
}
