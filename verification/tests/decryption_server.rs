//! The decryption server with the stub engine.

use spendability_pir::pir_types::{PirEngine, ServerPhase, YpirScenario};
use spendability_pir::query::QueryReply;
use spendability_pir::witness::decryption_db::DecryptionDb;
use spendability_pir::witness::decryption_server::pir_stub::StubPirEngine;
use spendability_pir::witness::decryption_server::routes;
use spendability_pir::witness::decryption_server::server::rebuild_pir;
use spendability_pir::witness::decryption_server::state::{scenario, PirState};
use spendability_pir::witness::decryption_types::{
    DecryptionLeaf, DECRYPT_DB_ROWS, DECRYPT_LEAF_BYTES, DECRYPT_ROW_BYTES,
};

fn make_leaf(byte: u8) -> DecryptionLeaf {
    DecryptionLeaf {
        nf: [byte; 32],
        ephemeral_key: [byte.wrapping_add(1); 32],
        ciphertext: [byte.wrapping_add(2); 52],
    }
}

#[test]
fn rebuild_with_stub_engine() {
    let engine = StubPirEngine;
    let scenario = YpirScenario {
        num_items: DECRYPT_DB_ROWS as u64,
        item_size_bits: (DECRYPT_ROW_BYTES * 8) as u64,
    };

    let mut db = DecryptionDb::new();
    db.append_leaves(100, [1u8; 32], &[make_leaf(0xAA)]);

    let pir_state = rebuild_pir(&engine, &db, &scenario, 100).unwrap();
    assert_eq!(pir_state.metadata.anchor_height, 100);
    assert_eq!(pir_state.metadata.tree_size, 1);
    assert_eq!(pir_state.metadata.populated_shards, 1);
    assert_eq!(pir_state.metadata.window_shard_count, 1);
    assert_eq!(pir_state.metadata.window_start_shard, 0);
}

#[test]
fn stub_server_round_trip() {
    let engine = StubPirEngine;
    let mut db = DecryptionDb::new();
    let leaf = make_leaf(0xBB);
    db.append_leaves(100, [1u8; 32], &[leaf]);
    let params = scenario();
    let live = rebuild_pir(&engine, &db, &params, 100).unwrap();

    let health = routes::health(ServerPhase::Serving, routes::metadata(Some(&live)));
    assert_eq!(health.phase, ServerPhase::Serving);
    assert_eq!(health.anchor_height, Some(100));
    assert_eq!(health.tree_size, 1);
    assert_eq!(health.populated_shards, 1);

    let meta = routes::metadata(Some(&live)).unwrap();
    assert_eq!(meta.anchor_height, 100);
    assert_eq!(meta.tree_size, 1);
    assert_eq!(meta.populated_shards, 1);
    assert_eq!(meta.window_start_shard, 0);
    assert_eq!(meta.window_shard_count, 1);

    assert_eq!(params.num_items, DECRYPT_DB_ROWS as u64);

    let row_idx: u32 = 0;
    match routes::query(&engine, Some(&live), &row_idx.to_le_bytes()) {
        QueryReply::Answered(body) => {
            assert_eq!(body.len(), DECRYPT_ROW_BYTES);
            let stored = DecryptionLeaf::from_bytes(&body[..DECRYPT_LEAF_BYTES]).unwrap();
            assert_eq!(stored, leaf);
        }
        other => panic!("expected an answer, got {other:?}"),
    }
}

#[test]
fn query_returns_503_before_pir_ready() {
    let engine = StubPirEngine;
    let live: Option<&PirState<StubPirEngine>> = None;
    assert!(matches!(
        routes::query(&engine, live, &0u32.to_le_bytes()),
        QueryReply::Unavailable
    ));
    assert!(routes::metadata(live).is_none());
    let health = routes::health(
        ServerPhase::Syncing { current_height: 5, target_height: 9 },
        None,
    );
    assert_eq!(health.anchor_height, None);
    assert_eq!(health.tree_size, 0);
    assert_eq!(health.populated_shards, 0);
}

#[test]
fn stub_engine_refuses_bad_queries() {
    let engine = StubPirEngine;
    let state = engine.setup(&[7u8; 2 * DECRYPT_ROW_BYTES], &scenario()).unwrap();
    let short = engine.answer_query(&state, &[1, 2, 3]).unwrap_err();
    assert_eq!(
        StubPirEngine::error_text(&short),
        "invalid query: expected 4 bytes, got 3"
    );
    let far = engine.answer_query(&state, &9000u32.to_le_bytes()).unwrap_err();
    assert_eq!(
        StubPirEngine::error_text(&far),
        "row index 9000 out of range (max 8192)"
    );
    let beyond = engine.answer_query(&state, &2u32.to_le_bytes()).unwrap_err();
    assert_eq!(
        StubPirEngine::error_text(&beyond),
        "row index 2 out of range (max 8192)"
    );
    assert_eq!(engine.answer_query(&state, &1u32.to_le_bytes()).unwrap(), vec![7u8; DECRYPT_ROW_BYTES]);
}
