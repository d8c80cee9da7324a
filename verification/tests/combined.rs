//! The combined server.

use spendability_pir::chain_ingest::proto::{
    ChainMetadata, CompactBlock, CompactOrchardAction, CompactTx, SubtreeRoot,
};
use spendability_pir::chain_ingest::ChainAction;
use spendability_pir::combined_server::{
    catch_up_decryption, combined_health, decryption_sync_start, phase_to_health, plan_catch_up,
    plan_decryption_catch_up, CatchUp, CombinedFollower, DecryptionCatchUp, ServerError,
};
use spendability_pir::hashtable_pir::HashTableError;
use spendability_pir::nullifier::hashtable_pir::HashTableDb;
use spendability_pir::nullifier::snapshot_io::SnapshotIoError;
use spendability_pir::nullifier::spend_client::{check_scenario, SpendClientError};
use spendability_pir::nullifier::spend_server::{rebuild_pir, scenario};
use spendability_pir::nullifier::spend_types::NUM_BUCKETS;
use spendability_pir::pir_types::{ServerPhase, YpirScenario, NU5_MAINNET_ACTIVATION};
use spendability_pir::spend_server::pir_stub::StubPirEngine;
use spendability_pir::spend_server::server::ServerError as SpendServerError;
use spendability_pir::witness::commitment_tree_db::CommitmentTreeDb;
use spendability_pir::witness::decryption_db::DecryptionDb;
use spendability_pir::witness::decryption_server::server::ServerError as DecryptionServerError;
use spendability_pir::witness::witness_server::server::ServerError as WitnessServerError;
use spendability_pir::witness::witness_types::SHARD_LEAVES;

fn block(height: u64, hash: u8, prev: u8, tags: &[u8], size: Option<u32>) -> CompactBlock {
    CompactBlock {
        height,
        hash: vec![hash; 32],
        prev_hash: vec![prev; 32],
        vtx: vec![CompactTx {
            actions: tags
                .iter()
                .map(|tag| CompactOrchardAction {
                    nullifier: vec![*tag; 32],
                    cmx: {
                        let mut cmx = vec![0; 32];
                        cmx[0] = *tag;
                        cmx
                    },
                    ephemeral_key: vec![*tag; 32],
                    ciphertext: vec![*tag; 52],
                })
                .collect(),
            ..Default::default()
        }],
        chain_metadata: size.map(|size| ChainMetadata {
            sapling_commitment_tree_size: 0,
            orchard_commitment_tree_size: size,
        }),
        ..Default::default()
    }
}

#[test]
fn health_is_ok_when_all_serve() {
    let serving = ServerPhase::Serving;
    let syncing = ServerPhase::Syncing { current_height: 3, target_height: 8 };
    let (status, body) = combined_health(&serving, &serving, &serving);
    assert_eq!(status, 200);
    assert_eq!(body.witness.phase, "serving");
    assert_eq!(body.witness.current_height, None);
    for (a, b, c) in [
        (&syncing, &serving, &serving),
        (&serving, &syncing, &serving),
        (&serving, &serving, &syncing),
    ] {
        assert_eq!(combined_health(a, b, c).0, 503);
    }
    let health = phase_to_health(&syncing);
    assert_eq!(health.phase, "syncing");
    assert_eq!(health.current_height, Some(3));
    assert_eq!(health.target_height, Some(8));
}

#[test]
fn the_subsystem_behind_catches_up() {
    assert_eq!(plan_catch_up(Some(5), Some(5)), CatchUp::Level);
    assert_eq!(plan_catch_up(None, None), CatchUp::Level);
    assert_eq!(plan_catch_up(Some(5), Some(9)), CatchUp::Nullifier { from: 6, to: 9 });
    assert_eq!(plan_catch_up(Some(9), None), CatchUp::Witness { from: 1, to: 9 });
    assert_eq!(plan_decryption_catch_up(None, 9), DecryptionCatchUp::WindowStart);
    assert_eq!(plan_decryption_catch_up(Some(9), 9), DecryptionCatchUp::Level);
    assert_eq!(plan_decryption_catch_up(Some(4), 9), DecryptionCatchUp::From(5));
}

#[test]
fn decryption_starts_at_the_block_before_the_window() {
    let roots: Vec<SubtreeRoot> = (0..3)
        .map(|i| SubtreeRoot {
            root_hash: vec![i; 32],
            completing_block_hash: vec![],
            completing_block_height: 2_000_000 + i as u64,
        })
        .collect();
    assert_eq!(decryption_sync_start(0, &roots), NU5_MAINNET_ACTIVATION);
    assert_eq!(decryption_sync_start(2 * SHARD_LEAVES as u64, &roots), 2_000_001);
    assert_eq!(decryption_sync_start(9 * SHARD_LEAVES as u64, &roots), NU5_MAINNET_ACTIVATION);
}

#[test]
fn only_leaves_past_the_offset_are_caught_up() {
    let offset = SHARD_LEAVES as u64;
    let mut db = DecryptionDb::with_offset(offset);
    catch_up_decryption(&mut db, &block(9, 9, 8, &[1], None));
    catch_up_decryption(&mut db, &block(10, 10, 9, &[1, 2], Some(offset as u32)));
    assert!(db.blocks().is_empty());
    catch_up_decryption(&mut db, &block(11, 11, 10, &[3, 4, 5], Some(offset as u32 + 2)));
    assert_eq!(db.leaves().len(), 2);
    assert_eq!(db.leaves()[0].nf, [4; 32]);
    catch_up_decryption(&mut db, &block(12, 12, 11, &[6], None));
    assert_eq!(db.tree_size(), offset + 3);
    assert_eq!(db.latest_height(), Some(12));
}

#[test]
fn followed_blocks_reach_all_subsystems() {
    let mut table = HashTableDb::new();
    table.insert_block(100, [100; 32], &[]).unwrap();
    let mut follower = CombinedFollower::new(table, CommitmentTreeDb::new(), DecryptionDb::new());
    assert_eq!(follower.next_range(101), Some((101, 101)));
    let (action, inserted) = follower.accept(&block(101, 101, 100, &[1, 2], Some(2)));
    assert_eq!(action, ChainAction::Extend);
    assert!(inserted.is_ok());
    follower.accept(&block(102, 102, 101, &[3], Some(3)));
    assert_eq!(follower.hashtable.len(), 3);
    assert_eq!(follower.tree.tree_size(), 3);
    assert_eq!(follower.decryption.tree_size(), 3);

    let (action, inserted) = follower.accept(&block(101, 201, 100, &[4], Some(1)));
    assert_eq!(action, ChainAction::Reorg { rollback_to: 100 });
    assert!(inserted.is_ok());
    assert_eq!(follower.current_height, 101);
    assert_eq!(follower.hashtable.len(), 1);
    assert!(follower.hashtable.contains(&[4; 32]));
    assert!(!follower.hashtable.contains(&[1; 32]));
    assert!(!follower.hashtable.contains(&[3; 32]));
    assert_eq!(follower.tree.tree_size(), 1);
    assert_eq!(follower.tree.leaves()[0][0], 4);
    assert_eq!(follower.decryption.leaves()[0].nf, [4; 32]);
    assert_eq!(follower.tree.latest_height(), follower.decryption.latest_height());
    assert_eq!(follower.next_range(101), None);
}

#[test]
fn overflow_does_not_stop_the_other_subsystems() {
    let mut follower =
        CombinedFollower::new(HashTableDb::new(), CommitmentTreeDb::new(), DecryptionDb::new());
    let mut crowded = block(1, 1, 0, &[], Some(200));
    for i in 0..200u8 {
        let mut nullifier = vec![i; 32];
        nullifier[..4].copy_from_slice(&[0; 4]);
        nullifier[5] = 1;
        crowded.vtx[0].actions.push(CompactOrchardAction {
            nullifier,
            cmx: vec![0; 32],
            ephemeral_key: vec![],
            ciphertext: vec![],
        });
    }
    let (_, inserted) = follower.accept(&crowded);
    assert!(matches!(inserted, Err(HashTableError::BucketOverflow { bucket_idx: 0 })));
    assert!(follower.hashtable.is_empty());
    assert_eq!(follower.tree.tree_size(), 200);
    assert_eq!(follower.decryption.tree_size(), 200);
}

#[test]
fn metadata_of_the_served_table() {
    let mut table = HashTableDb::new();
    table.insert_block(7, [1; 32], &[]).unwrap();
    let live = rebuild_pir(&StubPirEngine, &table, &scenario()).unwrap();
    assert_eq!(live.metadata.earliest_height, 7);
    assert_eq!(live.metadata.latest_height, 7);
    assert_eq!(live.metadata.num_nullifiers, 0);
    assert_eq!(live.metadata.num_buckets, NUM_BUCKETS as u64);
    assert_eq!(scenario().item_size_bits, 36_736);
}

#[test]
fn small_rows_are_refused_by_the_client() {
    assert!(check_scenario(&scenario()).is_ok());
    let small = YpirScenario { num_items: 10, item_size_bits: 28_671 };
    let error = check_scenario(&small).unwrap_err();
    assert_eq!(
        error.message(),
        "invalid params from server: item_size_bits 28671 below SimplePIR minimum 28672"
    );
    assert!(check_scenario(&YpirScenario { num_items: 10, item_size_bits: 28_672 }).is_ok());
    assert_eq!(SpendClientError::Http("x".to_string()).message(), "HTTP error: x");
    assert_eq!(SpendClientError::ServerUnavailable.message(), "server unavailable (503)");
    assert_eq!(SpendClientError::QueryFailed("x".to_string()).message(), "query failed: x");
}

#[test]
fn combined_errors_have_their_texts() {
    let io = || "x".to_string();
    assert_eq!(
        ServerError::Nullifier(SpendServerError::Io(io())).message(),
        "nullifier server error: io error: x"
    );
    assert_eq!(
        ServerError::Witness(WitnessServerError::Client(io())).message(),
        "witness server error: chain client error: x"
    );
    assert_eq!(
        ServerError::Decryption(DecryptionServerError::PirSetup(io())).message(),
        "decryption server error: pir setup failed: x"
    );
    assert_eq!(
        DecryptionServerError::SnapshotIo(io()).message(),
        "snapshot io error: x"
    );
    assert_eq!(DecryptionServerError::Io(io()).message(), "io error: x");
    assert_eq!(ServerError::Client(io()).message(), "chain client error: x");
    assert_eq!(
        ServerError::HashTable(HashTableError::BlockNotFound).message(),
        "hashtable error: block hash not found for rollback"
    );
    assert_eq!(ServerError::Io(io()).message(), "io error: x");
    assert_eq!(SnapshotIoError::Io(io()).message(), "io error: x");
    assert_eq!(
        SnapshotIoError::Decode(HashTableError::Snapshot(io())).message(),
        "snapshot decode: snapshot error: x"
    );
    assert_eq!(WitnessServerError::SnapshotIo(io()).message(), "snapshot io error: x");
    assert_eq!(WitnessServerError::PirSetup(io()).message(), "pir setup failed: x");
    assert_eq!(WitnessServerError::Io(io()).message(), "io error: x");
}

#[test]
fn unknown_parent_empties_all_subsystems() {
    let mut table = HashTableDb::new();
    table.insert_block(100, [100; 32], &[]).unwrap();
    let mut follower = CombinedFollower::new(table, CommitmentTreeDb::new(), DecryptionDb::new());
    follower.accept(&block(101, 101, 100, &[1, 2], Some(2)));
    let (action, inserted) = follower.accept(&block(101, 77, 76, &[4], Some(1)));
    assert_eq!(action, ChainAction::Reorg { rollback_to: 0 });
    assert!(inserted.is_ok());
    assert_eq!(follower.hashtable.num_blocks(), 1);
    assert_eq!(follower.hashtable.len(), 1);
    assert_eq!(follower.tree.tree_size(), 1);
    assert_eq!(follower.decryption.tree_size(), 1);
}
