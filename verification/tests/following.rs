//! Sync ranges, followers and the decisions of the spend server.

use spendability_pir::chain_ingest::proto::{
    ChainMetadata, CompactBlock, CompactOrchardAction, CompactTx,
};
use spendability_pir::chain_ingest::ranges::{next_batch, next_range, SYNC_BATCH_SIZE};
use spendability_pir::hashtable_pir::HashTableDb;
use spendability_pir::nullifier::nf_ingest::ingest::{sync_block, Follower, IngestError};
use spendability_pir::nullifier::nf_ingest::parser::{
    can_extract_with_meta, extract_nullifiers, extract_nullifiers_with_meta,
};
use spendability_pir::nullifier::spend_types::ChainEvent as MetaEvent;
use spendability_pir::pir_types::{ServerPhase, NU5_MAINNET_ACTIVATION};
use spendability_pir::query::QueryReply;
use spendability_pir::snapshot_clock::SnapshotClock;
use spendability_pir::spend_server::following::bare_event;
use spendability_pir::spend_server::pir_stub::StubPirEngine;
use spendability_pir::spend_server::pir_ypir::YpirError;
use spendability_pir::spend_server::routes;
use spendability_pir::spend_server::schedule::{SyncSchedule, SyncStep};
use spendability_pir::spend_server::server::{
    apply_event, apply_synced, backfill_end, backfill_range, forward_start, rebuild_pir,
    sync_progress, ServerError,
};
use spendability_pir::spend_server::state::{scenario, PirState};
use spendability_pir::spend_types::{
    hash_to_bucket, ChainEvent, NewBlock, OrphanedBlock, BUCKET_BYTES, NUM_BUCKETS,
};
use spendability_pir::witness::commitment_ingest::ingest as witness_ingest;
use spendability_pir::witness::witness_types::WitnessChainEvent;

fn action(byte: u8) -> CompactOrchardAction {
    CompactOrchardAction {
        nullifier: vec![byte; 32],
        cmx: vec![byte; 32],
        ephemeral_key: vec![byte; 32],
        ciphertext: vec![byte; 52],
    }
}

fn block(height: u64, hash: u8, prev: u8, actions: &[u8], size: Option<u32>) -> CompactBlock {
    CompactBlock {
        height,
        hash: vec![hash; 32],
        prev_hash: vec![prev; 32],
        vtx: vec![CompactTx {
            actions: actions.iter().copied().map(action).collect(),
            ..Default::default()
        }],
        chain_metadata: size.map(|size| ChainMetadata {
            sapling_commitment_tree_size: 0,
            orchard_commitment_tree_size: size,
        }),
        ..Default::default()
    }
}

#[test]
fn batches_cover_the_range_in_order() {
    let mut fetched = Vec::new();
    let mut current = 5;
    while let Some((from, to)) = next_batch(current, 25_000) {
        fetched.push((from, to));
        current = to + 1;
    }
    assert_eq!(fetched, vec![(5, 10_004), (10_005, 20_004), (20_005, 25_000)]);
    assert_eq!(SYNC_BATCH_SIZE, 10_000);
    assert_eq!(next_batch(7, 6), None);
    assert_eq!(next_batch(u64::MAX, u64::MAX), Some((u64::MAX, u64::MAX)));
    assert_eq!(next_range(10, 10), None);
    assert_eq!(next_range(10, 12), Some((11, 12)));
}

#[test]
fn synced_blocks_carry_their_positions() {
    let first = block(100, 1, 0, &[0xA1, 0xA2], Some(502));
    let (event, size) = sync_block(&first, None);
    assert_eq!(size, Some(502));
    match event {
        MetaEvent::NewBlock { height, hash, prev_hash, nullifiers } => {
            assert_eq!((height, hash, prev_hash), (100, [1; 32], [0; 32]));
            assert_eq!(nullifiers.len(), 2);
            assert_eq!(nullifiers[1].nullifier, [0xA2; 32]);
            assert_eq!(nullifiers[1].first_output_position, 500);
        }
        other => panic!("expected a block, got {other:?}"),
    }
    let bare = block(101, 2, 1, &[0xA3], None);
    let (event, size) = sync_block(&bare, size);
    assert_eq!(size, None);
    match event {
        MetaEvent::NewBlock { nullifiers, .. } => {
            assert_eq!(nullifiers[0].first_output_position, 502);
        }
        other => panic!("expected a block, got {other:?}"),
    }
}

#[test]
fn positions_that_do_not_fit_are_detected() {
    let bare = block(101, 2, 1, &[0xA3, 0xA4], None);
    assert!(can_extract_with_meta(&bare, Some(u32::MAX - 2)));
    assert!(!can_extract_with_meta(&bare, Some(u32::MAX - 1)));
    assert!(can_extract_with_meta(&bare, None));
}

#[test]
fn follower_reports_orphans_with_their_hashes() {
    let mut follower = Follower::new(100, [100; 32], Some(10));
    assert_eq!(follower.next_range(100), None);
    assert_eq!(follower.next_range(103), Some((101, 103)));
    follower.accept(&block(101, 101, 100, &[1], Some(11)));
    follower.accept(&block(102, 102, 101, &[2], Some(12)));
    assert_eq!(follower.tree_size(), Some(12));
    let event = follower.accept(&block(101, 201, 100, &[3], Some(11)));
    match event {
        MetaEvent::Reorg { orphaned, new_blocks } => {
            let gone: Vec<(u64, [u8; 32])> = orphaned.iter().map(|o| (o.height, o.hash)).collect();
            assert_eq!(gone, vec![(102, [102; 32]), (101, [101; 32])]);
            assert_eq!(new_blocks.len(), 1);
            assert_eq!(new_blocks[0].height, 101);
            assert_eq!(new_blocks[0].hash, [201; 32]);
            assert_eq!(new_blocks[0].nullifiers[0].first_output_position, 10);
        }
        other => panic!("expected a reorg, got {other:?}"),
    }
    assert_eq!(follower.next_range(102), Some((102, 102)));
}

#[test]
fn follower_orphans_untracked_blocks_under_zero_hashes() {
    let mut follower = Follower::new(100, [100; 32], None);
    match follower.accept(&block(100, 200, 199, &[], None)) {
        MetaEvent::Reorg { orphaned, .. } => {
            assert_eq!(orphaned.len(), 100);
            assert_eq!((orphaned[0].height, orphaned[0].hash), (100, [100; 32]));
            assert_eq!((orphaned[1].height, orphaned[1].hash), (99, [0; 32]));
            assert_eq!((orphaned[99].height, orphaned[99].hash), (1, [0; 32]));
        }
        other => panic!("expected a reorg, got {other:?}"),
    }
}

#[test]
fn witness_follower_rolls_back_before_the_block() {
    let mut follower = witness_ingest::Follower::new(100, [100; 32], Some(10));
    let events = follower.accept(&block(101, 101, 100, &[1], Some(11)));
    assert_eq!(events.len(), 1);
    match &events[0] {
        WitnessChainEvent::NewBlock { height, commitments, prior_tree_size, .. } => {
            assert_eq!(*height, 101);
            assert_eq!(commitments, &vec![[1; 32]]);
            assert_eq!(*prior_tree_size, Some(10));
        }
        other => panic!("expected a block, got {other:?}"),
    }
    let events = follower.accept(&block(101, 201, 100, &[2], Some(11)));
    assert_eq!(events.len(), 2);
    assert!(matches!(events[0], WitnessChainEvent::Reorg { rollback_to: 100 }));
    match &events[1] {
        WitnessChainEvent::NewBlock { hash, prior_tree_size, .. } => {
            assert_eq!(*hash, [201; 32]);
            assert_eq!(*prior_tree_size, None);
        }
        other => panic!("expected a block, got {other:?}"),
    }
    assert_eq!(follower.next_range(101), None);
}

#[test]
fn witness_sync_reports_the_size_before_the_block() {
    let (event, size) = witness_ingest::sync_block(&block(7, 7, 6, &[9], Some(40)), Some(39));
    assert_eq!(size, Some(40));
    assert!(matches!(
        event,
        WitnessChainEvent::NewBlock { height: 7, prior_tree_size: Some(39), .. }
    ));
    assert_eq!(
        witness_ingest::IngestError::Client("gone".to_string()).message(),
        "client error: gone"
    );
}

#[test]
fn fresh_start_syncs_the_tip_and_backfills() {
    assert_eq!(forward_start(false, None, 2_000_000), 1_950_000);
    assert_eq!(forward_start(false, None, 1_700_000), NU5_MAINNET_ACTIVATION);
    assert_eq!(forward_start(true, Some(41), 100), 42);
    assert_eq!(forward_start(true, None, 100), 100);
    assert_eq!(backfill_end(0), 0);
    assert_eq!(backfill_end(5), 4);
    let floor = NU5_MAINNET_ACTIVATION;
    assert_eq!(backfill_range(10, 10, 2_000_000, floor), None);
    assert_eq!(backfill_range(0, 10, 1_687_103, floor), None);
    assert_eq!(backfill_range(0, 10, 1_949_999, floor), Some((1_900_000, 1_949_999)));
    assert_eq!(backfill_range(0, 10, 1_700_000, floor), Some((floor, 1_700_000)));
    assert_eq!(forward_start(false, None, 50), 1);
    assert_eq!(forward_start(false, None, 60_000), 10_000);
    assert_eq!(backfill_range(0, 10, 9_999, 1), Some((1, 9_999)));
}

#[test]
fn schedule_fetches_every_block_once() {
    let tip = NU5_MAINNET_ACTIVATION + 120_000;
    let mut schedule = SyncSchedule::new(false, None, tip, 1000);
    let mut steps = Vec::new();
    while let SyncStep::Fetch { from, to } = schedule.next(0) {
        steps.push((from, to));
    }
    assert_eq!(
        steps,
        vec![
            (tip - 50_000, tip),
            (tip - 100_000, tip - 50_001),
            (NU5_MAINNET_ACTIVATION, tip - 100_001),
        ]
    );
    assert_eq!(schedule.next(0), SyncStep::Done);
}

#[test]
fn schedule_stops_with_enough_nullifiers_or_a_snapshot() {
    let tip = NU5_MAINNET_ACTIVATION + 120_000;
    let mut schedule = SyncSchedule::new(false, None, tip, 1000);
    assert_eq!(schedule.next(0), SyncStep::Fetch { from: tip - 50_000, to: tip });
    assert_eq!(schedule.next(1000), SyncStep::Done);
    let mut resumed = SyncSchedule::new(true, Some(tip - 3), tip, 1000);
    assert_eq!(resumed.next(0), SyncStep::Fetch { from: tip - 2, to: tip });
    assert_eq!(resumed.next(0), SyncStep::Done);
}

#[test]
fn progress_is_reported_every_thousand_blocks() {
    assert_eq!(sync_progress(1_999, 5_000), None);
    assert_eq!(
        sync_progress(2_000, 5_000),
        Some(ServerPhase::Syncing { current_height: 2_000, target_height: 5_000 })
    );
}

#[test]
fn snapshots_are_due_every_interval() {
    let mut clock = SnapshotClock::new(2);
    clock.tick();
    assert!(!clock.take_due());
    clock.tick();
    assert!(clock.take_due());
    assert!(!clock.take_due());
    assert!(SnapshotClock::new(0).take_due());
}

fn nf(seed: u8) -> [u8; 32] {
    let mut nf = [seed; 32];
    nf[1] = 0;
    nf[2] = 0;
    nf[3] = 0;
    nf
}

#[test]
fn reorg_replaces_orphaned_nullifiers() {
    let mut table = HashTableDb::new();
    let block = |height, hash: u8, nullifiers: Vec<[u8; 32]>| ChainEvent::NewBlock {
        height,
        hash: [hash; 32],
        prev_hash: [hash - 1; 32],
        nullifiers,
    };
    apply_synced(&mut table, &block(1, 1, vec![nf(1)])).unwrap();
    apply_event(&mut table, &block(2, 2, vec![nf(2)])).unwrap();
    apply_event(&mut table, &block(3, 3, vec![nf(3)])).unwrap();
    let reorg = ChainEvent::Reorg {
        orphaned: vec![
            OrphanedBlock { height: 3, hash: [3; 32] },
            OrphanedBlock { height: 2, hash: [2; 32] },
            OrphanedBlock { height: 9, hash: [9; 32] },
        ],
        new_blocks: vec![NewBlock {
            height: 2,
            hash: [22; 32],
            prev_hash: [1; 32],
            nullifiers: vec![nf(22)],
        }],
    };
    apply_synced(&mut table, &reorg).unwrap();
    assert_eq!(table.num_blocks(), 3);
    apply_event(&mut table, &reorg).unwrap();
    assert_eq!(table.num_blocks(), 2);
    assert_eq!(table.len(), 2);
    assert!(table.contains(&nf(1)));
    assert!(!table.contains(&nf(2)));
    assert!(!table.contains(&nf(3)));
    assert!(table.contains(&nf(22)));
    assert_eq!(table.latest_block_hash(), Some([22; 32]));
}

#[test]
fn overflow_while_following_is_an_error() {
    let mut table = HashTableDb::new();
    let nullifiers: Vec<[u8; 32]> = (1..=17u32)
        .map(|i| {
            let mut nf = [0u8; 32];
            nf[0..4].copy_from_slice(&(i * NUM_BUCKETS as u32).to_le_bytes());
            nf[4] = i as u8;
            nf
        })
        .collect();
    let event = ChainEvent::NewBlock {
        height: 1,
        hash: [1; 32],
        prev_hash: [0; 32],
        nullifiers,
    };
    let error = apply_event(&mut table, &event).unwrap_err();
    assert_eq!(
        error.message(),
        "hashtable error: bucket 0 overflow: already at capacity 16"
    );
    assert!(table.is_empty());
}

#[test]
fn served_table_answers_with_buckets() {
    let mut table = HashTableDb::new();
    table.insert_block(7, [1; 32], &[nf(5)]).unwrap();
    table.insert_block(9, [2; 32], &[]).unwrap();
    let engine = StubPirEngine;
    let live = rebuild_pir(&engine, &table, &scenario()).unwrap();
    let metadata = routes::metadata(Some(&live)).unwrap();
    assert_eq!(metadata.earliest_height, 7);
    assert_eq!(metadata.latest_height, 9);
    assert_eq!(metadata.num_nullifiers, 1);
    assert_eq!(metadata.num_buckets, NUM_BUCKETS as u64);
    assert_eq!(metadata.phase, ServerPhase::Serving);

    let health = routes::health(ServerPhase::Serving, Some(metadata));
    assert_eq!(health.height, Some(9));
    assert_eq!(health.nullifier_count, 1);
    assert_eq!(health.num_blocks, NUM_BUCKETS as u64);
    assert_eq!(routes::params(), scenario());

    let index = hash_to_bucket(&nf(5));
    match routes::query(&engine, Some(&live), &index.to_le_bytes()) {
        QueryReply::Answered(row) => {
            assert_eq!(row.len(), BUCKET_BYTES);
            assert_eq!(&row[..32], &nf(5));
        }
        other => panic!("expected an answer, got {other:?}"),
    }
    match routes::query(&engine, Some(&live), &[1]) {
        QueryReply::Failed(reason) => {
            assert_eq!(reason, "invalid query: expected 4 bytes, got 1");
        }
        other => panic!("expected a failure, got {other:?}"),
    }
    match routes::query(&engine, Some(&live), &(NUM_BUCKETS as u32).to_le_bytes()) {
        QueryReply::Failed(reason) => assert_eq!(reason, "bucket index 131072 out of range"),
        other => panic!("expected a failure, got {other:?}"),
    }
    let none: Option<&PirState<StubPirEngine>> = None;
    assert!(matches!(routes::query(&engine, none, &[]), QueryReply::Unavailable));
    assert!(routes::metadata(none).is_none());
    let phase = ServerPhase::Syncing { current_height: 1, target_height: 2 };
    assert_eq!(routes::health(phase, None).height, None);
}

#[test]
fn server_errors_have_their_texts() {
    let ingest = ServerError::Ingest(IngestError::HashMismatch { height: 12 });
    assert_eq!(ingest.message(), "ingest error: block hash mismatch at height 12");
    let client = ServerError::Ingest(IngestError::Client("down".to_string()));
    assert_eq!(client.message(), "ingest error: client error: down");
    assert_eq!(
        ServerError::SnapshotIo("x".to_string()).message(),
        "snapshot io error: x"
    );
    assert_eq!(ServerError::PirSetup("x".to_string()).message(), "pir setup failed: x");
    assert_eq!(ServerError::Io("x".to_string()).message(), "io error: x");
    assert_eq!(YpirError::Setup("x".to_string()).message(), "YPIR setup failed: x");
    assert_eq!(YpirError::Query("x".to_string()).message(), "YPIR query failed: x");
}

#[test]
fn both_extractions_find_the_same_nullifiers() {
    let mut block = block(100, 1, 0, &[0xA1, 0xA2], Some(502));
    block.vtx.push(CompactTx {
        actions: vec![
            CompactOrchardAction { nullifier: vec![1; 31], ..action(0xA3) },
            action(0xA4),
        ],
        ..Default::default()
    });
    let bare = extract_nullifiers(&block);
    let (with_meta, size) = extract_nullifiers_with_meta(&block, Some(498));
    let same: Vec<[u8; 32]> = with_meta.iter().map(|nf| nf.nullifier).collect();
    assert_eq!(bare, same);
    assert_eq!(bare, vec![[0xA1; 32], [0xA2; 32], [0xA4; 32]]);
    assert_eq!(size, Some(502));
    assert_eq!(with_meta[0].first_output_position, 498);
    assert_eq!(with_meta[2].first_output_position, 500);
    assert_eq!(with_meta[2].action_count, 2);
}

#[test]
fn followed_reorg_leaves_no_stale_blocks() {
    let mut table = HashTableDb::new();
    table.insert_block(100, [100; 32], &[[0xA0; 32]]).unwrap();
    let mut follower = Follower::new(100, [100; 32], Some(10));
    for next in [
        block(101, 101, 100, &[0xA1, 0xA2], Some(12)),
        block(102, 102, 101, &[0xA3], Some(13)),
    ] {
        apply_event(&mut table, &bare_event(follower.accept(&next))).unwrap();
    }
    assert_eq!((table.num_blocks(), table.len()), (3, 4));

    let reorg = bare_event(follower.accept(&block(101, 201, 100, &[0xB1], Some(11))));
    apply_event(&mut table, &reorg).unwrap();
    assert_eq!((table.num_blocks(), table.len()), (2, 2));
    assert_eq!(table.earliest_height(), Some(100));
    assert_eq!(table.latest_block_hash(), Some([201; 32]));
    assert!(table.contains(&[0xA0; 32]) && table.contains(&[0xB1; 32]));
    for gone in [0xA1, 0xA2, 0xA3] {
        assert!(!table.contains(&[gone; 32]));
    }

    // The chain goes back to the first branch: its blocks are new again.
    let back = bare_event(follower.accept(&block(101, 101, 100, &[0xA1, 0xA2], Some(12))));
    apply_event(&mut table, &back).unwrap();
    assert_eq!((table.num_blocks(), table.len()), (2, 3));
    assert!(!table.contains(&[0xB1; 32]));
}

#[test]
fn blocks_that_left_the_window_are_not_found_by_hash() {
    let mut table = HashTableDb::new();
    let mut follower = Follower::new(0, [250; 32], Some(0));
    for height in 1..=30u8 {
        let parent = if height == 1 { 250 } else { height - 1 };
        let next = block(height as u64, height, parent, &[0x80 + height], None);
        apply_event(&mut table, &bare_event(follower.accept(&next))).unwrap();
    }
    let unknown = bare_event(follower.accept(&block(31, 77, 76, &[0x70], None)));
    apply_event(&mut table, &unknown).unwrap();
    // The twenty tracked blocks are gone, the ten before them are not.
    assert_eq!(table.num_blocks(), 11);
    assert!(table.contains(&[0x80 + 10; 32]));
    assert!(!table.contains(&[0x80 + 11; 32]));
    assert!(table.contains(&[0x70; 32]));
}

#[test]
fn bare_events_keep_all_but_the_metadata() {
    let (event, _) = sync_block(&block(5, 6, 7, &[8, 9], Some(2)), None);
    match bare_event(event) {
        ChainEvent::NewBlock { height, hash, prev_hash, nullifiers } => {
            assert_eq!((height, hash, prev_hash), (5, [6; 32], [7; 32]));
            assert_eq!(nullifiers, vec![[8; 32], [9; 32]]);
        }
        other => panic!("expected a block, got {other:?}"),
    }
}
