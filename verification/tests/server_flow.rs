//! A spend server from the first fetch to a reorg, over blocks in memory.

use spendability_pir::bytes::to_hash_array;
use spendability_pir::chain_ingest::proto::{CompactBlock, CompactOrchardAction, CompactTx};
use spendability_pir::chain_ingest::ranges::next_batch;
use spendability_pir::hashtable_pir::HashTableDb;
use spendability_pir::nullifier::nf_ingest::ingest::{sync_block, Follower};
use spendability_pir::nullifier::nf_ingest::parser::extract_nullifiers;
use spendability_pir::nullifier::spend_types::ChainEvent as MetaEvent;
use spendability_pir::pir_types::{PirEngine, ServerPhase};
use spendability_pir::query::QueryReply;
use spendability_pir::spend_server::pir_stub::StubPirEngine;
use spendability_pir::spend_server::routes;
use spendability_pir::spend_server::schedule::{SyncSchedule, SyncStep};
use spendability_pir::spend_server::server::{apply_synced, rebuild_pir};
use spendability_pir::spend_server::state::{scenario, PirState};
use spendability_pir::spend_types::{
    hash_to_bucket, ChainEvent, BUCKET_BYTES, NUM_BUCKETS, TARGET_SIZE,
};

fn make_compact_block(
    height: u64,
    hash: [u8; 32],
    prev_hash: [u8; 32],
    nullifiers: &[[u8; 32]],
) -> CompactBlock {
    let actions: Vec<CompactOrchardAction> = nullifiers
        .iter()
        .map(|nf| CompactOrchardAction {
            nullifier: nf.to_vec(),
            cmx: vec![0; 32],
            ephemeral_key: vec![0; 32],
            ciphertext: vec![0; 52],
        })
        .collect();
    CompactBlock {
        height,
        hash: hash.to_vec(),
        prev_hash: prev_hash.to_vec(),
        vtx: if actions.is_empty() {
            vec![]
        } else {
            vec![CompactTx {
                actions,
                ..Default::default()
            }]
        },
        ..Default::default()
    }
}

fn hash_for(n: u16) -> [u8; 32] {
    let mut h = [0u8; 32];
    h[0..2].copy_from_slice(&n.to_le_bytes());
    h
}

fn make_nf(seed: u32) -> [u8; 32] {
    let mut nf = [0u8; 32];
    nf[0..4].copy_from_slice(&seed.to_le_bytes());
    for i in 4..32 {
        nf[i] = ((seed >> ((i % 4) * 8)) as u8).wrapping_add(i as u8);
    }
    nf
}

fn build_chain(count: u16, nfs_per_block: u32) -> (Vec<CompactBlock>, Vec<Vec<[u8; 32]>>) {
    let mut blocks = Vec::new();
    let mut all_nfs = Vec::new();
    for i in 1..=count {
        let nfs: Vec<[u8; 32]> = (0..nfs_per_block)
            .map(|j| make_nf(i as u32 * 1000 + j))
            .collect();
        blocks.push(make_compact_block(
            i as u64,
            hash_for(i),
            hash_for(i - 1),
            &nfs,
        ));
        all_nfs.push(nfs);
    }
    (blocks, all_nfs)
}

/// Runs the whole sync of a fresh server over a chain.
fn synced(blocks: &[CompactBlock]) -> HashTableDb {
    let tip = blocks.last().map_or(0, |block| block.height);
    let mut hashtable = HashTableDb::new();
    let mut schedule = SyncSchedule::new(false, None, tip, TARGET_SIZE);
    while let SyncStep::Fetch { from, to } = schedule.next(hashtable.len()) {
        let mut current = from;
        while let Some((start, end)) = next_batch(current, to) {
            for block in blocks.iter().filter(|b| start <= b.height && b.height <= end) {
                let event = ChainEvent::NewBlock {
                    height: block.height,
                    hash: to_hash_array(&block.hash),
                    prev_hash: to_hash_array(&block.prev_hash),
                    nullifiers: extract_nullifiers(block),
                };
                apply_synced(&mut hashtable, &event).unwrap();
            }
            current = end + 1;
        }
    }
    hashtable.evict_to_target();
    hashtable
}

fn row_of(live: &PirState<StubPirEngine>, nf: &[u8; 32]) -> Vec<u8> {
    StubPirEngine
        .answer_query(&live.engine_state, &hash_to_bucket(nf).to_le_bytes())
        .unwrap()
}

fn holds(row: &[u8], nf: &[u8; 32]) -> bool {
    row.chunks_exact(32).any(|chunk| chunk == nf.as_slice())
}

#[test]
fn test_sync_stream_mock() {
    let mut blocks = Vec::new();
    let mut all_nf_count = 0usize;
    for i in 1u16..=100 {
        let nfs: Vec<[u8; 32]> = (0..3).map(|j| make_nf(i as u32 * 100 + j)).collect();
        all_nf_count += nfs.len();
        blocks.push(make_compact_block(
            i as u64,
            hash_for(i),
            hash_for(i - 1),
            &nfs,
        ));
    }
    let mut received_count = 0;
    let mut last_height = 0;
    let mut tree_size = None;
    for block in &blocks {
        let (event, next_tree_size) = sync_block(block, tree_size);
        tree_size = next_tree_size;
        match event {
            MetaEvent::NewBlock {
                height, nullifiers, ..
            } => {
                assert!(height > last_height, "blocks should arrive in order");
                last_height = height;
                received_count += nullifiers.len();
            }
            _ => panic!("sync should only emit NewBlock events"),
        }
    }
    assert_eq!(last_height, 100);
    assert_eq!(received_count, all_nf_count);
}

#[test]
fn test_follow_new_blocks_mock() {
    let mut follower = Follower::new(5, hash_for(5), None);
    assert_eq!(follower.next_range(6), Some((6, 6)));
    let event = follower.accept(&make_compact_block(
        6,
        hash_for(6),
        hash_for(5),
        &[make_nf(60)],
    ));
    match event {
        MetaEvent::NewBlock { height, .. } => {
            assert_eq!(height, 6);
        }
        _ => panic!("expected NewBlock"),
    }
}

#[test]
fn test_follow_reorg_mock() {
    let mut follower = Follower::new(3, hash_for(3), None);
    let mut reorged_hash_3 = [0u8; 32];
    reorged_hash_3[0] = 33;
    assert_eq!(follower.next_range(4), Some((4, 4)));
    let event = follower.accept(&make_compact_block(
        4,
        hash_for(4),
        reorged_hash_3,
        &[make_nf(40)],
    ));
    match &event {
        MetaEvent::NewBlock { height, .. } => {
            assert!(*height >= 4);
        }
        MetaEvent::Reorg {
            orphaned,
            new_blocks,
        } => {
            assert!(!orphaned.is_empty() || !new_blocks.is_empty());
        }
    }
}

#[test]
fn test_server_startup_sync_mode() {
    let none: Option<&PirState<StubPirEngine>> = None;
    let phase = ServerPhase::Syncing {
        current_height: 0,
        target_height: 0,
    };
    assert_eq!(routes::health(phase, routes::metadata(none)).phase, phase);
    assert!(routes::metadata(none).is_none());
    assert!(matches!(
        routes::query(&StubPirEngine, none, &[0u8; 4]),
        QueryReply::Unavailable
    ));
    assert_eq!(routes::params().num_items, NUM_BUCKETS as u64);
}

#[test]
fn test_server_sync_to_serving() {
    let (blocks, all_nfs) = build_chain(50, 5);
    let total_nfs: usize = all_nfs.iter().map(|v| v.len()).sum();
    let hashtable = synced(&blocks);
    let live = rebuild_pir(&StubPirEngine, &hashtable, &scenario()).unwrap();
    assert_eq!(live.metadata.latest_height, 50);
    assert_eq!(live.metadata.num_nullifiers, total_nfs as u64);
    assert_eq!(hashtable.len(), total_nfs);
    assert_eq!(hashtable.earliest_height(), Some(1));
    assert_eq!(hashtable.latest_height(), Some(50));
}

#[test]
fn test_server_query_after_sync() {
    let (blocks, all_nfs) = build_chain(20, 5);
    let hashtable = synced(&blocks);
    let live = rebuild_pir(&StubPirEngine, &hashtable, &scenario()).unwrap();
    let nf = &all_nfs[5][0];
    match routes::query(
        &StubPirEngine,
        Some(&live),
        &hash_to_bucket(nf).to_le_bytes(),
    ) {
        QueryReply::Answered(bucket_data) => {
            assert_eq!(bucket_data.len(), BUCKET_BYTES);
            assert!(
                holds(&bucket_data, nf),
                "queried nullifier not found in bucket response"
            );
        }
        other => panic!("expected an answer, got {other:?}"),
    }
}

#[test]
fn test_server_metadata_after_sync() {
    let (blocks, _) = build_chain(30, 3);
    let hashtable = synced(&blocks);
    let live = rebuild_pir(&StubPirEngine, &hashtable, &scenario()).unwrap();
    let meta = routes::metadata(Some(&live)).unwrap();
    assert_eq!(meta.latest_height, 30);
    assert_eq!(meta.earliest_height, 1);
    assert_eq!(meta.num_nullifiers, 90);
    assert!(matches!(meta.phase, ServerPhase::Serving));
}

#[test]
fn test_server_follow_new_block() {
    let (blocks, _) = build_chain(10, 5);
    let mut hashtable = synced(&blocks);
    assert_eq!(hashtable.latest_height(), Some(10));

    let new_nfs = vec![make_nf(99_000), make_nf(99_001)];
    hashtable.insert_block(11, hash_for(11), &new_nfs).unwrap();
    hashtable.evict_to_target();

    let live = rebuild_pir(&StubPirEngine, &hashtable, &scenario()).unwrap();
    assert_eq!(live.metadata.latest_height, 11);
    assert_eq!(live.metadata.num_nullifiers, 52);
    assert!(
        holds(&row_of(&live, &new_nfs[0]), &new_nfs[0]),
        "new nullifier should be queryable after follow"
    );
}

#[test]
fn test_server_reorg_handling() {
    let (blocks, all_nfs) = build_chain(10, 5);
    let mut hashtable = synced(&blocks);
    for nf in &all_nfs[9] {
        assert!(hashtable.contains(nf));
    }

    hashtable.rollback_block(&hash_for(10)).unwrap();
    let replacement_nfs = vec![make_nf(88_000), make_nf(88_001), make_nf(88_002)];
    let mut new_hash_10 = [0u8; 32];
    new_hash_10[0] = 0xAA;
    hashtable
        .insert_block(10, new_hash_10, &replacement_nfs)
        .unwrap();
    hashtable.evict_to_target();
    let live = rebuild_pir(&StubPirEngine, &hashtable, &scenario()).unwrap();

    for nf in &all_nfs[9] {
        assert!(!hashtable.contains(nf), "orphaned nf still present");
    }
    for nf in &replacement_nfs {
        assert!(hashtable.contains(nf), "replacement nf missing");
        assert!(
            holds(&row_of(&live, nf), nf),
            "replacement nf not in PIR query result"
        );
    }
    assert_eq!(hashtable.len(), 48); // 9*5 + 3
}
