//! Geometry of the witness database.

use spendability_pir::witness::witness_types::{
    decompose_position, physical_row_index, PirWitness, WitnessChainEvent, L0_DB_BYTES, L0_DB_ROWS,
    L0_MAX_SHARDS, SHARD_HEIGHT, SHARD_LEAVES, SUBSHARDS_PER_SHARD, SUBSHARD_HEIGHT,
    SUBSHARD_LEAVES, SUBSHARD_ROW_BYTES, TREE_DEPTH,
};

#[test]
fn geometry_consistency() {
    assert_eq!(SHARD_HEIGHT + SUBSHARD_HEIGHT + SUBSHARD_HEIGHT, TREE_DEPTH);
    assert_eq!(SUBSHARD_LEAVES, 256);
    assert_eq!(SUBSHARDS_PER_SHARD, 256);
    assert_eq!(SHARD_LEAVES, 65_536);
    assert_eq!(SUBSHARD_ROW_BYTES, 8_192);
    assert_eq!(L0_DB_ROWS, 8_192);
    assert_eq!(L0_DB_BYTES, 64 * 1024 * 1024);
    assert_eq!(L0_MAX_SHARDS, 32);
    assert_eq!(L0_MAX_SHARDS * SUBSHARDS_PER_SHARD, L0_DB_ROWS);
}

#[test]
fn decompose_position_roundtrip() {
    let position: u64 = (5u64 << 16) | (200u64 << 8) | 42;
    let (shard, subshard, leaf) = decompose_position(position);
    assert_eq!(shard, 5);
    assert_eq!(subshard, 200);
    assert_eq!(leaf, 42);

    let reconstructed = (shard as u64) << 16 | (subshard as u64) << 8 | leaf as u64;
    assert_eq!(reconstructed, position);
}

#[test]
fn decompose_position_boundaries() {
    let (s, ss, l) = decompose_position(0);
    assert_eq!((s, ss, l), (0, 0, 0));

    let (s, ss, l) = decompose_position(255);
    assert_eq!((s, ss, l), (0, 0, 255));

    let (s, ss, l) = decompose_position(256);
    assert_eq!((s, ss, l), (0, 1, 0));

    let (s, ss, l) = decompose_position(65_535);
    assert_eq!((s, ss, l), (0, 255, 255));

    let (s, ss, l) = decompose_position(65_536);
    assert_eq!((s, ss, l), (1, 0, 0));
}

#[test]
fn physical_row_index_basic() {
    assert_eq!(physical_row_index(0, 0, 0), 0);
    assert_eq!(physical_row_index(0, 1, 0), 1);
    assert_eq!(physical_row_index(0, 255, 0), 255);
    assert_eq!(physical_row_index(1, 0, 0), 256);
    assert_eq!(physical_row_index(1, 1, 0), 257);
}

#[test]
fn physical_row_index_with_window_offset() {
    assert_eq!(physical_row_index(10, 0, 10), 0);
    assert_eq!(physical_row_index(10, 5, 10), 5);
    assert_eq!(physical_row_index(11, 0, 10), 256);
}

#[test]
fn pir_witness_decomposition() {
    let witness = PirWitness {
        position: (3u64 << 16) | (100u64 << 8) | 77,
        siblings: [[0u8; 32]; TREE_DEPTH],
        anchor_height: 2_000_000,
        anchor_root: [0xAA; 32],
    };
    assert_eq!(witness.shard_index(), 3);
    assert_eq!(witness.subshard_index(), 100);
    assert_eq!(witness.leaf_index(), 77);
}

#[test]
fn witness_chain_event_variants() {
    let new_block = WitnessChainEvent::NewBlock {
        height: 100,
        hash: [1u8; 32],
        prev_hash: [0u8; 32],
        commitments: vec![[0xCC; 32], [0xDD; 32]],
        prior_tree_size: Some(500),
    };
    if let WitnessChainEvent::NewBlock {
        commitments,
        prior_tree_size,
        ..
    } = &new_block
    {
        assert_eq!(commitments.len(), 2);
        assert_eq!(*prior_tree_size, Some(500));
    } else {
        panic!("expected NewBlock");
    }

    let reorg = WitnessChainEvent::Reorg { rollback_to: 99 };
    if let WitnessChainEvent::Reorg { rollback_to } = reorg {
        assert_eq!(rollback_to, 99);
    } else {
        panic!("expected Reorg");
    }
}
