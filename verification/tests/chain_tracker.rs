//! Reorg detection.

use spendability_pir::chain_ingest::chain_tracker::FOLLOW_WINDOW;
use spendability_pir::chain_ingest::{ChainAction, ChainTracker};
use spendability_pir::pir_types::CONFIRMATION_DEPTH;

fn hash(n: u8) -> [u8; 32] {
    [n; 32]
}

#[test]
fn test_chain_tracker_extend() {
    let mut tracker = ChainTracker::new(100);

    assert_eq!(tracker.push_block(1, hash(1), hash(0)), ChainAction::Extend);
    assert_eq!(tracker.push_block(2, hash(2), hash(1)), ChainAction::Extend);
    assert_eq!(tracker.push_block(3, hash(3), hash(2)), ChainAction::Extend);

    assert_eq!(tracker.tip(), Some((3, hash(3))));
}

#[test]
fn test_chain_tracker_reorg() {
    let mut tracker = ChainTracker::new(100);

    // Build chain: 1 -> 2 -> 3
    tracker.push_block(1, hash(1), hash(0));
    tracker.push_block(2, hash(2), hash(1));
    tracker.push_block(3, hash(3), hash(2));

    // Reorg: new block at height 3 with prev_hash = hash(2) but different hash
    let result = tracker.push_block(3, hash(33), hash(2));
    assert_eq!(result, ChainAction::Reorg { rollback_to: 2 });
    assert_eq!(tracker.tip(), Some((3, hash(33))));
}

#[test]
fn test_chain_tracker_deep_reorg() {
    let mut tracker = ChainTracker::new(100);

    // Build chain: 1 -> 2 -> 3 -> 4
    tracker.push_block(1, hash(1), hash(0));
    tracker.push_block(2, hash(2), hash(1));
    tracker.push_block(3, hash(3), hash(2));
    tracker.push_block(4, hash(4), hash(3));

    // Reorg 2 blocks deep: new block at height 3 with prev_hash = hash(2)
    let result = tracker.push_block(3, hash(33), hash(2));
    assert_eq!(result, ChainAction::Reorg { rollback_to: 2 });
    assert_eq!(tracker.tip(), Some((3, hash(33))));
}

#[test]
fn test_chain_tracker_window_eviction() {
    let mut tracker = ChainTracker::new(5);

    for i in 1u8..=10 {
        tracker.push_block(i as u64, hash(i), hash(i - 1));
    }

    // Window should only keep the last 5 blocks
    assert_eq!(tracker.len(), 5);
    assert_eq!(tracker.tip(), Some((10, hash(10))));
}

#[test]
fn test_chain_tracker_with_tip() {
    let mut tracker = ChainTracker::with_tip(100, hash(100), 50);

    let result = tracker.push_block(101, hash(101), hash(100));
    assert_eq!(result, ChainAction::Extend);
}

#[test]
fn test_chain_tracker_reorg_at_tip() {
    let mut tracker = ChainTracker::new(100);
    tracker.push_block(1, hash(1), hash(0));
    tracker.push_block(2, hash(2), hash(1));

    // Replace tip: new block 2' with prev_hash = hash(1)
    let result = tracker.push_block(2, hash(22), hash(1));
    assert_eq!(result, ChainAction::Reorg { rollback_to: 1 });
    assert_eq!(tracker.tip(), Some((2, hash(22))));
}

#[test]
fn unknown_parent_rolls_back_to_zero() {
    let mut tracker = ChainTracker::with_tip(100, hash(100), 50);
    tracker.push_block(101, hash(101), hash(100));
    let result = tracker.push_block(101, hash(8), hash(7));
    assert_eq!(result, ChainAction::Reorg { rollback_to: 0 });
    assert_eq!(tracker.len(), 1);
    assert_eq!(tracker.tip(), Some((101, hash(8))));
}

#[test]
fn follow_window_is_twice_the_confirmation_depth() {
    assert_eq!(CONFIRMATION_DEPTH, 10);
    assert_eq!(FOLLOW_WINDOW, 20);
}
