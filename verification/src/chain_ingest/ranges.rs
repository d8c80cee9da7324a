//! The ranges of heights in which blocks are fetched.

use crate::pir_types::NU5_MAINNET_ACTIVATION;
use vstd::prelude::*;

verus! {

/// The lowest height that is ever synced: Orchard activation, or the first
/// block of a chain that has not got there.
pub open spec fn sync_floor(tip_height: u64) -> u64 {
    if tip_height >= NU5_MAINNET_ACTIVATION {
        NU5_MAINNET_ACTIVATION
    } else {
        1
    }
}

/// Lowest block height that is ever synced.
pub fn min_sync_height(tip_height: u64) -> (height: u64)
    ensures
        height == sync_floor(tip_height),
{
    if tip_height >= NU5_MAINNET_ACTIVATION {
        NU5_MAINNET_ACTIVATION
    } else {
        1
    }
}

/// Blocks per request while syncing.
pub const SYNC_BATCH_SIZE: u64 = 10_000;

/// The last height of the batch that starts at `current`.
pub open spec fn batch_end(current: u64, to: u64) -> u64 {
    if current + SYNC_BATCH_SIZE - 1 <= to {
        (current + SYNC_BATCH_SIZE - 1) as u64
    } else {
        to
    }
}

/// The next batch of blocks to fetch, or none where `current` is past `to`.
pub fn next_batch(current: u64, to: u64) -> (batch: Option<(u64, u64)>)
    ensures
        batch == (if current > to {
            None
        } else {
            Some((current, batch_end(current, to)))
        }),
{
    if current > to {
        None
    } else if to - current < SYNC_BATCH_SIZE {
        Some((current, to))
    } else {
        Some((current, current + SYNC_BATCH_SIZE - 1))
    }
}

/// The blocks to fetch when the chain has grown to `tip`, or none where it has
/// not grown.
pub fn next_range(current: u64, tip: u64) -> (range: Option<(u64, u64)>)
    ensures
        range == (if tip <= current {
            None
        } else {
            Some(((current + 1) as u64, tip))
        }),
{
    if tip <= current {
        None
    } else {
        Some((current + 1, tip))
    }
}

/// The heights from `current` to `to`.
pub open spec fn heights(current: u64, to: u64) -> Seq<u64> {
    Seq::new(
        if current <= to {
            (to - current + 1) as nat
        } else {
            0
        },
        |i: int| (current + i) as u64,
    )
}

/// The heights of all batches, one after the other, that are fetched when each
/// batch starts behind the end of the last.
pub open spec fn batched_heights(current: u64, to: u64) -> Seq<u64>
    decreases to - current,
{
    if current > to {
        Seq::empty()
    } else if batch_end(current, to) == to {
        heights(current, to)
    } else {
        heights(current, batch_end(current, to)) + batched_heights(
            (batch_end(current, to) + 1) as u64,
            to,
        )
    }
}

/// The batches cover every height once, in order.
pub proof fn law_batches_cover_range(from: u64, to: u64)
    ensures
        batched_heights(from, to) == heights(from, to),
    decreases to - from,
{
    if from <= to && batch_end(from, to) != to {
        law_batches_cover_range((batch_end(from, to) + 1) as u64, to);
    }
    assert(batched_heights(from, to) =~= heights(from, to));
}

} // verus!
