//! The order in which a server that starts up fetches blocks: forward to the
//! tip, and then, from a fresh start, back through history until there are
//! enough nullifiers.

use super::server::{
    backfill_end, backfill_range, backfill_start, forward_start, law_backfill_covers_history,
    times_backfilled, BACKFILL_BATCH,
};
use crate::chain_ingest::ranges::{min_sync_height, sync_floor};
use vstd::prelude::*;

verus! {

/// What to do next.
#[derive(Debug, Clone, Copy, PartialEq, Eq, Structural)]
pub enum SyncStep {
    /// Fetch the blocks from the first height to the last.
    Fetch { from: u64, to: u64 },
    /// Everything is fetched.
    Done,
}

/// How far a server has come.
#[derive(Debug, Clone, Copy, PartialEq, Eq, Structural)]
pub enum SyncStage {
    /// Nothing has been fetched; `backfill` tells whether history is wanted.
    Forward { start: u64, backfill: bool },
    /// History up to `end` has not been fetched.
    Backfill { end: u64 },
    Finished,
}

/// What to do in a stage, and the stage after it, when the table has so many
/// nullifiers.
pub open spec fn stepped(stage: SyncStage, tip: u64, nullifiers: usize, target_size: usize) -> (
    SyncStage,
    SyncStep,
) {
    match stage {
        SyncStage::Forward { start, backfill } => {
            let next = if backfill {
                SyncStage::Backfill {
                    end: if start == 0 {
                        0
                    } else {
                        (start - 1) as u64
                    },
                }
            } else {
                SyncStage::Finished
            };
            if start <= tip {
                (next, SyncStep::Fetch { from: start, to: tip })
            } else {
                stepped_back(next, sync_floor(tip), nullifiers, target_size)
            }
        },
        _ => stepped_back(stage, sync_floor(tip), nullifiers, target_size),
    }
}

/// What to do once the tip is reached.
pub open spec fn stepped_back(
    stage: SyncStage,
    floor: u64,
    nullifiers: usize,
    target_size: usize,
) -> (SyncStage, SyncStep) {
    match stage {
        SyncStage::Backfill { end } => if nullifiers < target_size && end >= floor {
            (
                SyncStage::Backfill { end: (backfill_start(end, floor) - 1) as u64 },
                SyncStep::Fetch { from: backfill_start(end, floor), to: end },
            )
        } else {
            (SyncStage::Finished, SyncStep::Done)
        },
        _ => (SyncStage::Finished, SyncStep::Done),
    }
}

/// The fetches of a server that starts up.
pub struct SyncSchedule {
    stage: SyncStage,
    tip: u64,
    target_size: usize,
}

impl SyncSchedule {
    /// How far the server has come.
    pub closed spec fn stage(self) -> SyncStage {
        self.stage
    }

    /// The height to sync to.
    pub closed spec fn tip(self) -> u64 {
        self.tip
    }

    /// How many nullifiers are enough.
    pub closed spec fn target_size(self) -> usize {
        self.target_size
    }

    /// A schedule for a table that was restored from a snapshot, or for a
    /// fresh one.
    pub fn new(
        from_snapshot: bool,
        latest_height: Option<u64>,
        tip_height: u64,
        target_size: usize,
    ) -> (schedule: Self)
        requires
            latest_height matches Some(height) ==> height < u64::MAX,
        ensures
            schedule.tip() == tip_height,
            schedule.target_size() == target_size,
            schedule.stage() == (SyncStage::Forward {
                start: (if from_snapshot {
                    match latest_height {
                        Some(height) => height + 1,
                        None => tip_height as int,
                    }
                } else if tip_height - BACKFILL_BATCH < sync_floor(tip_height) {
                    sync_floor(tip_height) as int
                } else {
                    tip_height - BACKFILL_BATCH
                }) as u64,
                backfill: !from_snapshot,
            }),
    {
        SyncSchedule {
            stage: SyncStage::Forward {
                start: forward_start(from_snapshot, latest_height, tip_height),
                backfill: !from_snapshot,
            },
            tip: tip_height,
            target_size,
        }
    }

    /// What to do next, when the table has so many nullifiers.
    pub fn next(&mut self, nullifiers: usize) -> (step: SyncStep)
        ensures
            final(self).tip() == old(self).tip(),
            final(self).target_size() == old(self).target_size(),
            (final(self).stage(), step) == stepped(
                old(self).stage(),
                old(self).tip(),
                nullifiers,
                old(self).target_size(),
            ),
    {
        if let SyncStage::Forward { start, backfill } = self.stage {
            self.stage = if backfill {
                SyncStage::Backfill { end: backfill_end(start) }
            } else {
                SyncStage::Finished
            };
            if start <= self.tip {
                return SyncStep::Fetch { from: start, to: self.tip };
            }
        }
        if let SyncStage::Backfill { end } = self.stage {
            let floor: u64 = min_sync_height(self.tip);
            if let Some((from, to)) = backfill_range(nullifiers, self.target_size, end, floor) {
                self.stage = SyncStage::Backfill { end: from - 1 };
                return SyncStep::Fetch { from, to };
            }
        }
        self.stage = SyncStage::Finished;
        SyncStep::Done
    }
}

/// How often a height is fetched from a stage on, when there never are enough
/// nullifiers.
pub open spec fn times_fetched(stage: SyncStage, tip: u64, height: u64) -> nat
    decreases
            (if stage is Forward {
                1nat
            } else {
                0nat
            }),
            (match stage {
                SyncStage::Backfill { end } => end as nat,
                _ => 0nat,
            }),
{
    match stepped(stage, tip, 0, 1) {
        (_, SyncStep::Done) => 0,
        (next, SyncStep::Fetch { from, to }) => (if from <= height <= to {
            1nat
        } else {
            0nat
        }) + times_fetched(next, tip, height),
    }
}

proof fn lemma_times_backfilled(end: u64, tip: u64, height: u64)
    ensures
        times_fetched(SyncStage::Backfill { end }, tip, height) == times_backfilled(
            end,
            sync_floor(tip),
            height,
        ),
    decreases end,
{
    let floor = sync_floor(tip);
    if end >= floor {
        lemma_times_backfilled((backfill_start(end, floor) - 1) as u64, tip, height);
    }
}

/// A fresh server that never has enough nullifiers fetches every block from
/// the floor to the tip once, and no other.
pub proof fn law_fresh_sync_covers_chain(start: u64, tip: u64, height: u64)
    requires
        start == (if tip - BACKFILL_BATCH < sync_floor(tip) {
            sync_floor(tip) as int
        } else {
            tip - BACKFILL_BATCH
        }),
    ensures
        times_fetched(SyncStage::Forward { start, backfill: true }, tip, height) == (if sync_floor(
            tip,
        ) <= height <= tip {
            1nat
        } else {
            0nat
        }),
{
    let end = (start - 1) as u64;
    lemma_times_backfilled(end, tip, height);
    law_backfill_covers_history(end, sync_floor(tip), height);
}

} // verus!
