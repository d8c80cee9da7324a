//! When the next snapshot is due.

use vstd::prelude::*;

verus! {

/// The count after one more block. It stays at its maximum.
pub open spec fn ticked(blocks: u64) -> u64 {
    if blocks < u64::MAX {
        (blocks + 1) as u64
    } else {
        u64::MAX
    }
}

/// Whether a snapshot is due after so many blocks.
pub open spec fn is_due(blocks: u64, interval: u64) -> bool {
    blocks >= interval
}

/// Counts blocks between snapshots.
pub struct SnapshotClock {
    interval: u64,
    blocks: u64,
}

impl SnapshotClock {
    /// Blocks between snapshots.
    pub closed spec fn interval(self) -> u64 {
        self.interval
    }

    /// Blocks since the last snapshot.
    pub closed spec fn blocks(self) -> u64 {
        self.blocks
    }

    /// A clock that has just seen a snapshot.
    pub fn new(interval: u64) -> (clock: Self)
        ensures
            clock.interval() == interval,
            clock.blocks() == 0,
    {
        SnapshotClock { interval, blocks: 0 }
    }

    /// Counts a block.
    pub fn tick(&mut self)
        ensures
            final(self).interval() == old(self).interval(),
            final(self).blocks() == (if old(self).blocks() < u64::MAX {
                (old(self).blocks() + 1) as u64
            } else {
                u64::MAX
            }),
            final(self).blocks() == ticked(old(self).blocks()),
    {
        if self.blocks < u64::MAX {
            self.blocks = self.blocks + 1;
        }
    }

    /// Whether a snapshot is due. If it is, counting starts anew.
    pub fn take_due(&mut self) -> (due: bool)
        ensures
            due == (old(self).blocks() >= old(self).interval()),
            due == is_due(old(self).blocks(), old(self).interval()),
            final(self).interval() == old(self).interval(),
            final(self).blocks() == (if due {
                0
            } else {
                old(self).blocks()
            }),
    {
        let due: bool = self.blocks >= self.interval;
        if due {
            self.blocks = 0;
        }
        due
    }
}

/// A snapshot is due once as many blocks have come since the last one as the
/// interval says, and not before. `counts` holds the count after each block.
pub proof fn law_due_after_the_interval(counts: Seq<u64>, interval: u64, n: int)
    requires
        0 <= n < counts.len(),
        counts[0] == 0,
        forall|j: int, k: int|
            0 <= k && j == k + 1 && j < counts.len() ==> #[trigger] counts[j] == ticked(
                #[trigger] counts[k],
            ),
        n <= u64::MAX,
    ensures
        is_due(counts[n], interval) <==> n >= interval,
{
    lemma_counts(counts, n);
}

proof fn lemma_counts(counts: Seq<u64>, n: int)
    requires
        0 <= n < counts.len(),
        counts[0] == 0,
        forall|j: int, k: int|
            0 <= k && j == k + 1 && j < counts.len() ==> #[trigger] counts[j] == ticked(
                #[trigger] counts[k],
            ),
        n <= u64::MAX,
    ensures
        counts[n] == n,
    decreases n,
{
    if n > 0 {
        lemma_counts(counts, n - 1);
        assert(counts[n] == ticked(counts[n - 1]));
    }
}

} // verus!
