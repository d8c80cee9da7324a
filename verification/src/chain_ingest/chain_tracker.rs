//! Reorg detection over a bounded window of blocks.

use crate::bytes::same_array;
use crate::pir_types::CONFIRMATION_DEPTH;
use std::collections::VecDeque;
use vstd::prelude::*;

verus! {

/// How many blocks the follow loops keep to find a fork point: twice the depth
/// at which a block counts as confirmed.
pub const FOLLOW_WINDOW: usize = 2 * CONFIRMATION_DEPTH as usize;

/// Result of pushing a new block to the chain tracker.
#[derive(Debug, Clone, Copy, PartialEq, Eq, Structural)]
pub enum ChainAction {
    /// The block extends the current chain.
    Extend,
    /// The block does not extend the chain. The blocks above `rollback_to` are
    /// orphaned.
    Reorg { rollback_to: u64 },
}

/// The newest tracked block with the given hash.
pub open spec fn newest_with_hash(chain: Seq<(u64, [u8; 32])>, hash: [u8; 32]) -> Option<u64>
    decreases chain.len(),
{
    if chain.len() == 0 {
        None
    } else if chain.last().1 == hash {
        Some(chain.last().0)
    } else {
        newest_with_hash(chain.drop_last(), hash)
    }
}

/// The height at which a block with this parent forks off: the height of the
/// parent, or zero where the parent is not tracked and the reorg is deeper than
/// the window.
pub open spec fn fork_point(chain: Seq<(u64, [u8; 32])>, parent: [u8; 32]) -> u64 {
    match newest_with_hash(chain, parent) {
        Some(height) => height,
        None => 0,
    }
}

/// The tracked blocks without the newest ones above `height`.
pub open spec fn truncated(chain: Seq<(u64, [u8; 32])>, height: u64) -> Seq<(u64, [u8; 32])>
    decreases chain.len(),
{
    if chain.len() > 0 && chain.last().0 > height {
        truncated(chain.drop_last(), height)
    } else {
        chain
    }
}

/// The newest tracked block at a height.
pub open spec fn newest_at(chain: Seq<(u64, [u8; 32])>, height: u64) -> Option<[u8; 32]>
    decreases chain.len(),
{
    if chain.len() == 0 {
        None
    } else if chain.last().0 == height {
        Some(chain.last().1)
    } else {
        newest_at(chain.drop_last(), height)
    }
}

/// Whether a block with this height and parent continues the chain.
pub open spec fn extends(chain: Seq<(u64, [u8; 32])>, height: u64, parent: [u8; 32]) -> bool {
    chain.len() == 0 || (parent == chain.last().1 && height == chain.last().0 + 1)
}

/// What a block with this height and parent does to the chain.
pub open spec fn classified(
    chain: Seq<(u64, [u8; 32])>,
    height: u64,
    parent: [u8; 32],
) -> ChainAction {
    if extends(chain, height, parent) {
        ChainAction::Extend
    } else {
        ChainAction::Reorg { rollback_to: fork_point(chain, parent) }
    }
}

/// The tracked blocks after a block was pushed. Only an extension of a chain
/// that is not empty drops the oldest block where there are too many.
pub open spec fn pushed(
    chain: Seq<(u64, [u8; 32])>,
    max_depth: nat,
    height: u64,
    hash: [u8; 32],
    parent: [u8; 32],
) -> Seq<(u64, [u8; 32])> {
    let longer = chain.push((height, hash));
    if chain.len() == 0 {
        longer
    } else if !extends(chain, height, parent) {
        truncated(chain, fork_point(chain, parent)).push((height, hash))
    } else if longer.len() > max_depth {
        longer.drop_first()
    } else {
        longer
    }
}

/// Bounded-window chain tracker for reorg detection.
///
/// Keeps the last `(height, hash)` pairs and checks that each new block's
/// `prev_hash` links to the current tip. If it does not, looks for the fork
/// point among them.
pub struct ChainTracker {
    /// Oldest first.
    chain: VecDeque<(u64, [u8; 32])>,
    max_depth: usize,
}

impl View for ChainTracker {
    type V = Seq<(u64, [u8; 32])>;

    closed spec fn view(&self) -> Seq<(u64, [u8; 32])> {
        self.chain@
    }
}

impl ChainTracker {
    /// How many blocks are kept when the chain grows.
    pub closed spec fn depth(&self) -> nat {
        self.max_depth as nat
    }

    /// A tracker of no block.
    pub fn new(max_depth: usize) -> (tracker: Self)
        ensures
            tracker@ == Seq::<(u64, [u8; 32])>::empty(),
            tracker.depth() == max_depth,
    {
        ChainTracker { chain: VecDeque::new(), max_depth }
    }

    /// A tracker of a known tip.
    pub fn with_tip(height: u64, hash: [u8; 32], max_depth: usize) -> (tracker: Self)
        ensures
            tracker@ == seq![(height, hash)],
            tracker.depth() == max_depth,
    {
        let mut tracker = ChainTracker::new(max_depth);
        tracker.chain.push_back((height, hash));
        assert(tracker@ =~= seq![(height, hash)]);
        tracker
    }

    /// The newest block.
    pub fn tip(&self) -> (tip: Option<(u64, [u8; 32])>)
        ensures
            tip == (if self@.len() == 0 {
                None
            } else {
                Some(self@.last())
            }),
    {
        let n: usize = self.chain.len();
        if n == 0 {
            None
        } else {
            Some(self.chain[n - 1])
        }
    }

    /// Number of tracked blocks.
    pub fn len(&self) -> (len: usize)
        ensures
            len == self@.len(),
    {
        self.chain.len()
    }

    /// Whether no block is tracked.
    pub fn is_empty(&self) -> (empty: bool)
        ensures
            empty == (self@.len() == 0),
    {
        self.chain.len() == 0
    }

    /// The hash of the newest tracked block at a height.
    pub fn hash_at(&self, height: u64) -> (hash: Option<[u8; 32]>)
        ensures
            hash == newest_at(self@, height),
    {
        let mut i: usize = self.chain.len();
        assert(self@.take(i as int) =~= self@);
        while i > 0
            invariant
                i <= self@.len(),
                self@ == self.chain@,
                newest_at(self@, height) == newest_at(self@.take(i as int), height),
            decreases i,
        {
            let block = self.chain[i - 1];
            assert(self@.take(i as int).drop_last() =~= self@.take(i - 1));
            if block.0 == height {
                return Some(block.1);
            }
            i -= 1;
        }
        None
    }

    /// Whether a block with this height and parent extends the chain or makes
    /// for a reorg.
    pub fn classify(&self, height: u64, prev_hash: &[u8; 32]) -> (action: ChainAction)
        ensures
            action == classified(self@, height, *prev_hash),
    {
        match self.tip() {
            None => ChainAction::Extend,
            Some((tip_height, tip_hash)) => {
                if same_array(prev_hash, &tip_hash) && height > tip_height && height - tip_height
                    == 1 {
                    ChainAction::Extend
                } else {
                    ChainAction::Reorg { rollback_to: self.find_fork_point(prev_hash) }
                }
            },
        }
    }

    /// Pushes a new block. Returns whether it extends the chain or makes for a
    /// reorg.
    pub fn push_block(&mut self, height: u64, hash: [u8; 32], prev_hash: [u8; 32]) -> (action:
        ChainAction)
        ensures
            final(self).depth() == old(self).depth(),
            final(self)@ == pushed(old(self)@, old(self).depth(), height, hash, prev_hash),
            action == classified(old(self)@, height, prev_hash),
    {
        let action = self.classify(height, &prev_hash);
        match action {
            ChainAction::Extend => {
                let first: bool = self.chain.len() == 0;
                self.chain.push_back((height, hash));
                if !first && self.chain.len() > self.max_depth {
                    let ghost longer = self.chain@;
                    self.chain.pop_front();
                    assert(self.chain@ =~= longer.drop_first());
                }
            },
            ChainAction::Reorg { rollback_to } => {
                self.truncate_to(rollback_to);
                self.chain.push_back((height, hash));
            },
        }
        action
    }

    /// Removes the newest blocks as long as they are above `fork_height`.
    pub fn truncate_to(&mut self, fork_height: u64)
        ensures
            final(self).depth() == old(self).depth(),
            final(self)@ == truncated(old(self)@, fork_height),
    {
        while self.chain.len() > 0 && self.chain[self.chain.len() - 1].0 > fork_height
            invariant
                self.max_depth == old(self).max_depth,
                truncated(self.chain@, fork_height) == truncated(old(self)@, fork_height),
            decreases self.chain@.len(),
        {
            let ghost before = self.chain@;
            self.chain.pop_back();
            assert(self.chain@ =~= before.drop_last());
        }
    }

    /// The height at which a block with this parent forks off.
    fn find_fork_point(&self, target_hash: &[u8; 32]) -> (height: u64)
        ensures
            height == fork_point(self@, *target_hash),
    {
        let mut i: usize = self.chain.len();
        assert(self@.take(i as int) =~= self@);
        while i > 0
            invariant
                i <= self@.len(),
                self@ == self.chain@,
                newest_with_hash(self@, *target_hash) == newest_with_hash(
                    self@.take(i as int),
                    *target_hash,
                ),
            decreases i,
        {
            let block = self.chain[i - 1];
            assert(self@.take(i as int).drop_last() =~= self@.take(i - 1));
            if same_array(&block.1, target_hash) {
                return block.0;
            }
            i -= 1;
        }
        0
    }
}

/// Whether the tracked blocks stand by strictly increasing height.
pub open spec fn is_ascending(chain: Seq<(u64, [u8; 32])>) -> bool {
    forall|i: int, j: int|
        0 <= i < j < chain.len() ==> (#[trigger] chain[i]).0 < (#[trigger] chain[j]).0
}

/// Truncation keeps a run of the oldest blocks, and of an ascending chain
/// exactly those at or below the height.
pub proof fn law_truncation_keeps_oldest(chain: Seq<(u64, [u8; 32])>, height: u64)
    ensures
        truncated(chain, height).len() <= chain.len(),
        truncated(chain, height) == chain.take(truncated(chain, height).len() as int),
        is_ascending(chain) ==> forall|i: int|
            0 <= i < chain.len() ==> ((#[trigger] chain[i]).0 <= height <==> i < truncated(
                chain,
                height,
            ).len()),
    decreases chain.len(),
{
    if chain.len() > 0 && chain.last().0 > height {
        let front = chain.drop_last();
        law_truncation_keeps_oldest(front, height);
        let n = truncated(chain, height).len() as int;
        assert(front.take(n) =~= chain.take(n));
        if is_ascending(chain) {
            assert forall|i: int, j: int| 0 <= i < j < front.len() implies (#[trigger] front[i]).0
                < (#[trigger] front[j]).0 by {
                assert(chain[i].0 < chain[j].0);
            }
            assert forall|i: int| 0 <= i < chain.len() implies ((#[trigger] chain[i]).0 <= height
                <==> i < n) by {
                if i < front.len() {
                    assert(front[i] == chain[i]);
                }
            }
        }
    } else {
        assert(chain.take(chain.len() as int) =~= chain);
        if chain.len() > 0 && is_ascending(chain) {
            assert forall|i: int| 0 <= i < chain.len() implies (#[trigger] chain[i]).0
                <= height by {
                if i < chain.len() - 1 {
                    assert(chain[i].0 < chain[chain.len() - 1].0);
                }
            }
        }
    }
}

/// The pushed block is the new tip, unless no block is kept at all.
pub proof fn law_pushed_block_is_tip(
    chain: Seq<(u64, [u8; 32])>,
    max_depth: nat,
    height: u64,
    hash: [u8; 32],
    parent: [u8; 32],
)
    requires
        max_depth > 0,
    ensures
        pushed(chain, max_depth, height, hash, parent).len() > 0,
        pushed(chain, max_depth, height, hash, parent).last() == (height, hash),
{
}

/// A growing chain never keeps more than the allowed number of blocks.
pub proof fn law_window_is_bounded(
    chain: Seq<(u64, [u8; 32])>,
    max_depth: nat,
    height: u64,
    hash: [u8; 32],
    parent: [u8; 32],
)
    requires
        max_depth > 0,
        chain.len() <= max_depth,
        extends(chain, height, parent),
    ensures
        pushed(chain, max_depth, height, hash, parent).len() <= max_depth,
{
}

/// A block whose parent is not tracked, behind blocks that are, rolls the chain
/// back to height zero: it alone stays, behind a block of that height if there
/// is one.
pub proof fn law_unknown_parent_rolls_back_to_zero(
    chain: Seq<(u64, [u8; 32])>,
    max_depth: nat,
    height: u64,
    hash: [u8; 32],
    parent: [u8; 32],
)
    requires
        is_ascending(chain),
        chain.len() > 0,
        newest_with_hash(chain, parent) is None,
    ensures
        classified(chain, height, parent) == (ChainAction::Reorg { rollback_to: 0 }),
        pushed(chain, max_depth, height, hash, parent) == (if chain[0].0 == 0 {
            seq![chain[0], (height, hash)]
        } else {
            seq![(height, hash)]
        }),
{
    law_truncation_keeps_oldest(chain, 0);
    let kept = truncated(chain, 0);
    assert(kept.len() == if chain[0].0 == 0 {
        1nat
    } else {
        0nat
    }) by {
        if kept.len() > 1 {
            assert(chain[0].0 < chain[1].0);
        }
    }
    assert(kept =~= chain.take(kept.len() as int));
    assert(pushed(chain, max_depth, height, hash, parent) =~= if chain[0].0 == 0 {
        seq![chain[0], (height, hash)]
    } else {
        seq![(height, hash)]
    });
}

/// A block whose parent is tracked, one height above it, leaves the chain up
/// to the parent with the block behind it, and the chain stays ascending.
pub proof fn law_reorg_continues_from_parent(
    chain: Seq<(u64, [u8; 32])>,
    max_depth: nat,
    hash: [u8; 32],
    at: int,
)
    requires
        is_ascending(chain),
        0 <= at < chain.len(),
        chain[at].0 < u64::MAX,
        newest_with_hash(chain, chain[at].1) == Some(chain[at].0),
        at < chain.len() - 1,
    ensures
        ({
            let height = (chain[at].0 + 1) as u64;
            let after = pushed(chain, max_depth, height, hash, chain[at].1);
            &&& !extends(chain, height, chain[at].1)
            &&& fork_point(chain, chain[at].1) == chain[at].0
            &&& after == chain.take(at + 1).push((height, hash))
            &&& is_ascending(after)
        }),
{
    let height = (chain[at].0 + 1) as u64;
    assert(chain[at].0 < chain[chain.len() - 1].0);
    law_truncation_keeps_oldest(chain, chain[at].0);
    let kept = truncated(chain, chain[at].0);
    assert(chain[at + 1].0 > chain[at].0);
    assert(kept.len() == at + 1);
    let after = pushed(chain, max_depth, height, hash, chain[at].1);
    assert forall|i: int, j: int| 0 <= i < j < after.len() implies (#[trigger] after[i]).0 < (
    #[trigger] after[j]).0 by {
        if j < at + 1 {
            assert(chain[i].0 < chain[j].0);
        } else if i < at {
            assert(chain[i].0 < chain[at].0);
        }
    }
}

} // verus!
