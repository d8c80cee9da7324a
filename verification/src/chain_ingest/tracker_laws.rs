//! What the chain tracker finds and keeps, by the places of its blocks.

use super::chain_tracker::{
    classified, fork_point, newest_at, newest_with_hash, pushed, truncated, ChainAction,
    ChainTracker, FOLLOW_WINDOW,
};
use vstd::prelude::*;

verus! {

/// Where some tracked block has the parent's hash, a block with that parent
/// forks off at the height of the newest such block, however many blocks are
/// tracked.
pub proof fn law_fork_point_is_newest_match(
    chain: Seq<(u64, [u8; 32])>,
    parent: [u8; 32],
    at: int,
)
    requires
        0 <= at < chain.len(),
        chain[at].1 == parent,
        forall|k: int| at < k < chain.len() ==> (#[trigger] chain[k]).1 != parent,
    ensures
        newest_with_hash(chain, parent) == Some(chain[at].0),
        fork_point(chain, parent) == chain[at].0,
    decreases chain.len(),
{
    if at < chain.len() - 1 {
        let front = chain.drop_last();
        assert(chain[chain.len() - 1].1 != parent);
        assert forall|k: int| at < k < front.len() implies (#[trigger] front[k]).1 != parent by {
            assert(chain[k].1 != parent);
        }
        law_fork_point_is_newest_match(front, parent, at);
    }
}

/// Where no tracked block has the parent's hash, the fork point is zero.
pub proof fn law_fork_point_without_match(chain: Seq<(u64, [u8; 32])>, parent: [u8; 32])
    requires
        forall|k: int| 0 <= k < chain.len() ==> (#[trigger] chain[k]).1 != parent,
    ensures
        newest_with_hash(chain, parent) is None,
        fork_point(chain, parent) == 0,
    decreases chain.len(),
{
    if chain.len() > 0 {
        let front = chain.drop_last();
        assert(chain[chain.len() - 1].1 != parent);
        assert forall|k: int| 0 <= k < front.len() implies (#[trigger] front[k]).1 != parent by {
            assert(chain[k].1 != parent);
        }
        law_fork_point_without_match(front, parent);
    }
}

/// The hash at a height is that of the newest tracked block with this height.
pub proof fn law_hash_is_of_newest_at_height(
    chain: Seq<(u64, [u8; 32])>,
    height: u64,
    at: int,
)
    requires
        0 <= at < chain.len(),
        chain[at].0 == height,
        forall|k: int| at < k < chain.len() ==> (#[trigger] chain[k]).0 != height,
    ensures
        newest_at(chain, height) == Some(chain[at].1),
    decreases chain.len(),
{
    if at < chain.len() - 1 {
        let front = chain.drop_last();
        assert(chain[chain.len() - 1].0 != height);
        assert forall|k: int| at < k < front.len() implies (#[trigger] front[k]).0 != height by {
            assert(chain[k].0 != height);
        }
        law_hash_is_of_newest_at_height(front, height, at);
    }
}

/// There is no hash at a height that no tracked block has.
pub proof fn law_no_hash_at_unknown_height(chain: Seq<(u64, [u8; 32])>, height: u64)
    requires
        forall|k: int| 0 <= k < chain.len() ==> (#[trigger] chain[k]).0 != height,
    ensures
        newest_at(chain, height) is None,
    decreases chain.len(),
{
    if chain.len() > 0 {
        let front = chain.drop_last();
        assert(chain[chain.len() - 1].0 != height);
        assert forall|k: int| 0 <= k < front.len() implies (#[trigger] front[k]).0 != height by {
            assert(chain[k].0 != height);
        }
        law_no_hash_at_unknown_height(front, height);
    }
}

/// Truncation removes the blocks behind the newest one that is not above the
/// height, and no other.
pub proof fn law_truncation_stops_at_newest_kept(
    chain: Seq<(u64, [u8; 32])>,
    height: u64,
    kept: int,
)
    requires
        0 <= kept <= chain.len(),
        kept > 0 ==> chain[kept - 1].0 <= height,
        forall|k: int| kept <= k < chain.len() ==> (#[trigger] chain[k]).0 > height,
    ensures
        truncated(chain, height).len() == kept,
        forall|k: int| 0 <= k < kept ==> truncated(chain, height)[k] == #[trigger] chain[k],
    decreases chain.len(),
{
    if kept < chain.len() {
        let front = chain.drop_last();
        assert(chain[chain.len() - 1].0 > height);
        assert forall|k: int| kept <= k < front.len() implies (#[trigger] front[k]).0 > height by {
            assert(chain[k].0 > height);
        }
        law_truncation_stops_at_newest_kept(front, height, kept);
        assert(truncated(front, height) == truncated(chain, height));
        assert forall|k: int| 0 <= k < kept implies truncated(chain, height)[k]
            == #[trigger] chain[k] by {
            assert(front[k] == chain[k]);
        }
    }
}

/// A block extends the chain if and only if it is the first one, or the tip is
/// its parent and one height below it. Any other block makes for a reorg down to
/// the newest tracked block with its parent's hash, or to zero.
pub proof fn law_block_extends_only_its_parent(
    chain: Seq<(u64, [u8; 32])>,
    height: u64,
    parent: [u8; 32],
    rollback_to: u64,
)
    ensures
        classified(chain, height, parent) == ChainAction::Extend <==> (chain.len() == 0 || (chain[
        chain.len() - 1].1 == parent && height == chain[chain.len() - 1].0 + 1)),
        classified(chain, height, parent) == (ChainAction::Reorg { rollback_to }) ==> {
            ||| exists|at: int|
                {
                    &&& 0 <= at < chain.len()
                    &&& (#[trigger] chain[at]).1 == parent
                    &&& chain[at].0 == rollback_to
                    &&& forall|k: int| at < k < chain.len() ==> (#[trigger] chain[k]).1 != parent
                }
            ||| rollback_to == 0 && forall|k: int|
                0 <= k < chain.len() ==> (#[trigger] chain[k]).1 != parent
        },
{
    if classified(chain, height, parent) == (ChainAction::Reorg { rollback_to }) {
        if forall|k: int| 0 <= k < chain.len() ==> (#[trigger] chain[k]).1 != parent {
            law_fork_point_without_match(chain, parent);
        } else {
            let any = choose|k: int| 0 <= k < chain.len() && (#[trigger] chain[k]).1 == parent;
            let at = lemma_last_match(chain, parent, any);
            law_fork_point_is_newest_match(chain, parent, at);
            assert(chain[at].0 == rollback_to);
        }
    }
}

proof fn lemma_last_match(chain: Seq<(u64, [u8; 32])>, parent: [u8; 32], from: int) -> (at: int)
    requires
        0 <= from < chain.len(),
        chain[from].1 == parent,
    ensures
        from <= at < chain.len(),
        chain[at].1 == parent,
        forall|k: int| at < k < chain.len() ==> (#[trigger] chain[k]).1 != parent,
    decreases chain.len() - from,
{
    if forall|k: int| from < k < chain.len() ==> (#[trigger] chain[k]).1 != parent {
        from
    } else {
        let next = choose|k: int| from < k < chain.len() && (#[trigger] chain[k]).1 == parent;
        lemma_last_match(chain, parent, next)
    }
}

/// An extension puts the block behind all tracked blocks, and where there are
/// then more than allowed, only the oldest one leaves.
pub proof fn law_extension_keeps_the_newest(
    chain: Seq<(u64, [u8; 32])>,
    max_depth: nat,
    height: u64,
    hash: [u8; 32],
    parent: [u8; 32],
)
    requires
        chain.len() > 0,
        chain[chain.len() - 1].1 == parent,
        height == chain[chain.len() - 1].0 + 1,
    ensures
        ({
            let after = pushed(chain, max_depth, height, hash, parent);
            let gone: int = if chain.len() + 1 > max_depth {
                1
            } else {
                0
            };
            &&& after.len() == chain.len() + 1 - gone
            &&& after[after.len() - 1] == (height, hash) || after.len() == 0
            &&& forall|k: int| gone <= k < chain.len() ==> after[k - gone] == #[trigger] chain[k]
        }),
{
}

/// The first block is tracked whatever its parent is.
pub proof fn law_first_block_is_tracked(
    max_depth: nat,
    height: u64,
    hash: [u8; 32],
    parent: [u8; 32],
)
    ensures
        pushed(Seq::empty(), max_depth, height, hash, parent).len() == 1,
        pushed(Seq::empty(), max_depth, height, hash, parent)[0] == (height, hash),
        classified(Seq::empty(), height, parent) == ChainAction::Extend,
{
}

/// A block that makes for a reorg stands behind the blocks up to the newest one
/// that is not above the fork point.
///
/// `fork` is the height of the newest block with the parent's hash, at index
/// `at`, or zero where `at` is below the first index and there is none. `kept`
/// is the number of blocks up to the newest one that is not above it.
pub proof fn law_reorg_keeps_up_to_the_fork(
    chain: Seq<(u64, [u8; 32])>,
    max_depth: nat,
    height: u64,
    hash: [u8; 32],
    parent: [u8; 32],
    at: int,
    kept: int,
)
    requires
        chain.len() > 0,
        chain[chain.len() - 1].1 != parent || height != chain[chain.len() - 1].0 + 1,
        -1 <= at < chain.len(),
        at >= 0 ==> chain[at].1 == parent,
        forall|k: int| at < k < chain.len() ==> (#[trigger] chain[k]).1 != parent,
        0 <= kept <= chain.len(),
        ({
            let fork = if at >= 0 {
                chain[at].0
            } else {
                0
            };
            &&& kept > 0 ==> chain[kept - 1].0 <= fork
            &&& forall|k: int| kept <= k < chain.len() ==> (#[trigger] chain[k]).0 > fork
        }),
    ensures
        ({
            let after = pushed(chain, max_depth, height, hash, parent);
            &&& after.len() == kept + 1
            &&& forall|k: int| 0 <= k < kept ==> after[k] == #[trigger] chain[k]
            &&& after[kept] == (height, hash)
        }),
        classified(chain, height, parent) == (ChainAction::Reorg {
            rollback_to: if at >= 0 {
                chain[at].0
            } else {
                0
            },
        }),
{
    if at >= 0 {
        law_fork_point_is_newest_match(chain, parent, at);
    } else {
        law_fork_point_without_match(chain, parent);
    }
    law_truncation_stops_at_newest_kept(chain, fork_point(chain, parent), kept);
}

/// The follow loops look twenty blocks back: twice the ten confirmations that
/// they wait for.
pub proof fn law_follow_window_is_twice_the_confirmations()
    ensures
        FOLLOW_WINDOW == 2 * crate::pir_types::CONFIRMATION_DEPTH,
        FOLLOW_WINDOW == 20,
{
}

/// A tracker finds the fork point by the newest block with the parent's hash, at
/// index `at`, or gives zero where `at` is -1 and there is none; and it reports
/// an extension only for a first block or one right above its parent at the tip.
pub proof fn law_tracker_finds_newest_parent(
    tracker: ChainTracker,
    height: u64,
    parent: [u8; 32],
    action: ChainAction,
    at: int,
)
    requires
        call_ensures(ChainTracker::classify, (&tracker, height, &parent), action),
        -1 <= at < tracker@.len(),
        at >= 0 ==> tracker@[at].1 == parent,
        forall|k: int| at < k < tracker@.len() ==> (#[trigger] tracker@[k]).1 != parent,
    ensures
        ({
            let n = tracker@.len();
            let follows = n == 0 || (tracker@[n - 1].1 == parent && height == tracker@[n - 1].0
                + 1);
            &&& follows ==> action == ChainAction::Extend
            &&& !follows && at >= 0 ==> action == (ChainAction::Reorg {
                rollback_to: tracker@[at].0,
            })
            &&& !follows && at < 0 ==> action == (ChainAction::Reorg { rollback_to: 0 })
        }),
{
    if at >= 0 {
        law_fork_point_is_newest_match(tracker@, parent, at);
    } else {
        law_fork_point_without_match(tracker@, parent);
    }
}

/// A tracker finds the hash of the newest block at a height, at index `at`, or
/// none where `at` is -1 and there is none.
pub proof fn law_tracker_finds_newest_hash(
    tracker: ChainTracker,
    height: u64,
    hash: Option<[u8; 32]>,
    at: int,
)
    requires
        call_ensures(ChainTracker::hash_at, (&tracker, height), hash),
        -1 <= at < tracker@.len(),
        at >= 0 ==> tracker@[at].0 == height,
        forall|k: int| at < k < tracker@.len() ==> (#[trigger] tracker@[k]).0 != height,
    ensures
        at >= 0 ==> hash == Some(tracker@[at].1),
        at < 0 ==> hash is None,
{
    if at >= 0 {
        law_hash_is_of_newest_at_height(tracker@, height, at);
    } else {
        law_no_hash_at_unknown_height(tracker@, height);
    }
}

} // verus!
