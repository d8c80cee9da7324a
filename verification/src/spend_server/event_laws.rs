//! What chain events do to the table, step by step.

use super::server::{after_event, event_nullifiers, nullifiers_in, with_blocks, without_orphans};
use crate::block_table::TableState;
use crate::spend_types::{ChainEvent, NewBlock, OrphanedBlock};
use vstd::prelude::*;

verus! {

/// Orphaned blocks are rolled back one after the other, the last listed first.
/// `states` holds the table before the first and after each of them.
pub proof fn law_orphans_go_last_first(
    states: Seq<TableState<[u8; 32]>>,
    orphaned: Seq<OrphanedBlock>,
)
    requires
        states.len() == orphaned.len() + 1,
        forall|k: int|
            0 <= k < orphaned.len() ==> states[orphaned.len() - k] == states[orphaned.len() - k
                - 1].rolled_back((#[trigger] orphaned[k]).hash@),
    ensures
        without_orphans(states[0], orphaned) == states[orphaned.len() as int],
    decreases orphaned.len(),
{
    if orphaned.len() > 0 {
        let front = orphaned.drop_last();
        let rest = states.drop_first();
        let n = orphaned.len() as int;
        assert(states[n - (n - 1)] == states[n - (n - 1) - 1].rolled_back(
            orphaned[n - 1].hash@,
        ));
        assert forall|k: int| 0 <= k < front.len() implies rest[front.len() - k]
            == rest[front.len() - k - 1].rolled_back((#[trigger] front[k]).hash@) by {
            assert(states[n - k] == states[n - k - 1].rolled_back(orphaned[k].hash@));
        }
        law_orphans_go_last_first(rest, front);
    }
}

/// Blocks are inserted one after the other. `states` holds the table before the
/// first and after each of them.
pub proof fn law_blocks_go_in_order(states: Seq<TableState<[u8; 32]>>, blocks: Seq<NewBlock>)
    requires
        states.len() == blocks.len() + 1,
        forall|k: int|
            0 <= k < blocks.len() ==> states[k].inserted(
                (#[trigger] blocks[k]).height,
                blocks[k].hash,
                blocks[k].nullifiers@,
            ) == Ok::<TableState<[u8; 32]>, u32>(states[k + 1]),
    ensures
        with_blocks(states[0], blocks) == (states[blocks.len() as int], None::<u32>),
    decreases blocks.len(),
{
    if blocks.len() > 0 {
        let n = blocks.len() - 1;
        let front = blocks.drop_last();
        let before = states.drop_last();
        assert forall|k: int| 0 <= k < front.len() implies before[k].inserted(
            (#[trigger] front[k]).height,
            front[k].hash,
            front[k].nullifiers@,
        ) == Ok::<TableState<[u8; 32]>, u32>(before[k + 1]) by {
            assert(front[k] == blocks[k]);
        }
        law_blocks_go_in_order(before, front);
        assert(blocks[n] == blocks.last());
    }
}

proof fn lemma_overflow_ends(table: TableState<[u8; 32]>, blocks: Seq<NewBlock>, n: int)
    requires
        0 <= n <= blocks.len(),
        with_blocks(table, blocks.take(n)).1 is Some,
    ensures
        with_blocks(table, blocks) == with_blocks(table, blocks.take(n)),
    decreases blocks.len(),
{
    if n < blocks.len() {
        assert(blocks.drop_last().take(n) =~= blocks.take(n));
        lemma_overflow_ends(table, blocks.drop_last(), n);
    } else {
        assert(blocks.take(n) =~= blocks);
    }
}

/// The first block that overflows a bucket ends the insertion: the blocks before
/// it stay, and the bucket is named. `states` holds the table before the first
/// block and after each one before that.
pub proof fn law_overflow_ends_insertion(
    states: Seq<TableState<[u8; 32]>>,
    blocks: Seq<NewBlock>,
    bucket: u32,
)
    requires
        0 < states.len() <= blocks.len(),
        forall|k: int|
            0 <= k < states.len() - 1 ==> states[k].inserted(
                (#[trigger] blocks[k]).height,
                blocks[k].hash,
                blocks[k].nullifiers@,
            ) == Ok::<TableState<[u8; 32]>, u32>(states[k + 1]),
        states.last().inserted(
            blocks[states.len() - 1].height,
            blocks[states.len() - 1].hash,
            blocks[states.len() - 1].nullifiers@,
        ) == Err::<TableState<[u8; 32]>, u32>(bucket),
    ensures
        with_blocks(states[0], blocks) == (states.last(), Some(bucket)),
{
    let n = states.len() - 1;
    let front = blocks.take(n);
    assert forall|k: int| 0 <= k < front.len() implies states[k].inserted(
        (#[trigger] front[k]).height,
        front[k].hash,
        front[k].nullifiers@,
    ) == Ok::<TableState<[u8; 32]>, u32>(states[k + 1]) by {
        assert(front[k] == blocks[k]);
    }
    law_blocks_go_in_order(states, front);
    assert(blocks.take(n + 1).drop_last() =~= front);
    assert(blocks.take(n + 1).last() == blocks[n]);
    lemma_overflow_ends(states[0], blocks, n + 1);
}

/// A new block is inserted and the oldest blocks are evicted down to a million
/// entries; where it overflows a bucket the table stays as it is and the bucket
/// is named.
pub proof fn law_new_block_is_inserted(table: TableState<[u8; 32]>, event: ChainEvent)
    requires
        event is NewBlock,
    ensures
        ({
            let taken = table.inserted(
                event->NewBlock_height,
                event->NewBlock_hash,
                event->NewBlock_nullifiers@,
            );
            &&& taken is Ok ==> after_event(table, event) == (
                taken->Ok_0.evicted_to(1_000_000),
                None::<u32>,
            )
            &&& taken is Err ==> after_event(table, event) == (table, Some(taken->Err_0))
            &&& event_nullifiers(event) == event->NewBlock_nullifiers@.len()
        }),
{
}

/// A reorg rolls back all orphaned blocks, and then inserts the new blocks in
/// order. Where all fit, the oldest blocks are evicted down to a million
/// entries.
pub proof fn law_reorg_rolls_back_then_inserts(
    event: ChainEvent,
    back: Seq<TableState<[u8; 32]>>,
    forth: Seq<TableState<[u8; 32]>>,
)
    requires
        event is Reorg,
        back.len() == event->orphaned@.len() + 1,
        forall|k: int|
            0 <= k < event->orphaned@.len() ==> back[event->orphaned@.len() - k]
                == back[event->orphaned@.len() - k - 1].rolled_back(
                (#[trigger] event->orphaned@[k]).hash@,
            ),
        forth.len() == event->new_blocks@.len() + 1,
        forth[0] == back.last(),
        forall|k: int|
            0 <= k < event->new_blocks@.len() ==> forth[k].inserted(
                (#[trigger] event->new_blocks@[k]).height,
                event->new_blocks@[k].hash,
                event->new_blocks@[k].nullifiers@,
            ) == Ok::<TableState<[u8; 32]>, u32>(forth[k + 1]),
    ensures
        after_event(back[0], event) == (forth.last().evicted_to(1_000_000), None::<u32>),
{
    law_orphans_go_last_first(back, event->orphaned@);
    law_blocks_go_in_order(forth, event->new_blocks@);
}

/// The number of nullifiers of some blocks is the sum of what each of them has.
/// `sums` holds the running sums.
pub proof fn law_nullifiers_add_up(blocks: Seq<NewBlock>, sums: Seq<int>)
    requires
        sums.len() > blocks.len(),
        sums[0] == 0,
        forall|k: int|
            0 <= k < blocks.len() ==> sums[k + 1] == sums[k] + (
            #[trigger] blocks[k]).nullifiers@.len(),
    ensures
        nullifiers_in(blocks) == sums[blocks.len() as int],
    decreases blocks.len(),
{
    if blocks.len() > 0 {
        let n = blocks.len() - 1;
        let front = blocks.drop_last();
        assert forall|k: int| 0 <= k < front.len() implies sums[k + 1] == sums[k] + (
        #[trigger] front[k]).nullifiers@.len() by {
            assert(front[k] == blocks[k]);
        }
        law_nullifiers_add_up(front, sums);
        assert(sums[n + 1] == sums[n] + blocks[n].nullifiers@.len());
    }
}

} // verus!
