//! Which blocks the plans for syncing, backfilling and catching up fetch. Each
//! law speaks of any value that the planning function may return.

use crate::chain_ingest::proto::SubtreeRoot;
use crate::chain_ingest::ranges::{min_sync_height, next_batch, next_range, sync_floor};
use crate::combined_server::{
    combined_health, decryption_sync_start, phase_to_health, plan_catch_up,
    plan_decryption_catch_up, CatchUp, CombinedHealthResponse, DecryptionCatchUp, SubsystemHealth,
};
use crate::pir_types::ServerPhase;
use crate::spend_server::schedule::{stepped, SyncStage, SyncStep};
use crate::spend_server::server::{
    backfill_end, backfill_range, backfill_start, forward_start, sync_progress,
};
use crate::witness::witness_server::server::{plan_window, WindowPlan};
use vstd::prelude::*;

verus! {

/// Nothing below Orchard activation is synced on a chain that has got there, and
/// nothing below the first block on any other.
pub proof fn law_sync_starts_at_activation(tip_height: u64, floor: u64)
    requires
        call_ensures(min_sync_height, (tip_height,), floor),
    ensures
        tip_height >= 1_687_104 ==> floor == 1_687_104,
        tip_height < 1_687_104 ==> floor == 1,
        floor == sync_floor(tip_height),
{
}

/// A batch starts where it is asked to, has ten thousand blocks or ends with
/// the range, and never has more. There is one if and only if the range has a
/// block left.
pub proof fn law_batches_are_full(current: u64, to: u64, batch: Option<(u64, u64)>)
    requires
        call_ensures(next_batch, (current, to), batch),
    ensures
        batch is Some <==> current <= to,
        batch is Some ==> {
            let (first, last) = batch->Some_0;
            &&& first == current
            &&& first <= last <= to
            &&& last - first + 1 <= 10_000
            &&& last < to ==> last - first + 1 == 10_000
        },
{
}

/// Exactly the blocks behind the current one, up to the tip, are fetched.
pub proof fn law_growth_is_fetched(
    current: u64,
    tip: u64,
    range: Option<(u64, u64)>,
    height: u64,
)
    requires
        call_ensures(next_range, (current, tip), range),
    ensures
        (range is Some && range->Some_0.0 <= height <= range->Some_0.1) <==> current < height
            <= tip,
{
}

/// A server goes on behind the newest block of its snapshot. A fresh one starts
/// fifty thousand blocks below the tip, or at the floor where that is higher.
pub proof fn law_forward_sync_start(
    from_snapshot: bool,
    latest_height: Option<u64>,
    tip_height: u64,
    start: u64,
    floor: u64,
)
    requires
        call_ensures(forward_start, (from_snapshot, latest_height, tip_height), start),
        latest_height is Some ==> latest_height->Some_0 < u64::MAX,
        call_ensures(min_sync_height, (tip_height,), floor),
    ensures
        from_snapshot && latest_height is Some ==> start == latest_height->Some_0 + 1,
        from_snapshot && latest_height is None ==> start == tip_height,
        !from_snapshot ==> start >= floor && start >= tip_height - 50_000 && (start == floor
            || start == tip_height - 50_000),
{
}

/// Backfilling ends right below where the forward sync started.
pub proof fn law_backfill_meets_forward_sync(start: u64, end: u64)
    requires
        call_ensures(backfill_end, (start,), end),
    ensures
        start > 0 ==> end + 1 == start,
        start == 0 ==> end == 0,
{
}

/// A backfill step is made if and only if there are too few nullifiers and a
/// block from the floor on is left. It ends where it is asked to and has fifty
/// thousand blocks, or starts at the floor.
pub proof fn law_backfill_steps_are_full(
    nullifiers: usize,
    target_size: usize,
    end: u64,
    floor: u64,
    range: Option<(u64, u64)>,
)
    requires
        call_ensures(backfill_range, (nullifiers, target_size, end, floor), range),
    ensures
        range is Some <==> nullifiers < target_size && floor <= end,
        range is Some ==> {
            let (first, last) = range->Some_0;
            &&& last == end
            &&& floor <= first <= last
            &&& last - first + 1 <= 50_000
            &&& floor < first ==> last - first + 1 == 50_000
            &&& first == backfill_start(end, floor)
        },
{
}

/// What a schedule does first: it fetches from its start to the tip where the
/// start is not past it, and then goes back through history below the start if
/// that is wanted.
pub proof fn law_schedule_goes_forward_first(
    start: u64,
    backfill: bool,
    tip: u64,
    nullifiers: usize,
    target_size: usize,
)
    requires
        start <= tip,
    ensures
        ({
            let (stage, step) = stepped(
                SyncStage::Forward { start, backfill },
                tip,
                nullifiers,
                target_size,
            );
            &&& step == (SyncStep::Fetch { from: start, to: tip })
            &&& !backfill ==> stage == SyncStage::Finished
            &&& backfill && start > 0 ==> stage == (SyncStage::Backfill {
                end: (start - 1) as u64,
            })
        }),
{
}

/// What a schedule does in history: while there are too few nullifiers and a
/// block from the floor on is left, it fetches up to fifty thousand blocks below
/// the last step, and else it is done.
pub proof fn law_schedule_goes_back_in_steps(
    end: u64,
    tip: u64,
    nullifiers: usize,
    target_size: usize,
    floor: u64,
)
    requires
        call_ensures(min_sync_height, (tip,), floor),
    ensures
        ({
            let (stage, step) = stepped(
                SyncStage::Backfill { end },
                tip,
                nullifiers,
                target_size,
            );
            &&& (nullifiers >= target_size || end < floor) ==> step == SyncStep::Done && stage
                == SyncStage::Finished
            &&& (nullifiers < target_size && end >= floor) ==> {
                &&& step is Fetch
                &&& step->to == end
                &&& floor <= step->from <= end
                &&& step->to - step->from + 1 <= 50_000
                &&& floor < step->from ==> step->to - step->from + 1 == 50_000
                &&& stage == (SyncStage::Backfill { end: (step->from - 1) as u64 })
            }
        }),
{
}

/// A schedule that is done stays done.
pub proof fn law_finished_schedule_stays(tip: u64, nullifiers: usize, target_size: usize)
    ensures
        stepped(SyncStage::Finished, tip, nullifiers, target_size) == (
            SyncStage::Finished,
            SyncStep::Done,
        ),
{
}

/// Progress is reported at every height that a thousand divides, and at no
/// other.
pub proof fn law_progress_every_thousand(
    height: u64,
    target_height: u64,
    phase: Option<ServerPhase>,
    thousands: int,
    rest: int,
)
    requires
        call_ensures(sync_progress, (height, target_height), phase),
        height == thousands * 1_000 + rest,
        0 <= rest < 1_000,
    ensures
        rest == 0 ==> phase == Some(
            ServerPhase::Syncing { current_height: height, target_height },
        ),
        rest != 0 ==> phase is None,
{
}

/// Catching up fetches exactly the blocks that one of the two has and the other
/// lacks, for the one that lacks them.
pub proof fn law_catch_up_closes_the_gap(
    nullifier_latest: Option<u64>,
    witness_latest: Option<u64>,
    plan: CatchUp,
    nullifiers: u64,
    witness: u64,
    height: u64,
)
    requires
        call_ensures(plan_catch_up, (nullifier_latest, witness_latest), plan),
        nullifier_latest == Some(nullifiers) || (nullifier_latest is None && nullifiers == 0),
        witness_latest == Some(witness) || (witness_latest is None && witness == 0),
    ensures
        plan is Level <==> nullifiers == witness,
        (plan is Nullifier && plan->Nullifier_from <= height <= plan->Nullifier_to) <==> nullifiers
            < height <= witness,
        (plan is Witness && plan->Witness_from <= height <= plan->Witness_to) <==> witness < height
            <= nullifiers,
{
}

/// A decryption store that has blocks goes on behind its newest one, if the tree
/// is ahead; one that has none starts with its window.
pub proof fn law_decryption_catch_up_goes_on(
    decryption_latest: Option<u64>,
    witness_latest: u64,
    plan: DecryptionCatchUp,
)
    requires
        call_ensures(plan_decryption_catch_up, (decryption_latest, witness_latest), plan),
    ensures
        plan is WindowStart <==> decryption_latest is None,
        plan is Level <==> decryption_latest is Some && decryption_latest->Some_0
            >= witness_latest,
        plan is From <==> decryption_latest is Some && decryption_latest->Some_0 < witness_latest,
        plan is From ==> plan->From_0 == decryption_latest->Some_0 + 1,
{
}

/// Decryption data is synced from the block that completed the last shard
/// before the window, or from Orchard activation where there is no such shard or
/// its block is not known. `shards` is the number of whole shards before the
/// window.
pub proof fn law_decryption_starts_at_the_window(
    leaf_offset: u64,
    subtree_roots: Vec<SubtreeRoot>,
    height: u64,
    shards: int,
)
    requires
        call_ensures(decryption_sync_start, (leaf_offset, &subtree_roots), height),
        shards * 65_536 <= leaf_offset < (shards + 1) * 65_536,
    ensures
        0 < shards <= subtree_roots@.len() ==> height == subtree_roots@[shards
            - 1].completing_block_height,
        shards == 0 || shards > subtree_roots@.len() ==> height == 1_687_104,
{
}

/// A windowed sync is planned if and only if as many shards are complete as the
/// window may have. Then all complete shards but the last ones of the window
/// lie before it: their roots are kept, cut or filled to 32 bytes, the first
/// leaf stands behind them, and the block that completed the last of them comes
/// first.
pub proof fn law_window_plan_leaves_room(
    subtree_roots: Vec<SubtreeRoot>,
    limit: usize,
    plan: Option<WindowPlan>,
    before: int,
)
    requires
        call_ensures(plan_window, (&subtree_roots, limit), plan),
        subtree_roots@.len() <= u32::MAX,
        0 < limit,
        before + limit == subtree_roots@.len() + 1,
    ensures
        plan is Some <==> before > 0,
        plan is Some ==> {
            let plan = plan->Some_0;
            &&& plan.leaf_offset == before * 65_536
            &&& plan.prefetched@.len() == before
            &&& forall|i: int, k: int|
                0 <= i < before && 0 <= k < 32 ==> #[trigger] plan.prefetched@[i]@[k] == (if k
                    < subtree_roots@[i].root_hash@.len() {
                    subtree_roots@[i].root_hash@[k]
                } else {
                    0u8
                })
            &&& plan.completing_block_height == subtree_roots@[before - 1].completing_block_height
        },
{
}

/// The health of a subsystem tells its phase, and its heights while it syncs.
pub proof fn law_health_tells_the_phase(phase: ServerPhase, health: SubsystemHealth)
    requires
        call_ensures(phase_to_health, (&phase,), health),
    ensures
        phase is Serving ==> health.phase@ == "serving"@ && health.current_height is None
            && health.target_height is None,
        phase is Syncing ==> health.phase@ == "syncing"@ && health.current_height == Some(
            phase->current_height,
        ) && health.target_height == Some(phase->target_height),
{
}

/// The server is well if and only if all three subsystems serve.
pub proof fn law_health_needs_all_three(
    nullifier: ServerPhase,
    witness: ServerPhase,
    decryption: ServerPhase,
    response: (u16, CombinedHealthResponse),
)
    requires
        call_ensures(combined_health, (&nullifier, &witness, &decryption), response),
    ensures
        response.0 == 200 <==> nullifier is Serving && witness is Serving && decryption is Serving,
        response.0 == 200 || response.0 == 503,
        nullifier is Serving <==> response.1.nullifier.current_height is None,
        witness is Serving <==> response.1.witness.current_height is None,
        decryption is Serving <==> response.1.decryption.current_height is None,
{
}

} // verus!
