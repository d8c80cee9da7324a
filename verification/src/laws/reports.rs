//! What servers report of what they serve, and where they go on.

use crate::block_table::TableState;
use crate::bytes::{lemma_array_bytes, u32_at, u64_at};
use crate::hashtable_pir::HashTableDb as BareTable;
use crate::hashtable_pir::snapshot as bare_snapshot;
use crate::nullifier::hashtable_pir::HashTableDb as MetaTable;
use crate::nullifier::hashtable_pir::snapshot as meta_snapshot;
use crate::nullifier::spend_server as meta_server;
use crate::nullifier::spend_types::NullifierEntry;
use crate::pir_types::ServerPhase;
use crate::spend_server::routes::{health, HealthResponse};
use crate::spend_server::server as bare_server;
use crate::spend_types::SpendabilityMetadata;
use crate::table_snapshot::{blocks_in, lemma_blocks_behind_header};
use crate::witness::commitment_tree_db::{CommitmentTreeDb, TreeState};
use crate::witness::witness_server::server::{
    resume_point, size_agrees, size_hint, validate_prior_tree_size, ServerError,
};
use vstd::prelude::*;

verus! {

/// The reported heights are those of the lowest and the highest block, or zero
/// where there is none, and every entry is counted.
pub proof fn law_bare_metadata_spans_all_blocks(table: TableState<[u8; 32]>, i: int)
    requires
        table.shaped(131_072, 16),
        table.count <= u64::MAX,
    ensures
        ({
            let metadata = bare_server::metadata_for(table);
            let n = table.index.len();
            &&& 0 <= i < n ==> metadata.earliest_height <= table.index[i].height
                <= metadata.latest_height
            &&& n > 0 ==> metadata.earliest_height == table.index[0].height
            &&& n > 0 ==> metadata.latest_height == table.index[n - 1].height
            &&& n == 0 ==> metadata.earliest_height == 0 && metadata.latest_height == 0
            &&& metadata.num_nullifiers == table.count
            &&& metadata.num_buckets == 131_072
            &&& metadata.phase == ServerPhase::Serving
        }),
{
    if 0 < i < table.index.len() {
        assert(table.index[0].height < table.index[i].height);
    }
    if 0 <= i < table.index.len() - 1 {
        assert(table.index[i].height < table.index[table.index.len() - 1].height);
    }
}

/// The reported heights are those of the lowest and the highest block, or zero
/// where there is none, and every entry is counted.
pub proof fn law_metadata_spans_all_blocks(table: TableState<NullifierEntry>, i: int)
    requires
        table.shaped(16_384, 112),
        table.count <= u64::MAX,
    ensures
        ({
            let metadata = meta_server::metadata_for(table);
            let n = table.index.len();
            &&& 0 <= i < n ==> metadata.earliest_height <= table.index[i].height
                <= metadata.latest_height
            &&& n > 0 ==> metadata.earliest_height == table.index[0].height
            &&& n > 0 ==> metadata.latest_height == table.index[n - 1].height
            &&& n == 0 ==> metadata.earliest_height == 0 && metadata.latest_height == 0
            &&& metadata.num_nullifiers == table.count
            &&& metadata.num_buckets == 16_384
            &&& metadata.phase == ServerPhase::Serving
        }),
{
    if 0 < i < table.index.len() {
        assert(table.index[0].height < table.index[i].height);
    }
    if 0 <= i < table.index.len() - 1 {
        assert(table.index[i].height < table.index[table.index.len() - 1].height);
    }
}

/// The lowest and the highest height of a table bound those of all its blocks,
/// and are there if and only if it has a block.
pub proof fn law_bare_heights_bound_all_blocks(
    db: BareTable,
    earliest: Option<u64>,
    latest: Option<u64>,
    i: int,
)
    requires
        db.shaped(),
        call_ensures(BareTable::earliest_height, (&db,), earliest),
        call_ensures(BareTable::latest_height, (&db,), latest),
    ensures
        earliest is Some <==> db@.index.len() > 0,
        latest is Some <==> db@.index.len() > 0,
        0 <= i < db@.index.len() ==> earliest->Some_0 <= db@.index[i].height <= latest->Some_0,
        db@.index.len() > 0 ==> earliest == Some(db@.index[0].height),
        db@.index.len() > 0 ==> latest == Some(db@.index[db@.index.len() - 1].height),
{
    if 0 < i < db@.index.len() {
        assert(db@.index[0].height < db@.index[i].height);
    }
    if 0 <= i < db@.index.len() - 1 {
        assert(db@.index[i].height < db@.index[db@.index.len() - 1].height);
    }
}

/// The lowest and the highest height of a table bound those of all its blocks,
/// and are there if and only if it has a block.
pub proof fn law_heights_bound_all_blocks(
    db: MetaTable,
    earliest: Option<u64>,
    latest: Option<u64>,
    i: int,
)
    requires
        db.shaped(),
        call_ensures(MetaTable::earliest_height, (&db,), earliest),
        call_ensures(MetaTable::latest_height, (&db,), latest),
    ensures
        earliest is Some <==> db@.index.len() > 0,
        latest is Some <==> db@.index.len() > 0,
        0 <= i < db@.index.len() ==> earliest->Some_0 <= db@.index[i].height <= latest->Some_0,
        db@.index.len() > 0 ==> earliest == Some(db@.index[0].height),
        db@.index.len() > 0 ==> latest == Some(db@.index[db@.index.len() - 1].height),
{
    if 0 < i < db@.index.len() {
        assert(db@.index[0].height < db@.index[i].height);
    }
    if 0 <= i < db@.index.len() - 1 {
        assert(db@.index[i].height < db@.index[db@.index.len() - 1].height);
    }
}

/// The bucket data of a snapshot stands behind its block records: 131,072 rows
/// of 16 nullifiers of 32 bytes. `payload` is what stands before the digest,
/// and `end` is where the records end.
pub proof fn law_bare_buckets_are_restored(data: Seq<u8>, payload: Seq<u8>, b: int, s: int, k: int)
    requires
        bare_snapshot::snapshot_fault(data) is None,
        payload == data.take(data.len() - 8),
        0 <= b < 131_072,
        0 <= s < 16,
        0 <= k < 32,
    ensures
        ({
            let read = blocks_in(payload, u64_at(payload, 68) as int);
            let end = read->Some_0.1;
            let restored = bare_snapshot::restored(data);
            &&& read is Some
            &&& restored.buckets.len() == 131_072
            &&& restored.buckets[b].len() == 16
            &&& restored.buckets[b][s]@[k] == payload[end + b * 512 + s * 32 + k]
            &&& u64_at(payload, 60) <= usize::MAX ==> restored.count == u64_at(payload, 60)
        }),
{
    let end = blocks_in(payload, u64_at(payload, 68) as int)->Some_0.1;
    lemma_blocks_behind_header(payload, u64_at(payload, 68) as int);
    let at = end + b * 512 + s * 32;
    lemma_array_bytes::<32>(payload.subrange(at, at + 32));
    assert(payload.subrange(at, at + 32)[k] == payload[at + k]);
}

/// The bucket data of a snapshot stands behind its block records: 16,384 rows
/// of 112 entries of 41 bytes.
pub proof fn law_buckets_are_restored(data: Seq<u8>, payload: Seq<u8>, b: int, s: int, k: int)
    requires
        meta_snapshot::snapshot_fault(data) is None,
        payload == data.take(data.len() - 8),
        0 <= b < 16_384,
        0 <= s < 112,
        0 <= k < 32,
    ensures
        ({
            let read = blocks_in(payload, u64_at(payload, 68) as int);
            let end = read->Some_0.1;
            let restored = meta_snapshot::restored(data);
            let at = end + b * 4_592 + s * 41;
            &&& read is Some
            &&& restored.buckets.len() == 16_384
            &&& restored.buckets[b].len() == 112
            &&& restored.buckets[b][s].nullifier@[k] == payload[at + k]
            &&& restored.buckets[b][s].spend_height == u32_at(payload, at + 32)
            &&& restored.buckets[b][s].first_output_position == u32_at(payload, at + 36)
            &&& restored.buckets[b][s].action_count == payload[at + 40]
            &&& u64_at(payload, 60) <= usize::MAX ==> restored.count == u64_at(payload, 60)
        }),
{
    let end = blocks_in(payload, u64_at(payload, 68) as int)->Some_0.1;
    lemma_blocks_behind_header(payload, u64_at(payload, 68) as int);
    let at = end + b * 4_592 + s * 41;
    let field = payload.subrange(at, at + 41);
    lemma_array_bytes::<32>(field.subrange(0, 32));
    assert(field.subrange(0, 32)[k] == payload[at + k]);
    assert(u32_at(field, 32) == u32_at(payload, at + 32));
    assert(u32_at(field, 36) == u32_at(payload, at + 36));
}

/// The health of a server tells its phase, and of what it serves the latest
/// height and the numbers of nullifiers and of buckets.
pub proof fn law_health_tells_what_is_served(
    phase: ServerPhase,
    live: Option<SpendabilityMetadata>,
    response: HealthResponse,
)
    requires
        call_ensures(health, (phase, live), response),
    ensures
        response.phase == phase,
        response.height is Some <==> live is Some,
        live is Some ==> response.height == Some(live->Some_0.latest_height)
            && response.nullifier_count == live->Some_0.num_nullifiers && response.num_blocks
            == live->Some_0.num_buckets,
        live is None ==> response.nullifier_count == 0 && response.num_blocks == 0,
{
}

/// A block is taken if and only if the chain gives no tree size before it, or
/// the size that the tree has.
pub proof fn law_drift_is_refused(
    tree: CommitmentTreeDb,
    height: u64,
    prior_tree_size: Option<u32>,
    context: &'static str,
    result: Result<(), ServerError>,
)
    requires
        tree.shaped(),
        call_ensures(
            validate_prior_tree_size,
            (&tree, height, prior_tree_size, context),
            result,
        ),
    ensures
        result is Ok <==> prior_tree_size is None || prior_tree_size->Some_0
            == tree@.leaf_offset + tree@.leaves.len(),
        result is Ok <==> size_agrees(tree@, prior_tree_size),
        result matches Err(ServerError::TreeSizeMismatch { expected, actual, height: at, .. }) ==> at
            == height && expected == prior_tree_size->Some_0 && actual == tree@.leaf_offset
            + tree@.leaves.len(),
        result is Err ==> result->Err_0 is TreeSizeMismatch,
{
}

/// Syncing goes on behind the newest block of a restored tree, from the start
/// where it has none, with the number of its leaves where there are any.
pub proof fn law_sync_resumes_behind_the_tree(tree: CommitmentTreeDb, point: (u64, Option<u32>))
    requires
        tree.shaped(),
        tree@.in_capacity(),
        tree@.tree_size() <= u32::MAX,
        tree@.blocks.len() > 0 ==> tree@.blocks[tree@.blocks.len() - 1].height < u64::MAX,
        call_ensures(resume_point, (&tree,), point),
    ensures
        tree@.blocks.len() == 0 ==> point.0 == 0,
        tree@.blocks.len() > 0 ==> point.0 == tree@.blocks[tree@.blocks.len() - 1].height + 1,
        tree@.leaf_offset + tree@.leaves.len() == 0 ==> point.1 is None,
        tree@.leaf_offset + tree@.leaves.len() > 0 ==> point.1 is Some && point.1->Some_0
            == tree@.leaf_offset + tree@.leaves.len(),
        point.1 == size_hint(tree@),
{
}

/// The size that is known to the next block is that of the tree, and none where
/// the tree is empty.
pub proof fn law_known_size_is_the_tree_size(tree: TreeState)
    requires
        tree.tree_size() <= u32::MAX,
    ensures
        tree.leaf_offset + tree.leaves.len() == 0 <==> size_hint(tree) is None,
        size_hint(tree) is Some ==> size_hint(tree)->Some_0 == tree.leaf_offset
            + tree.leaves.len(),
{
}

} // verus!
