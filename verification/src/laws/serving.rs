//! What a server serves after a rebuild, and what its routes hand out. Each law
//! speaks of any engine and of any values that the calls may return.

use crate::hashtable_pir::HashTableDb as BareTable;
use crate::nullifier::hashtable_pir::HashTableDb as MetaTable;
use crate::nullifier::spend_server as meta_server;
use crate::pir_types::{PirEngine, YpirScenario};
use crate::query::QueryReply;
use crate::spend_server::routes as spend_routes;
use crate::spend_server::server as bare_server;
use crate::spend_server::state::PirState as SpendState;
use crate::spend_types::{ServerPhase, SpendabilityMetadata};
use crate::witness::commitment_tree_db::CommitmentTreeDb;
use crate::witness::decryption_db::DecryptionDb;
use crate::witness::decryption_server::routes as store_routes;
use crate::witness::decryption_server::server as store_server;
use crate::witness::decryption_server::state::{DecryptionMetadata, PirState as StoreState};
use crate::witness::witness_server::routes as tree_routes;
use crate::witness::witness_server::server as tree_server;
use crate::witness::witness_server::state::{PirState as TreeState, WitnessMetadata};
use crate::witness::witness_types::BroadcastData;
use vstd::prelude::*;

verus! {

/// A rebuilt nullifier server serves what the engine set up, with the numbers of
/// the table, and fails with the engine's reason where there is none.
pub proof fn law_rebuilt_tables_are_served<P: PirEngine>(
    setup: Result<P::ServerState, String>,
    bare: BareTable,
    bare_state: Result<SpendState<P>, bare_server::ServerError>,
    meta: MetaTable,
    meta_state: Result<SpendState<P>, bare_server::ServerError>,
)
    requires
        bare.wf(),
        meta.wf(),
        bare@.count <= u64::MAX,
        meta@.count <= u64::MAX,
        call_ensures(bare_server::finish_rebuild::<P>, (setup, &bare), bare_state),
        call_ensures(meta_server::finish_rebuild::<P>, (setup, &meta), meta_state),
    ensures
        bare_state is Ok <==> setup is Ok,
        bare_state is Ok ==> bare_state->Ok_0.engine_state == setup->Ok_0,
        bare_state is Ok ==> bare_state->Ok_0.metadata.num_nullifiers == bare@.count,
        bare_state is Ok ==> bare_state->Ok_0.metadata.phase == ServerPhase::Serving,
        bare_state is Ok && bare@.index.len() > 0 ==> bare_state->Ok_0.metadata.latest_height
            == bare@.index[bare@.index.len() - 1].height,
        bare_state is Err ==> bare_state->Err_0 == bare_server::ServerError::PirSetup(
            setup->Err_0,
        ),
        meta_state is Ok <==> setup is Ok,
        meta_state is Ok ==> meta_state->Ok_0.engine_state == setup->Ok_0,
        meta_state is Ok ==> meta_state->Ok_0.metadata.num_nullifiers == meta@.count,
        meta_state is Ok ==> meta_state->Ok_0.metadata.phase == ServerPhase::Serving,
        meta_state is Ok && meta@.index.len() > 0 ==> meta_state->Ok_0.metadata.latest_height
            == meta@.index[meta@.index.len() - 1].height,
        meta_state is Err ==> meta_state->Err_0 == bare_server::ServerError::PirSetup(
            setup->Err_0,
        ),
{
}

/// A rebuilt witness or decryption server serves what the engine set up, with
/// the broadcast that it is given and the size of its leaves at the anchor, and
/// fails with the engine's reason where there is none.
pub proof fn law_rebuilt_leaves_are_served<P: PirEngine>(
    setup: Result<P::ServerState, String>,
    broadcast: BroadcastData,
    anchor_height: u64,
    tree: CommitmentTreeDb,
    tree_state: Result<TreeState<P>, tree_server::ServerError>,
    db: DecryptionDb,
    store_state: Result<StoreState<P>, store_server::ServerError>,
)
    requires
        tree.shaped(),
        tree@.in_capacity(),
        db.wf(),
        db@.in_capacity(),
        call_ensures(
            tree_server::finish_rebuild::<P>,
            (setup, broadcast, &tree, anchor_height),
            tree_state,
        ),
        call_ensures(store_server::finish_rebuild::<P>, (setup, &db, anchor_height), store_state),
    ensures
        tree_state is Ok <==> setup is Ok,
        tree_state is Ok ==> tree_state->Ok_0.engine_state == setup->Ok_0,
        tree_state is Ok ==> tree_state->Ok_0.broadcast == broadcast,
        tree_state is Ok ==> tree_state->Ok_0.metadata.anchor_height == anchor_height,
        tree_state is Ok ==> tree_state->Ok_0.metadata.tree_size == tree@.leaf_offset
            + tree@.leaves.len(),
        tree_state is Err ==> tree_state->Err_0 == tree_server::ServerError::PirSetup(
            setup->Err_0,
        ),
        store_state is Ok <==> setup is Ok,
        store_state is Ok ==> store_state->Ok_0.engine_state == setup->Ok_0,
        store_state is Ok ==> store_state->Ok_0.metadata.anchor_height == anchor_height,
        store_state is Ok ==> store_state->Ok_0.metadata.tree_size == db@.leaf_offset
            + db@.leaves.len(),
        store_state is Err ==> store_state->Err_0 == store_server::ServerError::PirSetup(
            setup->Err_0,
        ),
{
    tree.lemma_shaped();
}

/// A rebuilt server's engine is set up with the rows of the table and nothing
/// else: a state is served only if the engine made it from these rows.
pub proof fn law_engines_get_the_rows<P: PirEngine>(
    engine: P,
    scenario: YpirScenario,
    bare: BareTable,
    bare_state: Result<SpendState<P>, bare_server::ServerError>,
    meta: MetaTable,
    meta_state: Result<SpendState<P>, bare_server::ServerError>,
)
    requires
        bare.wf(),
        meta.wf(),
        call_ensures(bare_server::rebuild_pir::<P>, (&engine, &bare, &scenario), bare_state),
        call_ensures(meta_server::rebuild_pir::<P>, (&engine, &meta, &scenario), meta_state),
    ensures
        exists|bytes: &[u8], setup: Result<P::ServerState, P::Error>|
            {
                &&& #[trigger] call_ensures(P::setup, (&engine, bytes, &scenario), setup)
                &&& bytes@ == bare@.rows()
                &&& bare_state is Ok <==> setup is Ok
                &&& bare_state is Ok ==> bare_state->Ok_0.engine_state == setup->Ok_0
            },
        exists|bytes: &[u8], setup: Result<P::ServerState, P::Error>|
            {
                &&& #[trigger] call_ensures(P::setup, (&engine, bytes, &scenario), setup)
                &&& bytes@ == meta@.rows()
                &&& meta_state is Ok <==> setup is Ok
                &&& meta_state is Ok ==> meta_state->Ok_0.engine_state == setup->Ok_0
            },
{
}

/// The engine of a rebuilt witness or decryption server is set up with the
/// database of its leaves, and the state that it made of them is served.
pub proof fn law_engines_get_the_leaves<P: PirEngine>(
    engine: P,
    scenario: YpirScenario,
    anchor_height: u64,
    tree: &mut CommitmentTreeDb,
    tree_state: Result<TreeState<P>, tree_server::ServerError>,
    db: DecryptionDb,
    store_state: Result<StoreState<P>, store_server::ServerError>,
)
    requires
        old(tree).shaped(),
        old(tree)@.in_capacity(),
        old(tree)@.leaves_hashable(),
        db.wf(),
        db@.in_capacity(),
        call_ensures(
            tree_server::rebuild_pir::<P>,
            (&engine, tree, &scenario, anchor_height),
            tree_state,
        ),
        call_ensures(
            store_server::rebuild_pir::<P>,
            (&engine, &db, &scenario, anchor_height),
            store_state,
        ),
    ensures
        final(tree)@.leaves == old(tree)@.leaves,
        final(tree)@.blocks == old(tree)@.blocks,
        final(tree)@.leaf_offset == old(tree)@.leaf_offset,
        exists|bytes: &[u8], setup: Result<P::ServerState, P::Error>|
            {
                &&& #[trigger] call_ensures(P::setup, (&engine, bytes, &scenario), setup)
                &&& bytes@ == old(tree)@.pir_db()
                &&& tree_state is Ok <==> setup is Ok
                &&& tree_state is Ok ==> tree_state->Ok_0.engine_state == setup->Ok_0
            },
        tree_state is Ok ==> tree_state->Ok_0.metadata.anchor_height == anchor_height,
        exists|bytes: &[u8], setup: Result<P::ServerState, P::Error>|
            {
                &&& #[trigger] call_ensures(P::setup, (&engine, bytes, &scenario), setup)
                &&& bytes@ == db@.pir_db()
                &&& store_state is Ok <==> setup is Ok
                &&& store_state is Ok ==> store_state->Ok_0.engine_state == setup->Ok_0
            },
        store_state is Ok ==> store_state->Ok_0.metadata.anchor_height == anchor_height,
{
}

/// Routes hand out what is served, and nothing where nothing is served.
pub proof fn law_routes_hand_out_what_is_served<P: PirEngine>(
    spend: SpendState<P>,
    spend_metadata: Option<SpendabilityMetadata>,
    tree: TreeState<P>,
    tree_metadata: Option<WitnessMetadata>,
    store: StoreState<P>,
    store_metadata: Option<DecryptionMetadata>,
    none: (Option<SpendabilityMetadata>, Option<WitnessMetadata>, Option<DecryptionMetadata>),
)
    requires
        call_ensures(spend_routes::metadata::<P>, (Some(&spend),), spend_metadata),
        call_ensures(tree_routes::metadata::<P>, (Some(&tree),), tree_metadata),
        call_ensures(store_routes::metadata::<P>, (Some(&store),), store_metadata),
        call_ensures(spend_routes::metadata::<P>, (None,), none.0),
        call_ensures(tree_routes::metadata::<P>, (None,), none.1),
        call_ensures(store_routes::metadata::<P>, (None,), none.2),
    ensures
        spend_metadata == Some(spend.metadata),
        tree_metadata == Some(tree.metadata),
        store_metadata == Some(store.metadata),
        none.0 is None && none.1 is None && none.2 is None,
{
}

/// A broadcast is handed out if and only if a tree is served, and is the one
/// that was made with it.
pub proof fn law_broadcast_is_the_served_one<P: PirEngine>(
    live: Option<&TreeState<P>>,
    broadcast: Option<&BroadcastData>,
)
    requires
        call_ensures(tree_routes::broadcast::<P>, (live,), broadcast),
    ensures
        broadcast is Some <==> live is Some,
        live is Some ==> *broadcast->Some_0 == live->Some_0.broadcast,
{
}

/// Queries find no service if and only if nothing is served.
pub proof fn law_queries_need_a_served_state<P: PirEngine>(
    engine: P,
    body: &[u8],
    spend: Option<&SpendState<P>>,
    spend_reply: QueryReply,
    tree: Option<&TreeState<P>>,
    tree_reply: QueryReply,
    store: Option<&StoreState<P>>,
    store_reply: QueryReply,
)
    requires
        call_ensures(spend_routes::query::<P>, (&engine, spend, body), spend_reply),
        call_ensures(tree_routes::query::<P>, (&engine, tree, body), tree_reply),
        call_ensures(store_routes::query::<P>, (&engine, store, body), store_reply),
    ensures
        spend_reply is Unavailable <==> spend is None,
        tree_reply is Unavailable <==> tree is None,
        store_reply is Unavailable <==> store is None,
{
}

/// The parameters that the route gives are the geometry of the nullifier rows.
pub proof fn law_params_are_the_geometry(scenario: YpirScenario)
    requires
        call_ensures(spend_routes::params, (), scenario),
    ensures
        scenario.num_items == 131_072,
        scenario.item_size_bits == 4_096,
{
}

} // verus!
