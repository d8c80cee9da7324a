//! What the messages of errors tell: the numbers and reasons that the error
//! holds, and the message of the error that it wraps.

use crate::combined_server::ServerError as CombinedError;
use crate::hashtable_pir::HashTableError;
use crate::nullifier::nf_ingest::ingest::IngestError as SpendIngestError;
use crate::nullifier::spend_client::SpendClientError;
use crate::spend_server::server::ServerError as SpendServerError;
use crate::text::{decimal, hex_u64, push_decimal, push_hex};
use crate::witness::commitment_ingest::ingest::IngestError as TreeIngestError;
use crate::witness::commitment_tree_db::TreeError;
use crate::witness::decryption_db::DbError;
use crate::witness::decryption_server::server::ServerError as StoreServerError;
use crate::witness::witness_client::WitnessClientError;
use crate::witness::witness_server::server::ServerError as TreeServerError;
use vstd::prelude::*;

verus! {

/// Numbers are put behind what is there.
pub proof fn law_numbers_are_appended(text: &mut String, n: u128, other: &mut String, m: u64)
    requires
        call_ensures(push_decimal, (text, n), ()),
        call_ensures(push_hex, (other, m), ()),
    ensures
        final(text)@ == old(text)@ + decimal(n as int),
        final(other)@ == old(other)@ + hex_u64(m),
{
}

/// A table's error names the bucket and its capacity, or gives its reason.
pub proof fn law_table_error_tells(error: HashTableError, capacity: usize, message: String)
    requires
        call_ensures(HashTableError::message, (&error, capacity), message),
    ensures
        error is BucketOverflow ==> message@ == "bucket "@ + decimal(error->bucket_idx as int)
            + " overflow: already at capacity "@ + decimal(capacity as int),
        error is BlockNotFound ==> message@ == "block hash not found for rollback"@,
        error is Snapshot ==> message@ == "snapshot error: "@ + error->Snapshot_0@,
{
}

/// A tree's or a store's error names what is out of range, or gives its reason.
pub proof fn law_store_errors_tell(
    tree: TreeError,
    tree_message: String,
    store: DbError,
    store_message: String,
)
    requires
        call_ensures(TreeError::message, (&tree,), tree_message),
        call_ensures(DbError::message, (&store,), store_message),
    ensures
        tree is ShardOutOfRange ==> tree_message@ == "shard index "@ + decimal(
            tree->shard_idx as int,
        ) + " out of range (populated: "@ + decimal(tree->populated as int) + ")"@,
        tree is SnapshotCorrupted ==> tree_message@ == "snapshot corrupted: "@ + tree->reason@,
        store is SnapshotCorrupted ==> store_message@ == "snapshot corrupted: "@ + store->reason@,
{
}

/// The tree server's error names the missing block, or the block at which the
/// tree drifted and both sizes.
pub proof fn law_tree_server_error_tells(error: TreeServerError, message: String)
    requires
        call_ensures(TreeServerError::message, (&error,), message),
    ensures
        error is MissingCompletingBlock ==> message@ == "lightwalletd returned no block at height "@
            + decimal(error->MissingCompletingBlock_height as int)
            + " while bootstrapping windowed sync"@,
        error is TreeSizeMismatch ==> message@ == error->context@
            + " tree size mismatch before appending block "@ + decimal(
            error->TreeSizeMismatch_height as int,
        ) + ": expected "@ + decimal(error->expected as int) + ", got "@ + decimal(
            error->actual as int,
        ),
        error is PirSetup ==> message@ == "pir setup failed: "@ + error->PirSetup_0@,
        error is SnapshotIo ==> message@ == "snapshot io error: "@ + error->SnapshotIo_0@,
        error is Io ==> message@ == "io error: "@ + error->Io_0@,
        error is Client ==> message@ == "chain client error: "@ + error->Client_0@,
{
}

/// Clients' errors name the position and the window, or give their reason.
pub proof fn law_client_errors_tell(
    witness: WitnessClientError,
    witness_message: String,
    spend: SpendClientError,
    spend_message: String,
)
    requires
        call_ensures(WitnessClientError::message, (&witness,), witness_message),
        call_ensures(SpendClientError::message, (&spend,), spend_message),
    ensures
        witness is PositionOutsideWindow ==> witness_message@ == "position "@ + decimal(
            witness->PositionOutsideWindow_0 as int,
        ) + " is outside the server's PIR window (shards "@ + decimal(
            witness->PositionOutsideWindow_1 as int,
        ) + ".."@ + decimal(witness->PositionOutsideWindow_2 as int) + ")"@,
        witness is VerificationFailed ==> witness_message@
            == "witness verification failed for position "@ + decimal(
            witness->VerificationFailed_0 as int,
        ) + ": computed root does not match anchor"@,
        witness is QueryFailed ==> witness_message@ == "query failed: "@
            + witness->QueryFailed_0@,
        witness is InvalidParams ==> witness_message@ == "invalid params from server: "@
            + witness->InvalidParams_0@,
        spend is InvalidParams ==> spend_message@ == "invalid params from server: "@
            + spend->InvalidParams_0@,
        spend is QueryFailed ==> spend_message@ == "query failed: "@ + spend->QueryFailed_0@,
        spend is Http ==> spend_message@ == "HTTP error: "@ + spend->Http_0@,
        spend is ServerUnavailable ==> spend_message@ == "server unavailable (503)"@,
{
}

/// An error that wraps another tells where it comes from and then what the other
/// tells.
pub proof fn law_wrapped_errors_tell(
    outer: CombinedError,
    message: String,
    nullifier: String,
    witness: String,
    decryption: String,
)
    requires
        call_ensures(CombinedError::message, (&outer,), message),
        outer is Nullifier ==> call_ensures(
            SpendServerError::message,
            (&outer->Nullifier_0,),
            nullifier,
        ),
        outer is Witness ==> call_ensures(
            TreeServerError::message,
            (&outer->Witness_0,),
            witness,
        ),
        outer is Decryption ==> call_ensures(
            StoreServerError::message,
            (&outer->Decryption_0,),
            decryption,
        ),
    ensures
        outer is Nullifier ==> message@ == "nullifier server error: "@ + nullifier@,
        outer is Witness ==> message@ == "witness server error: "@ + witness@,
        outer is Decryption ==> message@ == "decryption server error: "@ + decryption@,
        outer is Client ==> message@ == "chain client error: "@ + outer->Client_0@,
        outer is Io ==> message@ == "io error: "@ + outer->Io_0@,
{
}

/// An ingest error gives its reason, or the height at which a hash is wrong.
pub proof fn law_ingest_errors_tell(
    spend: SpendIngestError,
    spend_message: String,
    tree: TreeIngestError,
    tree_message: String,
)
    requires
        call_ensures(SpendIngestError::message, (&spend,), spend_message),
        call_ensures(TreeIngestError::message, (&tree,), tree_message),
    ensures
        spend is Client ==> spend_message@ == "client error: "@ + spend->Client_0@,
        spend is HashMismatch ==> spend_message@ == "block hash mismatch at height "@ + decimal(
            spend->height as int,
        ),
        tree is Client ==> tree_message@ == "client error: "@ + tree->Client_0@,
{
}

} // verus!
