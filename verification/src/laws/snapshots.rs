//! What is written to a snapshot is read back. Each law speaks of any values
//! that writing and reading may return.

use crate::bytes::{u32_at, u64_at};
use crate::checksum::xxh64_digest;
use crate::hashtable_pir::snapshot as bare;
use crate::hashtable_pir::{HashTableDb as BareTable, HashTableError};
use crate::nullifier::hashtable_pir::HashTableDb as MetaTable;
use crate::nullifier::hashtable_pir::snapshot as meta;
use crate::nullifier::spend_types::{law_entry_roundtrip, NullifierEntry};
use crate::table_snapshot::law_snapshot_header_layout;
use crate::witness::commitment_tree_db::snapshot as tree_snapshot;
use crate::witness::commitment_tree_db::{CommitmentTreeDb, TreeError};
use crate::witness::decryption_db::snapshot as store_snapshot;
use crate::witness::decryption_db::{DbError, DecryptionDb};
use crate::witness::decryption_types::{law_leaf_bytes_decide, DecryptionLeaf};
use vstd::prelude::*;

verus! {

/// A table of bare nullifiers that remembers its blocks is read back from its
/// snapshot, which has the magic number and version 1.
pub proof fn law_bare_table_is_read_back(
    db: BareTable,
    written: Vec<u8>,
    data: &[u8],
    result: Result<BareTable, HashTableError>,
)
    requires
        db.shaped(),
        db@.remembered(),
        db@.count <= usize::MAX,
        db@.index.len() <= u64::MAX,
        forall|i: int|
            0 <= i < db@.index.len() ==> (#[trigger] db@.index[i]).slots.len() <= u32::MAX,
        call_ensures(BareTable::to_snapshot, (&db,), written),
        data@ == written@,
        call_ensures(BareTable::from_snapshot, (data,), result),
    ensures
        result is Ok,
        result->Ok_0@ == db@,
        u64_at(data@, 0) == 0x5350_454E_4450_4952,
        u32_at(data@, 8) == 1,
        u64_at(data@, data@.len() - 8) == xxh64_digest(data@.take(data@.len() - 8)),
{
    bare::law_remembered_snapshot_roundtrip(db@);
    law_snapshot_header_layout(db@, 1);
}

/// A table of nullifiers with spend metadata that remembers its blocks is read
/// back from its snapshot, which has the magic number and version 2.
pub proof fn law_table_is_read_back(
    db: MetaTable,
    written: Vec<u8>,
    data: &[u8],
    result: Result<MetaTable, HashTableError>,
)
    requires
        db.shaped(),
        db@.remembered(),
        db@.count <= usize::MAX,
        db@.index.len() <= u64::MAX,
        forall|i: int|
            0 <= i < db@.index.len() ==> (#[trigger] db@.index[i]).slots.len() <= u32::MAX,
        call_ensures(MetaTable::to_snapshot, (&db,), written),
        data@ == written@,
        call_ensures(MetaTable::from_snapshot, (data,), result),
    ensures
        result is Ok,
        result->Ok_0@ == db@,
        u64_at(data@, 0) == 0x5350_454E_4450_4952,
        u32_at(data@, 8) == 2,
        u64_at(data@, data@.len() - 8) == xxh64_digest(data@.take(data@.len() - 8)),
{
    meta::law_remembered_snapshot_roundtrip(db@);
    law_snapshot_header_layout(db@, 2);
}

/// A tree is read back from its snapshot, and is as well-formed as it was.
pub proof fn law_tree_is_read_back(
    tree: CommitmentTreeDb,
    written: Vec<u8>,
    data: &[u8],
    result: Result<CommitmentTreeDb, TreeError>,
)
    requires
        tree.shaped(),
        tree@.blocks.len() <= u64::MAX,
        call_ensures(CommitmentTreeDb::to_snapshot, (&tree,), written),
        data@ == written@,
        call_ensures(CommitmentTreeDb::from_snapshot, (data,), result),
    ensures
        result is Ok,
        result->Ok_0@ == tree@,
        tree.wf() ==> result->Ok_0.wf(),
        written@ == tree_snapshot::with_checksum(tree_snapshot::payload_of(tree@)),
{
    tree.lemma_shaped();
    if result is Ok {
        tree_snapshot::law_snapshot_roundtrip(tree@, result->Ok_0@);
    } else {
        tree_snapshot::law_snapshot_roundtrip(tree@, tree@);
    }
}

/// A store is read back from its snapshot.
pub proof fn law_store_is_read_back(
    db: DecryptionDb,
    written: Vec<u8>,
    data: &[u8],
    result: Result<DecryptionDb, DbError>,
)
    requires
        db.wf(),
        db@.blocks.len() <= u64::MAX,
        call_ensures(DecryptionDb::to_snapshot, (&db,), written),
        data@ == written@,
        call_ensures(DecryptionDb::from_snapshot, (data,), result),
    ensures
        result is Ok,
        result->Ok_0@ == db@,
        written@ == store_snapshot::with_checksum(store_snapshot::payload_of(db@)),
{
    if result is Ok {
        store_snapshot::law_snapshot_roundtrip(db@, result->Ok_0@);
    } else {
        store_snapshot::law_snapshot_roundtrip(db@, db@);
    }
}

/// Bytes that do not end with the digest of what is before it are refused by
/// every kind of snapshot.
pub proof fn law_altered_bytes_are_refused(
    data: &[u8],
    bare_table: Result<BareTable, HashTableError>,
    table: Result<MetaTable, HashTableError>,
    tree: Result<CommitmentTreeDb, TreeError>,
    store: Result<DecryptionDb, DbError>,
)
    requires
        call_ensures(BareTable::from_snapshot, (data,), bare_table),
        call_ensures(MetaTable::from_snapshot, (data,), table),
        call_ensures(CommitmentTreeDb::from_snapshot, (data,), tree),
        call_ensures(DecryptionDb::from_snapshot, (data,), store),
        data@.len() < 16 || u64_at(data@, data@.len() - 8) != xxh64_digest(
            data@.take(data@.len() - 8),
        ),
    ensures
        bare_table is Err,
        table is Err,
        tree is Err,
        store is Err,
{
}

/// An entry is read back from its bytes.
pub proof fn law_entry_is_read_back(entry: NullifierEntry, bytes: [u8; 41], read: NullifierEntry)
    requires
        call_ensures(NullifierEntry::to_bytes, (&entry,), bytes),
        call_ensures(NullifierEntry::from_bytes, (bytes,), read),
    ensures
        read == entry,
        bytes@ == entry.bytes(),
{
    law_entry_roundtrip(entry);
}

/// A leaf is read back from its bytes, whatever stands behind them, and from no
/// fewer.
pub proof fn law_leaf_is_read_back(
    leaf: DecryptionLeaf,
    bytes: [u8; 116],
    data: &[u8],
    read: Option<DecryptionLeaf>,
)
    requires
        call_ensures(DecryptionLeaf::to_bytes, (&leaf,), bytes),
        call_ensures(DecryptionLeaf::from_bytes, (data,), read),
    ensures
        bytes@ == leaf.bytes(),
        read is Some <==> data@.len() >= 116,
        data@.len() >= 116 && data@.take(116) == bytes@ ==> read == Some(leaf),
{
    if data@.len() >= 116 && data@.take(116) == bytes@ {
        law_leaf_bytes_decide(leaf, read->Some_0);
    }
}

} // verus!
