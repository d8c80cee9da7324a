# Spendability PIR

Private spendability checks for Zcash wallets by single-server private
information retrieval (PIR), with the logic verified in Verus.

- **Nullifiers**: a bucketed hash table of recent Orchard nullifiers, one bucket
  per PIR row, tells a wallet whether a note has been spent, and where.
- **Witnesses**: the leaves of the note commitment tree, one sub-shard per PIR
  row, and a broadcast of shard and sub-shard roots give a wallet the
  authentication path of a note.
- **Decryption data**: what a wallet needs to trial-decrypt an action, in the
  geometry of the witness database.

## Layout

- `src/` is the verified library.
  - `block_table`, `hash_index`, `table_snapshot`, `table_laws`,
    `table_history`: the bucketed table with per-block insertion, rollback and
    eviction, its snapshots and its laws. `hashtable_pir` and
    `nullifier::hashtable_pir` are its two instances: bare nullifiers, and
    nullifiers with spend metadata.
  - `chain_ingest`: compact blocks, the chain tracker, ranges to fetch.
  - `nullifier`, `spend_server`: nullifier extraction, sync and follow
    decisions, the schedule of a start, the lookup in a decoded row.
  - `witness`: the commitment tree, the decryption store, their snapshots, the
    server decisions and the reconstruction of witnesses.
  - `combined_server`: all three subsystems fed from one stream of blocks.
  - `query`, `pir_rows`, `snapshot_clock`: what the servers share.
- `tests/` runs the library.
- `app/` is the program around it: gRPC, HTTP, files, the YPIR engine.

## What is served

- The databases reach up to the newest block that was ingested. The confirmation
  depth holds nothing back: it sizes the window of blocks that a follower tracks
  to find fork points, which is twice as long. A wallet applies its own
  confirmation policy to the heights and anchors that it is told.
- A block whose parent is not tracked rolls the chain back to height zero. A
  follower starts with one tracked block, the newest of its table, so a reorg
  that reaches below that block is such a case.
- On a reorg the table of bare nullifiers drops blocks by the hashes that are
  tracked for them. The combined server drops them by height, tracked or not.

## What is proved

Every function of the library has a contract over a mathematical model of its
data (`TableState`, `TreeState`, `DecryptionState`, chains of blocks). What
relates several functions is stated in public proof functions whose names begin
with `law_`: for example that a lookup in a served row is exact, that a reorg
leaves no stale nullifier, that a snapshot restores what was saved (of a
commitment tree also its window and its cache of sub-shard roots), that a
windowed tree has the root of the full one, and that a witness made from a
served row and broadcast leads from the leaf to the root of the tree.

## What is trusted

- `checksum`: the xxHash64 digest of the `xxhash-rust` crate is a fixed function
  of the bytes.
- `witness::sinsemilla`: node parsing, the empty leaf and the Sinsemilla node
  hash of the `orchard` crate.
