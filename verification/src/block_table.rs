//! A bucketed hash table whose entries come and go with the blocks that
//! brought them.
//!
//! An entry is filed in the bucket that the first bytes of its nullifier
//! select, in the first free slot there. The table remembers for each block
//! the slots that it filled, so that a block can be rolled back, or evicted
//! when it is the oldest, by emptying those slots.

use crate::bytes::{
    joined, lemma_concat_assoc, lemma_joined_push, read_u32_at, same_array, u32_at, zeros,
};
use crate::hash_index::HashIndex;
use std::collections::VecDeque;
use vstd::prelude::*;

verus! {

/// What a slot of the table holds.
pub trait SlotEntry: Copy {
    /// The nullifier by which the entry is filed and found.
    spec fn nf(self) -> Seq<u8>;

    /// The bytes of the entry in a row of the table.
    spec fn encoding(self) -> Seq<u8>;

    /// The length of every encoding.
    spec fn encoded_len() -> nat;

    /// Whether this is the entry that marks a free slot.
    spec fn is_zero(self) -> bool;

    /// Encodings have one length and start with the nullifier, nullifiers have
    /// 32 bytes, and there is one entry that marks a free slot, whose nullifier
    /// is all zero bytes.
    proof fn entry_laws(self, other: Self)
        ensures
            exists|zero: Self| zero.is_zero(),
            self.encoding().len() == Self::encoded_len(),
            self.nf().len() == 32,
            self.encoding().len() >= 32,
            self.encoding().take(32) == self.nf(),
            self.is_zero() ==> self.nf() == zeros(32),
            self.is_zero() && other.is_zero() ==> self == other,
    ;

    /// The entry that marks a free slot.
    fn zero() -> (entry: Self)
        ensures
            entry.is_zero(),
    ;

    /// Whether this is the entry that marks a free slot.
    fn is_empty(&self) -> (empty: bool)
        ensures
            empty == self.is_zero(),
    ;

    /// The nullifier by which the entry is filed and found.
    fn nf_bytes(&self) -> (nf: &[u8; 32])
        ensures
            nf@ == self.nf(),
    ;

    /// Appends the bytes of the entry.
    fn push_encoding(&self, buf: &mut Vec<u8>)
        ensures
            final(buf)@ == old(buf)@ + self.encoding(),
    ;
}

/// The entry that marks a free slot.
pub open spec fn zero_entry<E: SlotEntry>() -> E {
    choose|e: E| e.is_zero()
}

/// A block that the table knows.
pub ghost struct IndexedBlock {
    pub height: u64,
    pub hash: [u8; 32],
    /// The slots that the block filled: bucket and place in the bucket.
    pub slots: Seq<(u32, u8)>,
}

/// The contents of a table.
pub ghost struct TableState<E> {
    /// The entries, bucket by bucket.
    pub buckets: Seq<Seq<E>>,
    /// The known blocks, by strictly increasing height.
    pub index: Seq<IndexedBlock>,
    /// The height last recorded for each block hash.
    pub heights: Map<Seq<u8>, u64>,
    /// Number of entries.
    pub count: nat,
}

/// The bucket of a nullifier: its first four bytes, modulo the number of
/// buckets.
pub open spec fn bucket_of(nf: Seq<u8>, buckets: int) -> int {
    u32_at(nf, 0) as int % buckets
}

/// The first free slot at or after `from`.
pub open spec fn first_free<E: SlotEntry>(bucket: Seq<E>, from: int) -> Option<int>
    decreases bucket.len() - from,
{
    if from >= bucket.len() {
        None
    } else if bucket[from].is_zero() {
        Some(from)
    } else {
        first_free(bucket, from + 1)
    }
}

/// Fills free slots with the entries, one after the other. Gives the buckets
/// and the slots that were filled, or the first bucket that had no free slot.
pub open spec fn placed<E: SlotEntry>(buckets: Seq<Seq<E>>, entries: Seq<E>) -> Result<
    (Seq<Seq<E>>, Seq<(u32, u8)>),
    u32,
>
    decreases entries.len(),
{
    if entries.len() == 0 {
        Ok((buckets, Seq::empty()))
    } else {
        match placed(buckets, entries.drop_last()) {
            Err(bucket) => Err(bucket),
            Ok((before, slots)) => {
                let entry = entries.last();
                let bucket = bucket_of(entry.nf(), buckets.len() as int);
                match first_free(before[bucket], 0) {
                    None => Err(bucket as u32),
                    Some(slot) => Ok(
                        (
                            before.update(bucket, before[bucket].update(slot, entry)),
                            slots.push((bucket as u32, slot as u8)),
                        ),
                    ),
                }
            },
        }
    }
}

/// Whether a slot is among those listed.
pub open spec fn is_listed(slots: Seq<(u32, u8)>, bucket: int, slot: int) -> bool {
    exists|j: int| 0 <= j < slots.len() && (#[trigger] slots[j]).0 == bucket && slots[j].1 == slot
}

/// The buckets with the listed slots emptied.
pub open spec fn cleared<E: SlotEntry>(buckets: Seq<Seq<E>>, slots: Seq<(u32, u8)>) -> Seq<Seq<E>> {
    Seq::new(
        buckets.len(),
        |b: int|
            Seq::new(
                buckets[b].len(),
                |s: int|
                    if is_listed(slots, b, s) {
                        zero_entry::<E>()
                    } else {
                        buckets[b][s]
                    },
            ),
    )
}

/// The number of known blocks below `height`.
pub open spec fn rank(index: Seq<IndexedBlock>, height: u64) -> int
    decreases index.len(),
{
    if index.len() == 0 {
        0
    } else if index.last().height < height {
        index.len() as int
    } else {
        rank(index.drop_last(), height)
    }
}

/// Whether a block is known at `height`.
pub open spec fn knows(index: Seq<IndexedBlock>, height: u64) -> bool {
    let at = rank(index, height);
    at < index.len() && index[at].height == height
}

/// The known blocks with `block` added, in place of one at its height.
pub open spec fn with_block(index: Seq<IndexedBlock>, block: IndexedBlock) -> Seq<IndexedBlock> {
    let at = rank(index, block.height);
    if knows(index, block.height) {
        index.update(at, block)
    } else {
        index.insert(at, block)
    }
}

/// The number of slots that the known blocks list.
pub open spec fn total_slots(index: Seq<IndexedBlock>) -> nat
    decreases index.len(),
{
    if index.len() == 0 {
        0
    } else {
        total_slots(index.drop_last()) + index.last().slots.len()
    }
}

/// Whether the blocks stand by strictly increasing height.
pub open spec fn is_sorted(index: Seq<IndexedBlock>) -> bool {
    forall|i: int, j: int|
        0 <= i < j < index.len() ==> (#[trigger] index[i]).height < (#[trigger] index[j]).height
}

/// The bytes of a bucket.
pub open spec fn row_bytes<E: SlotEntry>(bucket: Seq<E>) -> Seq<u8> {
    joined(Seq::new(bucket.len(), |s: int| bucket[s].encoding()))
}

impl<E: SlotEntry> TableState<E> {
    /// A table of free slots.
    pub open spec fn empty(buckets: int, capacity: int) -> TableState<E> {
        TableState {
            buckets: Seq::new(
                buckets as nat,
                |b: int| Seq::new(capacity as nat, |s: int| zero_entry::<E>()),
            ),
            index: Seq::empty(),
            heights: Map::empty(),
            count: 0,
        }
    }

    /// The shape that every table has.
    pub open spec fn shaped(self, buckets: int, capacity: int) -> bool {
        &&& self.buckets.len() == buckets
        &&& forall|b: int|
            0 <= b < buckets ==> (#[trigger] self.buckets[b]).len() == capacity
        &&& is_sorted(self.index)
    }

    /// Whether the blocks can be removed: they list slots of the table, and no
    /// more of them than there are entries.
    pub open spec fn sound(self) -> bool {
        &&& forall|i: int, j: int|
            0 <= i < self.index.len() && 0 <= j < self.index[i].slots.len() ==> {
                let slot = #[trigger] self.index[i].slots[j];
                slot.0 < self.buckets.len() && slot.1 < self.buckets[slot.0 as int].len()
            }
        &&& total_slots(self.index) <= self.count
    }

    /// The table with a block's entries, or the bucket that overflows.
    pub open spec fn inserted(self, height: u64, hash: [u8; 32], entries: Seq<E>) -> Result<
        TableState<E>,
        u32,
    > {
        match placed(self.buckets, entries) {
            Err(bucket) => Err(bucket),
            Ok((buckets, slots)) => Ok(
                TableState {
                    buckets,
                    index: with_block(self.index, IndexedBlock { height, hash, slots }),
                    heights: self.heights.insert(hash@, height),
                    count: self.count + entries.len(),
                },
            ),
        }
    }

    /// The table without the block that stands at `at` in the index.
    pub open spec fn without(self, at: int) -> TableState<E> {
        TableState {
            buckets: cleared(self.buckets, self.index[at].slots),
            index: self.index.remove(at),
            heights: self.heights,
            count: (self.count - self.index[at].slots.len()) as nat,
        }
    }

    /// Whether the block with this hash can be found.
    pub open spec fn has_block(self, hash: Seq<u8>) -> bool {
        self.heights.contains_key(hash) && knows(self.index, self.heights[hash])
    }

    /// The table after an attempt to roll back the block with this hash. The
    /// hash is forgotten even where its height is not known.
    pub open spec fn rolled_back(self, hash: Seq<u8>) -> TableState<E> {
        let forgotten = TableState { heights: self.heights.remove(hash), ..self };
        if self.has_block(hash) {
            forgotten.without(rank(self.index, self.heights[hash]))
        } else {
            forgotten
        }
    }

    /// The table without its lowest block.
    pub open spec fn evicted(self) -> TableState<E> {
        if self.index.len() == 0 {
            self
        } else {
            TableState {
                heights: self.heights.remove(self.index[0].hash@),
                ..self
            }.without(0)
        }
    }

    /// The table after as many lowest blocks are evicted as it takes to have
    /// at most `target` entries.
    pub open spec fn evicted_to(self, target: int) -> TableState<E>
        decreases self.index.len(),
    {
        if self.count <= target || self.index.len() == 0 {
            self
        } else {
            self.evicted().evicted_to(target)
        }
    }

    /// Whether an entry with this nullifier is in its bucket.
    pub open spec fn holds(self, nf: Seq<u8>) -> bool {
        let bucket = self.buckets[bucket_of(nf, self.buckets.len() as int)];
        exists|s: int| 0 <= s < bucket.len() && (#[trigger] bucket[s]).nf() == nf
    }

    /// The table row by row.
    pub open spec fn rows(self) -> Seq<u8> {
        joined(Seq::new(self.buckets.len(), |b: int| row_bytes(self.buckets[b])))
    }
}

/// One row of slots.
pub struct Bucket<E> {
    entries: Vec<E>,
}

impl<E> View for Bucket<E> {
    type V = Seq<E>;

    closed spec fn view(&self) -> Seq<E> {
        self.entries@
    }
}

impl<E: SlotEntry> Bucket<E> {
    /// A bucket with the given entries.
    pub fn from_entries(entries: Vec<E>) -> (bucket: Self)
        ensures
            bucket@ == entries@,
    {
        Bucket { entries }
    }

    /// A bucket of free slots.
    fn new(capacity: usize) -> (bucket: Self)
        ensures
            bucket.entries@ == Seq::new(capacity as nat, |s: int| zero_entry::<E>()),
    {
        let zero = E::zero();
        proof {
            lemma_zero_entry(zero);
        }
        let mut entries: Vec<E> = Vec::with_capacity(capacity);
        let mut i: usize = 0;
        while i < capacity
            invariant
                i <= capacity,
                zero == zero_entry::<E>(),
                entries@ == Seq::new(i as nat, |s: int| zero_entry::<E>()),
            decreases capacity - i,
        {
            entries.push(zero);
            i += 1;
            assert(entries@ =~= Seq::new(i as nat, |s: int| zero_entry::<E>()));
        }
        Bucket { entries }
    }

    /// Empties a slot.
    fn remove(&mut self, slot: u8)
        requires
            slot < old(self).entries@.len(),
        ensures
            final(self).entries@ == old(self).entries@.update(slot as int, zero_entry::<E>()),
    {
        let zero = E::zero();
        proof {
            lemma_zero_entry(zero);
        }
        self.entries[slot as usize] = zero;
    }

    /// The first free slot.
    fn find_free_slot(&self) -> (slot: Option<u8>)
        requires
            self.entries@.len() <= 256,
        ensures
            match slot {
                Some(slot) => first_free(self.entries@, 0) == Some(slot as int),
                None => first_free(self.entries@, 0) is None,
            },
    {
        let mut i: usize = 0;
        while i < self.entries.len()
            invariant
                i <= self.entries@.len() <= 256,
                first_free(self.entries@, 0) == first_free(self.entries@, i as int),
            decreases self.entries@.len() - i,
        {
            if self.entries[i].is_empty() {
                return Some(i as u8);
            }
            i += 1;
        }
        None
    }

    /// Whether an entry has this nullifier.
    fn contains(&self, nf: &[u8; 32]) -> (found: bool)
        ensures
            found == exists|s: int|
                0 <= s < self.entries@.len() && (#[trigger] self.entries@[s]).nf() == nf@,
    {
        let mut i: usize = 0;
        while i < self.entries.len()
            invariant
                i <= self.entries@.len(),
                forall|s: int| 0 <= s < i ==> (#[trigger] self.entries@[s]).nf() != nf@,
            decreases self.entries@.len() - i,
        {
            if same_array(self.entries[i].nf_bytes(), nf) {
                assert(self.entries@[i as int].nf() == nf@);
                return true;
            }
            i += 1;
        }
        false
    }
}

/// The block behind an index entry.
pub struct BlockRecord {
    pub block_hash: [u8; 32],
    pub slots: Vec<(u32, u8)>,
}

spec fn indexed(block: (u64, BlockRecord)) -> IndexedBlock {
    IndexedBlock { height: block.0, hash: block.1.block_hash, slots: block.1.slots@ }
}

/// A bucketed hash table with `BUCKETS` buckets of `CAPACITY` slots.
pub struct BlockTable<E, const BUCKETS: usize, const CAPACITY: usize> {
    buckets: Vec<Bucket<E>>,
    block_index: VecDeque<(u64, BlockRecord)>,
    heights: HashIndex,
    num_entries: usize,
}

impl<E: SlotEntry, const BUCKETS: usize, const CAPACITY: usize> View for BlockTable<
    E,
    BUCKETS,
    CAPACITY,
> {
    type V = TableState<E>;

    closed spec fn view(&self) -> TableState<E> {
        TableState {
            buckets: Seq::new(self.buckets@.len(), |b: int| self.buckets@[b].entries@),
            index: Seq::new(self.block_index@.len(), |i: int| indexed(self.block_index@[i])),
            heights: self.heights@,
            count: self.num_entries as nat,
        }
    }
}

impl<E: SlotEntry, const BUCKETS: usize, const CAPACITY: usize> BlockTable<E, BUCKETS, CAPACITY> {
    /// The table has the shape that its parameters give.
    pub open spec fn wf(&self) -> bool {
        &&& 0 < BUCKETS <= u32::MAX
        &&& CAPACITY <= 256
        &&& self@.shaped(BUCKETS as int, CAPACITY as int)
    }

    /// An empty table.
    pub fn new() -> (table: Self)
        requires
            0 < BUCKETS <= u32::MAX,
            CAPACITY <= 256,
        ensures
            table.wf(),
            table@.sound(),
            table@ == TableState::<E>::empty(BUCKETS as int, CAPACITY as int),
    {
        let mut buckets: Vec<Bucket<E>> = Vec::with_capacity(BUCKETS);
        let mut i: usize = 0;
        while i < BUCKETS
            invariant
                i <= BUCKETS,
                buckets@.len() == i,
                forall|b: int|
                    0 <= b < i ==> (#[trigger] buckets@[b]).entries@ == Seq::new(
                        CAPACITY as nat,
                        |s: int| zero_entry::<E>(),
                    ),
            decreases BUCKETS - i,
        {
            buckets.push(Bucket::new(CAPACITY));
            i += 1;
        }
        let table = BlockTable {
            buckets,
            block_index: VecDeque::new(),
            heights: HashIndex::new(),
            num_entries: 0,
        };
        proof {
            let empty = TableState::<E>::empty(BUCKETS as int, CAPACITY as int);
            assert(table@.buckets =~= empty.buckets);
            assert(table@.index =~= empty.index);
        }
        table
    }

    /// Puts an entry into a slot.
    fn fill_slot(&mut self, bucket: u32, slot: u8, entry: E)
        requires
            bucket < old(self).buckets@.len(),
            slot < old(self).buckets@[bucket as int].entries@.len(),
        ensures
            final(self).block_index == old(self).block_index,
            final(self).heights == old(self).heights,
            final(self).num_entries == old(self).num_entries,
            final(self)@.buckets == old(self)@.buckets.update(
                bucket as int,
                old(self)@.buckets[bucket as int].update(slot as int, entry),
            ),
    {
        self.buckets[bucket as usize].entries[slot as usize] = entry;
        assert(self@.buckets =~= old(self)@.buckets.update(
            bucket as int,
            old(self)@.buckets[bucket as int].update(slot as int, entry),
        ));
    }

    /// Empties the listed slots.
    fn clear_slots(&mut self, slots: &Vec<(u32, u8)>)
        requires
            forall|j: int|
                0 <= j < slots@.len() ==> (#[trigger] slots@[j]).0 < old(self)@.buckets.len()
                    && slots@[j].1 < old(self)@.buckets[slots@[j].0 as int].len(),
        ensures
            final(self).block_index == old(self).block_index,
            final(self).heights == old(self).heights,
            final(self).num_entries == old(self).num_entries,
            final(self)@.buckets == cleared(old(self)@.buckets, slots@),
    {
        let ghost before = self@.buckets;
        let mut i: usize = 0;
        assert(cleared(before, slots@.take(0)) =~~= before);
        while i < slots.len()
            invariant
                i <= slots@.len(),
                self.block_index == old(self).block_index,
                self.heights == old(self).heights,
                self.num_entries == old(self).num_entries,
                self@.buckets == cleared(before, slots@.take(i as int)),
                forall|j: int|
                    0 <= j < slots@.len() ==> (#[trigger] slots@[j]).0 < before.len()
                        && slots@[j].1 < before[slots@[j].0 as int].len(),
            decreases slots@.len() - i,
        {
            let (bucket, slot) = slots[i];
            let ghost current = self@.buckets;
            assert(slots@[i as int].0 < before.len());
            assert(current.len() == before.len());
            assert(current[bucket as int].len() == before[bucket as int].len());
            assert(self.buckets@[bucket as int].entries@ == current[bucket as int]);
            self.buckets[bucket as usize].remove(slot);
            proof {
                assert(self@.buckets =~= current.update(
                    bucket as int,
                    current[bucket as int].update(slot as int, zero_entry::<E>()),
                ));
                lemma_cleared_step(before, slots@, i as int);
            }
            i += 1;
        }
        assert(slots@.take(i as int) =~= slots@);
    }

    /// The place of a height in the index: how many blocks lie below it.
    fn position(&self, height: u64) -> (at: usize)
        requires
            is_sorted(self@.index),
        ensures
            at == rank(self@.index, height),
            at <= self@.index.len(),
    {
        let mut lo: usize = 0;
        let mut hi: usize = self.block_index.len();
        while lo < hi
            invariant
                lo <= hi <= self.block_index@.len(),
                is_sorted(self@.index),
                forall|i: int| 0 <= i < lo ==> (#[trigger] self@.index[i]).height < height,
                forall|i: int|
                    hi <= i < self@.index.len() ==> (#[trigger] self@.index[i]).height >= height,
            decreases hi - lo,
        {
            let mid: usize = lo + (hi - lo) / 2;
            assert(self@.index[mid as int].height == self.block_index@[mid as int].0);
            if self.block_index[mid].0 < height {
                lo = mid + 1;
            } else {
                hi = mid;
            }
        }
        proof {
            lemma_rank(self@.index, height, lo as int);
        }
        lo
    }

    /// Inserts all entries of one block, or none of them where a bucket has no
    /// free slot left.
    pub fn insert_entries(
        &mut self,
        height: u64,
        block_hash: [u8; 32],
        entries: &Vec<E>,
    ) -> (overflow: Option<u32>)
        requires
            old(self).wf(),
            old(self)@.count + entries@.len() <= usize::MAX,
        ensures
            final(self).wf(),
            match old(self)@.inserted(height, block_hash, entries@) {
                Ok(table) => overflow is None && final(self)@ == table,
                Err(bucket) => overflow == Some(bucket) && final(self)@ == old(self)@,
            },
            old(self)@.sound() ==> final(self)@.sound(),
    {
        let ghost before = self@;
        let mut slots: Vec<(u32, u8)> = Vec::with_capacity(entries.len());
        let mut i: usize = 0;
        assert(entries@.take(0) =~= Seq::empty());
        while i < entries.len()
            invariant
                i <= entries@.len(),
                self.wf(),
                self.block_index == old(self).block_index,
                self.heights == old(self).heights,
                self.num_entries == old(self).num_entries,
                before == old(self)@,
                before.shaped(BUCKETS as int, CAPACITY as int),
                placed(before.buckets, entries@.take(i as int)) == Ok::<
                    (Seq<Seq<E>>, Seq<(u32, u8)>),
                    u32,
                >((self@.buckets, slots@)),
            decreases entries@.len() - i,
        {
            let entry = entries[i];
            let ghost current = self@.buckets;
            assert(entries@.take(i + 1).drop_last() =~= entries@.take(i as int));
            proof {
                entry.entry_laws(entry);
            }
            let bucket: u32 = read_u32_at(entry.nf_bytes().as_slice(), 0) % BUCKETS as u32;
            assert(bucket == bucket_of(entry.nf(), BUCKETS as int));
            assert(self.buckets@[bucket as int].entries@ == current[bucket as int]);
            let free = self.buckets[bucket as usize].find_free_slot();
            match free {
                Some(slot) => {
                    proof {
                        lemma_first_free(current[bucket as int], 0);
                    }
                    self.fill_slot(bucket, slot, entry);
                    slots.push((bucket, slot));
                    proof {
                        assert(self@.index =~= before.index);
                    }
                },
                None => {
                    proof {
                        lemma_placed_fails(before.buckets, entries@, i + 1);
                        lemma_placed(before.buckets, entries@.take(i as int), CAPACITY as int);
                    }
                    self.clear_slots(&slots);
                    proof {
                        lemma_cleared_placed(
                            before.buckets,
                            entries@.take(i as int),
                            CAPACITY as int,
                        );
                        assert(self@.index =~= before.index);
                        assert(self@ =~= before);
                    }
                    return Some(bucket);
                },
            }
            i += 1;
        }
        assert(entries@.take(i as int) =~= entries@);
        let ghost filled = slots@;
        self.num_entries = self.num_entries + entries.len();
        self.record_block(height, BlockRecord { block_hash, slots });
        proof {
            lemma_placed(before.buckets, entries@, CAPACITY as int);
            lemma_with_block(
                before.index,
                IndexedBlock { height, hash: block_hash, slots: filled },
            );
        }
        None
    }

    /// Enters a block into the index, in place of one at its height.
    fn record_block(&mut self, height: u64, record: BlockRecord)
        requires
            is_sorted(old(self)@.index),
        ensures
            is_sorted(final(self)@.index),
            final(self)@ == (TableState {
                index: with_block(
                    old(self)@.index,
                    IndexedBlock { height, hash: record.block_hash, slots: record.slots@ },
                ),
                heights: old(self)@.heights.insert(record.block_hash@, height),
                ..old(self)@
            }),
    {
        let ghost before = self@;
        let ghost block = indexed((height, record));
        let hash: [u8; 32] = record.block_hash;
        let at: usize = self.position(height);
        if at < self.block_index.len() {
            assert(before.index[at as int].height == self.block_index@[at as int].0);
            if self.block_index[at].0 == height {
                self.block_index.remove(at);
            }
        }
        self.block_index.insert(at, (height, record));
        self.heights.insert(hash, height);
        proof {
            lemma_rank_bounds(before.index, height);
            assert(self@.index =~= with_block(before.index, block));
            lemma_with_block(before.index, block);
            assert(self@.buckets =~= before.buckets);
        }
    }

    /// Removes the block at a place in the index and empties its slots.
    fn remove_at(&mut self, at: usize)
        requires
            old(self).wf(),
            old(self)@.sound(),
            at < old(self)@.index.len(),
        ensures
            final(self).wf(),
            final(self)@.sound(),
            final(self)@ == old(self)@.without(at as int),
    {
        let ghost before = self@;
        proof {
            lemma_total_remove(before.index, at as int);
            assert(before.index[at as int] == indexed(self.block_index@[at as int]));
        }
        let removed = self.block_index.remove(at);
        if let Some((_, record)) = removed {
            proof {
                assert(self@.buckets =~= before.buckets);
                assert forall|j: int| 0 <= j < record.slots@.len() implies (
                #[trigger] record.slots@[j]).0 < self@.buckets.len() && record.slots@[j].1
                    < self@.buckets[record.slots@[j].0 as int].len() by {
                    assert(before.index[at as int].slots[j] == record.slots@[j]);
                }
            }
            self.clear_slots(&record.slots);
            self.num_entries = self.num_entries - record.slots.len();
        }
        proof {
            assert(self@.index =~= before.index.remove(at as int));
            assert(self@ =~= before.without(at as int));
            assert forall|i: int, j: int|
                0 <= i < self@.index.len() && 0 <= j < self@.index[i].slots.len() implies ({
                let slot = #[trigger] self@.index[i].slots[j];
                slot.0 < self@.buckets.len() && slot.1 < self@.buckets[slot.0 as int].len()
            }) by {
                let from = if i < at {
                    i
                } else {
                    i + 1
                };
                assert(before.index[from].slots[j] == self@.index[i].slots[j]);
            }
        }
    }

    /// Removes all entries that the block with the given hash brought. Returns
    /// whether there was such a block.
    pub fn rollback_block(&mut self, block_hash: &[u8; 32]) -> (found: bool)
        requires
            old(self).wf(),
            old(self)@.sound(),
        ensures
            final(self).wf(),
            final(self)@.sound(),
            found == old(self)@.has_block(block_hash@),
            final(self)@ == old(self)@.rolled_back(block_hash@),
    {
        let ghost before = self@;
        let height: u64 = match self.heights.remove(block_hash) {
            Some(height) => height,
            None => {
                assert(self@ =~= before.rolled_back(block_hash@));
                return false;
            },
        };
        assert(self@.index =~= before.index);
        assert(self@.buckets =~= before.buckets);
        let at: usize = self.position(height);
        if at < self.block_index.len() && self.block_index[at].0 == height {
            assert(before.index[at as int].height == self.block_index@[at as int].0);
            self.remove_at(at);
            true
        } else {
            proof {
                if at < before.index.len() {
                    assert(before.index[at as int].height == self.block_index@[at as int].0);
                }
                assert(self@ =~= before.rolled_back(block_hash@));
            }
            false
        }
    }

    /// Evicts the lowest block. Returns its height.
    pub fn evict_oldest_block(&mut self) -> (height: Option<u64>)
        requires
            old(self).wf(),
            old(self)@.sound(),
        ensures
            final(self).wf(),
            final(self)@.sound(),
            final(self)@ == old(self)@.evicted(),
            height == (if old(self)@.index.len() == 0 {
                None
            } else {
                Some(old(self)@.index[0].height)
            }),
    {
        let ghost before = self@;
        if self.block_index.len() == 0 {
            return None;
        }
        let height: u64 = self.block_index[0].0;
        let hash: [u8; 32] = self.block_index[0].1.block_hash;
        proof {
            assert(before.index[0] == indexed(self.block_index@[0]));
        }
        self.heights.remove(&hash);
        proof {
            assert(self@.index =~= before.index);
            assert(self@.buckets =~= before.buckets);
        }
        self.remove_at(0);
        Some(height)
    }

    /// Evicts lowest blocks until there are at most `target` entries, or no
    /// block is left.
    pub fn evict_to(&mut self, target: usize)
        requires
            old(self).wf(),
            old(self)@.sound(),
        ensures
            final(self).wf(),
            final(self)@.sound(),
            final(self)@ == old(self)@.evicted_to(target as int),
    {
        while self.num_entries > target && self.block_index.len() > 0
            invariant
                self.wf(),
                self@.sound(),
                self@.evicted_to(target as int) == old(self)@.evicted_to(target as int),
            decreases self@.index.len(),
        {
            self.evict_oldest_block();
        }
    }

    /// Whether an entry has this nullifier.
    pub fn contains(&self, nf: &[u8; 32]) -> (found: bool)
        requires
            self.wf(),
        ensures
            found == self@.holds(nf@),
    {
        let bucket: u32 = read_u32_at(nf.as_slice(), 0) % BUCKETS as u32;
        assert(bucket == bucket_of(nf@, self@.buckets.len() as int));
        assert(self@.buckets[bucket as int] == self.buckets@[bucket as int].entries@);
        self.buckets[bucket as usize].contains(nf)
    }

    /// Appends the entries of all buckets in order.
    pub fn push_rows(&self, out: &mut Vec<u8>)
        requires
            self.wf(),
        ensures
            final(out)@ == old(out)@ + self@.rows(),
    {
        let ghost rows = Seq::new(self@.buckets.len(), |b: int| row_bytes(self@.buckets[b]));
        let ghost start = out@;
        assert(rows.take(0) =~= Seq::empty());
        assert(start + Seq::<u8>::empty() =~= start);
        let mut b: usize = 0;
        while b < self.buckets.len()
            invariant
                b <= self.buckets@.len(),
                rows.len() == self.buckets@.len(),
                rows == Seq::new(self@.buckets.len(), |b: int| row_bytes(self@.buckets[b])),
                out@ == start + joined(rows.take(b as int)),
            decreases self.buckets@.len() - b,
        {
            self.push_row(b, out);
            proof {
                lemma_joined_push(rows.take(b as int), rows[b as int]);
                assert(rows.take(b + 1) =~= rows.take(b as int).push(rows[b as int]));
                lemma_concat_assoc(start, joined(rows.take(b as int)), rows[b as int]);
            }
            b += 1;
        }
        assert(rows.take(b as int) =~= rows);
    }

    fn push_row(&self, b: usize, out: &mut Vec<u8>)
        requires
            b < self@.buckets.len(),
        ensures
            final(out)@ == old(out)@ + row_bytes(self@.buckets[b as int]),
    {
        let ghost bucket = self@.buckets[b as int];
        let ghost parts = Seq::new(bucket.len(), |s: int| bucket[s].encoding());
        let ghost start = out@;
        let entries = &self.buckets[b].entries;
        assert(entries@ == bucket);
        assert(parts.take(0) =~= Seq::empty());
        assert(start + Seq::<u8>::empty() =~= start);
        let mut s: usize = 0;
        while s < entries.len()
            invariant
                s <= entries@.len(),
                entries@ == bucket,
                parts == Seq::new(bucket.len(), |s: int| bucket[s].encoding()),
                out@ == start + joined(parts.take(s as int)),
            decreases entries@.len() - s,
        {
            entries[s].push_encoding(out);
            proof {
                lemma_joined_push(parts.take(s as int), parts[s as int]);
                assert(parts.take(s + 1) =~= parts.take(s as int).push(parts[s as int]));
                lemma_concat_assoc(start, joined(parts.take(s as int)), parts[s as int]);
            }
            s += 1;
        }
        assert(parts.take(s as int) =~= parts);
    }

    /// Number of entries.
    pub fn len(&self) -> (len: usize)
        ensures
            len == self@.count,
    {
        self.num_entries
    }

    /// Number of known blocks.
    pub fn num_blocks(&self) -> (blocks: usize)
        ensures
            blocks == self@.index.len(),
    {
        self.block_index.len()
    }

    /// Height and hash of the known block at a place in the index.
    pub fn block_at(&self, at: usize) -> (block: (u64, [u8; 32]))
        requires
            at < self@.index.len(),
        ensures
            block == (self@.index[at as int].height, self@.index[at as int].hash),
    {
        let block = &self.block_index[at];
        assert(self@.index[at as int] == indexed(self.block_index@[at as int]));
        (block.0, block.1.block_hash)
    }

    /// The slots of the known block at a place in the index.
    pub fn slots_at(&self, at: usize) -> (slots: &Vec<(u32, u8)>)
        requires
            at < self@.index.len(),
        ensures
            slots@ == self@.index[at as int].slots,
    {
        assert(self@.index[at as int] == indexed(self.block_index@[at as int]));
        &self.block_index[at].1.slots
    }

    /// Whether the blocks can be removed.
    pub fn is_sound(&self) -> (sound: bool)
        requires
            self.wf(),
        ensures
            sound == self@.sound(),
    {
        let mut left: usize = self.num_entries;
        let mut i: usize = 0;
        while i < self.block_index.len()
            invariant
                i <= self@.index.len(),
                self.wf(),
                self@.index.len() == self.block_index@.len(),
                left + total_slots(self@.index.take(i as int)) == self@.count,
                forall|k: int, j: int|
                    0 <= k < i && 0 <= j < self@.index[k].slots.len() ==> {
                        let slot = #[trigger] self@.index[k].slots[j];
                        slot.0 < self@.buckets.len() && slot.1 < self@.buckets[slot.0 as int].len()
                    },
            decreases self@.index.len() - i,
        {
            let slots = self.slots_at(i);
            proof {
                assert(self@.index.take(i + 1).drop_last() =~= self@.index.take(i as int));
                lemma_total_take(self@.index, i + 1);
            }
            if slots.len() > left {
                return false;
            }
            left = left - slots.len();
            let mut j: usize = 0;
            while j < slots.len()
                invariant
                    j <= slots@.len(),
                    i < self@.index.len(),
                    self.wf(),
                    slots@ == self@.index[i as int].slots,
                    forall|k: int|
                        0 <= k < j ==> {
                            let slot = #[trigger] self@.index[i as int].slots[k];
                            slot.0 < self@.buckets.len() && slot.1
                                < self@.buckets[slot.0 as int].len()
                        },
                decreases slots@.len() - j,
            {
                let (bucket, slot) = slots[j];
                assert(self@.index[i as int].slots[j as int] == (bucket, slot));
                if bucket as usize >= BUCKETS || slot as usize >= CAPACITY {
                    return false;
                }
                j += 1;
            }
            i += 1;
        }
        assert(self@.index.take(i as int) =~= self@.index);
        true
    }

    /// A table with the given parts.
    pub fn from_parts(
        buckets: Vec<Bucket<E>>,
        blocks: Vec<(u64, BlockRecord)>,
        num_entries: usize,
    ) -> (table: Self)
        requires
            0 < BUCKETS <= u32::MAX,
            CAPACITY <= 256,
            buckets@.len() == BUCKETS,
            forall|b: int| 0 <= b < BUCKETS ==> (#[trigger] buckets@[b])@.len() == CAPACITY,
        ensures
            table.wf(),
            table@ == (TableState {
                buckets: Seq::new(BUCKETS as nat, |b: int| buckets@[b]@),
                index: index_of(listed(blocks@)),
                heights: heights_of(listed(blocks@)),
                count: num_entries as nat,
            }),
    {
        let ghost given = listed(blocks@);
        let ghost contents = Seq::new(BUCKETS as nat, |b: int| buckets@[b]@);
        let mut table = BlockTable {
            buckets,
            block_index: VecDeque::new(),
            heights: HashIndex::new(),
            num_entries,
        };
        assert(table@.buckets =~= contents);
        assert(table@.index =~= index_of(given.take(0)));
        for block in it: blocks
            invariant
                it.seq() == blocks@,
                given == listed(blocks@),
                is_sorted(table@.index),
                table@ == (TableState {
                    buckets: contents,
                    index: index_of(given.take(it.index())),
                    heights: heights_of(given.take(it.index())),
                    count: num_entries as nat,
                }),
        {
            proof {
                let i = it.index();
                assert(given.take(i + 1).drop_last() =~= given.take(i));
                assert(given.take(i + 1).last() == given[i]);
            }
            let (height, record) = block;
            table.record_block(height, record);
        }
        assert(given.take(given.len() as int) =~= given);
        table
    }
}

/// The blocks of a list.
pub open spec fn listed(blocks: Seq<(u64, BlockRecord)>) -> Seq<IndexedBlock> {
    Seq::new(
        blocks.len(),
        |i: int|
            IndexedBlock {
                height: blocks[i].0,
                hash: blocks[i].1.block_hash,
                slots: blocks[i].1.slots@,
            },
    )
}

/// The index that results from adding blocks one after the other.
pub open spec fn index_of(blocks: Seq<IndexedBlock>) -> Seq<IndexedBlock>
    decreases blocks.len(),
{
    if blocks.len() == 0 {
        Seq::empty()
    } else {
        with_block(index_of(blocks.drop_last()), blocks.last())
    }
}

/// The heights that result from recording blocks one after the other.
pub open spec fn heights_of(blocks: Seq<IndexedBlock>) -> Map<Seq<u8>, u64>
    decreases blocks.len(),
{
    if blocks.len() == 0 {
        Map::empty()
    } else {
        heights_of(blocks.drop_last()).insert(blocks.last().hash@, blocks.last().height)
    }
}

pub(crate) proof fn lemma_total_take(index: Seq<IndexedBlock>, n: int)
    requires
        0 <= n <= index.len(),
    ensures
        total_slots(index.take(n)) <= total_slots(index),
    decreases index.len(),
{
    if n < index.len() {
        lemma_total_take(index.drop_last(), n);
        assert(index.drop_last().take(n) =~= index.take(n));
    } else {
        assert(index.take(n) =~= index);
    }
}

pub(crate) proof fn lemma_zero_entry<E: SlotEntry>(entry: E)
    ensures
        entry.is_zero() ==> entry == zero_entry::<E>(),
        zero_entry::<E>().is_zero(),
{
    entry.entry_laws(zero_entry::<E>());
}

pub(crate) proof fn lemma_first_free<E: SlotEntry>(bucket: Seq<E>, from: int)
    requires
        0 <= from,
    ensures
        match first_free(bucket, from) {
            Some(slot) => from <= slot < bucket.len() && bucket[slot].is_zero() && forall|s: int|
                from <= s < slot ==> !(#[trigger] bucket[s]).is_zero(),
            None => forall|s: int| from <= s < bucket.len() ==> !(#[trigger] bucket[s]).is_zero(),
        },
    decreases bucket.len() - from,
{
    if from < bucket.len() && !bucket[from].is_zero() {
        lemma_first_free(bucket, from + 1);
    }
}

/// Placing fills free slots of the table and keeps its shape.
pub(crate) proof fn lemma_placed<E: SlotEntry>(buckets: Seq<Seq<E>>, entries: Seq<E>, capacity: int)
    requires
        0 < buckets.len() <= u32::MAX,
        capacity <= 256,
        forall|b: int| 0 <= b < buckets.len() ==> (#[trigger] buckets[b]).len() == capacity,
    ensures
        placed(buckets, entries) matches Ok((after, slots)) ==> {
            &&& after.len() == buckets.len()
            &&& forall|b: int| 0 <= b < buckets.len() ==> (#[trigger] after[b]).len() == capacity
            &&& slots.len() == entries.len()
            &&& forall|j: int|
                0 <= j < slots.len() ==> (#[trigger] slots[j]).0 < buckets.len() && slots[j].1
                    < capacity && buckets[slots[j].0 as int][slots[j].1 as int].is_zero()
            &&& forall|b: int, s: int|
                0 <= b < buckets.len() && 0 <= s < capacity && !is_listed(slots, b, s)
                    ==> #[trigger] after[b][s] == buckets[b][s]
        },
    decreases entries.len(),
{
    if entries.len() > 0 {
        lemma_placed(buckets, entries.drop_last(), capacity);
        if let Ok((before, slots)) = placed(buckets, entries.drop_last()) {
            let entry = entries.last();
            entry.entry_laws(entry);
            let bucket = bucket_of(entry.nf(), buckets.len() as int);
            lemma_first_free(before[bucket], 0);
            if let Some(slot) = first_free(before[bucket], 0) {
                let after = before.update(bucket, before[bucket].update(slot, entry));
                let all = slots.push((bucket as u32, slot as u8));
                assert(buckets[bucket][slot].is_zero()) by {
                    if is_listed(slots, bucket, slot) {
                        let j = choose|j: int|
                            0 <= j < slots.len() && (#[trigger] slots[j]).0 == bucket
                                && slots[j].1 == slot;
                        assert(slots[j].0 < buckets.len());
                    } else {
                        assert(before[bucket][slot] == buckets[bucket][slot]);
                    }
                }
                assert forall|b: int, s: int|
                    0 <= b < buckets.len() && 0 <= s < capacity && !is_listed(
                        all,
                        b,
                        s,
                    ) implies #[trigger] after[b][s] == buckets[b][s] by {
                    assert(all[slots.len() as int] == (bucket as u32, slot as u8));
                    if is_listed(slots, b, s) {
                        let j = choose|j: int|
                            0 <= j < slots.len() && (#[trigger] slots[j]).0 == b && slots[j].1
                                == s;
                        assert(all[j] == slots[j]);
                    }
                    assert(before[b][s] == buckets[b][s]);
                }
            }
        }
    }
}

/// A failure to place some entries is a failure to place more of them.
proof fn lemma_placed_fails<E: SlotEntry>(buckets: Seq<Seq<E>>, entries: Seq<E>, n: int)
    requires
        0 <= n <= entries.len(),
        placed(buckets, entries.take(n)) is Err,
    ensures
        placed(buckets, entries) == placed(buckets, entries.take(n)),
    decreases entries.len(),
{
    if n < entries.len() {
        assert(entries.drop_last().take(n) =~= entries.take(n));
        lemma_placed_fails(buckets, entries.drop_last(), n);
    } else {
        assert(entries.take(n) =~= entries);
    }
}

/// Emptying the slots that were filled gives the buckets before.
pub(crate) proof fn lemma_cleared_placed<E: SlotEntry>(buckets: Seq<Seq<E>>, entries: Seq<E>, capacity: int)
    requires
        0 < buckets.len() <= u32::MAX,
        capacity <= 256,
        forall|b: int| 0 <= b < buckets.len() ==> (#[trigger] buckets[b]).len() == capacity,
    ensures
        placed(buckets, entries) matches Ok((after, slots)) ==> cleared(after, slots) == buckets,
{
    lemma_placed(buckets, entries, capacity);
    if let Ok((after, slots)) = placed(buckets, entries) {
        let back = cleared(after, slots);
        assert forall|b: int| 0 <= b < buckets.len() implies #[trigger] back[b] == buckets[b] by {
            assert(after[b].len() == buckets[b].len());
            assert forall|s: int| 0 <= s < capacity implies #[trigger] back[b][s]
                == buckets[b][s] by {
                if is_listed(slots, b, s) {
                    let j = choose|j: int|
                        0 <= j < slots.len() && (#[trigger] slots[j]).0 == b && slots[j].1 == s;
                    lemma_zero_entry(buckets[slots[j].0 as int][slots[j].1 as int]);
                } else {
                    assert(after[b][s] == buckets[b][s]);
                }
            }
            assert(back[b] =~= buckets[b]);
        }
        assert(back =~= buckets);
    }
}

/// Emptying one more of the listed slots empties that slot.
pub(crate) proof fn lemma_cleared_step<E: SlotEntry>(
    buckets: Seq<Seq<E>>,
    slots: Seq<(u32, u8)>,
    i: int,
)
    requires
        0 <= i < slots.len(),
        slots[i].0 < buckets.len(),
        slots[i].1 < buckets[slots[i].0 as int].len(),
    ensures
        ({
            let before = cleared(buckets, slots.take(i));
            let (bucket, slot) = (slots[i].0 as int, slots[i].1 as int);
            cleared(buckets, slots.take(i + 1)) == before.update(
                bucket,
                before[bucket].update(slot, zero_entry::<E>()),
            )
        }),
{
    let before = cleared(buckets, slots.take(i));
    let after = cleared(buckets, slots.take(i + 1));
    let (bucket, slot) = (slots[i].0 as int, slots[i].1 as int);
    let expected = before.update(bucket, before[bucket].update(slot, zero_entry::<E>()));
    assert forall|b: int, s: int| is_listed(slots.take(i + 1), b, s) == (is_listed(
        slots.take(i),
        b,
        s,
    ) || (b == bucket && s == slot)) by {
        let all = slots.take(i + 1);
        let some = slots.take(i);
        if is_listed(all, b, s) {
            let j = choose|j: int|
                0 <= j < all.len() && (#[trigger] all[j]).0 == b && all[j].1 == s;
            if j < i {
                assert(some[j] == all[j]);
            }
        }
        if is_listed(some, b, s) {
            let j = choose|j: int|
                0 <= j < some.len() && (#[trigger] some[j]).0 == b && some[j].1 == s;
            assert(all[j] == some[j]);
        }
        assert(all[i] == slots[i]);
    }
    assert forall|b: int| 0 <= b < buckets.len() implies #[trigger] after[b] == expected[b] by {
        assert(before[b].len() == buckets[b].len());
        assert forall|s: int| 0 <= s < buckets[b].len() implies #[trigger] after[b][s]
            == expected[b][s] by {
            assert(is_listed(slots.take(i + 1), b, s) == (is_listed(slots.take(i), b, s) || (b
                == bucket && s == slot)));
            if b != bucket {
                assert(expected[b] == before[b]);
            }
        }
        assert(after[b] =~= expected[b]);
    }
    assert(after =~= expected);
}

/// The rank of a height is a place in the index or its end.
pub proof fn lemma_rank_bounds(index: Seq<IndexedBlock>, height: u64)
    ensures
        0 <= rank(index, height) <= index.len(),
    decreases index.len(),
{
    if index.len() > 0 {
        lemma_rank_bounds(index.drop_last(), height);
    }
}

/// In a sorted index the rank splits the blocks by height.
pub(crate) proof fn lemma_rank(index: Seq<IndexedBlock>, height: u64, at: int)
    requires
        0 <= at <= index.len(),
        forall|i: int| 0 <= i < at ==> (#[trigger] index[i]).height < height,
        forall|i: int| at <= i < index.len() ==> (#[trigger] index[i]).height >= height,
    ensures
        rank(index, height) == at,
    decreases index.len(),
{
    if index.len() > 0 && index.last().height >= height {
        lemma_rank(index.drop_last(), height, at);
    }
}

/// In a sorted index the rank splits the blocks by height.
pub(crate) proof fn lemma_rank_splits(index: Seq<IndexedBlock>, height: u64)
    requires
        is_sorted(index),
    ensures
        0 <= rank(index, height) <= index.len(),
        forall|i: int| 0 <= i < rank(index, height) ==> (#[trigger] index[i]).height < height,
        forall|i: int|
            rank(index, height) <= i < index.len() ==> (#[trigger] index[i]).height >= height,
    decreases index.len(),
{
    if index.len() > 0 {
        let last = index.len() - 1;
        if index[last].height >= height {
            lemma_rank_splits(index.drop_last(), height);
            assert forall|i: int| 0 <= i < last implies #[trigger] index[i]
                == index.drop_last()[i] by {}
        } else {
            assert forall|i: int| 0 <= i < index.len() implies (#[trigger] index[i]).height
                < height by {
                if i < last {
                    assert(index[i].height < index[last].height);
                }
            }
        }
    }
}

proof fn lemma_total_update(index: Seq<IndexedBlock>, at: int, block: IndexedBlock)
    requires
        0 <= at < index.len(),
    ensures
        total_slots(index.update(at, block)) == total_slots(index) - index[at].slots.len()
            + block.slots.len(),
    decreases index.len(),
{
    if at < index.len() - 1 {
        lemma_total_update(index.drop_last(), at, block);
        assert(index.update(at, block).drop_last() =~= index.drop_last().update(at, block));
    } else {
        assert(index.update(at, block).drop_last() =~= index.drop_last());
    }
}

pub(crate) proof fn lemma_total_insert(
    index: Seq<IndexedBlock>,
    at: int,
    block: IndexedBlock,
)
    requires
        0 <= at <= index.len(),
    ensures
        total_slots(index.insert(at, block)) == total_slots(index) + block.slots.len(),
    decreases index.len(),
{
    let more = index.insert(at, block);
    if at < index.len() {
        lemma_total_insert(index.drop_last(), at, block);
        assert(more.drop_last() =~= index.drop_last().insert(at, block));
    } else {
        assert(more.drop_last() =~= index);
    }
}

pub(crate) proof fn lemma_total_remove(index: Seq<IndexedBlock>, at: int)
    requires
        0 <= at < index.len(),
    ensures
        total_slots(index.remove(at)) == total_slots(index) - index[at].slots.len(),
    decreases index.len(),
{
    if at < index.len() - 1 {
        lemma_total_remove(index.drop_last(), at);
        assert(index.remove(at).drop_last() =~= index.drop_last().remove(at));
    } else {
        assert(index.remove(at) =~= index.drop_last());
    }
}

/// Adding a block keeps the order and adds at most its slots.
pub(crate) proof fn lemma_with_block(index: Seq<IndexedBlock>, block: IndexedBlock)
    requires
        is_sorted(index),
    ensures
        is_sorted(with_block(index, block)),
        total_slots(with_block(index, block)) <= total_slots(index) + block.slots.len(),
        forall|i: int|
            0 <= i < with_block(index, block).len() ==> (#[trigger] with_block(index, block)[i])
                == block || index.contains(with_block(index, block)[i]),
{
    let at = rank(index, block.height);
    lemma_rank_splits(index, block.height);
    let after = with_block(index, block);
    if knows(index, block.height) {
        lemma_total_update(index, at, block);
    } else {
        lemma_total_insert(index, at, block);
        if at < index.len() {
            assert(index[at].height > block.height);
        }
    }
    assert forall|i: int| 0 <= i < after.len() implies (#[trigger] after[i]) == block
        || index.contains(after[i]) by {
        if after[i] != block {
            if knows(index, block.height) || i < at {
                assert(index[i] == after[i]);
            } else {
                assert(index[i - 1] == after[i]);
            }
        }
    }
}

} // verus!
