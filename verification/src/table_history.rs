//! What holds of a block table after any run of insertions, rollbacks and
//! evictions.

use crate::block_table::{
    bucket_of, cleared, first_free, is_listed, knows, lemma_cleared_step, lemma_first_free,
    lemma_placed, lemma_rank_splits, lemma_zero_entry, placed, rank, total_slots, zero_entry,
    SlotEntry, TableState,
};
use crate::bytes::zeros;
use crate::table_laws::{
    law_empty_table, law_eviction_remembers, law_insert_keeps_account, law_insert_remembers,
    law_removal_keeps_others, law_rollback_finds_block, law_rows_hold_entries,
    lemma_accounted_ignores_heights, none_zero,
};
use vstd::prelude::*;

verus! {

/// How many of the first `n` slots of a bucket are filled.
pub open spec fn filled_slots<E: SlotEntry>(bucket: Seq<E>, n: int) -> nat
    decreases n,
{
    if n <= 0 {
        0
    } else if bucket[n - 1].is_zero() {
        filled_slots(bucket, n - 1)
    } else {
        filled_slots(bucket, n - 1) + 1
    }
}

/// How many slots of the first `n` buckets are filled.
pub open spec fn filled_total<E: SlotEntry>(buckets: Seq<Seq<E>>, n: int) -> nat
    decreases n,
{
    if n <= 0 {
        0
    } else {
        filled_total(buckets, n - 1) + filled_slots(buckets[n - 1], buckets[n - 1].len() as int)
    }
}

/// How many of the first `n` slots in the bytes of a table, `width` bytes each,
/// start with a nullifier that is not all zero bytes.
pub open spec fn named_slots(rows: Seq<u8>, width: int, n: int) -> nat
    decreases n,
{
    if n <= 0 {
        0
    } else if rows.subrange((n - 1) * width, (n - 1) * width + 32) == zeros(32) {
        named_slots(rows, width, n - 1)
    } else {
        named_slots(rows, width, n - 1) + 1
    }
}

/// Whether every entry has a nullifier that is not all zero bytes.
pub open spec fn all_named<E: SlotEntry>(entries: Seq<E>) -> bool {
    forall|i: int| 0 <= i < entries.len() ==> (#[trigger] entries[i]).nf() != zeros(32)
}

/// What can be done to a table.
pub ghost enum TableStep<E> {
    /// A block's entries are inserted, if they fit.
    Insert { height: u64, hash: [u8; 32], entries: Seq<E> },
    /// The block with this hash is rolled back, if it is known.
    Rollback { hash: [u8; 32] },
    /// The lowest block is evicted.
    EvictOldest,
    /// The lowest blocks are evicted down to so many entries.
    EvictTo { target: int },
}

impl<E: SlotEntry> TableState<E> {
    /// Whether every filled slot holds a nullifier that is not all zero bytes.
    pub open spec fn named(self) -> bool {
        forall|b: int, s: int|
            0 <= b < self.buckets.len() && 0 <= s < self.buckets[b].len()
                && !(#[trigger] self.buckets[b][s]).is_zero() ==> self.buckets[b][s].nf()
                != zeros(32)
    }

    /// The table after a step.
    pub open spec fn stepped(self, step: TableStep<E>) -> TableState<E> {
        match step {
            TableStep::Insert { height, hash, entries } => match self.inserted(
                height,
                hash,
                entries,
            ) {
                Ok(after) => after,
                Err(_) => self,
            },
            TableStep::Rollback { hash } => self.rolled_back(hash@),
            TableStep::EvictOldest => self.evicted(),
            TableStep::EvictTo { target } => self.evicted_to(target),
        }
    }

    /// Whether a step inserts only named entries, at a height and under a hash
    /// that the table does not know.
    pub open spec fn is_fresh(self, step: TableStep<E>) -> bool {
        step matches TableStep::Insert { height, hash, entries } ==> {
            &&& !knows(self.index, height)
            &&& !self.heights.contains_key(hash@)
            &&& all_named(entries)
        }
    }

    /// The table after all steps.
    pub open spec fn run(self, steps: Seq<TableStep<E>>) -> TableState<E>
        decreases steps.len(),
    {
        if steps.len() == 0 {
            self
        } else {
            self.run(steps.drop_last()).stepped(steps.last())
        }
    }

    /// Whether each step is fresh when it is taken.
    pub open spec fn all_fresh(self, steps: Seq<TableStep<E>>) -> bool
        decreases steps.len(),
    {
        steps.len() == 0 || (self.all_fresh(steps.drop_last()) && self.run(
            steps.drop_last(),
        ).is_fresh(steps.last()))
    }

    /// What every table that is built up from an empty one satisfies.
    pub open spec fn in_order(self, buckets: int, capacity: int) -> bool {
        &&& self.shaped(buckets, capacity)
        &&& self.accounted()
        &&& self.remembered()
        &&& self.named()
    }
}

/// Whatever is done to an empty table, its blocks account for its entries and
/// are found by their hashes, and it counts as many entries as its rows have
/// slots with a nullifier that is not all zero bytes.
pub proof fn law_len_counts_named_slots<E: SlotEntry>(
    buckets: int,
    capacity: int,
    steps: Seq<TableStep<E>>,
)
    requires
        0 < buckets <= u32::MAX,
        0 <= capacity <= 256,
        TableState::<E>::empty(buckets, capacity).all_fresh(steps),
    ensures
        ({
            let table = TableState::<E>::empty(buckets, capacity).run(steps);
            &&& table.in_order(buckets, capacity)
            &&& table.count == named_slots(
                table.rows(),
                E::encoded_len() as int,
                buckets * capacity,
            )
        }),
{
    lemma_run_in_order(buckets, capacity, steps);
    let table = TableState::<E>::empty(buckets, capacity).run(steps);
    lemma_count_is_filled(table, buckets, capacity);
    lemma_filled_is_named(table, buckets, capacity, buckets);
}

/// Every step keeps a table in order.
pub proof fn law_step_keeps_order<E: SlotEntry>(
    table: TableState<E>,
    buckets: int,
    capacity: int,
    step: TableStep<E>,
)
    requires
        0 < buckets <= u32::MAX,
        capacity <= 256,
        table.in_order(buckets, capacity),
        table.is_fresh(step),
    ensures
        table.stepped(step).in_order(buckets, capacity),
{
    match step {
        TableStep::Insert { height, hash, entries } => {
            assert forall|i: int| 0 <= i < entries.len() implies !(
            #[trigger] entries[i]).is_zero() by {
                entries[i].entry_laws(entries[i]);
            }
            assert(none_zero(entries));
            law_insert_keeps_account(table, buckets, capacity, height, hash, entries);
            law_insert_remembers(table, height, hash, entries);
            lemma_placed_named(table.buckets, entries, capacity);
        },
        TableStep::Rollback { hash } => {
            law_rollback_finds_block(table, hash@);
            if table.has_block(hash@) {
                lemma_rank_splits(table.index, table.heights[hash@]);
                let at = rank(table.index, table.heights[hash@]);
                lemma_removal_in_order(table, buckets, capacity, at);
                lemma_accounted_ignores_heights(table.without(at), table.heights.remove(hash@));
            } else {
                lemma_accounted_ignores_heights(table, table.heights.remove(hash@));
            }
        },
        TableStep::EvictOldest => lemma_evicted_in_order(table, buckets, capacity),
        TableStep::EvictTo { target } => lemma_evicted_to_in_order(
            table,
            buckets,
            capacity,
            target,
        ),
    }
}

proof fn lemma_run_in_order<E: SlotEntry>(
    buckets: int,
    capacity: int,
    steps: Seq<TableStep<E>>,
)
    requires
        0 < buckets <= u32::MAX,
        0 <= capacity <= 256,
        TableState::<E>::empty(buckets, capacity).all_fresh(steps),
    ensures
        TableState::<E>::empty(buckets, capacity).run(steps).in_order(buckets, capacity),
    decreases steps.len(),
{
    let empty = TableState::<E>::empty(buckets, capacity);
    if steps.len() == 0 {
        law_empty_table::<E>(buckets, capacity);
        assert forall|b: int, s: int| 0 <= b < buckets && 0 <= s < capacity implies (
        #[trigger] empty.buckets[b][s]).is_zero() by {
            lemma_zero_entry(empty.buckets[b][s]);
        }
    } else {
        lemma_run_in_order(buckets, capacity, steps.drop_last());
        law_step_keeps_order(empty.run(steps.drop_last()), buckets, capacity, steps.last());
    }
}

/// Placing named entries fills slots with named entries.
proof fn lemma_placed_named<E: SlotEntry>(buckets: Seq<Seq<E>>, entries: Seq<E>, capacity: int)
    requires
        0 < buckets.len() <= u32::MAX,
        capacity <= 256,
        forall|b: int| 0 <= b < buckets.len() ==> (#[trigger] buckets[b]).len() == capacity,
        all_named(entries),
        forall|b: int, s: int|
            0 <= b < buckets.len() && 0 <= s < capacity && !(#[trigger] buckets[b][s]).is_zero()
                ==> buckets[b][s].nf() != zeros(32),
    ensures
        placed(buckets, entries) matches Ok((after, _)) ==> forall|b: int, s: int|
            0 <= b < after.len() && 0 <= s < after[b].len() && !(#[trigger] after[b][s]).is_zero()
                ==> after[b][s].nf() != zeros(32),
    decreases entries.len(),
{
    if entries.len() > 0 {
        let front = entries.drop_last();
        assert forall|i: int| 0 <= i < front.len() implies (#[trigger] front[i]).nf()
            != zeros(32) by {
            assert(front[i] == entries[i]);
        }
        lemma_placed_named(buckets, front, capacity);
        lemma_placed(buckets, front, capacity);
        if let Ok((before, _)) = placed(buckets, front) {
            let entry = entries[entries.len() - 1];
            let bucket = bucket_of(entry.nf(), buckets.len() as int);
            lemma_first_free(before[bucket], 0);
            if let Some(slot) = first_free(before[bucket], 0) {
                let after = before.update(bucket, before[bucket].update(slot, entry));
                assert forall|b: int, s: int|
                    0 <= b < after.len() && 0 <= s < after[b].len() && !(
                    #[trigger] after[b][s]).is_zero() implies after[b][s].nf() != zeros(32) by {
                    if b == bucket && s == slot {
                        assert(after[b][s] == entry);
                    } else {
                        assert(after[b][s] == before[b][s]);
                    }
                }
            }
        }
    }
}

/// Removing a block keeps the order, but for what is remembered of it.
proof fn lemma_removal_in_order<E: SlotEntry>(
    table: TableState<E>,
    buckets: int,
    capacity: int,
    at: int,
)
    requires
        table.shaped(buckets, capacity),
        table.accounted(),
        table.named(),
        0 <= at < table.index.len(),
    ensures
        table.without(at).shaped(buckets, capacity),
        table.without(at).accounted(),
        table.without(at).named(),
{
    law_removal_keeps_others(table, buckets, capacity, at);
    let after = table.without(at);
    assert forall|b: int, s: int|
        0 <= b < after.buckets.len() && 0 <= s < after.buckets[b].len() && !(
        #[trigger] after.buckets[b][s]).is_zero() implies after.buckets[b][s].nf() != zeros(32) by {
        assert(table.buckets[b].len() == after.buckets[b].len());
        if is_listed(table.index[at].slots, b, s) {
            let zero = zero_entry::<E>();
            zero.entry_laws(zero);
            assert(after.buckets[b][s] == zero);
        } else {
            assert(after.buckets[b][s] == table.buckets[b][s]);
        }
    }
}

proof fn lemma_evicted_in_order<E: SlotEntry>(table: TableState<E>, buckets: int, capacity: int)
    requires
        table.in_order(buckets, capacity),
    ensures
        table.evicted().in_order(buckets, capacity),
{
    law_eviction_remembers(table);
    if table.index.len() > 0 {
        lemma_removal_in_order(table, buckets, capacity, 0);
        lemma_accounted_ignores_heights(
            table.without(0),
            table.heights.remove(table.index[0].hash@),
        );
        assert(table.evicted().buckets == table.without(0).buckets);
    }
}

proof fn lemma_evicted_to_in_order<E: SlotEntry>(
    table: TableState<E>,
    buckets: int,
    capacity: int,
    target: int,
)
    requires
        table.in_order(buckets, capacity),
    ensures
        table.evicted_to(target).in_order(buckets, capacity),
    decreases table.index.len(),
{
    if table.count > target && table.index.len() > 0 {
        lemma_evicted_in_order(table, buckets, capacity);
        lemma_evicted_to_in_order(table.evicted(), buckets, capacity, target);
    }
}

/// Emptying one filled slot of a bucket leaves one filled slot fewer.
proof fn lemma_filled_update<E: SlotEntry>(bucket: Seq<E>, s: int, n: int)
    requires
        0 <= s < bucket.len(),
        0 <= n <= bucket.len(),
        !bucket[s].is_zero(),
    ensures
        filled_slots(bucket.update(s, zero_entry::<E>()), n) == filled_slots(bucket, n) - (if s
            < n {
            1int
        } else {
            0int
        }),
    decreases n,
{
    let zero = zero_entry::<E>();
    zero.entry_laws(zero);
    if n > 0 {
        lemma_filled_update(bucket, s, n - 1);
    }
}

/// Emptying one filled slot leaves one filled slot fewer.
proof fn lemma_total_update<E: SlotEntry>(buckets: Seq<Seq<E>>, b: int, s: int, n: int)
    requires
        0 <= b < buckets.len(),
        0 <= s < buckets[b].len(),
        0 <= n <= buckets.len(),
        !buckets[b][s].is_zero(),
    ensures
        filled_total(buckets.update(b, buckets[b].update(s, zero_entry::<E>())), n) == filled_total(
            buckets,
            n,
        ) - (if b < n {
            1int
        } else {
            0int
        }),
    decreases n,
{
    if n > 0 {
        lemma_total_update(buckets, b, s, n - 1);
        lemma_filled_update(buckets[b], s, buckets[b].len() as int);
    }
}

/// Emptying filled slots, none of them listed twice, leaves as many filled
/// slots fewer.
proof fn lemma_cleared_total<E: SlotEntry>(buckets: Seq<Seq<E>>, slots: Seq<(u32, u8)>, i: int)
    requires
        0 <= i <= slots.len(),
        forall|j: int|
            0 <= j < slots.len() ==> {
                let slot = #[trigger] slots[j];
                slot.0 < buckets.len() && slot.1 < buckets[slot.0 as int].len()
                    && !buckets[slot.0 as int][slot.1 as int].is_zero()
            },
        forall|j: int, k: int|
            0 <= j < k < slots.len() ==> #[trigger] slots[j] != #[trigger] slots[k],
    ensures
        filled_total(cleared(buckets, slots.take(i)), buckets.len() as int) == filled_total(
            buckets,
            buckets.len() as int,
        ) - i,
    decreases i,
{
    if i == 0 {
        let same = cleared(buckets, slots.take(0));
        assert forall|b: int| 0 <= b < buckets.len() implies #[trigger] same[b] == buckets[b] by {
            assert forall|s: int| 0 <= s < buckets[b].len() implies #[trigger] same[b][s]
                == buckets[b][s] by {
                assert(!is_listed(slots.take(0), b, s));
            }
            assert(same[b] =~= buckets[b]);
        }
        assert(same =~= buckets);
    } else {
        lemma_cleared_total(buckets, slots, i - 1);
        let before = cleared(buckets, slots.take(i - 1));
        let slot = slots[i - 1];
        let (b, s) = (slot.0 as int, slot.1 as int);
        lemma_cleared_step(buckets, slots, i - 1);
        let some = slots.take(i - 1);
        assert(!is_listed(some, b, s)) by {
            if is_listed(some, b, s) {
                let j = choose|j: int|
                    0 <= j < some.len() && (#[trigger] some[j]).0 == b && some[j].1 == s;
                assert(slots[j] == some[j]);
                assert(slots[j] != slots[i - 1]);
            }
        }
        assert(before[b].len() == buckets[b].len());
        assert(before[b][s] == buckets[b][s]);
        lemma_total_update(before, b, s, buckets.len() as int);
    }
}

/// In a table without filled slots nothing is counted.
proof fn lemma_nothing_filled<E: SlotEntry>(buckets: Seq<Seq<E>>, n: int)
    requires
        0 <= n <= buckets.len(),
        forall|b: int, s: int|
            0 <= b < buckets.len() && 0 <= s < buckets[b].len()
                ==> (#[trigger] buckets[b][s]).is_zero(),
    ensures
        filled_total(buckets, n) == 0,
    decreases n,
{
    if n > 0 {
        lemma_nothing_filled(buckets, n - 1);
        lemma_none_filled(buckets[n - 1], buckets[n - 1].len() as int);
    }
}

proof fn lemma_none_filled<E: SlotEntry>(bucket: Seq<E>, n: int)
    requires
        0 <= n <= bucket.len(),
        forall|s: int| 0 <= s < bucket.len() ==> (#[trigger] bucket[s]).is_zero(),
    ensures
        filled_slots(bucket, n) == 0,
    decreases n,
{
    if n > 0 {
        lemma_none_filled(bucket, n - 1);
    }
}

/// A table whose blocks account for its entries counts its filled slots.
proof fn lemma_count_is_filled<E: SlotEntry>(table: TableState<E>, buckets: int, capacity: int)
    requires
        table.shaped(buckets, capacity),
        table.accounted(),
    ensures
        table.count == filled_total(table.buckets, table.buckets.len() as int),
    decreases table.index.len(),
{
    if table.index.len() == 0 {
        assert(total_slots(table.index) == 0);
        lemma_nothing_filled(table.buckets, table.buckets.len() as int);
    } else {
        let last = table.index.len() - 1;
        let slots = table.index[last].slots;
        law_removal_keeps_others(table, buckets, capacity, last);
        lemma_count_is_filled(table.without(last), buckets, capacity);
        assert forall|j: int| 0 <= j < slots.len() implies ({
            let slot = #[trigger] slots[j];
            slot.0 < table.buckets.len() && slot.1 < table.buckets[slot.0 as int].len()
                && !table.buckets[slot.0 as int][slot.1 as int].is_zero()
        }) by {
            assert(table.index[last].slots[j] == slots[j]);
        }
        assert forall|j: int, k: int| 0 <= j < k < slots.len() implies #[trigger] slots[j]
            != #[trigger] slots[k] by {
            assert(table.index[last].slots[j] != table.index[last].slots[k]);
        }
        lemma_cleared_total(table.buckets, slots, slots.len() as int);
        assert(slots.take(slots.len() as int) =~= slots);
        assert(table.index.len() > 0 && total_slots(table.index) >= slots.len());
    }
}

/// The filled slots of a bucket are those with a named nullifier in its bytes.
proof fn lemma_row_named<E: SlotEntry>(
    table: TableState<E>,
    buckets: int,
    capacity: int,
    b: int,
    s: int,
)
    requires
        table.shaped(buckets, capacity),
        table.named(),
        0 <= b < buckets,
        0 <= s <= capacity,
    ensures
        named_slots(table.rows(), E::encoded_len() as int, b * capacity + s) == named_slots(
            table.rows(),
            E::encoded_len() as int,
            b * capacity,
        ) + filled_slots(table.buckets[b], s),
    decreases s,
{
    if s > 0 {
        lemma_row_named(table, buckets, capacity, b, s - 1);
        let width = E::encoded_len() as int;
        let rows = table.rows();
        let entry = table.buckets[b][s - 1];
        let at = b * capacity + s - 1;
        entry.entry_laws(entry);
        law_rows_hold_entries(table, buckets, capacity, b, s - 1);
        assert(at * width == b * (capacity * width) + (s - 1) * width) by (nonlinear_arith)
            requires
                at == b * capacity + s - 1,
        ;
        assert(b * capacity >= 0) by (nonlinear_arith)
            requires
                b >= 0,
                capacity >= 0,
        ;
        let whole = rows.subrange(at * width, at * width + width);
        assert(whole == entry.encoding());
        assert(rows.subrange(at * width, at * width + 32) =~= whole.take(32));
        assert(whole.take(32) == entry.nf());
    }
}

/// The filled slots of the first `n` buckets are those with a named nullifier
/// in the bytes of the table.
proof fn lemma_filled_is_named<E: SlotEntry>(
    table: TableState<E>,
    buckets: int,
    capacity: int,
    n: int,
)
    requires
        table.shaped(buckets, capacity),
        table.named(),
        0 <= n <= buckets,
        0 <= capacity,
    ensures
        named_slots(table.rows(), E::encoded_len() as int, n * capacity) == filled_total(
            table.buckets,
            n,
        ),
    decreases n,
{
    if n > 0 {
        lemma_filled_is_named(table, buckets, capacity, n - 1);
        lemma_row_named(table, buckets, capacity, n - 1, capacity);
        assert((n - 1) * capacity + capacity == n * capacity) by (nonlinear_arith);
    } else {
        assert(0 * capacity == 0) by (nonlinear_arith);
    }
}

} // verus!
