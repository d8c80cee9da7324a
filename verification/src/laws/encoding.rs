//! What the encodings of numbers, entries and texts denote, byte by byte and
//! digit by digit.

use crate::bytes::{joined, le_nat, padded, u32_at, u32_le, u64_at, u64_le};
use crate::nullifier::hashtable_pir::entries_of;
use crate::nullifier::spend_types::{NullifierEntry, NullifierWithMeta};
use crate::text::{decimal, digit, hex_digits, hex_u64};
use vstd::arithmetic::power2::{lemma2_to64, lemma_pow2_adds, pow2};
use vstd::prelude::*;

verus! {

/// The four bytes of a number are its digits to the base 256, the lowest first.
pub proof fn law_u32_bytes_are_digits(x: u32)
    ensures
        u32_le(x).len() == 4,
        u32_le(x)[0] + 256 * u32_le(x)[1] + 65_536 * u32_le(x)[2] + 16_777_216 * u32_le(x)[3] == x,
{
}

/// Four bytes are read as digits to the base 256, the lowest first.
pub proof fn law_u32_is_read_from_digits(s: Seq<u8>, i: int)
    ensures
        u32_at(s, i) == s[i] + 256 * s[i + 1] + 65_536 * s[i + 2] + 16_777_216 * s[i + 3],
{
}

/// The eight bytes of a number are its digits to the base 256, the lowest
/// first.
pub proof fn law_u64_bytes_are_digits(x: u64)
    ensures
        u64_le(x).len() == 8,
        u64_le(x)[0] + 0x100 * u64_le(x)[1] + 0x1_0000 * u64_le(x)[2] + 0x100_0000 * u64_le(x)[3]
            + 0x1_0000_0000 * u64_le(x)[4] + 0x100_0000_0000 * u64_le(x)[5] + 0x1_0000_0000_0000
            * u64_le(x)[6] + 0x100_0000_0000_0000 * u64_le(x)[7] == x,
{
    let lo = (x % 0x1_0000_0000) as u32;
    let hi = (x / 0x1_0000_0000) as u32;
    law_u32_bytes_are_digits(lo);
    law_u32_bytes_are_digits(hi);
}

/// Eight bytes are read as digits to the base 256, the lowest first.
pub proof fn law_u64_is_read_from_digits(s: Seq<u8>, i: int)
    ensures
        u64_at(s, i) == s[i] + 0x100 * s[i + 1] + 0x1_0000 * s[i + 2] + 0x100_0000 * s[i + 3]
            + 0x1_0000_0000 * s[i + 4] + 0x100_0000_0000 * s[i + 5] + 0x1_0000_0000_0000 * s[i + 6]
            + 0x100_0000_0000_0000 * s[i + 7],
{
}

/// The number that bytes denote has them as digits to the base 256, the lowest
/// first. `values` holds the numbers that ever longer ends of the bytes denote.
pub proof fn law_bytes_denote_digits(s: Seq<u8>, values: Seq<int>)
    requires
        values.len() == s.len() + 1,
        values[s.len() as int] == 0,
        forall|i: int| 0 <= i < s.len() ==> values[i] == #[trigger] s[i] + 256 * values[i + 1],
    ensures
        le_nat(s) == values[0],
    decreases s.len(),
{
    if s.len() > 0 {
        let rest = s.drop_first();
        let above = values.drop_first();
        assert forall|i: int| 0 <= i < rest.len() implies above[i] == #[trigger] rest[i] + 256
            * above[i + 1] by {
            assert(rest[i] == s[i + 1]);
        }
        law_bytes_denote_digits(rest, above);
        assert(values[0] == s[0] + 256 * values[1]);
    }
}

/// A hash that is too short is filled up with zero bytes, and one that is too
/// long is cut.
pub proof fn law_hash_is_cut_or_filled(bytes: Seq<u8>)
    ensures
        padded(bytes).len() == 32,
        forall|k: int| 0 <= k < 32 && k < bytes.len() ==> #[trigger] padded(bytes)[k] == bytes[k],
        forall|k: int| bytes.len() <= k < 32 ==> #[trigger] padded(bytes)[k] == 0,
{
}

/// Parts are joined one behind the other: each stands where the parts before it
/// end, and nothing else is there. `ends` holds the running sums of the lengths.
pub proof fn law_parts_stand_in_order(parts: Seq<Seq<u8>>, ends: Seq<int>)
    requires
        ends.len() == parts.len() + 1,
        ends[0] == 0,
        forall|i: int|
            0 <= i < parts.len() ==> ends[i + 1] == ends[i] + (#[trigger] parts[i]).len(),
    ensures
        joined(parts).len() == ends[parts.len() as int],
        forall|i: int|
            0 <= i < parts.len() ==> ends[i] + (#[trigger] parts[i]).len() <= joined(parts).len(),
        forall|i: int| 0 <= i < ends.len() ==> 0 <= #[trigger] ends[i],
        forall|i: int, k: int|
            0 <= i < parts.len() && 0 <= k < parts[i].len() ==> joined(parts)[ends[i] + k]
                == #[trigger] parts[i][k],
    decreases parts.len(),
{
    if parts.len() > 0 {
        let n = parts.len() - 1;
        let front = parts.drop_last();
        let sums = ends.drop_last();
        assert forall|i: int| 0 <= i < front.len() implies sums[i + 1] == sums[i] + (
        #[trigger] front[i]).len() by {
            assert(front[i] == parts[i]);
        }
        law_parts_stand_in_order(front, sums);
        assert(ends[n + 1] == ends[n] + parts[n].len());
        assert forall|i: int| 0 <= i < ends.len() implies 0 <= #[trigger] ends[i] by {
            if i <= n {
                assert(sums[i] == ends[i]);
            }
        }
        assert forall|i: int| 0 <= i < parts.len() implies ends[i] + (#[trigger] parts[i]).len()
            <= joined(parts).len() by {
            if i < n {
                assert(front[i] == parts[i]);
            }
        }
        assert forall|i: int, k: int|
            0 <= i < parts.len() && 0 <= k < parts[i].len() implies joined(parts)[ends[i] + k]
            == #[trigger] parts[i][k] by {
            if i < n {
                assert(front[i][k] == parts[i][k]);
                assert(ends[i] + front[i].len() <= joined(front).len());
            }
        }
    }
}

/// An entry is stored as its nullifier, the height of the spend, the position of
/// the first output, and the number of actions; numbers with the lowest byte
/// first.
pub proof fn law_entry_fields_in_order(entry: NullifierEntry)
    ensures
        entry.bytes().len() == 41,
        forall|k: int| 0 <= k < 32 ==> #[trigger] entry.bytes()[k] == entry.nullifier@[k],
        entry.bytes()[32] + 256 * entry.bytes()[33] + 65_536 * entry.bytes()[34] + 16_777_216
            * entry.bytes()[35] == entry.spend_height,
        entry.bytes()[36] + 256 * entry.bytes()[37] + 65_536 * entry.bytes()[38] + 16_777_216
            * entry.bytes()[39] == entry.first_output_position,
        entry.bytes()[40] == entry.action_count,
{
    law_u32_bytes_are_digits(entry.spend_height);
    law_u32_bytes_are_digits(entry.first_output_position);
}

/// A block brings one entry for each nullifier, in order, with the height of
/// the block and what is known of the nullifier.
pub proof fn law_entries_carry_their_block(height: u64, nullifiers: Seq<NullifierWithMeta>)
    requires
        height <= u32::MAX,
    ensures
        entries_of(height, nullifiers).len() == nullifiers.len(),
        forall|i: int|
            0 <= i < nullifiers.len() ==> {
                let entry = #[trigger] entries_of(height, nullifiers)[i];
                &&& entry.nullifier == nullifiers[i].nullifier
                &&& entry.spend_height == height
                &&& entry.first_output_position == nullifiers[i].first_output_position
                &&& entry.action_count == nullifiers[i].action_count
            },
{
}

proof fn lemma_digit(d: int)
    requires
        0 <= d < 16,
    ensures
        digit(d).len() == 1,
        d < 10 ==> digit(d)[0] as int == '0' as int + d,
        d >= 10 ==> digit(d)[0] as int == 'a' as int + d - 10,
{
    reveal_strlit("0");
    reveal_strlit("1");
    reveal_strlit("2");
    reveal_strlit("3");
    reveal_strlit("4");
    reveal_strlit("5");
    reveal_strlit("6");
    reveal_strlit("7");
    reveal_strlit("8");
    reveal_strlit("9");
    reveal_strlit("a");
    reveal_strlit("b");
    reveal_strlit("c");
    reveal_strlit("d");
    reveal_strlit("e");
    reveal_strlit("f");
}

/// The decimal text of a number has its digits to the base ten, the highest
/// first, without leading zeros. `values` holds the numbers that ever longer
/// starts of the text denote.
pub proof fn law_decimal_denotes(n: int, values: Seq<int>)
    requires
        0 <= n,
        values.len() == decimal(n).len() + 1,
        values[0] == 0,
        forall|i: int|
            0 <= i < decimal(n).len() ==> values[i + 1] == values[i] * 10 + (#[trigger] decimal(
                n,
            )[i] as int - '0' as int),
    ensures
        values[decimal(n).len() as int] == n,
        decimal(n).len() > 0,
        forall|i: int| 0 <= i < decimal(n).len() ==> '0' <= #[trigger] decimal(n)[i] <= '9',
        decimal(n)[0] == '0' ==> n == 0 && decimal(n).len() == 1,
    decreases n,
{
    lemma_digit(n % 10);
    if n >= 10 {
        let front = decimal(n / 10);
        let k = front.len() as int;
        let before = values.drop_last();
        assert forall|i: int| 0 <= i < front.len() implies before[i + 1] == before[i] * 10 + (
        #[trigger] front[i] as int - '0' as int) by {
            assert(decimal(n)[i] == front[i]);
        }
        law_decimal_denotes(n / 10, before);
        assert(decimal(n)[k] == digit(n % 10)[0]);
        assert(values[k + 1] == values[k] * 10 + (decimal(n)[k] as int - '0' as int));
        assert forall|i: int| 0 <= i < decimal(n).len() implies '0' <= #[trigger] decimal(n)[i]
            <= '9' by {
            if i < k {
                assert(decimal(n)[i] == front[i]);
            }
        }
        assert(decimal(n)[0] == front[0]);
    } else {
        assert(decimal(n)[0] == digit(n)[0]);
        assert(values[0 + 1 as int] == values[0] * 10 + (decimal(n)[0] as int - '0' as int));
    }
}

proof fn lemma_hex_denotes(n: int, width: nat, values: Seq<int>)
    requires
        0 <= n < pow2(4 * width),
        values.len() == hex_digits(n, width).len() + 1,
        values[0] == 0,
        forall|i: int|
            0 <= i < hex_digits(n, width).len() ==> values[i + 1] == values[i] * 16 + (if (
            #[trigger] hex_digits(n, width)[i]) <= '9' {
                hex_digits(n, width)[i] as int - '0' as int
            } else {
                hex_digits(n, width)[i] as int - 'a' as int + 10
            }),
    ensures
        hex_digits(n, width).len() == width,
        values[width as int] == n,
    decreases width,
{
    lemma2_to64();
    if width > 0 {
        let m = (width - 1) as nat;
        let front = hex_digits(n / 16, m);
        let before = values.drop_last();
        lemma_digit(n % 16);
        lemma_pow2_adds(4, 4 * m);
        assert(4 + 4 * m == 4 * width);
        assert(n / 16 < pow2(4 * m));
        assert forall|i: int| 0 <= i < front.len() implies before[i + 1] == before[i] * 16 + (if (
        #[trigger] front[i]) <= '9' {
            front[i] as int - '0' as int
        } else {
            front[i] as int - 'a' as int + 10
        }) by {
            assert(hex_digits(n, width)[i] == front[i]);
        }
        lemma_hex_denotes(n / 16, m, before);
        assert(hex_digits(n, width)[m as int] == digit(n % 16)[0]);
    }
}

/// A number in hexadecimal is `0x` and its sixteen digits to the base sixteen,
/// the highest first. `values` holds the numbers that ever longer starts of the
/// digits denote.
pub proof fn law_hex_denotes(n: u64, values: Seq<int>)
    requires
        values.len() == 17,
        values[0] == 0,
        forall|i: int|
            0 <= i < 16 ==> values[i + 1] == values[i] * 16 + (if (#[trigger] hex_u64(n)[i + 2])
                <= '9' {
                hex_u64(n)[i + 2] as int - '0' as int
            } else {
                hex_u64(n)[i + 2] as int - 'a' as int + 10
            }),
    ensures
        hex_u64(n).len() == 18,
        hex_u64(n)[0] == '0',
        hex_u64(n)[1] == 'x',
        values[16] == n,
{
    lemma2_to64();
    reveal_strlit("0x");
    lemma_hex_len(n as int, 16);
    assert forall|i: int| 0 <= i < 16 implies values[i + 1] == values[i] * 16 + (if (
    #[trigger] hex_digits(n as int, 16)[i]) <= '9' {
        hex_digits(n as int, 16)[i] as int - '0' as int
    } else {
        hex_digits(n as int, 16)[i] as int - 'a' as int + 10
    }) by {
        assert(hex_u64(n)[i + 2] == hex_digits(n as int, 16)[i]);
    }
    lemma_hex_denotes(n as int, 16, values);
}

proof fn lemma_hex_len(n: int, width: nat)
    requires
        0 <= n,
    ensures
        hex_digits(n, width).len() == width,
    decreases width,
{
    if width > 0 {
        lemma_digit(n % 16);
        lemma_hex_len(n / 16, (width - 1) as nat);
    }
}

} // verus!
