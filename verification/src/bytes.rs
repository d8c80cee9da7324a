//! Little-endian integers and fixed-width fields inside byte sequences.
//!
//! Every binary format of this crate is a concatenation of little-endian
//! integers and raw byte arrays. The spec functions here say what such a
//! field holds; the executable functions read and write one field at a time.

use vstd::prelude::*;

verus! {

/// The number that a byte sequence denotes, least significant byte first.
pub open spec fn le_nat(s: Seq<u8>) -> nat
    decreases s.len(),
{
    if s.len() == 0 {
        0
    } else {
        s[0] as nat + 256 * le_nat(s.drop_first())
    }
}

/// `n` zero bytes.
pub open spec fn zeros(n: nat) -> Seq<u8> {
    Seq::new(n, |i: int| 0u8)
}

/// The four little-endian bytes of `x`.
pub open spec fn u32_le(x: u32) -> Seq<u8> {
    seq![
        (x % 0x100) as u8,
        (x / 0x100 % 0x100) as u8,
        (x / 0x1_0000 % 0x100) as u8,
        (x / 0x100_0000) as u8,
    ]
}

/// The eight little-endian bytes of `x`.
pub open spec fn u64_le(x: u64) -> Seq<u8> {
    u32_le((x % 0x1_0000_0000) as u32) + u32_le((x / 0x1_0000_0000) as u32)
}

/// The little-endian `u32` whose four bytes start at index `i` of `s`.
pub open spec fn u32_at(s: Seq<u8>, i: int) -> u32 {
    (s[i] + 0x100 * s[i + 1] + 0x1_0000 * s[i + 2] + 0x100_0000 * s[i + 3]) as u32
}

/// The little-endian `u64` whose eight bytes start at index `i` of `s`.
pub open spec fn u64_at(s: Seq<u8>, i: int) -> u64 {
    (u32_at(s, i) + 0x1_0000_0000 * u32_at(s, i + 4)) as u64
}

/// Reading back the bytes of a `u32` gives the `u32`.
pub proof fn lemma_u32_le_at(s: Seq<u8>, i: int, x: u32)
    requires
        0 <= i,
        i + 4 <= s.len(),
        s.subrange(i, i + 4) == u32_le(x),
    ensures
        u32_at(s, i) == x,
{
    let f = s.subrange(i, i + 4);
    assert(f[0] == s[i] && f[1] == s[i + 1] && f[2] == s[i + 2] && f[3] == s[i + 3]);
}

/// Reading back the bytes of a `u64` gives the `u64`.
pub proof fn lemma_u64_le_at(s: Seq<u8>, i: int, x: u64)
    requires
        0 <= i,
        i + 8 <= s.len(),
        s.subrange(i, i + 8) == u64_le(x),
    ensures
        u64_at(s, i) == x,
{
    let lo = (x % 0x1_0000_0000) as u32;
    let hi = (x / 0x1_0000_0000) as u32;
    let f = s.subrange(i, i + 8);
    assert(s.subrange(i, i + 4) =~= f.subrange(0, 4));
    assert(f.subrange(0, 4) =~= u32_le(lo));
    assert(s.subrange(i + 4, i + 8) =~= f.subrange(4, 8));
    assert(f.subrange(4, 8) =~= u32_le(hi));
    lemma_u32_le_at(s, i, lo);
    lemma_u32_le_at(s, i + 4, hi);
}

/// Writing out a `u32` that was read gives the bytes it was read from.
pub proof fn lemma_u32_at_le(s: Seq<u8>, i: int)
    requires
        0 <= i,
        i + 4 <= s.len(),
    ensures
        u32_le(u32_at(s, i)) == s.subrange(i, i + 4),
{
    let (b0, b1, b2, b3) = (s[i] as int, s[i + 1] as int, s[i + 2] as int, s[i + 3] as int);
    let v = b0 + 0x100 * b1 + 0x1_0000 * b2 + 0x100_0000 * b3;
    assert(v / 0x100 == b1 + 0x100 * b2 + 0x1_0000 * b3);
    assert(v / 0x1_0000 == b2 + 0x100 * b3);
    assert(v / 0x100_0000 == b3);
    let x = u32_at(s, i);
    assert(x == v);
    assert((x % 0x100) as u8 == s[i]);
    assert((x / 0x100 % 0x100) as u8 == s[i + 1]);
    assert((x / 0x1_0000 % 0x100) as u8 == s[i + 2]);
    assert((x / 0x100_0000) as u8 == s[i + 3]);
    assert(u32_le(x) =~= s.subrange(i, i + 4));
}

/// The parts one after another.
pub open spec fn joined(parts: Seq<Seq<u8>>) -> Seq<u8>
    decreases parts.len(),
{
    if parts.len() == 0 {
        Seq::empty()
    } else {
        joined(parts.drop_last()) + parts.last()
    }
}

/// Concatenation may be grouped either way.
pub proof fn lemma_concat_assoc(a: Seq<u8>, b: Seq<u8>, c: Seq<u8>)
    ensures
        (a + b) + c == a + (b + c),
{
    assert((a + b) + c =~= a + (b + c));
}

/// A piece of the middle of a concatenation.
pub proof fn lemma_middle(a: Seq<u8>, b: Seq<u8>, c: Seq<u8>, lo: int, hi: int)
    requires
        0 <= lo <= hi <= b.len(),
    ensures
        (a + b + c).subrange(a.len() + lo, a.len() + hi) == b.subrange(lo, hi),
{
    assert((a + b + c).subrange(a.len() + lo, a.len() + hi) =~= b.subrange(lo, hi));
}

/// The bytes of a `u64` behind others can be read, and the others be taken.
pub proof fn lemma_trailing_u64(a: Seq<u8>, x: u64)
    ensures
        (a + u64_le(x)).len() == a.len() + 8,
        (a + u64_le(x)).take(a.len() as int) == a,
        u64_at(a + u64_le(x), a.len() as int) == x,
{
    let s = a + u64_le(x);
    assert(s.take(a.len() as int) =~= a);
    assert(s.subrange(a.len() as int, a.len() as int + 8) =~= u64_le(x));
    lemma_u64_le_at(s, a.len() as int, x);
}

/// Adding a part at the end adds its bytes at the end.
pub proof fn lemma_joined_push(parts: Seq<Seq<u8>>, part: Seq<u8>)
    ensures
        joined(parts.push(part)) == joined(parts) + part,
{
    assert(parts.push(part).drop_last() =~= parts);
}

/// The length of parts that all have the same width.
pub proof fn lemma_joined_len(parts: Seq<Seq<u8>>, width: nat)
    requires
        forall|j: int| 0 <= j < parts.len() ==> (#[trigger] parts[j]).len() == width,
    ensures
        joined(parts).len() == parts.len() * width,
    decreases parts.len(),
{
    if parts.len() > 0 {
        lemma_joined_len(parts.drop_last(), width);
        assert(parts.len() * width == (parts.len() - 1) * width + width) by (nonlinear_arith)
            requires
                parts.len() > 0,
        ;
    } else {
        assert(0 * width == 0) by (nonlinear_arith);
    }
}

/// Each of the parts of one width can be found again by its index.
pub proof fn lemma_joined_at(parts: Seq<Seq<u8>>, width: nat, i: int)
    requires
        0 <= i < parts.len(),
        forall|j: int| 0 <= j < parts.len() ==> (#[trigger] parts[j]).len() == width,
    ensures
        0 <= i * width,
        i * width + width <= joined(parts).len(),
        joined(parts).subrange(i * width, i * width + width) == parts[i],
    decreases parts.len(),
{
    lemma_joined_len(parts, width);
    lemma_joined_len(parts.drop_last(), width);
    assert(0 <= i * width && i * width + width == (i + 1) * width) by (nonlinear_arith)
        requires
            0 <= i,
    ;
    let n = parts.len() as int;
    assert(n * width == (n - 1) * width + width) by (nonlinear_arith);
    if i == n - 1 {
        assert(joined(parts).subrange(i * width, i * width + width) =~= parts[i]);
    } else {
        lemma_joined_at(parts.drop_last(), width, i);
        assert(joined(parts).subrange(i * width, i * width + width) =~= joined(
            parts.drop_last(),
        ).subrange(i * width, i * width + width));
    }
}

/// Two arrays that hold the same bytes are equal.
pub proof fn lemma_array_eq<const N: usize>(a: [u8; N], b: [u8; N])
    requires
        a@ == b@,
    ensures
        a == b,
{
    assert forall|i: int| 0 <= i < N implies a[i] == b[i] by {
        assert(a@[i] == b@[i]);
    }
    assert(a =~= b);
}

/// The array that holds the given bytes.
pub open spec fn array_from<const N: usize>(s: Seq<u8>) -> [u8; N] {
    choose|array: [u8; N]| array@ == s
}

/// The array that holds the given 32 bytes.
pub open spec fn hash_from(s: Seq<u8>) -> [u8; 32] {
    array_from::<32>(s)
}

/// An array is found again from its bytes.
pub proof fn lemma_array_from<const N: usize>(array: [u8; N])
    ensures
        array_from::<N>(array@) == array,
{
    lemma_array_eq(array_from::<N>(array@), array);
}

/// There is an array that starts with the first `n` of the given bytes.
proof fn lemma_array_exists<const N: usize>(s: Seq<u8>, n: int) -> (array: [u8; N])
    requires
        s.len() == N,
        0 <= n <= N,
    ensures
        forall|k: int| 0 <= k < n ==> array@[k] == s[k],
    decreases n,
{
    if n == 0 {
        arbitrary()
    } else {
        let array = lemma_array_exists::<N>(s, n - 1);
        let next = vstd::array::spec_array_update(array, n - 1, s[n - 1]);
        assert(next@ == array@.update(n - 1, s[n - 1]));
        next
    }
}

/// Any `N` bytes are the bytes of an array.
pub proof fn lemma_array_bytes<const N: usize>(s: Seq<u8>)
    requires
        s.len() == N,
    ensures
        array_from::<N>(s)@ == s,
{
    let array = lemma_array_exists::<N>(s, N as int);
    assert(array@ =~= s);
}

/// Reads the little-endian `u32` at `pos`.
pub fn read_u32_at(data: &[u8], pos: usize) -> (value: u32)
    requires
        pos + 4 <= data.len(),
    ensures
        value == u32_at(data@, pos as int),
{
    data[pos] as u32 + 0x100 * data[pos + 1] as u32 + 0x1_0000 * data[pos + 2] as u32 + 0x100_0000
        * data[pos + 3] as u32
}

/// Reads the little-endian `u64` at `pos`.
pub fn read_u64_at(data: &[u8], pos: usize) -> (value: u64)
    requires
        pos + 8 <= data.len(),
    ensures
        value == u64_at(data@, pos as int),
{
    read_u32_at(data, pos) as u64 + 0x1_0000_0000 * read_u32_at(data, pos + 4) as u64
}

/// Copies the `N` bytes at `pos` into an array.
pub fn read_array_at<const N: usize>(data: &[u8], pos: usize) -> (value: [u8; N])
    requires
        pos + N <= data.len(),
    ensures
        value@ == data@.subrange(pos as int, pos + N),
{
    let mut value: [u8; N] = [0u8; N];
    let mut i: usize = 0;
    while i < N
        invariant
            i <= N,
            pos + N <= data.len(),
            forall|k: int| 0 <= k < i ==> value@[k] == data@[pos + k],
        decreases N - i,
    {
        value[i] = data[pos + i];
        i += 1;
    }
    assert(value@ =~= data@.subrange(pos as int, pos + N));
    value
}

/// Compares two byte slices.
pub fn same_bytes(a: &[u8], b: &[u8]) -> (same: bool)
    ensures
        same == (a@ == b@),
{
    if a.len() != b.len() {
        return false;
    }
    let mut i: usize = 0;
    while i < a.len()
        invariant
            i <= a@.len(),
            a@.len() == b@.len(),
            forall|k: int| 0 <= k < i ==> a@[k] == b@[k],
        decreases a@.len() - i,
    {
        if a[i] != b[i] {
            return false;
        }
        i += 1;
    }
    assert(a@ =~= b@);
    true
}

/// Compares two arrays.
pub fn same_array<const N: usize>(a: &[u8; N], b: &[u8; N]) -> (same: bool)
    ensures
        same == (*a == *b),
        same == (a@ == b@),
{
    let mut i: usize = 0;
    while i < N
        invariant
            i <= N,
            forall|k: int| 0 <= k < i ==> a@[k] == b@[k],
        decreases N - i,
    {
        if a[i] != b[i] {
            return false;
        }
        i += 1;
    }
    assert(a@ =~= b@);
    proof {
        lemma_array_eq(*a, *b);
    }
    true
}

/// Whether all bytes are zero.
pub fn all_zero(bytes: &[u8; 32]) -> (zero: bool)
    ensures
        zero == (bytes@ == zeros(32)),
{
    let mut i: usize = 0;
    while i < 32
        invariant
            i <= 32,
            forall|k: int| 0 <= k < i ==> bytes@[k] == 0,
        decreases 32 - i,
    {
        if bytes[i] != 0 {
            assert(bytes@[i as int] != zeros(32)[i as int]);
            return false;
        }
        i += 1;
    }
    assert(bytes@ =~= zeros(32));
    true
}

/// 32 zero bytes.
pub fn zero_hash() -> (hash: [u8; 32])
    ensures
        hash@ == zeros(32),
        hash == hash_from(zeros(32)),
{
    let mut hash: [u8; 32] = [0u8; 32];
    let mut i: usize = 0;
    while i < 32
        invariant
            i <= 32,
            forall|k: int| 0 <= k < i ==> hash@[k] == 0,
        decreases 32 - i,
    {
        hash[i] = 0;
        i += 1;
    }
    assert(hash@ =~= zeros(32));
    proof {
        lemma_array_from(hash);
    }
    hash
}

/// The first 32 bytes, with zero bytes behind them where there are fewer.
pub open spec fn padded(bytes: Seq<u8>) -> Seq<u8> {
    Seq::new(
        32,
        |i: int|
            if i < bytes.len() {
                bytes[i]
            } else {
                0u8
            },
    )
}

/// A hash with the bytes of another, cut or filled to 32 bytes, is the hash that
/// these bytes give.
pub proof fn lemma_padded_hash(bytes: Seq<u8>, hash: [u8; 32])
    requires
        forall|k: int|
            0 <= k < 32 ==> #[trigger] hash@[k] == (if k < bytes.len() {
                bytes[k]
            } else {
                0u8
            }),
    ensures
        hash == hash_from(padded(bytes)),
{
    lemma_array_bytes::<32>(padded(bytes));
    assert(hash@ =~= padded(bytes));
    lemma_array_eq(hash, hash_from(padded(bytes)));
}

/// Cuts or pads bytes to the length of a hash.
pub fn to_hash_array(bytes: &[u8]) -> (hash: [u8; 32])
    ensures
        hash@ == padded(bytes@),
        hash == hash_from(padded(bytes@)),
{
    let mut hash: [u8; 32] = [0u8; 32];
    let mut i: usize = 0;
    while i < 32
        invariant
            i <= 32,
            forall|k: int| 0 <= k < i ==> hash@[k] == padded(bytes@)[k],
        decreases 32 - i,
    {
        if i < bytes.len() {
            hash[i] = bytes[i];
        } else {
            hash[i] = 0;
        }
        i += 1;
    }
    assert(hash@ =~= padded(bytes@));
    proof {
        lemma_array_from(hash);
    }
    hash
}

/// Appends a slice.
pub fn push_bytes(buf: &mut Vec<u8>, bytes: &[u8])
    ensures
        final(buf)@ == old(buf)@ + bytes@,
{
    buf.extend_from_slice(bytes);
    assert(buf@ =~= old(buf)@ + bytes@);
}

/// A copy of a slice.
pub fn copy_of(bytes: &[u8]) -> (copy: Vec<u8>)
    ensures
        copy@ == bytes@,
{
    let mut copy: Vec<u8> = Vec::with_capacity(bytes.len());
    push_bytes(&mut copy, bytes);
    assert(copy@ =~= bytes@);
    copy
}

/// Appends the four little-endian bytes of `x`.
pub fn push_u32(buf: &mut Vec<u8>, x: u32)
    ensures
        final(buf)@ == old(buf)@ + u32_le(x),
{
    buf.push((x % 0x100) as u8);
    buf.push((x / 0x100 % 0x100) as u8);
    buf.push((x / 0x1_0000 % 0x100) as u8);
    buf.push((x / 0x100_0000) as u8);
    assert(buf@ =~= old(buf)@ + u32_le(x));
}

/// Appends the eight little-endian bytes of `x`.
pub fn push_u64(buf: &mut Vec<u8>, x: u64)
    ensures
        final(buf)@ == old(buf)@ + u64_le(x),
{
    push_u32(buf, (x % 0x1_0000_0000) as u32);
    push_u32(buf, (x / 0x1_0000_0000) as u32);
    assert(buf@ =~= old(buf)@ + u64_le(x));
}

} // verus!
