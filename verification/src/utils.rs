//! Small helpers: powers of two, block construction, digest-to-integer conversion.

use vstd::prelude::*;

verus! {

/// `n` is a power of two: 1, 2, 4, 8, ...
pub open spec fn is_pow2(n: nat) -> bool
    decreases n,
{
    n == 1 || (n > 1 && n % 2 == 0 && is_pow2(n / 2))
}

/// The number of leaves that `n` blocks are padded to: the least power of two
/// that is at least `n` (see `lemma_padded_len`).
pub open spec fn padded_len(n: nat) -> nat
    decreases n,
{
    if n <= 1 {
        1
    } else {
        2 * padded_len((n + 1) / 2)
    }
}

/// `padded_len(n)` is a power of two, at least `n`, and below `2 * n` for `n >= 1`.
pub proof fn lemma_padded_len(n: nat)
    ensures
        is_pow2(padded_len(n)),
        n <= padded_len(n),
        n >= 1 ==> padded_len(n) < 2 * n,
        n >= 2 ==> padded_len(n) <= 2 * n - 2,
    decreases n,
{
    if n > 1 {
        lemma_padded_len((n + 1) / 2);
    }
}

/// No power of two lies between `n` and `padded_len(n)`.
pub proof fn lemma_padded_len_least(n: nat, q: nat)
    requires
        is_pow2(q),
        n <= q,
    ensures
        padded_len(n) <= q,
    decreases n,
{
    if n > 1 {
        lemma_padded_len_least((n + 1) / 2, q / 2);
    }
}

/// A power of two is its own padded length.
pub proof fn lemma_padded_len_of_pow2(n: nat)
    requires
        is_pow2(n),
    ensures
        padded_len(n) == n,
{
    lemma_padded_len(n);
    lemma_padded_len_least(n, n);
}

proof fn lemma_clear_lowest_bit_halves(n: u64)
    by (bit_vector)
    requires
        n > 1,
    ensures
        (n & ((n - 1) as u64) == 0) == (n % 2 == 0 && (n / 2) & ((n / 2 - 1) as u64) == 0),
{
}

proof fn lemma_pow2_bit_test(n: u64)
    requires
        n >= 1,
    ensures
        (n & ((n - 1) as u64) == 0) == is_pow2(n as nat),
    decreases n,
{
    if n == 1 {
        assert(1u64 & 0u64 == 0) by (bit_vector);
    } else {
        lemma_clear_lowest_bit_halves(n);
        lemma_pow2_bit_test(n / 2);
    }
}

/// Whether `n` is a power of two.
pub fn is_pwr_two(n: usize) -> (b: bool)
    ensures
        b == is_pow2(n as nat),
{
    if n == 0 {
        return false;
    }
    let wide: u64 = n as u64;
    proof {
        lemma_pow2_bit_test(wide);
    }
    wide & (wide - 1) == 0
}

/// Turns each byte into a block of its own.
pub fn raw_numbers_to_vector(data: Vec<u8>) -> (blocks: Vec<Vec<u8>>)
    ensures
        blocks@.len() == data@.len(),
        forall|i: int| 0 <= i < data@.len() ==> (#[trigger] blocks@[i])@ == seq![data@[i]],
{
    let mut to_return: Vec<Vec<u8>> = Vec::new();
    let mut i: usize = 0;
    while i < data.len()
        invariant
            i <= data.len(),
            to_return@.len() == i,
            forall|k: int| 0 <= k < i ==> (#[trigger] to_return@[k])@ == seq![data@[k]],
        decreases data.len() - i,
    {
        let mut block: Vec<u8> = Vec::new();
        block.push(data[i]);
        assert(block@ =~= seq![data@[i as int]]);
        to_return.push(block);
        i += 1;
    }
    to_return
}

/// The views of the byte strings held in `blocks`, in order.
pub open spec fn blocks_view(blocks: Seq<Vec<u8>>) -> Seq<Seq<u8>> {
    Seq::new(blocks.len(), |i: int| blocks[i]@)
}

/// A copy of a byte string.
pub fn copy_bytes(bytes: &Vec<u8>) -> (out: Vec<u8>)
    ensures
        out@ == bytes@,
{
    let out = bytes.clone();
    assert(out@ =~= bytes@);
    out
}

/// A copy of a list of byte strings.
pub fn copy_blocks(blocks: &Vec<Vec<u8>>) -> (out: Vec<Vec<u8>>)
    ensures
        blocks_view(out@) == blocks_view(blocks@),
{
    let mut out: Vec<Vec<u8>> = Vec::new();
    let mut i: usize = 0;
    while i < blocks.len()
        invariant
            i <= blocks.len(),
            out@.len() == i,
            forall|k: int| 0 <= k < i ==> (#[trigger] out@[k])@ == blocks@[k]@,
        decreases blocks.len() - i,
    {
        out.push(copy_bytes(&blocks[i]));
        i += 1;
    }
    assert(blocks_view(out@) =~= blocks_view(blocks@));
    out
}

/// A copy of a list of flags.
pub fn copy_flags(flags: &Vec<bool>) -> (out: Vec<bool>)
    ensures
        out@ == flags@,
{
    let mut out: Vec<bool> = Vec::new();
    let mut i: usize = 0;
    while i < flags.len()
        invariant
            i <= flags.len(),
            out@ == flags@.take(i as int),
        decreases flags.len() - i,
    {
        out.push(flags[i]);
        assert(flags@.take(i + 1) =~= flags@.take(i as int).push(flags@[i as int]));
        i += 1;
    }
    assert(flags@.take(i as int) =~= flags@);
    out
}

/// Whether two byte strings are equal.
pub fn bytes_equal(a: &Vec<u8>, b: &Vec<u8>) -> (same: bool)
    ensures
        same == (a@ == b@),
{
    if a.len() != b.len() {
        return false;
    }
    let mut i: usize = 0;
    while i < a.len()
        invariant
            i <= a.len(),
            a.len() == b.len(),
            forall|k: int| 0 <= k < i ==> a@[k] == b@[k],
        decreases a.len() - i,
    {
        if a[i] != b[i] {
            return false;
        }
        i += 1;
    }
    assert(a@ =~= b@);
    true
}

/// The first eight bytes of `bytes`, read as a big-endian number.
pub open spec fn be_u64(bytes: Seq<u8>) -> nat {
    be_u64_prefix(bytes, 8)
}

/// The contribution of the first `count` bytes to `be_u64`.
pub open spec fn be_u64_prefix(bytes: Seq<u8>, count: int) -> nat {
    ((if count > 0 { bytes[0] as nat * 0x100_0000_0000_0000 } else { 0 })
        + (if count > 1 { bytes[1] as nat * 0x1_0000_0000_0000 } else { 0 })
        + (if count > 2 { bytes[2] as nat * 0x100_0000_0000 } else { 0 })
        + (if count > 3 { bytes[3] as nat * 0x1_0000_0000 } else { 0 })
        + (if count > 4 { bytes[4] as nat * 0x100_0000 } else { 0 })
        + (if count > 5 { bytes[5] as nat * 0x1_0000 } else { 0 })
        + (if count > 6 { bytes[6] as nat * 0x100 } else { 0 })
        + (if count > 7 { bytes[7] as nat } else { 0 })) as nat
}

proof fn lemma_shift_is_scale(b: u8)
    by (bit_vector)
    ensures
        (b as u64) << 56u64 == (b as u64) * 0x100_0000_0000_0000,
        (b as u64) << 48u64 == (b as u64) * 0x1_0000_0000_0000,
        (b as u64) << 40u64 == (b as u64) * 0x100_0000_0000,
        (b as u64) << 32u64 == (b as u64) * 0x1_0000_0000,
        (b as u64) << 24u64 == (b as u64) * 0x100_0000,
        (b as u64) << 16u64 == (b as u64) * 0x1_0000,
        (b as u64) << 8u64 == (b as u64) * 0x100,
        (b as u64) << 0u64 == (b as u64),
{
}

/// Reads the first eight bytes of a digest as a big-endian `u64`.
pub fn hash_to_u64(hash: Vec<u8>) -> (value: u64)
    requires
        hash@.len() >= 8,
    ensures
        value == be_u64(hash@),
{
    let mut to_return: u64 = 0;
    let mut i: u64 = 0;
    while i < 8
        invariant
            i <= 8,
            hash@.len() >= 8,
            to_return == be_u64_prefix(hash@, i as int),
        decreases 8 - i,
    {
        let byte: u8 = hash[i as usize];
        proof {
            lemma_shift_is_scale(byte);
        }
        to_return += (byte as u64) << ((7 - i) * 8);
        i += 1;
    }
    to_return
}

} // verus!
