//! Word layout of a bucket's metadata, the Fibonacci hash and the load-factor policy.

use vstd::prelude::*;

use vstd::bits::{lemma_u64_low_bits_mask_is_mod, lemma_u64_pow2_no_overflow, lemma_u64_shl_is_mul};

use crate::probe::is_power_of_two;

verus! {

/// Top bit of a bucket's metadata: the bucket is the home of a chain.
pub const HEAD_BIT_MASK: u64 = 0x8000_0000_0000_0000;

/// Second bit of a bucket's metadata: the bucket holds no entry.
pub const EMPTY_BIT_MASK: u64 = 0x4000_0000_0000_0000;

/// Low bits of a bucket's metadata: the index of the next bucket of its chain.
pub const PROBE_BITS_MASK: u64 = 0x3fff_ffff_ffff_ffff;

/// The integer nearest to 2^64 divided by the golden ratio (the even neighbour of
/// the odd constant 11400714819323198485; either spreads keys equally well).
pub const HASH_MULTIPLIER: u64 = 11400714819323198486;

/// Width of a machine word in bits.
pub const WORD_BITS: u64 = 64;

/// Smallest number of index bits a table uses.
pub const MIN_BITS: u64 = 1;

/// Largest number of index bits a table uses: every index must fit in the probe link.
pub const MAX_BITS: u64 = 62;

/// Smallest capacity of a table.
pub const MIN_CAPACITY: u64 = 2;

/// Largest capacity of a table.
pub const MAX_CAPACITY: u64 = 0x4000_0000_0000_0000;

/// The metadata marks an unoccupied bucket.
pub open spec fn is_empty_meta(meta: u64) -> bool {
    meta & EMPTY_BIT_MASK != 0
}

/// The metadata marks the home bucket of a chain.
pub open spec fn is_head_meta(meta: u64) -> bool {
    meta & HEAD_BIT_MASK != 0
}

/// The probe link: the index of the next bucket of the chain.
pub open spec fn link_of(meta: u64) -> u64 {
    meta & PROBE_BITS_MASK
}

/// The key multiplied by the Fibonacci constant, modulo 2^64.
pub open spec fn scramble(key: u64) -> u64 {
    ((key as nat * HASH_MULTIPLIER as nat) % 0x1_0000_0000_0000_0000nat) as u64
}

/// The home bucket of `key` in a table whose index is the top `64 - shift` bits.
pub open spec fn spec_hash(key: u64, shift: u64) -> u64 {
    scramble(key) >> shift
}

/// The capacity of a table whose hash is shifted right by `shift`.
pub open spec fn capacity_of_shift(shift: u64) -> u64 {
    1u64 << ((WORD_BITS - shift) as u64)
}

/// A shift that a table may use: its capacity lies in [MIN_CAPACITY, MAX_CAPACITY].
pub open spec fn valid_shift(shift: u64) -> bool {
    WORD_BITS - MAX_BITS <= shift <= WORD_BITS - MIN_BITS
}

/// The grow trigger: the load factor has reached 15/16.
pub open spec fn spec_should_grow(count: nat, capacity: nat) -> bool {
    count >= capacity - capacity / 16
}

/// The shrink trigger: the load factor is at most 3/8.
pub open spec fn spec_should_shrink(count: nat, capacity: nat) -> bool {
    count <= capacity / 4 + capacity / 8
}

/// Fibonacci hash: the top `64 - shift` bits of the key times the golden-ratio constant.
pub fn hash(key: u64, shift: u64) -> (r: u64)
    requires
        shift < WORD_BITS,
    ensures
        r == spec_hash(key, shift),
{
    key.wrapping_mul(HASH_MULTIPLIER) >> shift
}

/// Is the load factor at least 15/16?
pub fn should_grow(count: usize, capacity: usize) -> (r: bool)
    ensures
        r == spec_should_grow(count as nat, capacity as nat),
{
    assert(capacity >> 4usize == capacity / 16) by (bit_vector);
    count >= capacity - (capacity >> 4)
}

/// Is the load factor at most 3/8?
pub fn should_shrink(count: usize, capacity: usize) -> (r: bool)
    ensures
        r == spec_should_shrink(count as nat, capacity as nat),
{
    assert(capacity >> 2usize == capacity / 4) by (bit_vector);
    assert(capacity >> 3usize == capacity / 8) by (bit_vector);
    count <= (capacity >> 2) + (capacity >> 3)
}

/// The capacities that valid shifts give, and how a shift of one more or one less
/// halves or doubles the capacity.
pub proof fn lemma_shift_bounds(shift: u64)
    requires
        valid_shift(shift),
    ensures
        MIN_CAPACITY <= capacity_of_shift(shift) <= MAX_CAPACITY,
        capacity_of_shift(shift) == MIN_CAPACITY <==> shift == WORD_BITS - MIN_BITS,
        capacity_of_shift(shift) == MAX_CAPACITY <==> shift == WORD_BITS - MAX_BITS,
        shift >= WORD_BITS - MAX_BITS + 1 ==> capacity_of_shift((shift - 1) as u64) == 2
            * capacity_of_shift(shift),
        shift <= WORD_BITS - MIN_BITS - 1 ==> 2 * capacity_of_shift((shift + 1) as u64)
            == capacity_of_shift(shift),
{
    assert(2 <= shift <= 63 ==> 2 <= 1u64 << ((64 - shift) as u64) <= 0x4000_0000_0000_0000u64)
        by (bit_vector);
    assert(2 <= shift <= 63 ==> (1u64 << ((64 - shift) as u64) == 2u64 <==> shift == 63u64))
        by (bit_vector);
    assert(2 <= shift <= 63 ==> (1u64 << ((64 - shift) as u64) == 0x4000_0000_0000_0000u64
        <==> shift == 2u64)) by (bit_vector);
    assert(3 <= shift <= 63 ==> (1u64 << ((64 - (shift - 1)) as u64)) == 2 * (1u64 << ((64
        - shift) as u64))) by (bit_vector);
    assert(2 <= shift <= 62 ==> 2 * (1u64 << ((64 - (shift + 1)) as u64)) == (1u64 << ((64
        - shift) as u64))) by (bit_vector);
}

/// The home bucket lies inside the table.
pub proof fn lemma_hash_in_range(key: u64, shift: u64)
    requires
        valid_shift(shift),
    ensures
        spec_hash(key, shift) < capacity_of_shift(shift),
{
    let x = scramble(key);
    assert(2 <= shift <= 63 ==> (x >> shift) < (1u64 << ((64 - shift) as u64))) by (bit_vector);
}

/// Masking with `capacity - 1` is reducing modulo the capacity.
pub proof fn lemma_mask_is_mod(x: u64, shift: u64)
    requires
        valid_shift(shift),
    ensures
        x & ((capacity_of_shift(shift) - 1) as u64) == x % capacity_of_shift(shift),
{
    let k = (WORD_BITS - shift) as u64;
    lemma_u64_pow2_no_overflow(k as nat);
    lemma_u64_shl_is_mul(1, k);
    lemma_u64_low_bits_mask_is_mod(x, k as nat);
}

/// Every capacity is a power of two.
pub proof fn lemma_capacity_power_of_two(shift: u64)
    requires
        valid_shift(shift),
    ensures
        is_power_of_two(capacity_of_shift(shift) as nat),
    decreases WORD_BITS - shift,
{
    lemma_shift_bounds(shift);
    if shift == WORD_BITS - MIN_BITS {
        assert(is_power_of_two(1));
        assert(is_power_of_two(2));
    } else {
        lemma_capacity_power_of_two((shift + 1) as u64);
        assert(capacity_of_shift(shift) as nat / 2 == capacity_of_shift((shift + 1) as u64) as nat);
    }
}

/// The metadata of an empty bucket.
pub proof fn lemma_empty_meta()
    ensures
        is_empty_meta(EMPTY_BIT_MASK),
        !is_head_meta(EMPTY_BIT_MASK),
{
    assert(0x4000_0000_0000_0000u64 & 0x4000_0000_0000_0000u64 != 0) by (bit_vector);
    assert(0x4000_0000_0000_0000u64 & 0x8000_0000_0000_0000u64 == 0) by (bit_vector);
}

/// The metadata of a chain's home whose next bucket is `link`.
pub proof fn lemma_head_meta(link: u64)
    requires
        link < MAX_CAPACITY,
    ensures
        is_head_meta(HEAD_BIT_MASK | link),
        !is_empty_meta(HEAD_BIT_MASK | link),
        link_of(HEAD_BIT_MASK | link) == link,
{
    assert(link < 0x4000_0000_0000_0000u64 ==> (0x8000_0000_0000_0000u64 | link)
        & 0x8000_0000_0000_0000u64 != 0) by (bit_vector);
    assert(link < 0x4000_0000_0000_0000u64 ==> (0x8000_0000_0000_0000u64 | link)
        & 0x4000_0000_0000_0000u64 == 0) by (bit_vector);
    assert(link < 0x4000_0000_0000_0000u64 ==> (0x8000_0000_0000_0000u64 | link)
        & 0x3fff_ffff_ffff_ffffu64 == link) by (bit_vector);
}

/// The metadata of a chain member away from its home whose next bucket is `link`.
pub proof fn lemma_member_meta(link: u64)
    requires
        link < MAX_CAPACITY,
    ensures
        !is_head_meta(link),
        !is_empty_meta(link),
        link_of(link) == link,
{
    assert(link < 0x4000_0000_0000_0000u64 ==> link & 0x8000_0000_0000_0000u64 == 0)
        by (bit_vector);
    assert(link < 0x4000_0000_0000_0000u64 ==> link & 0x4000_0000_0000_0000u64 == 0)
        by (bit_vector);
    assert(link < 0x4000_0000_0000_0000u64 ==> link & 0x3fff_ffff_ffff_ffffu64 == link)
        by (bit_vector);
}

/// Redirecting an occupied bucket's link keeps its HEAD bit and nothing else.
pub proof fn lemma_relink_meta(meta: u64, link: u64)
    requires
        link < MAX_CAPACITY,
    ensures
        is_head_meta((meta & HEAD_BIT_MASK) | link) == is_head_meta(meta),
        !is_empty_meta((meta & HEAD_BIT_MASK) | link),
        link_of((meta & HEAD_BIT_MASK) | link) == link,
{
    assert(link < 0x4000_0000_0000_0000u64 ==> (((meta & 0x8000_0000_0000_0000u64) | link)
        & 0x8000_0000_0000_0000u64 != 0) == (meta & 0x8000_0000_0000_0000u64 != 0))
        by (bit_vector);
    assert(link < 0x4000_0000_0000_0000u64 ==> ((meta & 0x8000_0000_0000_0000u64) | link)
        & 0x4000_0000_0000_0000u64 == 0) by (bit_vector);
    assert(link < 0x4000_0000_0000_0000u64 ==> ((meta & 0x8000_0000_0000_0000u64) | link)
        & 0x3fff_ffff_ffff_ffffu64 == link) by (bit_vector);
}

} // verus!
