//! Identifiers of nodes and connections.

use vstd::prelude::*;

verus! {

/// `id` has the layout of a random (version 4) UUID: the version nibble
/// (bits 76..80) is 4 and the two variant bits (bits 62..64) are `0b10`.
pub open spec fn is_v4_id(id: u128) -> bool {
    &&& (id >> 76u32) & 0xfu128 == 4
    &&& (id >> 62u32) & 0x3u128 == 2
}

/// Draws a fresh identifier with `uuid::Uuid::new_v4` and reads it back with
/// `Uuid::as_u128`.
///
/// The value is random. What holds of every outcome is what `new_v4` fixes in
/// its source: the version nibble (bits 76..80) is 4 and the two variant bits
/// (bits 62..64) are `0b10`. Nothing is claimed about freshness: two calls may
/// in principle return the same value.
#[verifier::external_body]
pub(crate) fn fresh_id() -> (id: u128)
    ensures
        (id >> 76u32) & 0xfu128 == 4,
        (id >> 62u32) & 0x3u128 == 2,
{
    uuid::Uuid::new_v4().as_u128()
}

/// The `k`-th stand-in for the identifier `d`: the bits of `d` that make it a
/// version 4 UUID stay, and `k` is written into free bits (0..62 and
/// 64..76), so different `k` give different identifiers.
pub open spec fn stand_in(d: u128, k: u64) -> u128 {
    (d & 0xFFFFFFFFFFFFF000C000000000000000u128) | ((k as u128) & 0x3FFFFFFFFFFFFFFFu128) | (((k as u128)
        >> 62u32) << 64u32)
}

/// Computes `stand_in(d, k)`.
pub(crate) fn make_stand_in(d: u128, k: u64) -> (r: u128)
    ensures
        r == stand_in(d, k),
        is_v4_id(d) ==> is_v4_id(r),
{
    proof {
        lemma_stand_in_v4(d, k);
    }
    (d & 0xFFFFFFFFFFFFF000C000000000000000u128) | ((k as u128) & 0x3FFFFFFFFFFFFFFFu128) | (((k as u128) >> 62u32)
        << 64u32)
}

proof fn lemma_stand_in_v4(d: u128, k: u64)
    ensures
        is_v4_id(d) ==> is_v4_id(stand_in(d, k)),
{
    let kk = k as u128;
    assert(kk < 0x1_0000_0000_0000_0000u128);
    assert(kk < 0x1_0000_0000_0000_0000u128 ==> (((d >> 76u32) & 0xfu128 == 4 && (d >> 62u32) & 0x3u128 == 2) ==> ((
    (d & 0xFFFFFFFFFFFFF000C000000000000000u128) | (kk & 0x3FFFFFFFFFFFFFFFu128) | ((kk >> 62u32) << 64u32)) >> 76u32)
        & 0xfu128 == 4 && (((d & 0xFFFFFFFFFFFFF000C000000000000000u128) | (kk & 0x3FFFFFFFFFFFFFFFu128) | ((kk
        >> 62u32) << 64u32)) >> 62u32) & 0x3u128 == 2)) by (bit_vector);
}

/// Different `k` give different stand-ins.
pub proof fn lemma_stand_in_injective(d: u128, k1: u64, k2: u64)
    requires
        k1 != k2,
    ensures
        stand_in(d, k1) != stand_in(d, k2),
{
    let a = k1 as u128;
    let b = k2 as u128;
    assert(a < 0x1_0000_0000_0000_0000u128 && b < 0x1_0000_0000_0000_0000u128);
    assert(a < 0x1_0000_0000_0000_0000u128 && b < 0x1_0000_0000_0000_0000u128 && a != b ==> (d
        & 0xFFFFFFFFFFFFF000C000000000000000u128) | (a & 0x3FFFFFFFFFFFFFFFu128) | ((a >> 62u32) << 64u32) != (d
        & 0xFFFFFFFFFFFFF000C000000000000000u128) | (b & 0x3FFFFFFFFFFFFFFFu128) | ((b >> 62u32) << 64u32))
        by (bit_vector);
}

} // verus!
