//! The packed record of a hand: flag bits and field layout.
//!
//! Bits 0..8 hold the flags, bits 8..92 the fourteen hand slots of six bits
//! each, bits 92..126 the thirty-four presence bits of the pool.

use vstd::prelude::*;

verus! {

/// Qualifies if east is live.
pub const ANY_TON: u8 = 0b00000001;

/// Qualifies if south is live.
pub const ANY_NAN: u8 = 0b00000010;

/// Qualifies if west is live.
pub const ANY_SHA: u8 = 0b00000100;

/// Qualifies if north is live.
pub const ANY_PEI: u8 = 0b00001000;

/// The four bits of the winds of which one must be live.
pub const MASK_GROUP_ANY: u8 = 0b00001111;

/// Qualifies unless east is live.
pub const NOT_ANY_TON: u8 = 0b00000000;

/// Qualifies unless south is live.
pub const NOT_ANY_NAN: u8 = 0b00010000;

/// Qualifies unless west is live.
pub const NOT_ANY_SHA: u8 = 0b00100000;

/// Qualifies unless north is live.
pub const NOT_ANY_PEI: u8 = 0b00110000;

/// The two bits that select the wind that must not be live.
pub const MASK_GROUP_NOT_ANY: u8 = 0b00110000;

/// Disqualifies on self-draw.
pub const MASK_FALSE_IF_RON: u8 = 0b01000000;

/// Qualifies in every context.
pub const MASK_TRUE_ALWAYS: u8 = 0b10000000;

/// The bits that the first `n` slots of `hand` occupy in a record.
pub open spec fn hand_bits(hand: Seq<u8>, n: nat) -> u128
    decreases n,
{
    if n == 0 {
        0
    } else {
        hand_bits(hand, (n - 1) as nat) | ((hand[n - 1] as u128) << ((8 + 6 * (n - 1)) as u128))
    }
}

/// The bits that the first `n` entries of `pool` occupy in a record.
pub open spec fn pool_bits(pool: Seq<bool>, n: nat) -> u128
    decreases n,
{
    if n == 0 {
        0
    } else {
        pool_bits(pool, (n - 1) as nat) | (if pool[n - 1] {
            1u128 << ((92 + (n - 1)) as u128)
        } else {
            0u128
        })
    }
}

/// The tile that slot `i` of a record holds.
pub open spec fn slot(info: u128, i: int) -> u8 {
    ((info >> ((8 + 6 * i) as u128)) & 0b111111) as u8
}

/// Whether a record marks kind `i` as present.
pub open spec fn present(info: u128, i: int) -> bool {
    info & (1u128 << ((92 + i) as u128)) != 0
}

/// The hand that a record holds.
pub open spec fn unpacked_hand(info: u128) -> Seq<u8> {
    Seq::new(14, |i: int| slot(info, i))
}

/// The pool that a record holds.
pub open spec fn unpacked_pool(info: u128) -> Seq<bool> {
    Seq::new(34, |i: int| present(info, i))
}

/// The flags that a record holds.
pub open spec fn unpacked_flags(info: u128) -> u8 {
    (info & 0b11111111) as u8
}

/// The record of a hand, a pool and flags.
pub open spec fn record(hand: Seq<u8>, pool: Seq<bool>, flags: u8) -> u128 {
    hand_bits(hand, 14) | pool_bits(pool, 34) | (flags as u128)
}

/// Writes the fourteen tiles of `hand` into their slots of `info`.
pub fn set_hand(info: &mut u128, hand: [u8; 14])
    ensures
        *final(info) == *old(info) | hand_bits(hand@, 14),
{
    let mut shift: u32 = 8;
    let mut bits: u128 = 0;
    for i in 0..14usize
        invariant
            shift == 8 + 6 * i,
            bits == hand_bits(hand@, i as nat),
    {
        bits |= (hand[i] as u128) << shift;
        shift += 6;
    }
    *info |= bits;
}

/// Reads the fourteen slots of `info`.
pub fn get_hand(info: &u128) -> (hand: [u8; 14])
    ensures
        hand@ == unpacked_hand(*info),
{
    let mut hand = [0u8; 14];
    let mut shift: u32 = 8;
    for i in 0..14usize
        invariant
            shift == 8 + 6 * i,
            forall|j: int| 0 <= j < i ==> hand@[j] == slot(*info, j),
    {
        let field: u128 = (*info >> shift) & 0b111111;
        assert(field < 64) by (bit_vector)
            requires
                field == (*info >> shift) & 0b111111,
        ;
        hand[i] = field as u8;
        shift += 6;
    }
    assert(hand@ =~= unpacked_hand(*info));
    hand
}

/// Sets in `info` the presence bit of every kind that `pool` holds.
pub fn set_pool(info: &mut u128, pool: [bool; 34])
    ensures
        *final(info) == *old(info) | pool_bits(pool@, 34),
{
    let mut bits: u128 = 0;
    for i in 0..34usize
        invariant
            bits == pool_bits(pool@, i as nat),
    {
        let bit: u128 = if pool[i] { 1u128 << (i + 92) } else { 0 };
        bits |= bit;
    }
    *info |= bits;
}

/// Reads the thirty-four presence bits of `info`.
pub fn get_pool(info: &u128) -> (pool: [bool; 34])
    ensures
        pool@ == unpacked_pool(*info),
{
    let mut pool = [false; 34];
    for i in 0..34usize
        invariant
            forall|j: int| 0 <= j < i ==> pool@[j] == present(*info, j),
    {
        pool[i] = *info & (1u128 << (i + 92)) != 0;
    }
    assert(pool@ =~= unpacked_pool(*info));
    pool
}

proof fn lemma_slot_written(low: u128, tile: u128, shift: u128)
    by (bit_vector)
    requires
        tile < 64,
        8 <= shift <= 86,
        low >> shift == 0,
        low & 0xff == 0,
    ensures
        (low | (tile << shift)) >> ((shift + 6) as u128) == 0,
        ((low | (tile << shift)) >> shift) & 0b111111 == tile,
        (low | (tile << shift)) & 0xff == 0,
{
}

proof fn lemma_slot_kept(low: u128, tile: u128, shift: u128, below: u128)
    by (bit_vector)
    requires
        tile < 64,
        8 <= shift <= 86,
        8 <= below,
        below + 6 <= shift,
    ensures
        ((low | (tile << shift)) >> below) & 0b111111 == (low >> below) & 0b111111,
{
}

/// The slots of a hand lie in bits 8..92 of its record, each holding its tile.
pub proof fn lemma_hand_bits(hand: Seq<u8>, n: nat)
    requires
        n <= 14,
        forall|i: int| 0 <= i < n ==> #[trigger] hand[i] < 64,
    ensures
        hand_bits(hand, n) >> ((8 + 6 * n) as u128) == 0,
        hand_bits(hand, n) & 0xff == 0,
        forall|i: int| 0 <= i < n ==> slot(hand_bits(hand, n), i) == #[trigger] hand[i],
    decreases n,
{
    if n == 0 {
        assert(0u128 >> 8u128 == 0 && 0u128 & 0xff == 0) by (bit_vector);
    } else {
        let m = (n - 1) as nat;
        lemma_hand_bits(hand, m);
        let low = hand_bits(hand, m);
        let tile = hand[n - 1] as u128;
        let shift = (8 + 6 * m) as u128;
        lemma_slot_written(low, tile, shift);
        assert forall|i: int| 0 <= i < n implies slot(hand_bits(hand, n), i) == #[trigger] hand[i] by {
            if i < m {
                lemma_slot_kept(low, tile, shift, (8 + 6 * i) as u128);
                assert(hand[i] < 64);
            }
        }
    }
}

proof fn lemma_bit_written(low: u128, shift: u128)
    by (bit_vector)
    requires
        92 <= shift <= 125,
        low >> shift == 0,
        low & 0xfffffffffffffffffffffff == 0,
    ensures
        (low | (1u128 << shift)) >> ((shift + 1) as u128) == 0,
        (low | (1u128 << shift)) & (1u128 << shift) != 0,
        (low | (1u128 << shift)) & 0xfffffffffffffffffffffff == 0,
        low & (1u128 << shift) == 0,
{
}

proof fn lemma_bit_kept(low: u128, shift: u128, below: u128)
    by (bit_vector)
    requires
        92 <= below < shift <= 125,
    ensures
        (low | (1u128 << shift)) & (1u128 << below) == low & (1u128 << below),
{
}

proof fn lemma_bit_clear(low: u128, shift: u128)
    by (bit_vector)
    requires
        shift <= 126,
        low >> shift == 0,
    ensures
        (low | 0) == low,
        shift < 126 ==> low >> ((shift + 1) as u128) == 0,
        shift < 126 ==> low & (1u128 << shift) == 0,
{
}

/// The presence bits of a pool lie in bits 92..126 of its record.
pub proof fn lemma_pool_bits(pool: Seq<bool>, n: nat)
    requires
        n <= 34,
    ensures
        pool_bits(pool, n) >> ((92 + n) as u128) == 0,
        pool_bits(pool, n) & 0xfffffffffffffffffffffff == 0,
        forall|i: int| 0 <= i < n ==> present(pool_bits(pool, n), i) == #[trigger] pool[i],
    decreases n,
{
    if n == 0 {
        assert(0u128 >> 92u128 == 0 && 0u128 & 0xfffffffffffffffffffffff == 0) by (bit_vector);
    } else {
        let m = (n - 1) as nat;
        lemma_pool_bits(pool, m);
        let low = pool_bits(pool, m);
        let shift = (92 + m) as u128;
        if pool[n - 1] {
            lemma_bit_written(low, shift);
        } else {
            lemma_bit_clear(low, shift);
        }
        assert forall|i: int| 0 <= i < n implies present(pool_bits(pool, n), i)
            == #[trigger] pool[i] by {
            if i < m {
                if pool[n - 1] {
                    lemma_bit_kept(low, shift, (92 + i) as u128);
                }
            }
        }
    }
}

proof fn lemma_fields_apart(hand: u128, pool: u128, flags: u128)
    by (bit_vector)
    requires
        hand >> 92 == 0,
        hand & 0xff == 0,
        pool & 0xfffffffffffffffffffffff == 0,
        flags < 256,
    ensures
        (hand | pool | flags) & 0b11111111 == flags,
        forall|t: u128|
            8 <= t <= 86 ==> #[trigger] ((hand | pool | flags) >> t) & 0b111111 == (hand >> t)
                & 0b111111,
        forall|t: u128|
            92 <= t <= 125 ==> (hand | pool | flags) & #[trigger] (1u128 << t) == pool & (1u128
                << t),
{
}

/// Unpacking the record of a hand gives back the hand, the pool and the
/// flags, provided that every tile fits the six bits of a slot.
pub proof fn lemma_round_trip(hand: Seq<u8>, pool: Seq<bool>, flags: u8)
    requires
        hand.len() == 14,
        pool.len() == 34,
        forall|i: int| 0 <= i < 14 ==> #[trigger] hand[i] < 64,
    ensures
        unpacked_hand(record(hand, pool, flags)) == hand,
        unpacked_pool(record(hand, pool, flags)) == pool,
        unpacked_flags(record(hand, pool, flags)) == flags,
{
    lemma_hand_bits(hand, 14);
    lemma_pool_bits(pool, 34);
    let h = hand_bits(hand, 14);
    let p = pool_bits(pool, 34);
    lemma_fields_apart(h, p, flags as u128);
    let info = record(hand, pool, flags);
    assert forall|i: int| 0 <= i < 14 implies slot(info, i) == hand[i] by {
        let t = (8 + 6 * i) as u128;
        assert(((h | p | flags as u128) >> t) & 0b111111 == (h >> t) & 0b111111);
        assert(slot(h, i) == hand[i]);
    }
    assert forall|i: int| 0 <= i < 34 implies present(info, i) == pool[i] by {
        let t = (92 + i) as u128;
        assert((h | p | flags as u128) & (1u128 << t) == p & (1u128 << t));
        assert(present(p, i) == pool[i]);
    }
    assert(unpacked_hand(info) =~= hand);
    assert(unpacked_pool(info) =~= pool);
}

} // verus!
