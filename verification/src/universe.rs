//! The universe of hands as it is stored: every hand once, with the flags
//! of the reading of the hand that qualifies most widely.

use vstd::prelude::*;
use std::collections::HashMap;
use crate::handle::{Hand, Handle};
use crate::store;

verus! {

/// Whether a reading with `flags` replaces the stored reading of the same
/// hand with `flags_old`: it always qualifies, or it does not disqualify on
/// self-draw where the stored one does.
pub open spec fn prefer(flags: u8, flags_old: u8) -> bool {
    flags & store::MASK_TRUE_ALWAYS != 0 || (flags & store::MASK_FALSE_IF_RON == 0 && flags_old
        & store::MASK_FALSE_IF_RON != 0)
}

/// Whether one of the handles holds the hand.
pub open spec fn holds_hand(found: Seq<Handle>, hand: Seq<u8>) -> bool {
    exists|p: int| 0 <= p < found.len() && #[trigger] found[p].hand@ == hand
}

/// A place at which the handles hold the hand.
pub open spec fn place_of(found: Seq<Handle>, hand: Seq<u8>) -> int {
    choose|p: int| 0 <= p < found.len() && #[trigger] found[p].hand@ == hand
}

/// The handles with every hand kept once, in the order in which the hands
/// first occur. A later reading of a hand takes the place of the stored one
/// where it is preferred.
pub open spec fn refined(hs: Seq<Handle>) -> Seq<Handle>
    decreases hs.len(),
{
    if hs.len() == 0 {
        Seq::empty()
    } else {
        let prev = refined(hs.drop_last());
        let h = hs.last();
        if holds_hand(prev, h.hand@) {
            let p = place_of(prev, h.hand@);
            if prefer(h.flags, prev[p].flags) {
                prev.update(p, h)
            } else {
                prev
            }
        } else {
            prev.push(h)
        }
    }
}

/// No two of the handles hold the same hand.
pub open spec fn distinct_hands(found: Seq<Handle>) -> bool {
    forall|p: int, q: int|
        0 <= p < q < found.len() ==> (#[trigger] found[p]).hand@ != (#[trigger] found[q]).hand@
}

/// The refined handles hold every hand of the input exactly once, and each
/// of them is one of the input.
pub proof fn lemma_refined(hs: Seq<Handle>)
    ensures
        distinct_hands(refined(hs)),
        refined(hs).len() <= hs.len(),
        forall|j: int| 0 <= j < hs.len() ==> holds_hand(refined(hs), (#[trigger] hs[j]).hand@),
        forall|p: int| 0 <= p < refined(hs).len() ==> hs.contains(#[trigger] refined(hs)[p]),
    decreases hs.len(),
{
    if hs.len() > 0 {
        let init = hs.drop_last();
        let prev = refined(init);
        let h = hs.last();
        let next = refined(hs);
        lemma_refined(init);
        assert(hs[hs.len() - 1] == h);
        if holds_hand(prev, h.hand@) {
            let p = place_of(prev, h.hand@);
            assert(prev[p].hand@ == h.hand@);
            assert forall|x: int| 0 <= x < next.len() implies #[trigger] next[x].hand@
                == prev[x].hand@ by {}
            assert forall|j: int| 0 <= j < hs.len() implies holds_hand(
                next,
                (#[trigger] hs[j]).hand@,
            ) by {
                if j < init.len() {
                    assert(init[j] == hs[j]);
                    let q = place_of(prev, hs[j].hand@);
                    assert(next[q].hand@ == hs[j].hand@);
                } else {
                    assert(next[p].hand@ == h.hand@);
                }
            }
            assert forall|x: int| 0 <= x < next.len() implies hs.contains(#[trigger] next[x]) by {
                if next[x] != h {
                    assert(next[x] == prev[x]);
                    assert(init.contains(prev[x]));
                    let j = choose|j: int| 0 <= j < init.len() && init[j] == prev[x];
                    assert(hs[j] == next[x]);
                }
            }
        } else {
            assert forall|j: int| 0 <= j < hs.len() implies holds_hand(
                next,
                (#[trigger] hs[j]).hand@,
            ) by {
                if j < init.len() {
                    assert(init[j] == hs[j]);
                    let q = place_of(prev, hs[j].hand@);
                    assert(next[q].hand@ == hs[j].hand@);
                } else {
                    assert(next[prev.len() as int].hand@ == h.hand@);
                }
            }
            assert forall|x: int| 0 <= x < next.len() implies hs.contains(#[trigger] next[x]) by {
                if x < prev.len() {
                    assert(next[x] == prev[x]);
                    assert(init.contains(prev[x]));
                    let j = choose|j: int| 0 <= j < init.len() && init[j] == prev[x];
                    assert(hs[j] == next[x]);
                }
            }
            assert forall|p: int, q: int| 0 <= p < q < next.len() implies (#[trigger] next[p]).hand@
                != (#[trigger] next[q]).hand@ by {
                if q == prev.len() {
                    assert(prev[p].hand@ != h.hand@);
                }
            }
        }
    }
}

/// The key under which a hand is looked up: the bits of its slots.
fn hand_key(hand: &Hand) -> (key: u128)
    ensures
        key == store::hand_bits(hand@, 14),
{
    let mut key: u128 = 0;
    store::set_hand(&mut key, *hand);
    let ghost bits = store::hand_bits(hand@, 14);
    assert(0u128 | bits == bits) by (bit_vector);
    key
}

/// Hands of tiles that fit their slots have different keys.
proof fn lemma_hand_key(a: Seq<u8>, b: Seq<u8>)
    requires
        a.len() == 14,
        b.len() == 14,
        forall|i: int| 0 <= i < 14 ==> #[trigger] a[i] < 64,
        forall|i: int| 0 <= i < 14 ==> #[trigger] b[i] < 64,
        store::hand_bits(a, 14) == store::hand_bits(b, 14),
    ensures
        a == b,
{
    store::lemma_hand_bits(a, 14);
    store::lemma_hand_bits(b, 14);
    assert forall|i: int| 0 <= i < 14 implies a[i] == b[i] by {
        assert(store::slot(store::hand_bits(a, 14), i) == a[i]);
        assert(store::slot(store::hand_bits(b, 14), i) == b[i]);
    }
    assert(a =~= b);
}

/// The map gives the key of every kept hand its place, and holds no other key.
pub open spec fn keyed(places: Map<u128, usize>, found: Seq<Handle>) -> bool {
    &&& forall|v: u128| #[trigger]
        places.contains_key(v) <==> exists|p: int|
            0 <= p < found.len() && store::hand_bits(#[trigger] found[p].hand@, 14) == v
    &&& forall|p: int|
        0 <= p < found.len() ==> places[store::hand_bits(#[trigger] found[p].hand@, 14)] == p
}

/// Every handle holds real tile kinds only.
pub open spec fn all_valid_tiles(hs: Seq<Handle>) -> bool {
    forall|i: int| 0 <= i < hs.len() ==> (#[trigger] hs[i]).valid_tiles()
}

/// Keeps every hand once, in the order in which the hands first occur, with
/// the preferred reading of each.
pub fn refine(hs: &Vec<Handle>) -> (found: Vec<Handle>)
    requires
        all_valid_tiles(hs@),
    ensures
        found@ == refined(hs@),
{
    broadcast use vstd::std_specs::hash::group_hash_axioms;

    let mut places: HashMap<u128, usize> = HashMap::new();
    let mut found: Vec<Handle> = Vec::new();
    let n = hs.len();
    assert(hs@.subrange(0, 0) =~= Seq::empty());
    for i in 0..n
        invariant
            n == hs@.len(),
            all_valid_tiles(hs@),
            found@ == refined(hs@.subrange(0, i as int)),
            keyed(places@, found@),
            all_valid_tiles(found@),
    {
        let handle = hs[i];
        let key = hand_key(&handle.hand);
        let ghost seen = hs@.subrange(0, i as int);
        let ghost prev = found@;
        let ghost old_places = places@;
        proof {
            assert(hs@.subrange(0, i + 1) =~= seen.push(handle));
            assert(seen.push(handle).drop_last() =~= seen);
            assert(handle.valid_tiles());
            assert forall|p: int| 0 <= p < prev.len() && store::hand_bits(prev[p].hand@, 14)
                == key implies prev[p].hand@ == handle.hand@ by {
                assert(prev[p].valid_tiles());
                lemma_hand_key(prev[p].hand@, handle.hand@);
            }
        }
        let place = match places.get(&key) {
            Some(place) => Some(*place),
            None => None,
        };
        match place {
            Some(p) => {
                proof {
                    assert(old_places.contains_key(key));
                    let q = choose|q: int|
                        0 <= q < prev.len() && store::hand_bits(#[trigger] prev[q].hand@, 14)
                            == key;
                    assert(old_places[store::hand_bits(prev[q].hand@, 14)] == q);
                    assert(prev[q].hand@ == handle.hand@);
                    assert(holds_hand(prev, handle.hand@));
                    let r = place_of(prev, handle.hand@);
                    assert(store::hand_bits(prev[r].hand@, 14) == key);
                    assert(old_places[store::hand_bits(prev[r].hand@, 14)] == r);
                    assert(r == p);
                }
                let flags_old = found[p].flags;
                if handle.flags & store::MASK_TRUE_ALWAYS != 0 || (handle.flags
                    & store::MASK_FALSE_IF_RON == 0 && flags_old & store::MASK_FALSE_IF_RON
                    != 0) {
                    found[p] = handle;
                    proof {
                        assert(found@ == prev.update(p as int, handle));
                        assert forall|x: int| 0 <= x < found@.len() implies #[trigger] found@[x].hand@
                            == prev[x].hand@ by {}
                        assert forall|v: u128| #[trigger]
                            places@.contains_key(v) <==> exists|x: int|
                                0 <= x < found@.len() && store::hand_bits(
                                    #[trigger] found@[x].hand@,
                                    14,
                                ) == v by {
                            if old_places.contains_key(v) {
                                let x = choose|x: int|
                                    0 <= x < prev.len() && store::hand_bits(
                                        #[trigger] prev[x].hand@,
                                        14,
                                    ) == v;
                                assert(store::hand_bits(found@[x].hand@, 14) == v);
                            }
                            if exists|x: int|
                                0 <= x < found@.len() && store::hand_bits(
                                    #[trigger] found@[x].hand@,
                                    14,
                                ) == v {
                                let x = choose|x: int|
                                    0 <= x < found@.len() && store::hand_bits(
                                        #[trigger] found@[x].hand@,
                                        14,
                                    ) == v;
                                assert(store::hand_bits(prev[x].hand@, 14) == v);
                            }
                        }
                        assert forall|x: int| 0 <= x < found@.len() implies places@[store::hand_bits(
                            #[trigger] found@[x].hand@,
                            14,
                        )] == x by {
                            assert(old_places[store::hand_bits(prev[x].hand@, 14)] == x);
                        }
                        assert forall|x: int| 0 <= x < found@.len() implies (
                        #[trigger] found@[x]).valid_tiles() by {
                            if x != p {
                                assert(prev[x].valid_tiles());
                            }
                        }
                    }
                }
            },
            None => {
                proof {
                    assert(!old_places.contains_key(key));
                    if holds_hand(prev, handle.hand@) {
                        let r = place_of(prev, handle.hand@);
                        assert(store::hand_bits(prev[r].hand@, 14) == key);
                    }
                }
                let fresh = found.len();
                places.insert(key, fresh);
                found.push(handle);
                proof {
                    assert forall|v: u128| #[trigger]
                        places@.contains_key(v) <==> exists|x: int|
                            0 <= x < found@.len() && store::hand_bits(
                                #[trigger] found@[x].hand@,
                                14,
                            ) == v by {
                        if v == key {
                            assert(store::hand_bits(found@[fresh as int].hand@, 14) == v);
                        } else {
                            if old_places.contains_key(v) {
                                let x = choose|x: int|
                                    0 <= x < prev.len() && store::hand_bits(
                                        #[trigger] prev[x].hand@,
                                        14,
                                    ) == v;
                                assert(store::hand_bits(found@[x].hand@, 14) == v);
                            }
                            if exists|x: int|
                                0 <= x < found@.len() && store::hand_bits(
                                    #[trigger] found@[x].hand@,
                                    14,
                                ) == v {
                                let x = choose|x: int|
                                    0 <= x < found@.len() && store::hand_bits(
                                        #[trigger] found@[x].hand@,
                                        14,
                                    ) == v;
                                assert(store::hand_bits(prev[x].hand@, 14) == v);
                            }
                        }
                    }
                    assert forall|x: int| 0 <= x < found@.len() implies places@[store::hand_bits(
                        #[trigger] found@[x].hand@,
                        14,
                    )] == x by {
                        if x < prev.len() {
                            assert(found@[x] == prev[x]);
                            assert(old_places[store::hand_bits(prev[x].hand@, 14)] == x);
                            assert(old_places.contains_key(store::hand_bits(prev[x].hand@, 14)));
                        }
                    }
                    assert forall|x: int| 0 <= x < found@.len() implies (
                    #[trigger] found@[x]).valid_tiles() by {
                        if x < prev.len() {
                            assert(prev[x].valid_tiles());
                        }
                    }
                }
            },
        }
    }
    assert(hs@.subrange(0, n as int) =~= hs@);
    found
}

} // verus!
