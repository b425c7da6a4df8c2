//! The order of handles: that of their hands, tile by tile.

use vstd::prelude::*;
use core::cmp::Ordering;
use crate::handle::Handle;

verus! {

/// The first place from `from` on at which two hands differ, or fourteen
/// if there is none.
pub open spec fn first_difference(a: Seq<u8>, b: Seq<u8>, from: int) -> int
    decreases 14 - from,
{
    if from >= 14 {
        14
    } else if a[from] != b[from] {
        from
    } else {
        first_difference(a, b, from + 1)
    }
}

/// Hands that agree before place `d`, and differ at it if it is a place,
/// differ first at `d`.
pub proof fn lemma_first_difference(a: Seq<u8>, b: Seq<u8>, d: usize, from: int)
    requires
        0 <= from <= d <= 14,
        forall|j: int| 0 <= j < d ==> a[j] == b[j],
        d < 14 ==> a[d as int] != b[d as int],
    ensures
        first_difference(a, b, from) == d,
    decreases d - from,
{
    if from < d {
        lemma_first_difference(a, b, d, from + 1);
    }
}

/// How two hands compare: by their tiles at the first place at which they
/// differ.
pub open spec fn hand_order(a: Seq<u8>, b: Seq<u8>) -> Ordering {
    let d = first_difference(a, b, 0);
    if d >= 14 {
        Ordering::Equal
    } else if a[d] < b[d] {
        Ordering::Less
    } else {
        Ordering::Greater
    }
}

impl PartialOrd for Handle {
    fn partial_cmp(&self, other: &Self) -> (order: Option<Ordering>) {
        let mut i: usize = 0;
        while i < 14
            invariant
                i <= 14,
                forall|j: int| 0 <= j < i ==> self.hand@[j] == other.hand@[j],
            decreases 14 - i,
        {
            if self.hand[i] != other.hand[i] {
                proof {
                    lemma_first_difference(self.hand@, other.hand@, i, 0);
                }
                if self.hand[i] < other.hand[i] {
                    return Some(Ordering::Less);
                } else {
                    return Some(Ordering::Greater);
                }
            }
            i += 1;
        }
        proof {
            lemma_first_difference(self.hand@, other.hand@, i, 0);
        }
        Some(Ordering::Equal)
    }
}

impl vstd::std_specs::cmp::PartialOrdSpecImpl for Handle {
    open spec fn obeys_partial_cmp_spec() -> bool {
        true
    }

    open spec fn partial_cmp_spec(&self, other: &Self) -> Option<Ordering> {
        Some(hand_order(self.hand@, other.hand@))
    }
}

} // verus!
