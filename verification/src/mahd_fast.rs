//! The first scoring of guesses, position by position: how many candidates
//! colour each kind at each position green, yellow or not at all, and the
//! choice of the ten best-scored guesses.

use vstd::prelude::*;
use crate::handle::{Color, Handle};
use crate::mahd_fast2::{
    all_handles_wf, cell2, cell2_of, count, g_holds, lemma_all_wf_push, lemma_cells2_apart,
    register_g, register_y, top_n, top_n_biggest, y_holds, HandleEntropy, Tally,
};

verus! {

/// How many guesses the first scoring keeps.
pub const MAX_BUFFER_SIZE: usize = 10;

/// Every candidate colours a kind at a position in exactly one way: the
/// counts of a kind in place and in the pool split into the three colours.
pub proof fn lemma_slot_partition(hs: Seq<Handle>, pos: int, a: int)
    requires
        all_handles_wf(hs),
        0 <= pos < 14,
        0 <= a < 34,
    ensures
        count(hs, Tally::G(pos, a)) == count(hs, Tally::Slot(pos, a, Color::Green)),
        count(hs, Tally::Y(a)) == count(hs, Tally::Slot(pos, a, Color::Green)) + count(
            hs,
            Tally::Slot(pos, a, Color::Yellow),
        ),
        hs.len() == count(hs, Tally::Slot(pos, a, Color::Green)) + count(
            hs,
            Tally::Slot(pos, a, Color::Yellow),
        ) + count(hs, Tally::Slot(pos, a, Color::Absent)),
    decreases hs.len(),
{
    if hs.len() > 0 {
        let h = hs.last();
        assert(h.wf());
        assert(h.pool@[a] == crate::handle::pool_of(h.hand@)[a]);
        assert(all_handles_wf(hs.drop_last())) by {
            assert forall|i: int| 0 <= i < hs.drop_last().len() implies (#[trigger] hs.drop_last()[i]).wf() by {
                assert(hs[i].wf());
            }
        }
        lemma_slot_partition(hs.drop_last(), pos, a);
    }
}

/// Every cell holds the numbers of candidates that colour its kind at its
/// position green, yellow and not at all.
pub open spec fn slots_hold(map: Seq<[u32; 3]>, hs: Seq<Handle>) -> bool {
    &&& map.len() == 14 * 34
    &&& forall|pos: int, a: int|
        0 <= pos < 14 && 0 <= a < 34 ==> {
            let counts = map[#[trigger] cell2(pos, a)]@;
            &&& counts[0] == count(hs, Tally::Slot(pos, a, Color::Green))
            &&& counts[1] == count(hs, Tally::Slot(pos, a, Color::Yellow))
            &&& counts[2] == count(hs, Tally::Slot(pos, a, Color::Absent))
        }
}

/// For each position and kind, how many of the candidates colour the kind
/// there green, yellow and not at all.
pub fn mahd_fast_prepare(hs: &Vec<Handle>) -> (category_map: Vec<[u32; 3]>)
    requires
        all_handles_wf(hs@),
        hs@.len() <= u32::MAX,
    ensures
        slots_hold(category_map@, hs@),
{
    let mut yellow_map: Vec<u32> = vec![0u32; 34];
    let mut green_map: Vec<u32> = vec![0u32; 14 * 34];
    let n = hs.len();
    assert(hs@.subrange(0, 0) =~= Seq::empty());
    for i in 0..n
        invariant
            n == hs@.len(),
            n <= u32::MAX,
            all_handles_wf(hs@),
            y_holds(yellow_map@, hs@.subrange(0, i as int)),
            g_holds(green_map@, hs@.subrange(0, i as int)),
    {
        let handle = &hs[i];
        let ghost seen = hs@.subrange(0, i as int);
        assert(handle.wf());
        register_y(&mut yellow_map, handle, Ghost(seen));
        register_g(&mut green_map, handle, Ghost(seen));
        assert(hs@.subrange(0, i + 1) =~= seen.push(*handle));
    }
    assert(hs@.subrange(0, n as int) =~= hs@);
    let size = n as u32;
    let mut category_map: Vec<[u32; 3]> = Vec::new();
    for pos in 0..14usize
        invariant
            size == hs@.len(),
            all_handles_wf(hs@),
            y_holds(yellow_map@, hs@),
            g_holds(green_map@, hs@),
            category_map@.len() == pos * 34,
            forall|p: int, a: int|
                0 <= p < pos && 0 <= a < 34 ==> {
                    let counts = category_map@[#[trigger] cell2(p, a)]@;
                    &&& counts[0] == count(hs@, Tally::Slot(p, a, Color::Green))
                    &&& counts[1] == count(hs@, Tally::Slot(p, a, Color::Yellow))
                    &&& counts[2] == count(hs@, Tally::Slot(p, a, Color::Absent))
                },
    {
        for tile in 0..34usize
            invariant
                pos < 14,
                size == hs@.len(),
                all_handles_wf(hs@),
                y_holds(yellow_map@, hs@),
                g_holds(green_map@, hs@),
                category_map@.len() == cell2(pos as int, tile as int),
                forall|p: int, a: int|
                    0 <= p < 14 && 0 <= a < 34 && cell2(p, a) < cell2(pos as int, tile as int) ==> {
                        let counts = category_map@[#[trigger] cell2(p, a)]@;
                        &&& counts[0] == count(hs@, Tally::Slot(p, a, Color::Green))
                        &&& counts[1] == count(hs@, Tally::Slot(p, a, Color::Yellow))
                        &&& counts[2] == count(hs@, Tally::Slot(p, a, Color::Absent))
                    },
        {
            proof {
                lemma_slot_partition(hs@, pos as int, tile as int);
                assert(green_map@[cell2(pos as int, tile as int)] == count(
                    hs@,
                    Tally::G(pos as int, tile as int),
                ));
                assert(yellow_map@[tile as int] == count(hs@, Tally::Y(tile as int)));
            }
            let green = green_map[cell2_of(pos, tile)];
            let yellow = yellow_map[tile];
            let counts: [u32; 3] = [green, yellow - green, size - yellow];
            let ghost before = category_map@;
            category_map.push(counts);
            assert forall|p: int, a: int|
                0 <= p < 14 && 0 <= a < 34 && cell2(p, a) < cell2(pos as int, tile + 1) implies {
                let counts = category_map@[#[trigger] cell2(p, a)]@;
                &&& counts[0] == count(hs@, Tally::Slot(p, a, Color::Green))
                &&& counts[1] == count(hs@, Tally::Slot(p, a, Color::Yellow))
                &&& counts[2] == count(hs@, Tally::Slot(p, a, Color::Absent))
            } by {
                if cell2(p, a) == cell2(pos as int, tile as int) {
                    lemma_cells2_apart(p, a, pos as int, tile as int);
                } else {
                    assert(category_map@[cell2(p, a)] == before[cell2(p, a)]);
                }
            }
        }
    }
    category_map
}

/// The ten best-scored guesses, lowest score first.
pub fn mahd_fast(hes: Vec<HandleEntropy>) -> (max_handles: Vec<HandleEntropy>)
    ensures
        top_n(max_handles@, hes@, MAX_BUFFER_SIZE as nat),
{
    top_n_biggest(hes, MAX_BUFFER_SIZE)
}

} // verus!
