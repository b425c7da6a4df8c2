//! The query engine: tallies over a candidate set from which the outcome
//! frequencies of every pair of adjacent guess positions follow, the search
//! for a guess that tells all candidates apart, and the selection of the
//! best-scored guesses.

use vstd::prelude::*;
use std::collections::{HashMap, HashSet};
use crate::handle::{
    color_result_to_index, feedback, index_of, lemma_index_injective, Color, Hand, Handle,
};
use crate::heap::{heap_pop, heap_push, is_heap};

verus! {

/// The outcome of two adjacent positions of a guess, where a position is
/// green if the candidate holds the guessed kind there, yellow if it holds
/// the kind elsewhere, and blank if it does not hold the kind.
#[derive(Clone, Copy, Debug, PartialEq, Eq, Structural)]
pub enum PairColor {
    GG,
    GY,
    YG,
    YY,
    GN,
    NG,
    YN,
    NY,
    NN,
}

impl PairColor {
    /// The place of the outcome among the nine counters of a cell.
    pub open spec fn index(self) -> int {
        match self {
            PairColor::GG => 0,
            PairColor::GY => 1,
            PairColor::YG => 2,
            PairColor::YY => 3,
            PairColor::GN => 4,
            PairColor::NG => 5,
            PairColor::YN => 6,
            PairColor::NY => 7,
            PairColor::NN => 8,
        }
    }

    /// The place of the outcome among the nine counters of a cell.
    pub fn slot(self) -> (slot: usize)
        ensures
            slot == self.index(),
    {
        match self {
            PairColor::GG => 0,
            PairColor::GY => 1,
            PairColor::YG => 2,
            PairColor::YY => 3,
            PairColor::GN => 4,
            PairColor::NG => 5,
            PairColor::YN => 6,
            PairColor::NY => 7,
            PairColor::NN => 8,
        }
    }
}

/// The index of the cell of position `pos` and kinds `a`, `b` in a table
/// over all pairs of adjacent positions and all pairs of kinds.
pub open spec fn cell(pos: int, a: int, b: int) -> int {
    (pos * 34 + a) * 34 + b
}

/// The index of the cell of `a` and `b` in a table with rows of thirty-four.
pub open spec fn cell2(a: int, b: int) -> int {
    a * 34 + b
}

/// The colour that kind `a`, guessed at position `pos`, gets from a
/// candidate when only the candidate's pool decides on yellow.
pub open spec fn slot_color(h: Handle, pos: int, a: int) -> Color {
    if h.hand@[pos] == a {
        Color::Green
    } else if h.pool@[a] {
        Color::Yellow
    } else {
        Color::Absent
    }
}

/// The outcome that kinds `a`, `b`, guessed at positions `pos`, `pos + 1`,
/// get from a candidate.
pub open spec fn pair_color(h: Handle, pos: int, a: int, b: int) -> PairColor {
    match (slot_color(h, pos, a), slot_color(h, pos + 1, b)) {
        (Color::Green, Color::Green) => PairColor::GG,
        (Color::Green, Color::Yellow) => PairColor::GY,
        (Color::Yellow, Color::Green) => PairColor::YG,
        (Color::Yellow, Color::Yellow) => PairColor::YY,
        (Color::Green, Color::Absent) => PairColor::GN,
        (Color::Absent, Color::Green) => PairColor::NG,
        (Color::Yellow, Color::Absent) => PairColor::YN,
        (Color::Absent, Color::Yellow) => PairColor::NY,
        (Color::Absent, Color::Absent) => PairColor::NN,
    }
}

/// What a counter counts among the candidates.
pub enum Tally {
    /// Kind `a` at position `pos` and kind `b` right after it.
    GG(int, int, int),
    /// Kind `a` at position `pos` and kind `b` anywhere.
    GY(int, int, int),
    /// Kind `a` anywhere and kind `b` at position `pos + 1`.
    YG(int, int, int),
    /// Kind `a` at position `pos`.
    G(int, int),
    /// Kinds `a` and `b` both anywhere.
    YY(int, int),
    /// Kind `a` anywhere.
    Y(int),
    /// The outcome of guessing `a`, `b` at `pos`, `pos + 1` is the given one.
    Cat(int, int, int, PairColor),
    /// The colour of guessing `a` at `pos` is the given one.
    Slot(int, int, Color),
}

/// Whether a candidate is one that the counter counts.
pub open spec fn holds(t: Tally, h: Handle) -> bool {
    match t {
        Tally::GG(pos, a, b) => h.hand@[pos] == a && h.hand@[pos + 1] == b,
        Tally::GY(pos, a, b) => h.hand@[pos] == a && h.pool@[b],
        Tally::YG(pos, a, b) => h.pool@[a] && h.hand@[pos + 1] == b,
        Tally::G(pos, a) => h.hand@[pos] == a,
        Tally::YY(a, b) => h.pool@[a] && h.pool@[b],
        Tally::Y(a) => h.pool@[a],
        Tally::Cat(pos, a, b, c) => pair_color(h, pos, a, b) == c,
        Tally::Slot(pos, a, c) => slot_color(h, pos, a) == c,
    }
}

/// One if the condition holds, else zero.
pub open spec fn one_if(b: bool) -> nat {
    if b {
        1
    } else {
        0
    }
}

/// The number of candidates that a counter counts.
pub open spec fn count(hs: Seq<Handle>, t: Tally) -> nat
    decreases hs.len(),
{
    if hs.len() == 0 {
        0
    } else {
        count(hs.drop_last(), t) + one_if(holds(t, hs.last()))
    }
}

/// Every candidate holds real tile kinds and the pool of its hand.
pub open spec fn all_handles_wf(hs: Seq<Handle>) -> bool {
    forall|i: int| 0 <= i < hs.len() ==> (#[trigger] hs[i]).wf()
}

/// One more candidate adds one to the counters that count it.
pub proof fn lemma_count_push(hs: Seq<Handle>, h: Handle, t: Tally)
    ensures
        count(hs.push(h), t) == count(hs, t) + one_if(holds(t, h)),
        count(hs, t) <= hs.len(),
    decreases hs.len(),
{
    assert(hs.push(h).drop_last() =~= hs);
    if hs.len() > 0 {
        lemma_count_push(hs.drop_last(), hs.last(), t);
    }
}

/// No counter counts more candidates than there are.
pub proof fn lemma_count_le(hs: Seq<Handle>, t: Tally)
    ensures
        count(hs, t) <= hs.len(),
    decreases hs.len(),
{
    if hs.len() > 0 {
        lemma_count_le(hs.drop_last(), t);
    }
}

/// Counting over two candidate sets one after the other adds up.
pub proof fn lemma_count_concat(a: Seq<Handle>, b: Seq<Handle>, t: Tally)
    ensures
        count(a + b, t) == count(a, t) + count(b, t),
    decreases b.len(),
{
    if b.len() == 0 {
        assert(a + b =~= a);
    } else {
        lemma_count_concat(a, b.drop_last(), t);
        assert((a + b).drop_last() =~= a + b.drop_last());
    }
}

/// Which outcomes each aggregate counter covers, for one candidate.
proof fn lemma_outcome(h: Handle, pos: int, a: int, b: int)
    requires
        h.wf(),
        0 <= pos < 13,
        0 <= a < 34,
        0 <= b < 34,
    ensures
        ({
            let c = pair_color(h, pos, a, b);
            &&& holds(Tally::GG(pos, a, b), h) == (c == PairColor::GG)
            &&& holds(Tally::GY(pos, a, b), h) == (c == PairColor::GG || c == PairColor::GY)
            &&& holds(Tally::YG(pos, a, b), h) == (c == PairColor::GG || c == PairColor::YG)
            &&& holds(Tally::YY(a, b), h) == (c == PairColor::GG || c == PairColor::GY || c
                == PairColor::YG || c == PairColor::YY)
            &&& holds(Tally::G(pos, a), h) == (c == PairColor::GG || c == PairColor::GY || c
                == PairColor::GN)
            &&& holds(Tally::G(pos + 1, b), h) == (c == PairColor::GG || c == PairColor::YG || c
                == PairColor::NG)
            &&& holds(Tally::Y(a), h) == (c == PairColor::GG || c == PairColor::GY || c
                == PairColor::GN || c == PairColor::YG || c == PairColor::YY || c
                == PairColor::YN)
            &&& holds(Tally::Y(b), h) == (c == PairColor::GG || c == PairColor::YG || c
                == PairColor::NG || c == PairColor::GY || c == PairColor::YY || c
                == PairColor::NY)
        }),
{
    assert(h.pool@[a] == crate::handle::pool_of(h.hand@)[a]);
    assert(h.pool@[b] == crate::handle::pool_of(h.hand@)[b]);
    if h.hand@[pos] == a {
        assert(h.pool@[a]);
    }
    if h.hand@[pos + 1] == b {
        assert(h.pool@[b]);
    }
}

/// Every candidate falls under exactly one of the nine outcomes, and each
/// aggregate counter is the sum of the outcomes that it covers.
#[verifier::rlimit(30)]
pub proof fn lemma_partition(hs: Seq<Handle>, pos: int, a: int, b: int)
    requires
        all_handles_wf(hs),
        0 <= pos < 13,
        0 <= a < 34,
        0 <= b < 34,
    ensures
        ({
            let gg = count(hs, Tally::Cat(pos, a, b, PairColor::GG));
            let gy = count(hs, Tally::Cat(pos, a, b, PairColor::GY));
            let yg = count(hs, Tally::Cat(pos, a, b, PairColor::YG));
            let yy = count(hs, Tally::Cat(pos, a, b, PairColor::YY));
            let gn = count(hs, Tally::Cat(pos, a, b, PairColor::GN));
            let ng = count(hs, Tally::Cat(pos, a, b, PairColor::NG));
            let yn = count(hs, Tally::Cat(pos, a, b, PairColor::YN));
            let ny = count(hs, Tally::Cat(pos, a, b, PairColor::NY));
            let nn = count(hs, Tally::Cat(pos, a, b, PairColor::NN));
            &&& count(hs, Tally::GG(pos, a, b)) == gg
            &&& count(hs, Tally::GY(pos, a, b)) == gg + gy
            &&& count(hs, Tally::YG(pos, a, b)) == gg + yg
            &&& count(hs, Tally::YY(a, b)) == gg + gy + yg + yy
            &&& count(hs, Tally::G(pos, a)) == gg + gy + gn
            &&& count(hs, Tally::G(pos + 1, b)) == gg + yg + ng
            &&& count(hs, Tally::Y(a)) == gg + gy + gn + yg + yy + yn
            &&& count(hs, Tally::Y(b)) == gg + yg + ng + gy + yy + ny
            &&& hs.len() == gg + gy + yg + yy + gn + ng + yn + ny + nn
        }),
    decreases hs.len(),
{
    if hs.len() > 0 {
        let h = hs.last();
        let init = hs.drop_last();
        assert(h.wf());
        assert(all_handles_wf(init)) by {
            assert forall|i: int| 0 <= i < init.len() implies (#[trigger] init[i]).wf() by {
                assert(hs[i].wf());
            }
        }
        lemma_partition(init, pos, a, b);
        lemma_outcome(h, pos, a, b);
        let c = pair_color(h, pos, a, b);
        assert(holds(Tally::Cat(pos, a, b, PairColor::GG), h) == (c == PairColor::GG));
        assert(holds(Tally::Cat(pos, a, b, PairColor::GY), h) == (c == PairColor::GY));
        assert(holds(Tally::Cat(pos, a, b, PairColor::YG), h) == (c == PairColor::YG));
        assert(holds(Tally::Cat(pos, a, b, PairColor::YY), h) == (c == PairColor::YY));
        assert(holds(Tally::Cat(pos, a, b, PairColor::GN), h) == (c == PairColor::GN));
        assert(holds(Tally::Cat(pos, a, b, PairColor::NG), h) == (c == PairColor::NG));
        assert(holds(Tally::Cat(pos, a, b, PairColor::YN), h) == (c == PairColor::YN));
        assert(holds(Tally::Cat(pos, a, b, PairColor::NY), h) == (c == PairColor::NY));
        assert(holds(Tally::Cat(pos, a, b, PairColor::NN), h) == (c == PairColor::NN));
    }
}

/// Running tallies over a set of candidates.
pub struct MetaMap {
    /// Per position pair and pair of kinds: both kinds in place.
    pub gg: Vec<u32>,
    /// Per position pair and pair of kinds: the first kind in place, the
    /// second in the pool.
    pub gy: Vec<u32>,
    /// Per position pair and pair of kinds: the first kind in the pool, the
    /// second in place.
    pub yg: Vec<u32>,
    /// Per position and kind: the kind in place.
    pub g: Vec<u32>,
    /// Per pair of kinds: both in the pool. While candidates are registered
    /// only the cells with the lower kind first are kept.
    pub yy: Vec<u32>,
    /// Per kind: the kind in the pool.
    pub y: Vec<u32>,
    pub total: u32,
    /// The candidates registered so far.
    pub seen: Ghost<Seq<Handle>>,
}

/// A pair of adjacent positions and a pair of kinds.
pub open spec fn in_cell(pos: int, a: int, b: int) -> bool {
    0 <= pos < 13 && 0 <= a < 34 && 0 <= b < 34
}

/// The table holds, for every cell, the candidates with both kinds in place.
pub open spec fn gg_holds(table: Seq<u32>, hs: Seq<Handle>) -> bool {
    &&& table.len() == 13 * 34 * 34
    &&& forall|pos: int, a: int, b: int|
        in_cell(pos, a, b) ==> table[#[trigger] cell(pos, a, b)] == count(
            hs,
            Tally::GG(pos, a, b),
        )
}

/// The table holds, for every cell, the candidates with the first kind in
/// place and the second in the pool.
pub open spec fn gy_holds(table: Seq<u32>, hs: Seq<Handle>) -> bool {
    &&& table.len() == 13 * 34 * 34
    &&& forall|pos: int, a: int, b: int|
        in_cell(pos, a, b) ==> table[#[trigger] cell(pos, a, b)] == count(
            hs,
            Tally::GY(pos, a, b),
        )
}

/// The table holds, for every cell, the candidates with the first kind in
/// the pool and the second in place.
pub open spec fn yg_holds(table: Seq<u32>, hs: Seq<Handle>) -> bool {
    &&& table.len() == 13 * 34 * 34
    &&& forall|pos: int, a: int, b: int|
        in_cell(pos, a, b) ==> table[#[trigger] cell(pos, a, b)] == count(
            hs,
            Tally::YG(pos, a, b),
        )
}

/// The table holds, for every position and kind, the candidates with the
/// kind in place.
pub open spec fn g_holds(table: Seq<u32>, hs: Seq<Handle>) -> bool {
    &&& table.len() == 14 * 34
    &&& forall|pos: int, a: int|
        0 <= pos < 14 && 0 <= a < 34 ==> table[#[trigger] cell2(pos, a)] == count(
            hs,
            Tally::G(pos, a),
        )
}

/// The upper half of the table holds its counts; with `mirrored` the lower
/// half holds them too, and else it is blank.
pub open spec fn yy_holds(table: Seq<u32>, hs: Seq<Handle>, mirrored: bool) -> bool {
    &&& table.len() == 34 * 34
    &&& forall|a: int, b: int|
        0 <= a < 34 && 0 <= b < 34 ==> table[#[trigger] cell2(a, b)] == (if a <= b || mirrored {
            count(hs, Tally::YY(a, b))
        } else {
            0
        })
}

/// The table holds, for every kind, the candidates with the kind in the pool.
pub open spec fn y_holds(table: Seq<u32>, hs: Seq<Handle>) -> bool {
    &&& table.len() == 34
    &&& forall|a: int| 0 <= a < 34 ==> #[trigger] table[a] == count(hs, Tally::Y(a))
}

impl MetaMap {
    /// The tallies are those of the candidates seen, all of them well formed.
    pub open spec fn wf(&self, mirrored: bool) -> bool {
        &&& all_handles_wf(self.seen@)
        &&& self.total == self.seen@.len()
        &&& gg_holds(self.gg@, self.seen@)
        &&& gy_holds(self.gy@, self.seen@)
        &&& yg_holds(self.yg@, self.seen@)
        &&& g_holds(self.g@, self.seen@)
        &&& yy_holds(self.yy@, self.seen@, mirrored)
        &&& y_holds(self.y@, self.seen@)
    }
}

/// The index of the cell of position `pos` and kinds `a`, `b`.
pub fn cell_of(pos: usize, a: usize, b: usize) -> (index: usize)
    requires
        in_cell(pos as int, a as int, b as int),
    ensures
        index == cell(pos as int, a as int, b as int),
        index < 13 * 34 * 34,
{
    (pos * 34 + a) * 34 + b
}

/// The index of the cell of `a` and `b` in a table with rows of thirty-four.
pub fn cell2_of(a: usize, b: usize) -> (index: usize)
    requires
        a < 34,
        b < 34,
    ensures
        index == cell2(a as int, b as int),
{
    a * 34 + b
}

proof fn lemma_cells_apart(pos: int, a: int, b: int, other: int, c: int, d: int)
    requires
        0 <= a < 34,
        0 <= b < 34,
        0 <= c < 34,
        0 <= d < 34,
        cell(pos, a, b) == cell(other, c, d),
    ensures
        pos == other && a == c && b == d,
{
}

/// Different cells of a table with rows of thirty-four have different indices.
pub proof fn lemma_cells2_apart(a: int, b: int, c: int, d: int)
    requires
        0 <= b < 34,
        0 <= d < 34,
        cell2(a, b) == cell2(c, d),
    ensures
        a == c && b == d,
{
}

fn register_gg(table: &mut Vec<u32>, handle: &Handle, Ghost(hs): Ghost<Seq<Handle>>)
    requires
        gg_holds(old(table)@, hs),
        handle.valid_tiles(),
        hs.len() < u32::MAX,
    ensures
        gg_holds(final(table)@, hs.push(*handle)),
{
    let ghost h = *handle;
    for pos in 0..13usize
        invariant
            h == *handle,
            handle.valid_tiles(),
            hs.len() < u32::MAX,
            table@.len() == 13 * 34 * 34,
            forall|p: int, a: int, b: int|
                in_cell(p, a, b) ==> table@[#[trigger] cell(p, a, b)] == count(
                    hs,
                    Tally::GG(p, a, b),
                ) + one_if(p < pos && holds(Tally::GG(p, a, b), h)),
    {
        let first = handle.hand[pos] as usize;
        let second = handle.hand[pos + 1] as usize;
        let index = cell_of(pos, first, second);
        let ghost before = table@;
        proof {
            assert(before[cell(pos as int, first as int, second as int)] == count(
                hs,
                Tally::GG(pos as int, first as int, second as int),
            ));
            lemma_count_push(hs, h, Tally::GG(pos as int, first as int, second as int));
        }
        table[index] += 1;
        assert forall|p: int, a: int, b: int| in_cell(p, a, b) implies table@[#[trigger] cell(
            p,
            a,
            b,
        )] == count(hs, Tally::GG(p, a, b)) + one_if(p < pos + 1 && holds(Tally::GG(p, a, b), h)) by {
            assert(before[cell(p, a, b)] == count(hs, Tally::GG(p, a, b)) + one_if(
                p < pos && holds(Tally::GG(p, a, b), h),
            ));
            if cell(p, a, b) == index {
                lemma_cells_apart(p, a, b, pos as int, first as int, second as int);
            }
        }
    }
    assert forall|p: int, a: int, b: int| in_cell(p, a, b) implies table@[#[trigger] cell(p, a, b)]
        == count(hs.push(h), Tally::GG(p, a, b)) by {
        lemma_count_push(hs, h, Tally::GG(p, a, b));
    }
}

fn register_gy(table: &mut Vec<u32>, handle: &Handle, Ghost(hs): Ghost<Seq<Handle>>)
    requires
        gy_holds(old(table)@, hs),
        handle.valid_tiles(),
        hs.len() < u32::MAX,
    ensures
        gy_holds(final(table)@, hs.push(*handle)),
{
    let ghost h = *handle;
    for pos in 0..13usize
        invariant
            h == *handle,
            handle.valid_tiles(),
            hs.len() < u32::MAX,
            table@.len() == 13 * 34 * 34,
            forall|p: int, a: int, b: int|
                in_cell(p, a, b) ==> table@[#[trigger] cell(p, a, b)] == count(
                    hs,
                    Tally::GY(p, a, b),
                ) + one_if(p < pos && holds(Tally::GY(p, a, b), h)),
    {
        let first = handle.hand[pos] as usize;
        for second in 0..34usize
            invariant
                h == *handle,
                pos < 13,
                first == h.hand@[pos as int],
                first < 34,
                hs.len() < u32::MAX,
                table@.len() == 13 * 34 * 34,
                forall|p: int, a: int, b: int|
                    in_cell(p, a, b) ==> table@[#[trigger] cell(p, a, b)] == count(
                        hs,
                        Tally::GY(p, a, b),
                    ) + one_if(
                        (p < pos || (p == pos && b < second)) && holds(Tally::GY(p, a, b), h),
                    ),
        {
            if handle.pool[second] {
                let index = cell_of(pos, first, second);
                let ghost before = table@;
                proof {
                    assert(before[cell(pos as int, first as int, second as int)] == count(
                        hs,
                        Tally::GY(pos as int, first as int, second as int),
                    ));
                    lemma_count_push(hs, h, Tally::GY(pos as int, first as int, second as int));
                }
                table[index] += 1;
                assert forall|p: int, a: int, b: int| in_cell(p, a, b) implies table@[#[trigger] cell(
                    p,
                    a,
                    b,
                )] == count(hs, Tally::GY(p, a, b)) + one_if(
                    (p < pos || (p == pos && b < second + 1)) && holds(Tally::GY(p, a, b), h),
                ) by {
                    assert(before[cell(p, a, b)] == count(hs, Tally::GY(p, a, b)) + one_if(
                        (p < pos || (p == pos && b < second)) && holds(Tally::GY(p, a, b), h),
                    ));
                    if cell(p, a, b) == index {
                        lemma_cells_apart(p, a, b, pos as int, first as int, second as int);
                    }
                }
            }
        }
    }
    assert forall|p: int, a: int, b: int| in_cell(p, a, b) implies table@[#[trigger] cell(p, a, b)]
        == count(hs.push(h), Tally::GY(p, a, b)) by {
        lemma_count_push(hs, h, Tally::GY(p, a, b));
    }
}

fn register_yg(table: &mut Vec<u32>, handle: &Handle, Ghost(hs): Ghost<Seq<Handle>>)
    requires
        yg_holds(old(table)@, hs),
        handle.valid_tiles(),
        hs.len() < u32::MAX,
    ensures
        yg_holds(final(table)@, hs.push(*handle)),
{
    let ghost h = *handle;
    for pos in 0..13usize
        invariant
            h == *handle,
            handle.valid_tiles(),
            hs.len() < u32::MAX,
            table@.len() == 13 * 34 * 34,
            forall|p: int, a: int, b: int|
                in_cell(p, a, b) ==> table@[#[trigger] cell(p, a, b)] == count(
                    hs,
                    Tally::YG(p, a, b),
                ) + one_if(p < pos && holds(Tally::YG(p, a, b), h)),
    {
        let second = handle.hand[pos + 1] as usize;
        for first in 0..34usize
            invariant
                h == *handle,
                pos < 13,
                second == h.hand@[pos + 1],
                second < 34,
                hs.len() < u32::MAX,
                table@.len() == 13 * 34 * 34,
                forall|p: int, a: int, b: int|
                    in_cell(p, a, b) ==> table@[#[trigger] cell(p, a, b)] == count(
                        hs,
                        Tally::YG(p, a, b),
                    ) + one_if(
                        (p < pos || (p == pos && a < first)) && holds(Tally::YG(p, a, b), h),
                    ),
        {
            if handle.pool[first] {
                let index = cell_of(pos, first, second);
                let ghost before = table@;
                proof {
                    assert(before[cell(pos as int, first as int, second as int)] == count(
                        hs,
                        Tally::YG(pos as int, first as int, second as int),
                    ));
                    lemma_count_push(hs, h, Tally::YG(pos as int, first as int, second as int));
                }
                table[index] += 1;
                assert forall|p: int, a: int, b: int| in_cell(p, a, b) implies table@[#[trigger] cell(
                    p,
                    a,
                    b,
                )] == count(hs, Tally::YG(p, a, b)) + one_if(
                    (p < pos || (p == pos && a < first + 1)) && holds(Tally::YG(p, a, b), h),
                ) by {
                    assert(before[cell(p, a, b)] == count(hs, Tally::YG(p, a, b)) + one_if(
                        (p < pos || (p == pos && a < first)) && holds(Tally::YG(p, a, b), h),
                    ));
                    if cell(p, a, b) == index {
                        lemma_cells_apart(p, a, b, pos as int, first as int, second as int);
                    }
                }
            }
        }
    }
    assert forall|p: int, a: int, b: int| in_cell(p, a, b) implies table@[#[trigger] cell(p, a, b)]
        == count(hs.push(h), Tally::YG(p, a, b)) by {
        lemma_count_push(hs, h, Tally::YG(p, a, b));
    }
}

pub(crate) fn register_g(table: &mut Vec<u32>, handle: &Handle, Ghost(hs): Ghost<Seq<Handle>>)
    requires
        g_holds(old(table)@, hs),
        handle.valid_tiles(),
        hs.len() < u32::MAX,
    ensures
        g_holds(final(table)@, hs.push(*handle)),
{
    let ghost h = *handle;
    for pos in 0..14usize
        invariant
            h == *handle,
            handle.valid_tiles(),
            hs.len() < u32::MAX,
            table@.len() == 14 * 34,
            forall|p: int, a: int|
                0 <= p < 14 && 0 <= a < 34 ==> table@[#[trigger] cell2(p, a)] == count(
                    hs,
                    Tally::G(p, a),
                ) + one_if(p < pos && holds(Tally::G(p, a), h)),
    {
        let tile = handle.hand[pos] as usize;
        let index = cell2_of(pos, tile);
        let ghost before = table@;
        proof {
            assert(before[cell2(pos as int, tile as int)] == count(
                hs,
                Tally::G(pos as int, tile as int),
            ));
            lemma_count_push(hs, h, Tally::G(pos as int, tile as int));
        }
        table[index] += 1;
        assert forall|p: int, a: int| 0 <= p < 14 && 0 <= a < 34 implies table@[#[trigger] cell2(
            p,
            a,
        )] == count(hs, Tally::G(p, a)) + one_if(p < pos + 1 && holds(Tally::G(p, a), h)) by {
            assert(before[cell2(p, a)] == count(hs, Tally::G(p, a)) + one_if(
                p < pos && holds(Tally::G(p, a), h),
            ));
            if cell2(p, a) == index {
                lemma_cells2_apart(p, a, pos as int, tile as int);
            }
        }
    }
    assert forall|p: int, a: int| 0 <= p < 14 && 0 <= a < 34 implies table@[#[trigger] cell2(p, a)]
        == count(hs.push(h), Tally::G(p, a)) by {
        lemma_count_push(hs, h, Tally::G(p, a));
    }
}

fn register_yy(table: &mut Vec<u32>, handle: &Handle, Ghost(hs): Ghost<Seq<Handle>>)
    requires
        yy_holds(old(table)@, hs, false),
        hs.len() < u32::MAX,
    ensures
        yy_holds(final(table)@, hs.push(*handle), false),
{
    let ghost h = *handle;
    for first in 0..34usize
        invariant
            h == *handle,
            hs.len() < u32::MAX,
            table@.len() == 34 * 34,
            forall|a: int, b: int|
                0 <= a < 34 && 0 <= b < 34 ==> table@[#[trigger] cell2(a, b)] == (if a <= b {
                    count(hs, Tally::YY(a, b)) + one_if(a < first && holds(Tally::YY(a, b), h))
                } else {
                    0
                }),
    {
        for second in first..34usize
            invariant
                h == *handle,
                first < 34,
                hs.len() < u32::MAX,
                table@.len() == 34 * 34,
                forall|a: int, b: int|
                    0 <= a < 34 && 0 <= b < 34 ==> table@[#[trigger] cell2(a, b)] == (if a <= b {
                        count(hs, Tally::YY(a, b)) + one_if(
                            (a < first || (a == first && b < second)) && holds(
                                Tally::YY(a, b),
                                h,
                            ),
                        )
                    } else {
                        0
                    }),
        {
            if handle.pool[first] && handle.pool[second] {
                let index = cell2_of(first, second);
                let ghost before = table@;
                proof {
                    assert(before[cell2(first as int, second as int)] == count(
                        hs,
                        Tally::YY(first as int, second as int),
                    ));
                    lemma_count_push(hs, h, Tally::YY(first as int, second as int));
                }
                table[index] += 1;
                assert forall|a: int, b: int| 0 <= a < 34 && 0 <= b < 34 implies table@[#[trigger] cell2(
                    a,
                    b,
                )] == (if a <= b {
                    count(hs, Tally::YY(a, b)) + one_if(
                        (a < first || (a == first && b < second + 1)) && holds(Tally::YY(a, b), h),
                    )
                } else {
                    0
                }) by {
                    assert(before[cell2(a, b)] == (if a <= b {
                        count(hs, Tally::YY(a, b)) + one_if(
                            (a < first || (a == first && b < second)) && holds(
                                Tally::YY(a, b),
                                h,
                            ),
                        )
                    } else {
                        0
                    }));
                    if cell2(a, b) == index {
                        lemma_cells2_apart(a, b, first as int, second as int);
                    }
                }
            }
        }
    }
    assert forall|a: int, b: int| 0 <= a < 34 && 0 <= b < 34 implies table@[#[trigger] cell2(a, b)]
        == (if a <= b {
        count(hs.push(h), Tally::YY(a, b))
    } else {
        0
    }) by {
        lemma_count_push(hs, h, Tally::YY(a, b));
    }
}

pub(crate) fn register_y(table: &mut Vec<u32>, handle: &Handle, Ghost(hs): Ghost<Seq<Handle>>)
    requires
        y_holds(old(table)@, hs),
        hs.len() < u32::MAX,
    ensures
        y_holds(final(table)@, hs.push(*handle)),
{
    let ghost h = *handle;
    for tile in 0..34usize
        invariant
            h == *handle,
            hs.len() < u32::MAX,
            table@.len() == 34,
            forall|a: int|
                0 <= a < 34 ==> #[trigger] table@[a] == count(hs, Tally::Y(a)) + one_if(
                    a < tile && holds(Tally::Y(a), h),
                ),
    {
        if handle.pool[tile] {
            proof {
                lemma_count_push(hs, h, Tally::Y(tile as int));
            }
            table[tile] += 1;
        }
    }
    assert forall|a: int| 0 <= a < 34 implies #[trigger] table@[a] == count(
        hs.push(h),
        Tally::Y(a),
    ) by {
        lemma_count_push(hs, h, Tally::Y(a));
    }
}

/// One more well-formed candidate keeps all candidates well formed.
pub proof fn lemma_all_wf_push(hs: Seq<Handle>, h: Handle)
    requires
        all_handles_wf(hs),
        h.wf(),
    ensures
        all_handles_wf(hs.push(h)),
{
    assert forall|i: int| 0 <= i < hs.push(h).len() implies (#[trigger] hs.push(h)[i]).wf() by {
        if i < hs.len() {
            assert(hs[i].wf());
        }
    }
}

impl MetaMap {
    /// The tallies of no candidates.
    pub fn new() -> (map: MetaMap)
        ensures
            map.seen@ == Seq::<Handle>::empty(),
            map.wf(false),
    {
        MetaMap {
            gg: vec![0u32; 13 * 34 * 34],
            gy: vec![0u32; 13 * 34 * 34],
            yg: vec![0u32; 13 * 34 * 34],
            g: vec![0u32; 14 * 34],
            yy: vec![0u32; 34 * 34],
            y: vec![0u32; 34],
            total: 0,
            seen: Ghost(Seq::empty()),
        }
    }

    /// Counts one more candidate.
    pub fn register(self, handle: &Handle) -> (map: MetaMap)
        requires
            self.wf(false),
            handle.wf(),
            self.total < u32::MAX,
        ensures
            map.seen@ == self.seen@.push(*handle),
            map.wf(false),
    {
        let mut map = self;
        let ghost hs = map.seen@;
        register_gg(&mut map.gg, handle, Ghost(hs));
        register_gy(&mut map.gy, handle, Ghost(hs));
        register_yg(&mut map.yg, handle, Ghost(hs));
        register_g(&mut map.g, handle, Ghost(hs));
        register_yy(&mut map.yy, handle, Ghost(hs));
        register_y(&mut map.y, handle, Ghost(hs));
        map.total += 1;
        map.seen = Ghost(hs.push(*handle));
        proof {
            lemma_all_wf_push(hs, *handle);
        }
        map
    }

    /// Completes the table of pool pairs: every cell with the higher kind
    /// first takes the count of its mirror cell.
    pub fn flip_yy(self) -> (map: MetaMap)
        requires
            self.wf(false),
        ensures
            map.seen@ == self.seen@,
            map.wf(true),
    {
        let mut map = self;
        let ghost hs = map.seen@;
        for first in 0..34usize
            invariant
                map.seen@ == hs,
                map.gg == self.gg,
                map.gy == self.gy,
                map.yg == self.yg,
                map.g == self.g,
                map.y == self.y,
                map.total == self.total,
                self.wf(false),
                hs == self.seen@,
                map.yy@.len() == 34 * 34,
                forall|a: int, b: int|
                    0 <= a < 34 && 0 <= b < 34 ==> map.yy@[#[trigger] cell2(a, b)] == (if a <= b
                        || b < first {
                        count(hs, Tally::YY(a, b))
                    } else {
                        0
                    }),
        {
            for second in (first + 1)..34usize
                invariant
                    first < 34,
                    map.seen@ == hs,
                    map.gg == self.gg,
                    map.gy == self.gy,
                    map.yg == self.yg,
                    map.g == self.g,
                    map.y == self.y,
                    map.total == self.total,
                    self.wf(false),
                    hs == self.seen@,
                    map.yy@.len() == 34 * 34,
                    forall|a: int, b: int|
                        0 <= a < 34 && 0 <= b < 34 ==> map.yy@[#[trigger] cell2(a, b)] == (if a
                            <= b || b < first || (b == first && a < second) {
                            count(hs, Tally::YY(a, b))
                        } else {
                            0
                        }),
            {
                let from = cell2_of(first, second);
                let to = cell2_of(second, first);
                let ghost before = map.yy@;
                proof {
                    assert(before[cell2(first as int, second as int)] == count(
                        hs,
                        Tally::YY(first as int, second as int),
                    ));
                    lemma_yy_symmetric(hs, first as int, second as int);
                }
                let value = map.yy[from];
                map.yy[to] = value;
                assert forall|a: int, b: int| 0 <= a < 34 && 0 <= b < 34 implies map.yy@[#[trigger] cell2(
                    a,
                    b,
                )] == (if a <= b || b < first || (b == first && a < second + 1) {
                    count(hs, Tally::YY(a, b))
                } else {
                    0
                }) by {
                    assert(before[cell2(a, b)] == (if a <= b || b < first || (b == first && a
                        < second) {
                        count(hs, Tally::YY(a, b))
                    } else {
                        0
                    }));
                    if cell2(a, b) == to {
                        lemma_cells2_apart(a, b, second as int, first as int);
                    }
                }
            }
        }
        map
    }
}

/// Both orders of a pair of kinds count the same candidates.
pub proof fn lemma_yy_symmetric(hs: Seq<Handle>, a: int, b: int)
    ensures
        count(hs, Tally::YY(a, b)) == count(hs, Tally::YY(b, a)),
    decreases hs.len(),
{
    if hs.len() > 0 {
        lemma_yy_symmetric(hs.drop_last(), a, b);
    }
}

fn add_table(table: &mut Vec<u32>, other: &Vec<u32>)
    requires
        old(table)@.len() == other@.len(),
        forall|i: int| 0 <= i < other@.len() ==> #[trigger] old(table)@[i] + other@[i] <= u32::MAX,
    ensures
        final(table)@.len() == other@.len(),
        forall|i: int|
            0 <= i < other@.len() ==> #[trigger] final(table)@[i] == old(table)@[i] + other@[i],
{
    let n = other.len();
    let ghost before = table@;
    for i in 0..n
        invariant
            n == other@.len(),
            table@.len() == n,
            before.len() == n,
            forall|j: int| 0 <= j < n ==> #[trigger] before[j] + other@[j] <= u32::MAX,
            forall|j: int| 0 <= j < i ==> #[trigger] table@[j] == before[j] + other@[j],
            forall|j: int| i <= j < n ==> #[trigger] table@[j] == before[j],
    {
        assert(before[i as int] + other@[i as int] <= u32::MAX);
        assert(table@[i as int] == before[i as int]);
        table[i] += other[i];
    }
}

impl MetaMap {
    /// The tallies of the candidates of two maps taken together.
    pub fn add(self, other: MetaMap) -> (map: MetaMap)
        requires
            (self.wf(false) && other.wf(false)) || (self.wf(true) && other.wf(true)),
            self.total + other.total <= u32::MAX,
        ensures
            map.seen@ == self.seen@ + other.seen@,
            self.wf(false) && other.wf(false) ==> map.wf(false),
            self.wf(true) && other.wf(true) ==> map.wf(true),
    {
        let mut map = self;
        let ghost hs = map.seen@;
        let ghost more = other.seen@;
        proof {
            assert forall|p: int, a: int, b: int| in_cell(p, a, b) implies {
                &&& count(hs, Tally::GG(p, a, b)) <= hs.len()
                &&& count(more, Tally::GG(p, a, b)) <= more.len()
                &&& count(hs, Tally::GY(p, a, b)) <= hs.len()
                &&& count(more, Tally::GY(p, a, b)) <= more.len()
                &&& count(hs, Tally::YG(p, a, b)) <= hs.len()
                &&& count(more, Tally::YG(p, a, b)) <= more.len()
                &&& map.gg@[#[trigger] cell(p, a, b)] + other.gg@[cell(p, a, b)] <= u32::MAX
                &&& map.gy@[cell(p, a, b)] + other.gy@[cell(p, a, b)] <= u32::MAX
                &&& map.yg@[cell(p, a, b)] + other.yg@[cell(p, a, b)] <= u32::MAX
            } by {
                lemma_count_le(hs, Tally::GG(p, a, b));
                lemma_count_le(more, Tally::GG(p, a, b));
                lemma_count_le(hs, Tally::GY(p, a, b));
                lemma_count_le(more, Tally::GY(p, a, b));
                lemma_count_le(hs, Tally::YG(p, a, b));
                lemma_count_le(more, Tally::YG(p, a, b));
            }
            assert forall|i: int| 0 <= i < 13 * 34 * 34 implies map.gg@[i] + other.gg@[i]
                <= u32::MAX && map.gy@[i] + other.gy@[i] <= u32::MAX && map.yg@[i] + other.yg@[i]
                <= u32::MAX by {
                let b = i % 34;
                let a = (i / 34) % 34;
                let p = i / 34 / 34;
                assert(cell(p, a, b) == i);
            }
            assert forall|i: int| 0 <= i < 14 * 34 implies map.g@[i] + other.g@[i] <= u32::MAX by {
                let a = i % 34;
                let p = i / 34;
                assert(cell2(p, a) == i);
                lemma_count_le(hs, Tally::G(p, a));
                lemma_count_le(more, Tally::G(p, a));
            }
            assert forall|i: int| 0 <= i < 34 * 34 implies map.yy@[i] + other.yy@[i] <= u32::MAX by {
                let b = i % 34;
                let a = i / 34;
                assert(cell2(a, b) == i);
                lemma_count_le(hs, Tally::YY(a, b));
                lemma_count_le(more, Tally::YY(a, b));
            }
            assert forall|i: int| 0 <= i < 34 implies map.y@[i] + other.y@[i] <= u32::MAX by {
                lemma_count_le(hs, Tally::Y(i));
                lemma_count_le(more, Tally::Y(i));
            }
        }
        add_table(&mut map.gg, &other.gg);
        add_table(&mut map.gy, &other.gy);
        add_table(&mut map.yg, &other.yg);
        add_table(&mut map.g, &other.g);
        add_table(&mut map.yy, &other.yy);
        add_table(&mut map.y, &other.y);
        map.total += other.total;
        map.seen = Ghost(hs + more);
        proof {
            let all = hs + more;
            assert forall|i: int| 0 <= i < all.len() implies (#[trigger] all[i]).wf() by {
                if i < hs.len() {
                    assert(hs[i].wf());
                } else {
                    assert(more[i - hs.len()].wf());
                }
            }
            assert forall|p: int, a: int, b: int| in_cell(p, a, b) implies {
                &&& map.gg@[#[trigger] cell(p, a, b)] == count(all, Tally::GG(p, a, b))
                &&& map.gy@[cell(p, a, b)] == count(all, Tally::GY(p, a, b))
                &&& map.yg@[cell(p, a, b)] == count(all, Tally::YG(p, a, b))
            } by {
                lemma_count_concat(hs, more, Tally::GG(p, a, b));
                lemma_count_concat(hs, more, Tally::GY(p, a, b));
                lemma_count_concat(hs, more, Tally::YG(p, a, b));
            }
            assert forall|p: int, a: int| 0 <= p < 14 && 0 <= a < 34 implies map.g@[#[trigger] cell2(
                p,
                a,
            )] == count(all, Tally::G(p, a)) by {
                lemma_count_concat(hs, more, Tally::G(p, a));
            }
            assert forall|a: int, b: int| 0 <= a < 34 && 0 <= b < 34 implies count(
                all,
                Tally::YY(a, b),
            ) == count(hs, Tally::YY(a, b)) + count(more, Tally::YY(a, b)) by {
                lemma_count_concat(hs, more, Tally::YY(a, b));
            }
            assert forall|a: int| 0 <= a < 34 implies #[trigger] map.y@[a] == count(
                all,
                Tally::Y(a),
            ) by {
                lemma_count_concat(hs, more, Tally::Y(a));
            }
        }
        map
    }
}

/// The nine outcome counts of every cell.
pub type CatagoryMap = (Vec<[u32; 9]>, u32);

/// Every cell holds, for each of the nine outcomes, the number of
/// candidates that give it.
pub open spec fn categories_hold(map: Seq<[u32; 9]>, hs: Seq<Handle>) -> bool {
    &&& map.len() == 13 * 34 * 34
    &&& forall|pos: int, a: int, b: int, c: PairColor|
        in_cell(pos, a, b) ==> map[#[trigger] cell(pos, a, b)]@[#[trigger] c.index()] == count(
            hs,
            Tally::Cat(pos, a, b, c),
        )
}

/// The nine outcome counts of a cell add up to the number of candidates.
pub proof fn lemma_categories_total(
    map: Seq<[u32; 9]>,
    hs: Seq<Handle>,
    pos: int,
    a: int,
    b: int,
)
    requires
        categories_hold(map, hs),
        all_handles_wf(hs),
        in_cell(pos, a, b),
    ensures
        ({
            let counts = map[cell(pos, a, b)]@;
            counts[0] + counts[1] + counts[2] + counts[3] + counts[4] + counts[5] + counts[6]
                + counts[7] + counts[8] == hs.len()
        }),
{
    lemma_partition(hs, pos, a, b);
    let counts = map[cell(pos, a, b)]@;
    assert(counts[PairColor::GG.index()] == count(hs, Tally::Cat(pos, a, b, PairColor::GG)));
    assert(counts[PairColor::GY.index()] == count(hs, Tally::Cat(pos, a, b, PairColor::GY)));
    assert(counts[PairColor::YG.index()] == count(hs, Tally::Cat(pos, a, b, PairColor::YG)));
    assert(counts[PairColor::YY.index()] == count(hs, Tally::Cat(pos, a, b, PairColor::YY)));
    assert(counts[PairColor::GN.index()] == count(hs, Tally::Cat(pos, a, b, PairColor::GN)));
    assert(counts[PairColor::NG.index()] == count(hs, Tally::Cat(pos, a, b, PairColor::NG)));
    assert(counts[PairColor::YN.index()] == count(hs, Tally::Cat(pos, a, b, PairColor::YN)));
    assert(counts[PairColor::NY.index()] == count(hs, Tally::Cat(pos, a, b, PairColor::NY)));
    assert(counts[PairColor::NN.index()] == count(hs, Tally::Cat(pos, a, b, PairColor::NN)));
}

/// The outcome counts of one cell, from the tallies by inclusion and
/// exclusion.
fn cell_catagory(meta_map: &MetaMap, pos: usize, fst: usize, snd: usize) -> (counts: [u32; 9])
    requires
        meta_map.wf(true),
        in_cell(pos as int, fst as int, snd as int),
    ensures
        forall|c: PairColor|
            counts@[#[trigger] c.index()] == count(
                meta_map.seen@,
                Tally::Cat(pos as int, fst as int, snd as int, c),
            ),
{
    let ghost hs = meta_map.seen@;
    proof {
        lemma_partition(hs, pos as int, fst as int, snd as int);
        assert(meta_map.gg@[cell(pos as int, fst as int, snd as int)] == count(
            hs,
            Tally::GG(pos as int, fst as int, snd as int),
        ));
        assert(meta_map.gy@[cell(pos as int, fst as int, snd as int)] == count(
            hs,
            Tally::GY(pos as int, fst as int, snd as int),
        ));
        assert(meta_map.yg@[cell(pos as int, fst as int, snd as int)] == count(
            hs,
            Tally::YG(pos as int, fst as int, snd as int),
        ));
        assert(meta_map.g@[cell2(pos as int, fst as int)] == count(
            hs,
            Tally::G(pos as int, fst as int),
        ));
        assert(meta_map.g@[cell2(pos + 1, snd as int)] == count(hs, Tally::G(pos + 1, snd as int)));
        assert(meta_map.yy@[cell2(fst as int, snd as int)] == count(
            hs,
            Tally::YY(fst as int, snd as int),
        ));
        assert(meta_map.y@[fst as int] == count(hs, Tally::Y(fst as int)));
        assert(meta_map.y@[snd as int] == count(hs, Tally::Y(snd as int)));
    }
    let index = cell_of(pos, fst, snd);
    let gg = meta_map.gg[index];
    let gy = meta_map.gy[index];
    let yg = meta_map.yg[index];
    let yy = meta_map.yy[cell2_of(fst, snd)];
    let g_fst = meta_map.g[cell2_of(pos, fst)];
    let g_snd = meta_map.g[cell2_of(pos + 1, snd)];
    let y_fst = meta_map.y[fst];
    let y_snd = meta_map.y[snd];
    let mut counts = [0u32; 9];
    counts[0] = gg;
    counts[1] = gy - gg;
    counts[2] = yg - gg;
    counts[3] = yy - gy - (yg - gg);
    counts[4] = g_fst - gy;
    counts[5] = g_snd - yg;
    counts[6] = y_fst - yy - (g_fst - gy);
    counts[7] = y_snd - yy - (g_snd - yg);
    counts[8] = meta_map.total - y_fst - (y_snd - yy);
    assert forall|c: PairColor|
        counts@[#[trigger] c.index()] == count(
            hs,
            Tally::Cat(pos as int, fst as int, snd as int, c),
        ) by {
        match c {
            PairColor::GG => {},
            PairColor::GY => {},
            PairColor::YG => {},
            PairColor::YY => {},
            PairColor::GN => {},
            PairColor::NG => {},
            PairColor::YN => {},
            PairColor::NY => {},
            PairColor::NN => {},
        }
    }
    counts
}

/// The outcome counts of every cell, with the number of candidates.
pub fn mk_catagory(meta_map: MetaMap) -> (catagory: CatagoryMap)
    requires
        meta_map.wf(true),
    ensures
        categories_hold(catagory.0@, meta_map.seen@),
        catagory.1 == meta_map.seen@.len(),
{
    let ghost hs = meta_map.seen@;
    let mut map: Vec<[u32; 9]> = Vec::new();
    for pos in 0..13usize
        invariant
            meta_map.wf(true),
            hs == meta_map.seen@,
            map@.len() == pos * 34 * 34,
            forall|p: int, a: int, b: int, c: PairColor|
                in_cell(p, a, b) && p < pos ==> map@[#[trigger] cell(p, a, b)]@[#[trigger] c.index()]
                    == count(hs, Tally::Cat(p, a, b, c)),
    {
        for fst in 0..34usize
            invariant
                pos < 13,
                meta_map.wf(true),
                hs == meta_map.seen@,
                map@.len() == (pos * 34 + fst) * 34,
                forall|p: int, a: int, b: int, c: PairColor|
                    in_cell(p, a, b) && (p < pos || (p == pos && a < fst)) ==> map@[#[trigger] cell(
                        p,
                        a,
                        b,
                    )]@[#[trigger] c.index()] == count(hs, Tally::Cat(p, a, b, c)),
        {
            for snd in 0..34usize
                invariant
                    pos < 13,
                    fst < 34,
                    meta_map.wf(true),
                    hs == meta_map.seen@,
                    map@.len() == cell(pos as int, fst as int, snd as int),
                    forall|p: int, a: int, b: int, c: PairColor|
                        in_cell(p, a, b) && cell(p, a, b) < cell(
                            pos as int,
                            fst as int,
                            snd as int,
                        ) ==> map@[#[trigger] cell(p, a, b)]@[#[trigger] c.index()] == count(
                            hs,
                            Tally::Cat(p, a, b, c),
                        ),
            {
                let counts = cell_catagory(&meta_map, pos, fst, snd);
                let ghost before = map@;
                map.push(counts);
                assert forall|p: int, a: int, b: int, c: PairColor|
                    in_cell(p, a, b) && cell(p, a, b) < cell(
                        pos as int,
                        fst as int,
                        snd + 1,
                    ) implies map@[#[trigger] cell(p, a, b)]@[#[trigger] c.index()] == count(
                    hs,
                    Tally::Cat(p, a, b, c),
                ) by {
                    if cell(p, a, b) == cell(pos as int, fst as int, snd as int) {
                        lemma_cells_apart(p, a, b, pos as int, fst as int, snd as int);
                    } else {
                        assert(map@[cell(p, a, b)] == before[cell(p, a, b)]);
                    }
                }
            }
        }
    }
    (map, meta_map.total)
}

/// The outcome counts of every cell over the candidates `hs`.
pub fn mahd_fast2_prepare(hs: &Vec<Handle>) -> (catagory: CatagoryMap)
    requires
        all_handles_wf(hs@),
        hs@.len() <= u32::MAX,
    ensures
        categories_hold(catagory.0@, hs@),
        catagory.1 == hs@.len(),
{
    let mut meta_map = MetaMap::new();
    let n = hs.len();
    assert(meta_map.seen@ =~= hs@.subrange(0, 0));
    for i in 0..n
        invariant
            n == hs@.len(),
            n <= u32::MAX,
            all_handles_wf(hs@),
            meta_map.wf(false),
            meta_map.seen@ == hs@.subrange(0, i as int),
    {
        meta_map = meta_map.register(&hs[i]);
        assert(meta_map.seen@ =~= hs@.subrange(0, i + 1));
    }
    assert(hs@.subrange(0, n as int) =~= hs@);
    let meta_map = meta_map.flip_yy();
    mk_catagory(meta_map)
}

/// The key of the feedback that a guess gets against a candidate.
pub open spec fn feedback_key(guess: Handle, candidate: Handle) -> u32 {
    index_of(feedback(guess.hand@, candidate.hand@)) as u32
}

/// Whether the guess gets a different feedback against each candidate, so
/// that its feedback tells which candidate is the secret.
#[verifier::opaque]
pub open spec fn separates(guess: Handle, hs: Seq<Handle>) -> bool {
    forall|i: int, j: int|
        0 <= i < j < hs.len() ==> feedback(guess.hand@, hs[i].hand@) != feedback(
            guess.hand@,
            hs[j].hand@,
        )
}

/// Feedbacks differ exactly if their keys differ.
pub proof fn lemma_feedback_key(guess: Handle, a: Handle, b: Handle)
    ensures
        feedback_key(guess, a) == index_of(feedback(guess.hand@, a.hand@)),
        (feedback_key(guess, a) == feedback_key(guess, b)) == (feedback(guess.hand@, a.hand@)
            == feedback(guess.hand@, b.hand@)),
{
    let fa = feedback(guess.hand@, a.hand@);
    let fb = feedback(guess.hand@, b.hand@);
    crate::handle::lemma_index_bound(fa);
    crate::handle::lemma_index_bound(fb);
    reveal_with_fuel(crate::handle::pow3, 15);
    if index_of(fa) == index_of(fb) {
        lemma_index_injective(fa, fb);
    }
}

/// Whether `guess` tells all of `handles` apart.
fn tells_apart(guess: &Handle, handles: &Vec<Handle>) -> (apart: bool)
    ensures
        apart == separates(*guess, handles@),
{
    broadcast use vstd::std_specs::hash::group_hash_axioms;


    let mut acc: HashSet<u32> = HashSet::new();
    let n = handles.len();
    for j in 0..n
        invariant
            n == handles@.len(),
            forall|v: u32|
                acc@.contains(v) <==> exists|x: int|
                    0 <= x < j && #[trigger] feedback_key(*guess, handles@[x]) == v,
            forall|x: int, y: int|
                0 <= x < y < j ==> feedback(guess.hand@, handles@[x].hand@) != feedback(
                    guess.hand@,
                    handles@[y].hand@,
                ),
    {
        let key = &handles[j];
        let result = key.get_color_result(guess);
        let index = color_result_to_index(&result);
        let ghost before = acc@;
        proof {
            lemma_feedback_key(*guess, *key, *key);
            assert(index == feedback_key(*guess, handles@[j as int]));
        }
        if !acc.insert(index) {
            proof {
                reveal(separates);
                let x = choose|x: int|
                    0 <= x < j && #[trigger] feedback_key(*guess, handles@[x]) == index;
                lemma_feedback_key(*guess, handles@[x], handles@[j as int]);
            }
            return false;
        }
        proof {
            assert forall|x: int, y: int| 0 <= x < y < j + 1 implies feedback(
                guess.hand@,
                handles@[x].hand@,
            ) != feedback(guess.hand@, handles@[y].hand@) by {
                if y == j {
                    lemma_feedback_key(*guess, handles@[x], handles@[j as int]);
                    assert(!before.contains(feedback_key(*guess, handles@[x])) || feedback_key(
                        *guess,
                        handles@[x],
                    ) != index);
                }
            }
            assert forall|v: u32|
                acc@.contains(v) <==> exists|x: int|
                    0 <= x < j + 1 && #[trigger] feedback_key(*guess, handles@[x]) == v by {
                if v == index {
                    assert(feedback_key(*guess, handles@[j as int]) == v);
                } else {
                    if before.contains(v) {
                        let x = choose|x: int|
                            0 <= x < j && #[trigger] feedback_key(*guess, handles@[x]) == v;
                        assert(0 <= x < j + 1 && feedback_key(*guess, handles@[x]) == v);
                    }
                }
            }
        }
    }
    proof {
        reveal(separates);
    }
    true
}

/// The first candidate that, taken as the guess, tells all candidates
/// apart; `None` if there is none.
pub fn mahd_killer_inner(handles: &Vec<Handle>) -> (killer: Option<Handle>)
    ensures
        match killer {
            Some(guess) => exists|k: int|
                {
                    &&& 0 <= k < handles@.len()
                    &&& #[trigger] handles@[k] == guess
                    &&& separates(guess, handles@)
                    &&& forall|m: int| 0 <= m < k ==> !separates(#[trigger] handles@[m], handles@)
                },
            None => forall|m: int|
                0 <= m < handles@.len() ==> !separates(#[trigger] handles@[m], handles@),
        },
{
    let n = handles.len();
    for k in 0..n
        invariant
            n == handles@.len(),
            forall|m: int| 0 <= m < k ==> !separates(#[trigger] handles@[m], handles@),
    {
        let guess = &handles[k];
        if tells_apart(guess, handles) {
            return Some(*guess);
        }
    }
    None
}

/// How often `key` occurs among the keys.
pub open spec fn occurrences(keys: Seq<u32>, key: u32) -> nat
    decreases keys.len(),
{
    if keys.len() == 0 {
        0
    } else {
        occurrences(keys.drop_last(), key) + one_if(keys.last() == key)
    }
}

/// The distinct keys in the order in which they first occur.
pub open spec fn first_seen(keys: Seq<u32>) -> Seq<u32>
    decreases keys.len(),
{
    if keys.len() == 0 {
        Seq::empty()
    } else if first_seen(keys.drop_last()).contains(keys.last()) {
        first_seen(keys.drop_last())
    } else {
        first_seen(keys.drop_last()).push(keys.last())
    }
}

/// The sizes of the classes of equal keys, in the order in which the keys
/// first occur.
pub open spec fn class_sizes(keys: Seq<u32>) -> Seq<nat> {
    first_seen(keys).map_values(|key: u32| occurrences(keys, key))
}

/// The keys of the feedbacks that a guess gets against the candidates.
pub open spec fn feedback_keys(guess: Handle, hs: Seq<Handle>) -> Seq<u32> {
    hs.map_values(|h: Handle| feedback_key(guess, h))
}

/// The sum of the sizes.
pub open spec fn sum(sizes: Seq<nat>) -> nat
    decreases sizes.len(),
{
    if sizes.len() == 0 {
        0
    } else {
        sum(sizes.drop_last()) + sizes.last()
    }
}

/// A key occurs among the first-seen keys exactly if it occurs at all, and
/// no key occurs more often than there are keys.
pub proof fn lemma_first_seen(keys: Seq<u32>, key: u32)
    ensures
        first_seen(keys).contains(key) <==> occurrences(keys, key) > 0,
        occurrences(keys, key) <= keys.len(),
        first_seen(keys).no_duplicates(),
        first_seen(keys).len() <= keys.len(),
    decreases keys.len(),
{
    if keys.len() > 0 {
        let init = keys.drop_last();
        lemma_first_seen(init, key);
        lemma_first_seen(init, keys.last());
        let prev = first_seen(init);
        if !prev.contains(keys.last()) {
            let next = prev.push(keys.last());
            assert(next[prev.len() as int] == keys.last());
            if prev.contains(key) {
                let i = choose|i: int| 0 <= i < prev.len() && prev[i] == key;
                assert(next[i] == key);
            }
            assert forall|i: int, j: int| 0 <= i < j < next.len() implies next[i] != next[j] by {
                if j == prev.len() {
                    assert(prev[i] == next[i]);
                }
            }
        }
    }
}

/// One more key either opens a class of size one or adds one to the class
/// of the place where the key was first seen.
pub proof fn lemma_class_sizes_push(keys: Seq<u32>, key: u32)
    ensures
        !first_seen(keys).contains(key) ==> class_sizes(keys.push(key)) == class_sizes(keys).push(
            1,
        ),
        forall|p: int|
            0 <= p < first_seen(keys).len() && first_seen(keys)[p] == key ==> class_sizes(
                keys.push(key),
            ) == class_sizes(keys).update(p, class_sizes(keys)[p] + 1),
{
    let more = keys.push(key);
    assert(more.drop_last() =~= keys);
    let fs = first_seen(keys);
    lemma_first_seen(keys, key);
    if !fs.contains(key) {
        assert(class_sizes(more) =~= class_sizes(keys).push(1));
    }
    assert forall|p: int| 0 <= p < fs.len() && fs[p] == key implies class_sizes(more)
        == class_sizes(keys).update(p, class_sizes(keys)[p] + 1) by {
        assert(fs.contains(key));
        assert forall|q: int| 0 <= q < fs.len() implies class_sizes(more)[q] == class_sizes(
            keys,
        ).update(p, class_sizes(keys)[p] + 1)[q] by {
            if q != p {
                assert(fs[q] != fs[p]);
            }
        }
        assert(class_sizes(more) =~= class_sizes(keys).update(p, class_sizes(keys)[p] + 1));
    }
}

proof fn lemma_sum_update(sizes: Seq<nat>, p: int, v: nat)
    requires
        0 <= p < sizes.len(),
    ensures
        sum(sizes.update(p, v)) == sum(sizes) - sizes[p] + v,
    decreases sizes.len(),
{
    if p == sizes.len() - 1 {
        assert(sizes.update(p, v).drop_last() =~= sizes.drop_last());
    } else {
        lemma_sum_update(sizes.drop_last(), p, v);
        assert(sizes.update(p, v).drop_last() =~= sizes.drop_last().update(p, v));
    }
}

/// The classes are not empty, and together they hold every key once.
pub proof fn lemma_class_sizes(keys: Seq<u32>)
    ensures
        sum(class_sizes(keys)) == keys.len(),
        class_sizes(keys).len() <= keys.len(),
        forall|p: int| 0 <= p < class_sizes(keys).len() ==> 1 <= #[trigger] class_sizes(keys)[p],
    decreases keys.len(),
{
    if keys.len() == 0 {
    } else {
        let init = keys.drop_last();
        let key = keys.last();
        assert(keys =~= init.push(key));
        lemma_class_sizes(init);
        lemma_class_sizes_push(init, key);
        lemma_first_seen(init, key);
        let fs = first_seen(init);
        if fs.contains(key) {
            let p = choose|p: int| 0 <= p < fs.len() && fs[p] == key;
            lemma_sum_update(class_sizes(init), p, class_sizes(init)[p] + 1);
        } else {
            assert(class_sizes(init).push(1).drop_last() =~= class_sizes(init));
        }
    }
}

/// The sizes as natural numbers.
pub open spec fn as_nats(sizes: Seq<u32>) -> Seq<nat> {
    sizes.map_values(|size: u32| size as nat)
}

/// The map gives every first-seen key its place, and holds no other key.
pub open spec fn places_of(places: Map<u32, usize>, fs: Seq<u32>) -> bool {
    &&& forall|v: u32| #[trigger] places.contains_key(v) <==> fs.contains(v)
    &&& forall|p: int| 0 <= p < fs.len() ==> places[#[trigger] fs[p]] == p
}

/// The sizes of the classes into which the feedback of `guess` splits the
/// candidates, in the order in which the feedbacks first occur.
pub fn color_classes(handles: &Vec<Handle>, guess: &Handle) -> (sizes: Vec<u32>)
    requires
        handles@.len() <= u32::MAX,
    ensures
        as_nats(sizes@) == class_sizes(feedback_keys(*guess, handles@)),
{
    broadcast use vstd::std_specs::hash::group_hash_axioms;

    let ghost keys = feedback_keys(*guess, handles@);
    let mut places: HashMap<u32, usize> = HashMap::new();
    let mut sizes: Vec<u32> = Vec::new();
    let n = handles.len();
    assert(as_nats(sizes@) =~= class_sizes(keys.subrange(0, 0)));
    for j in 0..n
        invariant
            n == handles@.len(),
            n <= u32::MAX,
            keys == feedback_keys(*guess, handles@),
            as_nats(sizes@) == class_sizes(keys.subrange(0, j as int)),
            places_of(places@, first_seen(keys.subrange(0, j as int))),
    {
        let candidate = &handles[j];
        let index = color_result_to_index(&candidate.get_color_result(guess));
        let ghost seen = keys.subrange(0, j as int);
        let ghost fs = first_seen(seen);
        let ghost before = sizes@;
        let ghost old_places = places@;
        proof {
            lemma_feedback_key(*guess, *candidate, *candidate);
            assert(index == keys[j as int]);
            assert(keys.subrange(0, j + 1) =~= seen.push(index));
            lemma_class_sizes_push(seen, index);
            lemma_first_seen(seen, index);
            assert(seen.push(index).drop_last() =~= seen);
            assert(as_nats(before).len() == fs.len());
        }
        let place = match places.get(&index) {
            Some(place) => Some(*place),
            None => None,
        };
        match place {
            Some(p) => {
                proof {
                    assert(old_places.contains_key(index));
                    assert(fs.contains(index));
                    let q = choose|q: int| 0 <= q < fs.len() && fs[q] == index;
                    assert(old_places[fs[q]] == q);
                    assert(p == q);
                    assert(as_nats(before)[p as int] == class_sizes(seen)[p as int]);
                    assert(class_sizes(seen)[p as int] == occurrences(seen, index));
                    assert(first_seen(seen.push(index)) == fs);
                }
                sizes[p] += 1;
                proof {
                    assert(as_nats(sizes@) =~= as_nats(before).update(
                        p as int,
                        as_nats(before)[p as int] + 1,
                    ));
                }
            },
            None => {
                let fresh = sizes.len();
                places.insert(index, fresh);
                sizes.push(1);
                proof {
                    assert(!old_places.contains_key(index));
                    assert(!fs.contains(index));
                    assert(as_nats(sizes@) =~= as_nats(before).push(1));
                    let next = fs.push(index);
                    assert(first_seen(seen.push(index)) == next);
                    assert forall|v: u32| #[trigger] places@.contains_key(v) <==> next.contains(
                        v,
                    ) by {
                        if v == index {
                            assert(next[fs.len() as int] == v);
                        } else {
                            assert(old_places.contains_key(v) <==> fs.contains(v));
                            if fs.contains(v) {
                                let i = choose|i: int| 0 <= i < fs.len() && fs[i] == v;
                                assert(next[i] == v);
                            }
                            if next.contains(v) {
                                let i = choose|i: int| 0 <= i < next.len() && next[i] == v;
                                assert(fs[i] == v);
                            }
                        }
                    }
                    assert forall|p: int| 0 <= p < next.len() implies places@[#[trigger] next[p]]
                        == p by {
                        if p < fs.len() {
                            assert(fs[p] == next[p]);
                            assert(fs.contains(fs[p]));
                            assert(old_places[fs[p]] == p);
                        }
                    }
                }
            },
        }
    }
    assert(keys.subrange(0, n as int) =~= keys);
    sizes
}

/// For each guess of `handles_all`, the sizes of the classes into which its
/// feedback splits the candidates `handles`.
pub fn mahd_killer_prepare(handles: &Vec<Handle>, handles_all: &Vec<Handle>) -> (classes: Vec<
    Vec<u32>,
>)
    requires
        handles@.len() <= u32::MAX,
    ensures
        classes@.len() == handles_all@.len(),
        forall|g: int|
            0 <= g < handles_all@.len() ==> as_nats((#[trigger] classes@[g])@) == class_sizes(
                feedback_keys(handles_all@[g], handles@),
            ),
{
    let mut classes: Vec<Vec<u32>> = Vec::new();
    let n = handles_all.len();
    for g in 0..n
        invariant
            n == handles_all@.len(),
            handles@.len() <= u32::MAX,
            classes@.len() == g,
            forall|x: int|
                0 <= x < g ==> as_nats((#[trigger] classes@[x])@) == class_sizes(
                    feedback_keys(handles_all@[x], handles@),
                ),
    {
        let sizes = color_classes(handles, &handles_all[g]);
        classes.push(sizes);
    }
    classes
}

/// A guess with its score. The score is held as an integer that orders as
/// the entropy does.
#[derive(Debug, Clone, Copy)]
pub struct HandleEntropy {
    pub hand: Hand,
    pub entropy: u64,
}

/// The scores do not fall along the sequence.
pub open spec fn ascending(hes: Seq<HandleEntropy>) -> bool {
    forall|i: int, j: int| 0 <= i < j < hes.len() ==> hes[i].entropy <= hes[j].entropy
}

/// `kept` and `rest` together are the items of `all`, and no item of `rest`
/// scores higher than one of `kept`.
pub open spec fn splits(
    kept: Seq<HandleEntropy>,
    rest: Seq<HandleEntropy>,
    all: Seq<HandleEntropy>,
) -> bool {
    &&& kept.to_multiset().add(rest.to_multiset()) == all.to_multiset()
    &&& forall|i: int, j: int|
        0 <= i < rest.len() && 0 <= j < kept.len() ==> rest[i].entropy <= kept[j].entropy
}

/// `kept` holds `size` items of `all` with the highest scores, or all items
/// if there are fewer, lowest score first.
pub open spec fn top_n(kept: Seq<HandleEntropy>, all: Seq<HandleEntropy>, size: nat) -> bool {
    &&& kept.len() == vstd::math::min(size as int, all.len() as int)
    &&& ascending(kept)
    &&& exists|rest: Seq<HandleEntropy>| splits(kept, rest, all)
}

/// An item of a list whose items are among those of another list and one
/// more is an item of that list or the one more.
proof fn lemma_member(
    inner: Seq<HandleEntropy>,
    outer: Seq<HandleEntropy>,
    extra: HandleEntropy,
    j: int,
)
    requires
        0 <= j < inner.len(),
        inner.to_multiset().subset_of(outer.to_multiset().insert(extra)),
    ensures
        inner[j] == extra || outer.contains(inner[j]),
{
    broadcast use vstd::multiset::group_multiset_axioms;

    inner.to_multiset_ensures();
    outer.to_multiset_ensures();
    assert(inner.contains(inner[j]));
    assert(inner.to_multiset().count(inner[j]) > 0);
    assert(outer.to_multiset().insert(extra).count(inner[j]) > 0);
}

/// Nothing kept and nothing left out are the items of no list.
proof fn lemma_splits_nothing()
    ensures
        splits(Seq::empty(), Seq::empty(), Seq::empty()),
{
    broadcast use vstd::multiset::group_multiset_axioms;

    let none = Seq::<HandleEntropy>::empty();
    none.to_multiset_ensures();
    assert(none.to_multiset().add(none.to_multiset()) =~= none.to_multiset());
}

/// One more item kept, while nothing is left out yet.
proof fn lemma_splits_grow(
    before: Seq<HandleEntropy>,
    pushed: Seq<HandleEntropy>,
    seen: Seq<HandleEntropy>,
    item: HandleEntropy,
)
    requires
        splits(before, Seq::empty(), seen),
        pushed.to_multiset() == before.to_multiset().insert(item),
    ensures
        splits(pushed, Seq::empty(), seen.push(item)),
{
    broadcast use vstd::multiset::group_multiset_axioms;

    let none = Seq::<HandleEntropy>::empty();
    vstd::seq_lib::to_multiset_build(seen, item);
    assert(pushed.to_multiset().add(none.to_multiset()) =~= seen.push(item).to_multiset());
}

/// One more item seen, and the lowest of the kept ones and it left out.
proof fn lemma_splits_replace(
    before: Seq<HandleEntropy>,
    pushed: Seq<HandleEntropy>,
    after: Seq<HandleEntropy>,
    rest: Seq<HandleEntropy>,
    seen: Seq<HandleEntropy>,
    item: HandleEntropy,
    low: HandleEntropy,
)
    requires
        splits(before, rest, seen),
        pushed.to_multiset() == before.to_multiset().insert(item),
        after.to_multiset() == pushed.to_multiset().remove(low),
        pushed.len() == before.len() + 1,
        after.len() == before.len(),
        low == pushed[0],
        forall|j: int| 0 <= j < pushed.len() ==> low.entropy <= pushed[j].entropy,
    ensures
        splits(after, rest.push(low), seen.push(item)),
{
    broadcast use vstd::multiset::group_multiset_axioms;

    pushed.to_multiset_ensures();
    before.to_multiset_ensures();
    after.to_multiset_ensures();
    assert(pushed.contains(low));
    vstd::seq_lib::to_multiset_build(rest, low);
    vstd::seq_lib::to_multiset_build(seen, item);
    assert(after.to_multiset().add(rest.push(low).to_multiset()) =~= seen.push(
        item,
    ).to_multiset());
    assert forall|x: int, j: int|
        0 <= x < rest.push(low).len() && 0 <= j < after.len() implies rest.push(low)[x].entropy
        <= after[j].entropy by {
        let k = after[j];
        assert(after.contains(k));
        assert(after.to_multiset().count(k) > 0);
        assert(pushed.to_multiset().count(k) > 0);
        assert(pushed.contains(k));
        let y = choose|y: int| 0 <= y < pushed.len() && pushed[y] == k;
        assert(low.entropy <= pushed[y].entropy);
        if x < rest.len() {
            if before.contains(k) {
                let z = choose|z: int| 0 <= z < before.len() && before[z] == k;
                assert(rest[x].entropy <= before[z].entropy);
            } else {
                assert(before.to_multiset().count(k) == 0);
                assert(k == item);
                assert(pushed.to_multiset().count(k) == 1);
                if low == k {
                    assert(after.to_multiset().count(k) == 0);
                }
                assert(low != k);
                assert(pushed.to_multiset().count(low) > 0);
                assert(before.to_multiset().count(low) > 0);
                assert(before.contains(low));
                let z = choose|z: int| 0 <= z < before.len() && before[z] == low;
                assert(rest[x].entropy <= before[z].entropy);
            }
        }
    }
}

/// The items of a heap, lowest score first.
fn drain(heap: Vec<HandleEntropy>) -> (kept: Vec<HandleEntropy>)
    requires
        is_heap(heap@),
    ensures
        ascending(kept@),
        kept@.len() == heap@.len(),
        kept@.to_multiset() == heap@.to_multiset(),
{
    let mut heap = heap;
    let ghost best = heap@;
    let mut kept: Vec<HandleEntropy> = Vec::new();
    proof {
        lemma_drained_none(best);
    }
    while heap.len() > 0
        invariant
            is_heap(heap@),
            ascending(kept@),
            kept@.len() + heap@.len() == best.len(),
            kept@.to_multiset().add(heap@.to_multiset()) == best.to_multiset(),
            forall|x: int, j: int|
                0 <= x < kept@.len() && 0 <= j < heap@.len() ==> kept@[x].entropy
                    <= heap@[j].entropy,
        decreases heap@.len(),
    {
        let ghost before = heap@;
        let ghost sorted = kept@;
        let low = heap_pop(&mut heap);
        kept.push(low);
        proof {
            lemma_drained_one(sorted, before, heap@, low, best);
        }
    }
    proof {
        lemma_drained_all(kept@, heap@, best);
    }
    kept
}

proof fn lemma_drained_none(best: Seq<HandleEntropy>)
    ensures
        Seq::<HandleEntropy>::empty().to_multiset().add(best.to_multiset()) == best.to_multiset(),
{
    broadcast use vstd::multiset::group_multiset_axioms;

    let none = Seq::<HandleEntropy>::empty();
    none.to_multiset_ensures();
    assert(none.to_multiset().add(best.to_multiset()) =~= best.to_multiset());
}

proof fn lemma_drained_all(
    kept: Seq<HandleEntropy>,
    heap: Seq<HandleEntropy>,
    best: Seq<HandleEntropy>,
)
    requires
        heap.len() == 0,
        kept.to_multiset().add(heap.to_multiset()) == best.to_multiset(),
    ensures
        kept.to_multiset() == best.to_multiset(),
{
    broadcast use vstd::multiset::group_multiset_axioms;

    heap.to_multiset_ensures();
    assert(kept.to_multiset() =~= best.to_multiset());
}

/// The lowest item of the heap goes behind the sorted ones.
proof fn lemma_drained_one(
    sorted: Seq<HandleEntropy>,
    before: Seq<HandleEntropy>,
    after: Seq<HandleEntropy>,
    low: HandleEntropy,
    best: Seq<HandleEntropy>,
)
    requires
        ascending(sorted),
        before.len() > 0,
        low == before[0],
        forall|j: int| 0 <= j < before.len() ==> low.entropy <= before[j].entropy,
        after.to_multiset() == before.to_multiset().remove(low),
        sorted.to_multiset().add(before.to_multiset()) == best.to_multiset(),
        forall|x: int, j: int|
            0 <= x < sorted.len() && 0 <= j < before.len() ==> sorted[x].entropy
                <= before[j].entropy,
    ensures
        ascending(sorted.push(low)),
        sorted.push(low).to_multiset().add(after.to_multiset()) == best.to_multiset(),
        forall|x: int, j: int|
            0 <= x < sorted.push(low).len() && 0 <= j < after.len() ==> sorted.push(low)[x].entropy
                <= after[j].entropy,
{
    broadcast use vstd::multiset::group_multiset_axioms;

    let more = sorted.push(low);
    vstd::seq_lib::to_multiset_build(sorted, low);
    before.to_multiset_ensures();
    after.to_multiset_ensures();
    assert(before.contains(low));
    assert(more.to_multiset().add(after.to_multiset()) =~= best.to_multiset());
    assert forall|x: int, j: int| 0 <= x < more.len() && 0 <= j < after.len() implies more[x].entropy
        <= after[j].entropy by {
        let k = after[j];
        assert(after.contains(k));
        assert(after.to_multiset().count(k) > 0);
        assert(before.to_multiset().count(k) > 0);
        assert(before.contains(k));
        let y = choose|y: int| 0 <= y < before.len() && before[y] == k;
        if x < sorted.len() {
            assert(sorted[x].entropy <= before[y].entropy);
        } else {
            assert(low.entropy <= before[y].entropy);
        }
    }
    assert forall|x: int, y: int| 0 <= x < y < more.len() implies more[x].entropy
        <= more[y].entropy by {
        if y == sorted.len() {
            assert(sorted[x].entropy <= before[0].entropy);
        } else {
            assert(sorted[x].entropy <= sorted[y].entropy);
        }
    }
}

/// Sorting the kept items keeps the split.
proof fn lemma_splits_sorted(
    kept: Seq<HandleEntropy>,
    best: Seq<HandleEntropy>,
    rest: Seq<HandleEntropy>,
    all: Seq<HandleEntropy>,
)
    requires
        splits(best, rest, all),
        kept.to_multiset() == best.to_multiset(),
    ensures
        splits(kept, rest, all),
{
    broadcast use vstd::multiset::group_multiset_axioms;

    kept.to_multiset_ensures();
    best.to_multiset_ensures();
    assert forall|x: int, j: int| 0 <= x < rest.len() && 0 <= j < kept.len() implies rest[x].entropy
        <= kept[j].entropy by {
        assert(kept.contains(kept[j]));
        assert(kept.to_multiset().count(kept[j]) > 0);
        assert(best.to_multiset().count(kept[j]) > 0);
        assert(best.contains(kept[j]));
        let y = choose|y: int| 0 <= y < best.len() && best[y] == kept[j];
        assert(rest[x].entropy <= best[y].entropy);
    }
}

/// The `size` items with the highest scores, lowest score first.
pub fn top_n_biggest(hes: Vec<HandleEntropy>, size: usize) -> (kept: Vec<HandleEntropy>)
    ensures
        top_n(kept@, hes@, size as nat),
{
    let mut heap: Vec<HandleEntropy> = Vec::new();
    let ghost mut rest: Seq<HandleEntropy> = Seq::empty();
    let n = hes.len();
    proof {
        lemma_splits_nothing();
        assert(hes@.subrange(0, 0) =~= Seq::empty());
        assert(heap@ =~= Seq::empty());
    }
    for i in 0..n
        invariant
            n == hes@.len(),
            is_heap(heap@),
            heap@.len() == vstd::math::min(size as int, i as int),
            heap@.len() + rest.len() == i,
            splits(heap@, rest, hes@.subrange(0, i as int)),
    {
        let item = hes[i];
        let ghost before = heap@;
        let ghost seen = hes@.subrange(0, i as int);
        assert(hes@.subrange(0, i + 1) =~= seen.push(item));
        heap_push(&mut heap, item);
        let ghost pushed = heap@;
        if heap.len() > size {
            let low = heap_pop(&mut heap);
            proof {
                lemma_splits_replace(before, pushed, heap@, rest, seen, item, low);
                rest = rest.push(low);
            }
        } else {
            proof {
                assert(rest =~= Seq::empty());
                lemma_splits_grow(before, pushed, seen, item);
            }
        }
    }
    assert(hes@.subrange(0, n as int) =~= hes@);
    let ghost best = heap@;
    let kept = drain(heap);
    proof {
        lemma_splits_sorted(kept@, best, rest, hes@);
    }
    kept
}

/// The `size` best-scored guesses as handles with an empty pool and no
/// flags, lowest score first.
pub fn mahd_fast2(hes: Vec<HandleEntropy>, size: usize) -> (guesses: Vec<Handle>)
    ensures
        exists|kept: Seq<HandleEntropy>|
            {
                &&& top_n(kept, hes@, size as nat)
                &&& guesses@.len() == kept.len()
                &&& forall|i: int|
                    0 <= i < kept.len() ==> {
                        &&& (#[trigger] guesses@[i]).hand == kept[i].hand
                        &&& guesses@[i].pool@ == Seq::new(34, |k: int| false)
                        &&& guesses@[i].flags == 0
                    }
            },
{
    let kept = top_n_biggest(hes, size);
    let mut guesses: Vec<Handle> = Vec::new();
    let n = kept.len();
    for i in 0..n
        invariant
            n == kept@.len(),
            guesses@.len() == i,
            forall|x: int|
                0 <= x < i ==> {
                    &&& (#[trigger] guesses@[x]).hand == kept@[x].hand
                    &&& guesses@[x].pool@ == Seq::new(34, |k: int| false)
                    &&& guesses@[x].flags == 0
                },
    {
        let handle = Handle { hand: kept[i].hand, pool: [false; 34], flags: 0 };
        assert(handle.pool@ =~= Seq::new(34, |k: int| false));
        guesses.push(handle);
    }
    guesses
}

/// The `size` best-scored guesses with their scores, lowest score first.
pub fn mahd_killer(hes: Vec<HandleEntropy>, size: usize) -> (kept: Vec<HandleEntropy>)
    ensures
        top_n(kept@, hes@, size as nat),
{
    top_n_biggest(hes, size)
}

} // verus!
