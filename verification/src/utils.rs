//! The tile vocabulary: thirty-four kinds, their successors, and the groups
//! (pair, triplet, run) that a hand is partitioned into.

use vstd::prelude::*;

verus! {

/// Number of tile kinds: three suits of nine ranks, then seven honors.
pub const TILE_KINDS: u8 = 34;

/// First honor kind; kinds below it belong to the three numbered suits.
pub const FIRST_HONOR: u8 = 27;

/// A group of a partitioned hand, named by its lowest tile kind.
#[derive(Clone, Copy, Debug, PartialEq, Eq, Structural)]
pub enum TileGroup {
    /// Two tiles of one kind.
    Toitsu(u8),
    /// Three tiles of one kind.
    Koutsu(u8),
    /// Three consecutive kinds of one suit, starting at the given kind.
    Shuntsu(u8),
}

/// Whether `tile` is one of the thirty-four kinds.
pub open spec fn is_tile(tile: u8) -> bool {
    tile < TILE_KINDS
}

/// Whether a run of three can start at `tile`: a numbered suit, rank one to seven.
pub open spec fn starts_run(tile: u8) -> bool {
    tile < FIRST_HONOR && tile % 9 < 7
}

/// Whether `tile` is the lowest rank of a numbered suit.
pub open spec fn is_first_rank(tile: u8) -> bool {
    tile < FIRST_HONOR && tile % 9 == 0
}

/// Whether `tile` is rank seven of a numbered suit, where the last run starts.
pub open spec fn is_last_run_start(tile: u8) -> bool {
    tile < FIRST_HONOR && tile % 9 == 6
}

impl TileGroup {
    /// The lowest tile kind of the group.
    pub open spec fn base(self) -> u8 {
        match self {
            TileGroup::Toitsu(t) => t,
            TileGroup::Koutsu(t) => t,
            TileGroup::Shuntsu(t) => t,
        }
    }

    /// A group over real tile kinds; a run stays inside its suit.
    pub open spec fn valid(self) -> bool {
        match self {
            TileGroup::Toitsu(t) => is_tile(t),
            TileGroup::Koutsu(t) => is_tile(t),
            TileGroup::Shuntsu(t) => starts_run(t),
        }
    }

    /// How many tiles of kind `k` the group holds.
    pub open spec fn copies(self, k: int) -> nat {
        match self {
            TileGroup::Toitsu(t) => if k == t { 2 } else { 0 },
            TileGroup::Koutsu(t) => if k == t { 3 } else { 0 },
            TileGroup::Shuntsu(t) => if t <= k <= t + 2 { 1 } else { 0 },
        }
    }

    /// Number of tiles in the group.
    pub open spec fn size(self) -> nat {
        match self {
            TileGroup::Toitsu(_) => 2,
            TileGroup::Koutsu(_) => 3,
            TileGroup::Shuntsu(_) => 3,
        }
    }

    /// Whether drawing `winner` last into this group leaves a narrow wait:
    /// a pair, the middle of a run, or the inner end of a run at the edge
    /// of its suit.
    pub open spec fn narrow_wait(self, winner: u8) -> bool {
        match self {
            TileGroup::Toitsu(_) => true,
            TileGroup::Koutsu(_) => false,
            TileGroup::Shuntsu(t) => {
                ||| winner == t + 1
                ||| (winner == t + 2 && is_first_rank(t))
                ||| (winner == t && is_last_run_start(t))
            },
        }
    }
}

/// The kind after `tile` in the walk over all kinds, or `None` after the last.
pub fn next_tile(tile: u8) -> (next: Option<u8>)
    requires
        is_tile(tile),
    ensures
        next == (if tile + 1 < TILE_KINDS { Some((tile + 1) as u8) } else { None }),
{
    if tile + 1 < TILE_KINDS {
        Some(tile + 1)
    } else {
        None
    }
}

/// The pair of `tile`.
pub fn toitsu_of_tile(tile: u8) -> (group: TileGroup)
    requires
        is_tile(tile),
    ensures
        group == TileGroup::Toitsu(tile),
{
    TileGroup::Toitsu(tile)
}

/// The tile kind that a pair is made of.
pub fn tile_of_toitsu(toitsu: TileGroup) -> (tile: u8)
    requires
        toitsu is Toitsu,
    ensures
        toitsu == TileGroup::Toitsu(tile),
{
    match toitsu {
        TileGroup::Toitsu(t) => t,
        TileGroup::Koutsu(t) => t,
        TileGroup::Shuntsu(t) => t,
    }
}

/// The triplet of `tile`.
pub fn koutsu_of_tile(tile: u8) -> (group: TileGroup)
    requires
        is_tile(tile),
    ensures
        group == TileGroup::Koutsu(tile),
{
    TileGroup::Koutsu(tile)
}

/// The run that starts at `tile`, where the suit has one.
pub fn shuntsu_of_tile(tile: u8) -> (group: Option<TileGroup>)
    requires
        is_tile(tile),
    ensures
        group == (if starts_run(tile) { Some(TileGroup::Shuntsu(tile)) } else { None }),
{
    if tile < FIRST_HONOR && tile % 9 < 7 {
        Some(TileGroup::Shuntsu(tile))
    } else {
        None
    }
}

/// The thirteen terminal and honor kinds, in increasing order.
pub open spec fn kokushi_kinds() -> Seq<u8> {
    seq![0u8, 8, 9, 17, 18, 26, 27, 28, 29, 30, 31, 32, 33]
}

/// Whether `tile` is a terminal (rank one or nine) or an honor.
pub open spec fn is_terminal_or_honor(tile: u8) -> bool {
    is_tile(tile) && (tile >= FIRST_HONOR || tile % 9 == 0 || tile % 9 == 8)
}

/// The kind that is doubled in the `kokushi`-th thirteen-unique shape.
pub fn tile_of_kokushi(kokushi: u8) -> (tile: u8)
    requires
        kokushi < 13,
    ensures
        tile == kokushi_kinds()[kokushi as int],
        is_terminal_or_honor(tile),
{
    if kokushi >= 6 {
        21 + kokushi
    } else if kokushi % 2 == 0 {
        kokushi / 2 * 9
    } else {
        kokushi / 2 * 9 + 8
    }
}

/// The thirteen-unique kinds are exactly the terminals and honors, each once
/// and in increasing order.
pub proof fn lemma_kokushi_kinds()
    ensures
        kokushi_kinds().len() == 13,
        forall|i: int| 0 <= i < 13 ==> is_terminal_or_honor(#[trigger] kokushi_kinds()[i]),
        forall|i: int, j: int| 0 <= i < j < 13 ==> kokushi_kinds()[i] < kokushi_kinds()[j],
        forall|t: u8|
            is_terminal_or_honor(t) ==> exists|i: int| 0 <= i < 13 && kokushi_kinds()[i] == t,
{
    let s = kokushi_kinds();
    assert forall|t: u8| is_terminal_or_honor(t) implies exists|i: int|
        0 <= i < 13 && kokushi_kinds()[i] == t by {
        if t >= 27 {
            assert(s[t - 21] == t);
        } else if t % 9 == 0 {
            assert(s[(t / 9) * 2] == t);
        } else {
            assert(s[(t / 9) * 2 + 1] == t);
        }
    }
}

} // verus!
