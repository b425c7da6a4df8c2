//! What the walk over standard hands reports: every reading of a hand as a
//! pair and four groups with one of them completed last.

use vstd::prelude::*;
use crate::generator::{
    copies_in, lemma_copies_push, pair_tile, pairs_in, start_state, FinderStage, FinderState,
};
use crate::utils::TileGroup;

verus! {

/// The place of a kind of group among the groups of one tile kind: the
/// pair first, then the triplet, then the runs.
pub open spec fn kind_rank(group: TileGroup) -> nat {
    match group {
        TileGroup::Toitsu(_) => 0,
        TileGroup::Koutsu(_) => 1,
        TileGroup::Shuntsu(_) => 2,
    }
}

/// The groups stand in the order of their lowest kinds, and those of one
/// kind with the pair first and the runs last.
pub open spec fn in_walk_order(groups: Seq<(TileGroup, bool)>) -> bool {
    forall|i: int, j: int|
        0 <= i < j < groups.len() ==> (#[trigger] groups[i]).0.base() < (#[trigger] groups[j]).0.base()
            || (groups[i].0.base() == groups[j].0.base() && kind_rank(groups[i].0) <= kind_rank(
            groups[j].0,
        ))
}

/// A reading of a standard hand: a pair and four groups in walk order that
/// use no kind more than four times, the pool that counts their tiles, a
/// winning tile that completed one of the groups, and the tags that follow
/// from that group.
pub open spec fn is_reading(c: FinderState) -> bool {
    &&& c.groups.len() == 5
    &&& forall|i: int| 0 <= i < 5 ==> (#[trigger] c.groups[i]).0.valid()
    &&& in_walk_order(c.groups)
    &&& pairs_in(c.groups) == 1
    &&& c.toitsu == pair_tile(c.groups)
    &&& c.nmentsu == 4
    &&& c.pool.len() == 34
    &&& forall|k: int|
        0 <= k < 34 ==> #[trigger] c.pool[k] == copies_in(c.groups, k) && c.pool[k] <= 4
    &&& c.winning_tile is Some
    &&& c.winner_placed()
    &&& c.stage is Check
    &&& c.curr == c.groups[4].0.base()
}

/// The first `m` of the groups.
pub open spec fn first(groups: Seq<(TileGroup, bool)>, m: int) -> Seq<(TileGroup, bool)> {
    groups.subrange(0, m)
}

/// The first groups of a list hold no more tiles, pairs and other groups
/// than the whole list.
proof fn lemma_first(groups: Seq<(TileGroup, bool)>, m: int, k: int)
    requires
        0 <= m <= groups.len(),
    ensures
        copies_in(first(groups, m), k) <= copies_in(groups, k),
        pairs_in(first(groups, m)) <= pairs_in(groups),
        m - pairs_in(first(groups, m)) <= groups.len() - pairs_in(groups),
        m < groups.len() ==> first(groups, m + 1) == first(groups, m).push(groups[m]),
        m < groups.len() ==> copies_in(first(groups, m), k) + groups[m].0.copies(k) <= copies_in(
            groups,
            k,
        ),
        m < groups.len() && groups[m].0 is Toitsu ==> pairs_in(first(groups, m)) + 1 <= pairs_in(
            groups,
        ),
        m < groups.len() && !(groups[m].0 is Toitsu) ==> m + 1 - pairs_in(first(groups, m))
            <= groups.len() - pairs_in(groups),
    decreases groups.len() - m,
{
    if m < groups.len() {
        assert(first(groups, m + 1) =~= first(groups, m).push(groups[m]));
        lemma_copies_push(first(groups, m), groups[m], k);
        lemma_first(groups, m + 1, k);
    } else {
        assert(first(groups, m) =~= groups);
    }
}

/// Two groups of a list hold no more tiles together than the whole list.
proof fn lemma_two_members(groups: Seq<(TileGroup, bool)>, i: int, j: int, k: int)
    requires
        0 <= i < j < groups.len(),
    ensures
        groups[i].0.copies(k) + groups[j].0.copies(k) <= copies_in(groups, k),
    decreases groups.len(),
{
    if j < groups.len() - 1 {
        lemma_two_members(groups.drop_last(), i, j, k);
    } else {
        lemma_first(groups.drop_last(), i, k);
        assert(groups.drop_last()[i] == groups[i]);
    }
}

/// The state has placed the first groups of the reading, the winner's among
/// them if it has placed that one, and can still place the others.
pub open spec fn leads_to(n: FinderState, c: FinderState, g: int) -> bool {
    let m = n.groups.len() as int;
    &&& n.wf()
    &&& m <= 5
    &&& n.groups == first(c.groups, m)
    &&& if g < m {
        n.winning_tile == c.winning_tile && n.is_singular_wait == c.is_singular_wait
    } else {
        n.winning_tile is None
    }
    &&& if m < 5 {
        let next = c.groups[m].0;
        n.curr <= next.base() && (n.curr == next.base() ==> n.stage_rank() + kind_rank(next) >= 3)
    } else {
        n.curr == c.curr && n.stage_rank() <= 1
    }
}

/// What the state knows of its own counters while it leads to a reading.
proof fn lemma_on_the_way(n: FinderState, c: FinderState, g: int)
    requires
        is_reading(c),
        c.winner_in(c.winning_tile->0, g),
        leads_to(n, c, g),
    ensures
        n.groups.len() == n.nmentsu + pairs_in(n.groups),
        (n.toitsu is Some) == (pairs_in(n.groups) == 1),
        n.toitsu == pair_tile(n.groups),
        pairs_in(n.groups) <= 1,
        forall|k: int| 0 <= k < 34 ==> #[trigger] n.pool[k] == copies_in(n.groups, k),
        n.groups.len() < 5 ==> {
            let m = n.groups.len() as int;
            let next = c.groups[m];
            &&& next.0.valid()
            &&& next.1 == (m == g && next.0 is Koutsu)
            &&& next.0 is Toitsu ==> n.toitsu is None
            &&& !(next.0 is Toitsu) ==> n.nmentsu < 4
            &&& forall|k: int|
                0 <= k < 34 ==> (#[trigger] n.pool[k]) + next.0.copies(k) <= c.pool[k]
            &&& m == g ==> next.0.copies(c.winning_tile->0 as int) > 0 && c.is_singular_wait
                == next.0.narrow_wait(c.winning_tile->0)
        },
        n.winning_tile is None ==> !n.is_singular_wait,
{
    reveal(FinderState::groups_placed);
    let m = n.groups.len() as int;
    lemma_first(c.groups, m, 0);
    if m < 5 {
        assert forall|k: int| 0 <= k < 34 implies (#[trigger] n.pool[k]) + c.groups[m].0.copies(k)
            <= c.pool[k] by {
            lemma_first(c.groups, m, k);
        }
    }
}

impl FinderState {
    /// The step that places the pair of the reading.
    proof fn lemma_reach_pair(self, c: FinderState, g: int)
        requires
            is_reading(c),
            c.winner_in(c.winning_tile->0, g),
            leads_to(self, c, g),
            self.groups.len() < 5,
            c.groups[self.groups.len() as int].0 == TileGroup::Toitsu(self.curr),
        ensures
            self.can_pair(),
            g == self.groups.len() ==> self.winning_tile is None,
            leads_to(self.with_pair(g == self.groups.len()), c, g),
    {
        let m = self.groups.len() as int;
        let won = g == m;
        let n = self.with_pair(won);
        lemma_on_the_way(self, c, g);
        assert(self.pool[self.curr as int] + 2 <= c.pool[self.curr as int]);
        self.lemma_with_pair_wf(won);
        lemma_first(c.groups, m, 0);
        assert(n.groups == first(c.groups, m + 1));
        if m + 1 < 5 {
            let next = c.groups[m + 1].0;
            assert(c.groups[m].0.base() <= next.base());
            if next.base() == self.curr {
                lemma_two_members(c.groups, m, m + 1, self.curr as int);
                assert(c.pool[self.curr as int] == copies_in(c.groups, self.curr as int));
                lemma_first(c.groups, m + 1, 0);
                assert(next is Shuntsu);
            }
        }
    }

    /// The step that places a triplet of the reading.
    proof fn lemma_reach_triplet(self, c: FinderState, g: int)
        requires
            is_reading(c),
            c.winner_in(c.winning_tile->0, g),
            leads_to(self, c, g),
            self.groups.len() < 5,
            c.groups[self.groups.len() as int].0 == TileGroup::Koutsu(self.curr),
        ensures
            self.can_triplet(),
            g == self.groups.len() ==> self.winning_tile is None,
            leads_to(self.with_triplet(g == self.groups.len()), c, g),
    {
        let m = self.groups.len() as int;
        let won = g == m;
        let n = self.with_triplet(won);
        lemma_on_the_way(self, c, g);
        assert(self.pool[self.curr as int] + 3 <= c.pool[self.curr as int]);
        self.lemma_with_triplet_wf(won);
        lemma_first(c.groups, m, 0);
        assert(n.groups == first(c.groups, m + 1));
        if m + 1 < 5 {
            let next = c.groups[m + 1].0;
            assert(c.groups[m].0.base() <= next.base());
            if next.base() == self.curr {
                lemma_two_members(c.groups, m, m + 1, self.curr as int);
                assert(c.pool[self.curr as int] == copies_in(c.groups, self.curr as int));
                assert(kind_rank(c.groups[m].0) <= kind_rank(next));
                assert(next is Shuntsu);
            }
        }
    }

    /// The step that places a run of the reading.
    proof fn lemma_reach_run(self, c: FinderState, g: int) -> (won: Option<u8>)
        requires
            is_reading(c),
            c.winner_in(c.winning_tile->0, g),
            leads_to(self, c, g),
            self.groups.len() < 5,
            self.stage is Shuntsu,
            c.groups[self.groups.len() as int].0 == TileGroup::Shuntsu(self.curr),
        ensures
            self.can_run(),
            won matches Some(place) ==> place <= 2 && self.winning_tile is None,
            won is Some <==> g == self.groups.len(),
            leads_to(self.with_run(won), c, g),
    {
        let m = self.groups.len() as int;
        let w = c.winning_tile->0;
        let won = if g == m {
            Some((w - self.curr) as u8)
        } else {
            None
        };
        let n = self.with_run(won);
        lemma_on_the_way(self, c, g);
        assert(self.pool[self.curr as int] + 1 <= c.pool[self.curr as int]);
        self.lemma_with_run_wf(won);
        lemma_first(c.groups, m, 0);
        assert(n.groups == first(c.groups, m + 1));
        if m + 1 < 5 {
            let next = c.groups[m + 1].0;
            assert(c.groups[m].0.base() <= next.base());
            if next.base() == self.curr {
                assert(kind_rank(c.groups[m].0) <= kind_rank(next));
            }
        }
        won
    }

    /// The step to the next stage where the reading has no group for this one.
    proof fn lemma_reach_stage(self, c: FinderState, g: int, stage: FinderStage)
        requires
            is_reading(c),
            c.winner_in(c.winning_tile->0, g),
            leads_to(self, c, g),
            match self.stage {
                FinderStage::Toitsu => stage is Koutsu,
                FinderStage::Koutsu => stage is Shuntsu,
                FinderStage::Shuntsu => stage is Check,
                FinderStage::Check => false,
            },
            self.groups.len() < 5 ==> c.groups[self.groups.len() as int].0 != (match self.stage {
                FinderStage::Toitsu => TileGroup::Toitsu(self.curr),
                FinderStage::Koutsu => TileGroup::Koutsu(self.curr),
                _ => TileGroup::Shuntsu(self.curr),
            }),
        ensures
            leads_to(self.with_stage(stage), c, g),
    {
        self.lemma_with_stage_wf(stage);
    }

    /// The step to the next kind where the reading has no more groups of
    /// this one.
    proof fn lemma_reach_next_kind(self, c: FinderState, g: int)
        requires
            is_reading(c),
            c.winner_in(c.winning_tile->0, g),
            leads_to(self, c, g),
            self.stage is Check,
            self.groups.len() < 5,
        ensures
            !self.finished(),
            self.curr + 1 < 34,
            leads_to(self.with_next_kind(), c, g),
    {
        lemma_on_the_way(self, c, g);
        let m = self.groups.len() as int;
        assert(c.groups[m].0.valid());
        self.lemma_with_next_kind_wf();
    }

    /// A state that has placed all groups of the reading is the reading.
    proof fn lemma_arrived(self, c: FinderState, g: int)
        requires
            is_reading(c),
            c.winner_in(c.winning_tile->0, g),
            leads_to(self, c, g),
            self.stage is Check,
            self.groups.len() == 5,
        ensures
            self == c,
            self.finished(),
    {
        lemma_on_the_way(self, c, g);
        assert(first(c.groups, 5) =~= c.groups);
        assert(self.pool =~= c.pool);
    }

    /// The walk reports every reading that its state leads to.
    pub proof fn lemma_walk_reaches(self, c: FinderState, g: int)
        requires
            is_reading(c),
            c.winner_in(c.winning_tile->0, g),
            leads_to(self, c, g),
        ensures
            self.emitted().contains(c),
        decreases 34 - self.curr, self.stage_rank(), 4 - self.nmentsu,
    {
        let m = self.groups.len() as int;
        let none = Seq::<FinderState>::empty();
        match self.stage {
            FinderStage::Toitsu => {
                let skip = self.with_stage(FinderStage::Koutsu).emitted();
                let won = if self.can_pair() && self.winning_tile is None {
                    self.with_pair(true).emitted()
                } else {
                    none
                };
                let plain = if self.can_pair() {
                    self.with_pair(false).emitted()
                } else {
                    none
                };
                assert(self.emitted() =~= won + plain + skip);
                if m < 5 && c.groups[m].0 == TileGroup::Toitsu(self.curr) {
                    self.lemma_reach_pair(c, g);
                    self.with_pair(g == m).lemma_walk_reaches(c, g);
                    if g == m {
                        lemma_contains_concat(won, plain, skip, c, 0);
                    } else {
                        lemma_contains_concat(won, plain, skip, c, 1);
                    }
                } else {
                    self.lemma_reach_stage(c, g, FinderStage::Koutsu);
                    self.with_stage(FinderStage::Koutsu).lemma_walk_reaches(c, g);
                    lemma_contains_concat(won, plain, skip, c, 2);
                }
            },
            FinderStage::Koutsu => {
                let skip = self.with_stage(FinderStage::Shuntsu).emitted();
                let won = if self.can_triplet() && self.winning_tile is None {
                    self.with_triplet(true).emitted()
                } else {
                    none
                };
                let plain = if self.can_triplet() {
                    self.with_triplet(false).emitted()
                } else {
                    none
                };
                assert(self.emitted() =~= won + plain + skip);
                if m < 5 && c.groups[m].0 == TileGroup::Koutsu(self.curr) {
                    self.lemma_reach_triplet(c, g);
                    self.with_triplet(g == m).lemma_walk_reaches(c, g);
                    if g == m {
                        lemma_contains_concat(won, plain, skip, c, 0);
                    } else {
                        lemma_contains_concat(won, plain, skip, c, 1);
                    }
                } else {
                    self.lemma_reach_stage(c, g, FinderStage::Shuntsu);
                    self.with_stage(FinderStage::Shuntsu).lemma_walk_reaches(c, g);
                    lemma_contains_concat(won, plain, skip, c, 2);
                }
            },
            FinderStage::Shuntsu => {
                let skip = self.with_stage(FinderStage::Check).emitted();
                let w0 = self.with_run(Some(0u8)).emitted();
                let w1 = self.with_run(Some(1u8)).emitted();
                let w2 = self.with_run(Some(2u8)).emitted();
                let won = if self.can_run() && self.winning_tile is None {
                    w0 + w1 + w2
                } else {
                    none
                };
                let plain = if self.can_run() {
                    self.with_run(None).emitted()
                } else {
                    none
                };
                assert(self.emitted() =~= won + plain + skip);
                if m < 5 && c.groups[m].0 == TileGroup::Shuntsu(self.curr) {
                    let place = self.lemma_reach_run(c, g);
                    self.with_run(place).lemma_walk_reaches(c, g);
                    match place {
                        Some(p) => {
                            if p == 0 {
                                lemma_contains_concat(w0, w1, w2, c, 0);
                            } else if p == 1 {
                                lemma_contains_concat(w0, w1, w2, c, 1);
                            } else {
                                lemma_contains_concat(w0, w1, w2, c, 2);
                            }
                            lemma_contains_concat(won, plain, skip, c, 0);
                        },
                        None => {
                            lemma_contains_concat(won, plain, skip, c, 1);
                        },
                    }
                } else {
                    self.lemma_reach_stage(c, g, FinderStage::Check);
                    self.with_stage(FinderStage::Check).lemma_walk_reaches(c, g);
                    lemma_contains_concat(won, plain, skip, c, 2);
                }
            },
            FinderStage::Check => {
                if m == 5 {
                    self.lemma_arrived(c, g);
                    assert(self.emitted()[0] == c);
                } else {
                    self.lemma_reach_next_kind(c, g);
                    self.with_next_kind().lemma_walk_reaches(c, g);
                }
            },
        }
    }
}

/// What one of three parts holds, all three hold together.
proof fn lemma_contains_concat(
    a: Seq<FinderState>,
    b: Seq<FinderState>,
    c: Seq<FinderState>,
    x: FinderState,
    part: int,
)
    requires
        part == 0 ==> a.contains(x),
        part == 1 ==> b.contains(x),
        part == 2 ==> c.contains(x),
        0 <= part <= 2,
    ensures
        (a + b + c).contains(x),
{
    let all = a + b + c;
    if part == 0 {
        let i = choose|i: int| 0 <= i < a.len() && a[i] == x;
        assert(all[i] == x);
    } else if part == 1 {
        let i = choose|i: int| 0 <= i < b.len() && b[i] == x;
        assert(all[a.len() + i] == x);
    } else {
        let i = choose|i: int| 0 <= i < c.len() && c[i] == x;
        assert(all[a.len() + b.len() + i] == x);
    }
}

/// A walk that starts at `kind` reports every reading that has no group
/// below that kind.
pub proof fn lemma_standard_complete_from(kind: u8, c: FinderState)
    requires
        kind < 34,
        is_reading(c),
        c.groups[0].0.base() >= kind,
    ensures
        start_state(kind).emitted().contains(c),
{
    let w = c.winning_tile->0;
    let g = choose|g: int| #[trigger] c.winner_in(w, g);
    let start = start_state(kind);
    assert(start.wf()) by {
        reveal(FinderState::groups_placed);
    }
    assert(start.groups =~= first(c.groups, 0));
    assert(c.groups[0].0.valid());
    start.lemma_walk_reaches(c, g);
}

/// The walk over all standard hands reports every reading of a standard hand.
pub proof fn lemma_standard_complete(c: FinderState)
    requires
        is_reading(c),
    ensures
        start_state(0).emitted().contains(c),
{
    lemma_standard_complete_from(0, c);
}

/// The groups placed so far stand in walk order; the stage is past the
/// pair and the triplet of a kind at which a group is placed; and a state
/// with all groups and a winning tile stands at the kind of its last group.
pub open spec fn ordered(n: FinderState) -> bool {
    let m = n.groups.len() as int;
    &&& in_walk_order(n.groups)
    &&& m > 0 && n.groups[m - 1].0.base() == n.curr ==> n.stage_rank() <= 1
    &&& m == 5 && n.winning_tile is Some ==> n.groups[4].0.base() == n.curr
}

/// Placing a group of the current kind at its stage keeps the walk order.
proof fn lemma_ordered_push(n: FinderState, next: FinderState, group: (TileGroup, bool))
    requires
        n.wf(),
        ordered(n),
        next.groups == n.groups.push(group),
        group.0.base() == n.curr,
        next.curr == n.curr,
        next.stage is Shuntsu,
        kind_rank(group.0) + n.stage_rank() == 3,
    ensures
        ordered(next),
{
    reveal(FinderState::groups_placed);
    let m = n.groups.len() as int;
    assert forall|i: int, j: int| 0 <= i < j < next.groups.len() implies (
    #[trigger] next.groups[i]).0.base() < (#[trigger] next.groups[j]).0.base() || (
    next.groups[i].0.base() == next.groups[j].0.base() && kind_rank(next.groups[i].0) <= kind_rank(
        next.groups[j].0,
    )) by {
        if j == m {
            assert(next.groups[i] == n.groups[i]);
            assert(n.groups[i].0.base() <= n.curr);
            if n.groups[i].0.base() == n.curr && i < m - 1 {
                assert(n.groups[i].0.base() < n.groups[m - 1].0.base() || (n.groups[i].0.base()
                    == n.groups[m - 1].0.base() && kind_rank(n.groups[i].0) <= kind_rank(
                    n.groups[m - 1].0,
                )));
            }
        } else {
            assert(next.groups[i] == n.groups[i] && next.groups[j] == n.groups[j]);
        }
    }
}

impl FinderState {
    /// Every state that the walk reports from an ordered state is a reading.
    pub proof fn lemma_emitted_readings(self)
        requires
            self.wf(),
            ordered(self),
        ensures
            all_readings(self.emitted()),
        decreases 34 - self.curr, self.stage_rank(), 4 - self.nmentsu,
    {
        let none = Seq::<FinderState>::empty();
        match self.stage {
            FinderStage::Toitsu => {
                let group = (TileGroup::Toitsu(self.curr), false);
                let won = if self.can_pair() && self.winning_tile is None {
                    let next = self.with_pair(true);
                    self.lemma_with_pair_wf(true);
                    lemma_ordered_push(self, next, group);
                    next.lemma_emitted_readings();
                    next.emitted()
                } else {
                    none
                };
                let plain = if self.can_pair() {
                    let next = self.with_pair(false);
                    self.lemma_with_pair_wf(false);
                    lemma_ordered_push(self, next, group);
                    next.lemma_emitted_readings();
                    next.emitted()
                } else {
                    none
                };
                let next = self.with_stage(FinderStage::Koutsu);
                self.lemma_with_stage_wf(FinderStage::Koutsu);
                self.lemma_stage_ordered(FinderStage::Koutsu);
                next.lemma_emitted_readings();
                let skip = next.emitted();
                assert(self.emitted() =~= won + plain + skip);
                lemma_readings_concat(won, plain, skip);
            },
            FinderStage::Koutsu => {
                let won = if self.can_triplet() && self.winning_tile is None {
                    let next = self.with_triplet(true);
                    self.lemma_with_triplet_wf(true);
                    lemma_ordered_push(self, next, (TileGroup::Koutsu(self.curr), true));
                    next.lemma_emitted_readings();
                    next.emitted()
                } else {
                    none
                };
                let plain = if self.can_triplet() {
                    let next = self.with_triplet(false);
                    self.lemma_with_triplet_wf(false);
                    lemma_ordered_push(self, next, (TileGroup::Koutsu(self.curr), false));
                    next.lemma_emitted_readings();
                    next.emitted()
                } else {
                    none
                };
                let next = self.with_stage(FinderStage::Shuntsu);
                self.lemma_with_stage_wf(FinderStage::Shuntsu);
                self.lemma_stage_ordered(FinderStage::Shuntsu);
                next.lemma_emitted_readings();
                let skip = next.emitted();
                assert(self.emitted() =~= won + plain + skip);
                lemma_readings_concat(won, plain, skip);
            },
            FinderStage::Shuntsu => {
                let group = (TileGroup::Shuntsu(self.curr), false);
                let won = if self.can_run() && self.winning_tile is None {
                    let n0 = self.with_run(Some(0u8));
                    let n1 = self.with_run(Some(1u8));
                    let n2 = self.with_run(Some(2u8));
                    self.lemma_with_run_wf(Some(0u8));
                    self.lemma_with_run_wf(Some(1u8));
                    self.lemma_with_run_wf(Some(2u8));
                    lemma_ordered_push(self, n0, group);
                    lemma_ordered_push(self, n1, group);
                    lemma_ordered_push(self, n2, group);
                    n0.lemma_emitted_readings();
                    n1.lemma_emitted_readings();
                    n2.lemma_emitted_readings();
                    lemma_readings_concat(n0.emitted(), n1.emitted(), n2.emitted());
                    n0.emitted() + n1.emitted() + n2.emitted()
                } else {
                    none
                };
                let plain = if self.can_run() {
                    let next = self.with_run(None);
                    self.lemma_with_run_wf(None);
                    lemma_ordered_push(self, next, group);
                    next.lemma_emitted_readings();
                    next.emitted()
                } else {
                    none
                };
                let next = self.with_stage(FinderStage::Check);
                self.lemma_with_stage_wf(FinderStage::Check);
                self.lemma_stage_ordered(FinderStage::Check);
                next.lemma_emitted_readings();
                let skip = next.emitted();
                assert(self.emitted() =~= won + plain + skip);
                lemma_readings_concat(won, plain, skip);
            },
            FinderStage::Check => {
                if self.finished() {
                    self.lemma_finished();
                    assert(is_reading(self)) by {
                        reveal(FinderState::groups_placed);
                    }
                    assert(self.emitted() =~= seq![self]);
                } else if self.curr + 1 < 34 {
                    let next = self.with_next_kind();
                    self.lemma_with_next_kind_wf();
                    assert(ordered(next)) by {
                        reveal(FinderState::groups_placed);
                        let m = self.groups.len() as int;
                        if m > 0 {
                            assert(self.groups[m - 1].0.base() <= self.curr);
                        }
                    }
                    next.lemma_emitted_readings();
                }
            },
        }
    }

    /// Moving on to a later stage of the same kind keeps the walk order.
    proof fn lemma_stage_ordered(self, stage: FinderStage)
        requires
            self.wf(),
            ordered(self),
            match self.stage {
                FinderStage::Toitsu => stage is Koutsu,
                FinderStage::Koutsu => stage is Shuntsu,
                FinderStage::Shuntsu => stage is Check,
                FinderStage::Check => false,
            },
        ensures
            ordered(self.with_stage(stage)),
    {
    }
}

/// Every state of the sequence is a reading.
pub open spec fn all_readings(found: Seq<FinderState>) -> bool {
    forall|i: int| 0 <= i < found.len() ==> is_reading(#[trigger] found[i])
}

proof fn lemma_readings_concat(a: Seq<FinderState>, b: Seq<FinderState>, c: Seq<FinderState>)
    requires
        all_readings(a),
        all_readings(b),
        all_readings(c),
    ensures
        all_readings(a + b + c),
{
    let all = a + b + c;
    assert forall|i: int| 0 <= i < all.len() implies is_reading(#[trigger] all[i]) by {
        if i < a.len() {
            assert(all[i] == a[i]);
        } else if i < a.len() + b.len() {
            assert(all[i] == b[i - a.len()]);
        } else {
            assert(all[i] == c[i - a.len() - b.len()]);
        }
    }
}

/// A walk from any kind reports readings of standard hands only.
pub proof fn lemma_standard_sound_from(kind: u8)
    requires
        kind < 34,
    ensures
        all_readings(start_state(kind).emitted()),
{
    let start = start_state(kind);
    assert(start.wf()) by {
        reveal(FinderState::groups_placed);
    }
    start.lemma_emitted_readings();
}

/// The walk over all standard hands reports readings of standard hands only.
pub proof fn lemma_standard_sound()
    ensures
        all_readings(start_state(0).emitted()),
{
    lemma_standard_sound_from(0);
}

} // verus!
