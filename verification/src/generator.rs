//! Enumeration of every complete winning hand: standard hands of one pair and
//! four groups, seven-pairs hands and thirteen-unique hands.
//!
//! Each walk is lazy: a state is taken from a stack of pending states, and one
//! step either reports it as a finished hand or puts the states that follow it
//! back on the stack.

use vstd::prelude::*;
use crate::handle::Handle;
use crate::store;
use crate::utils::{is_tile, starts_run, kokushi_kinds, is_terminal_or_honor, TileGroup};

verus! {

/// What the walk tries next at the current tile kind.
#[derive(Clone, Copy, Debug, PartialEq, Eq, Structural)]
pub enum FinderStage {
    Toitsu,
    Koutsu,
    Shuntsu,
    Check,
}

/// A hand split into its groups, as the scoring rules read it. The flag
/// beside a group marks the triplet that the winning tile completed.
pub struct PartitionedHand {
    pub group_items: Vec<(TileGroup, bool)>,
    pub is_singular_wait: bool,
}

/// A scoring rule that a hand can qualify under, as far as the flags of a
/// hand depend on it.
#[derive(Clone, Copy, Debug, PartialEq, Eq, Structural)]
pub enum AgendaName {
    Pinfu,
    YakuhaiTon,
    YakuhaiNan,
    YakuhaiShaa,
    YakuhaiPei,
    YakuhaiJantouTon,
    YakuhaiJantouNan,
    YakuhaiJantouShaa,
    YakuhaiJantouPei,
    /// Any rule that no flag depends on.
    Other,
}

/// The verdict of the scoring rules on a partitioned hand: it qualifies
/// whatever the context, or under the named conditional rules only.
pub enum Score {
    Done,
    Name(Vec<AgendaName>),
}

/// `bit` if `name` is among the names, else no bit.
pub open spec fn bit_if(names: Seq<AgendaName>, name: AgendaName, bit: u8) -> u8 {
    if names.contains(name) {
        bit
    } else {
        0
    }
}

/// The wind bits of the rules that hold if any of their winds is live.
pub open spec fn any_bits(names: Seq<AgendaName>) -> u8 {
    bit_if(names, AgendaName::YakuhaiTon, store::ANY_TON) | bit_if(
        names,
        AgendaName::YakuhaiNan,
        store::ANY_NAN,
    ) | bit_if(names, AgendaName::YakuhaiShaa, store::ANY_SHA) | bit_if(
        names,
        AgendaName::YakuhaiPei,
        store::ANY_PEI,
    )
}

/// The selector of the wind that must not be live for a wind pair.
pub open spec fn not_any_bits(names: Seq<AgendaName>) -> u8 {
    bit_if(names, AgendaName::YakuhaiJantouNan, store::NOT_ANY_NAN) | bit_if(
        names,
        AgendaName::YakuhaiJantouShaa,
        store::NOT_ANY_SHA,
    ) | bit_if(names, AgendaName::YakuhaiJantouPei, store::NOT_ANY_PEI)
}

/// Whether the names hold a rule of a pair of winds.
pub open spec fn has_wind_pair(names: Seq<AgendaName>) -> bool {
    names.contains(AgendaName::YakuhaiJantouTon) || names.contains(AgendaName::YakuhaiJantouNan)
        || names.contains(AgendaName::YakuhaiJantouShaa) || names.contains(
        AgendaName::YakuhaiJantouPei,
    )
}

/// The flags of a hand that qualifies under `names` only. With the
/// all-runs rule, a wind pair voids the rule while that wind is live, and
/// without a wind pair the hand always qualifies. Without that rule the hand
/// qualifies by a live wind triplet; with no wind triplet either it gets the
/// bit that disqualifies on self-draw.
pub open spec fn flags_of_names(names: Seq<AgendaName>) -> u8 {
    if names.contains(AgendaName::Pinfu) {
        any_bits(names) | not_any_bits(names) | (if has_wind_pair(names) {
            0u8
        } else {
            store::MASK_TRUE_ALWAYS
        })
    } else {
        any_bits(names) | (if any_bits(names) == 0 {
            store::MASK_FALSE_IF_RON
        } else {
            0u8
        })
    }
}

/// The flags that a verdict of the scoring rules gives a hand.
pub open spec fn flags_of_score(score: Score) -> u8 {
    match score {
        Score::Done => store::MASK_TRUE_ALWAYS,
        Score::Name(names) => flags_of_names(names@),
    }
}

/// Whether `name` occurs among the first `n` names.
pub open spec fn seen(names: Seq<AgendaName>, n: int, name: AgendaName) -> bool {
    exists|j: int| 0 <= j < n && names[j] == name
}

/// A state of the walk over standard hands.
pub struct Finder {
    pub partitions: PartitionedHand,
    pub pool: [u8; 34],
    pub winning_tile: Option<u8>,
    pub toitsu: Option<u8>,
    pub nmentsu: u8,
    pub stage: FinderStage,
    pub curr: u8,
}

/// The mathematical value of a `Finder`.
pub struct FinderState {
    pub groups: Seq<(TileGroup, bool)>,
    pub is_singular_wait: bool,
    pub pool: Seq<u8>,
    pub winning_tile: Option<u8>,
    pub toitsu: Option<u8>,
    pub nmentsu: u8,
    pub stage: FinderStage,
    pub curr: u8,
}

/// How many tiles of kind `k` the groups hold together.
pub open spec fn copies_in(groups: Seq<(TileGroup, bool)>, k: int) -> nat
    decreases groups.len(),
{
    if groups.len() == 0 {
        0
    } else {
        copies_in(groups.drop_last(), k) + groups.last().0.copies(k)
    }
}

/// How many of the groups are pairs.
pub open spec fn pairs_in(groups: Seq<(TileGroup, bool)>) -> nat
    decreases groups.len(),
{
    if groups.len() == 0 {
        0
    } else {
        pairs_in(groups.drop_last()) + (if groups.last().0 is Toitsu { 1nat } else { 0nat })
    }
}

/// The kind of the pair among the groups, if there is one.
pub open spec fn pair_tile(groups: Seq<(TileGroup, bool)>) -> Option<u8>
    decreases groups.len(),
{
    if groups.len() == 0 {
        None
    } else {
        match groups.last().0 {
            TileGroup::Toitsu(t) => Some(t),
            _ => pair_tile(groups.drop_last()),
        }
    }
}

/// Sum of the first `n` counters of a pool.
pub open spec fn pool_total(pool: Seq<u8>, n: nat) -> nat
    decreases n,
{
    if n == 0 {
        0
    } else {
        pool_total(pool, (n - 1) as nat) + pool[n - 1] as nat
    }
}

impl FinderState {
    /// No pair is placed yet and at most two tiles of the current kind are used.
    pub open spec fn can_pair(self) -> bool {
        self.toitsu is None && self.pool[self.curr as int] <= 2
    }

    /// A group is still missing and at most one tile of the current kind is used.
    pub open spec fn can_triplet(self) -> bool {
        self.nmentsu < 4 && self.pool[self.curr as int] <= 1
    }

    /// A group is still missing, a tile of the current kind is free, and a
    /// run starts at this kind.
    pub open spec fn can_run(self) -> bool {
        self.nmentsu < 4 && self.pool[self.curr as int] <= 3 && starts_run(self.curr)
    }

    /// One pair, four groups and a winning tile have been placed.
    pub open spec fn finished(self) -> bool {
        self.nmentsu == 4 && self.toitsu is Some && self.winning_tile is Some
    }

    /// The state is reported as a hand.
    pub open spec fn emits(self) -> bool {
        self.stage is Check && self.finished()
    }

    /// The walk moves on to a later stage of the current kind.
    pub open spec fn with_stage(self, stage: FinderStage) -> FinderState {
        FinderState { stage, ..self }
    }

    /// A pair of the current kind is placed; with `won`, the winning tile
    /// completed it.
    pub open spec fn with_pair(self, won: bool) -> FinderState {
        let c = self.curr as int;
        FinderState {
            groups: self.groups.push((TileGroup::Toitsu(self.curr), false)),
            pool: self.pool.update(c, (self.pool[c] + 2) as u8),
            toitsu: Some(self.curr),
            stage: FinderStage::Shuntsu,
            winning_tile: if won { Some(self.curr) } else { self.winning_tile },
            is_singular_wait: if won { true } else { self.is_singular_wait },
            ..self
        }
    }

    /// A triplet of the current kind is placed; with `won`, the winning tile
    /// completed it.
    pub open spec fn with_triplet(self, won: bool) -> FinderState {
        let c = self.curr as int;
        FinderState {
            groups: self.groups.push((TileGroup::Koutsu(self.curr), won)),
            pool: self.pool.update(c, (self.pool[c] + 3) as u8),
            nmentsu: (self.nmentsu + 1) as u8,
            stage: FinderStage::Shuntsu,
            winning_tile: if won { Some(self.curr) } else { self.winning_tile },
            ..self
        }
    }

    /// A run starting at the current kind is placed; `won` gives the place
    /// in the run of the winning tile, if it completed this run.
    pub open spec fn with_run(self, won: Option<u8>) -> FinderState {
        let c = self.curr as int;
        let run = TileGroup::Shuntsu(self.curr);
        FinderState {
            groups: self.groups.push((run, false)),
            pool: self.pool.update(c, (self.pool[c] + 1) as u8).update(
                c + 1,
                (self.pool[c + 1] + 1) as u8,
            ).update(c + 2, (self.pool[c + 2] + 1) as u8),
            nmentsu: (self.nmentsu + 1) as u8,
            winning_tile: match won {
                Some(place) => Some((self.curr + place) as u8),
                None => self.winning_tile,
            },
            is_singular_wait: match won {
                Some(place) => run.narrow_wait((self.curr + place) as u8),
                None => self.is_singular_wait,
            },
            ..self
        }
    }

    /// The walk moves on to the next kind.
    pub open spec fn with_next_kind(self) -> FinderState {
        FinderState { curr: (self.curr + 1) as u8, stage: FinderStage::Toitsu, ..self }
    }

    /// How many stages of the current kind are still to come.
    pub open spec fn stage_rank(self) -> nat {
        match self.stage {
            FinderStage::Toitsu => 3,
            FinderStage::Koutsu => 2,
            FinderStage::Shuntsu => 1,
            FinderStage::Check => 0,
        }
    }

    /// The finished states that the walk reports from this state on, in the
    /// order in which it reports them.
    pub open spec fn emitted(self) -> Seq<FinderState>
        decreases 34 - self.curr, self.stage_rank(), 4 - self.nmentsu,
    {
        match self.stage {
            FinderStage::Toitsu => {
                (if self.can_pair() {
                    (if self.winning_tile is None {
                        self.with_pair(true).emitted()
                    } else {
                        Seq::empty()
                    }) + self.with_pair(false).emitted()
                } else {
                    Seq::empty()
                }) + self.with_stage(FinderStage::Koutsu).emitted()
            },
            FinderStage::Koutsu => {
                (if self.can_triplet() {
                    (if self.winning_tile is None {
                        self.with_triplet(true).emitted()
                    } else {
                        Seq::empty()
                    }) + self.with_triplet(false).emitted()
                } else {
                    Seq::empty()
                }) + self.with_stage(FinderStage::Shuntsu).emitted()
            },
            FinderStage::Shuntsu => {
                (if self.can_run() {
                    (if self.winning_tile is None {
                        self.with_run(Some(0u8)).emitted() + self.with_run(Some(1u8)).emitted()
                            + self.with_run(Some(2u8)).emitted()
                    } else {
                        Seq::empty()
                    }) + self.with_run(None).emitted()
                } else {
                    Seq::empty()
                }) + self.with_stage(FinderStage::Check).emitted()
            },
            FinderStage::Check => {
                if self.finished() {
                    seq![self]
                } else if self.curr + 1 < 34 {
                    self.with_next_kind().emitted()
                } else {
                    Seq::empty()
                }
            },
        }
    }

    /// Number of states that the walk visits from this state on.
    pub open spec fn work(self) -> nat
        decreases 34 - self.curr, self.stage_rank(), 4 - self.nmentsu,
    {
        match self.stage {
            FinderStage::Toitsu => {
                1 + (if self.can_pair() {
                    (if self.winning_tile is None {
                        self.with_pair(true).work()
                    } else {
                        0
                    }) + self.with_pair(false).work()
                } else {
                    0
                }) + self.with_stage(FinderStage::Koutsu).work()
            },
            FinderStage::Koutsu => {
                1 + (if self.can_triplet() {
                    (if self.winning_tile is None {
                        self.with_triplet(true).work()
                    } else {
                        0
                    }) + self.with_triplet(false).work()
                } else {
                    0
                }) + self.with_stage(FinderStage::Shuntsu).work()
            },
            FinderStage::Shuntsu => {
                1 + (if self.can_run() {
                    (if self.winning_tile is None {
                        self.with_run(Some(0u8)).work() + self.with_run(Some(1u8)).work()
                            + self.with_run(Some(2u8)).work()
                    } else {
                        0
                    }) + self.with_run(None).work()
                } else {
                    0
                }) + self.with_stage(FinderStage::Check).work()
            },
            FinderStage::Check => {
                if self.finished() {
                    1
                } else if self.curr + 1 < 34 {
                    1 + self.with_next_kind().work()
                } else {
                    1
                }
            },
        }
    }

    /// Group `g` is the one that the winning tile `w` completed: it holds
    /// `w`, the wait is tagged by it, and no other group is flagged, nor this
    /// one unless it is a triplet.
    pub open spec fn winner_in(self, w: u8, g: int) -> bool {
        &&& 0 <= g < self.groups.len()
        &&& self.groups[g].0.copies(w as int) > 0
        &&& self.is_singular_wait == self.groups[g].0.narrow_wait(w)
        &&& forall|j: int|
            0 <= j < self.groups.len() ==> (#[trigger] self.groups[j]).1 == (j == g
                && self.groups[j].0 is Koutsu)
    }

    /// The winning tile, once chosen, completed one of the groups; before
    /// that nothing is tagged.
    pub open spec fn winner_placed(self) -> bool {
        match self.winning_tile {
            Some(w) => exists|g: int| #[trigger] self.winner_in(w, g),
            None => !self.is_singular_wait && forall|j: int|
                0 <= j < self.groups.len() ==> !(#[trigger] self.groups[j]).1,
        }
    }

    /// The pool counts the tiles of the groups placed so far, which lie at
    /// kinds up to the current one and use every kind at most four times.
    #[verifier::opaque]
    pub open spec fn groups_placed(self) -> bool {
        &&& self.groups.len() == self.nmentsu + pairs_in(self.groups)
        &&& pairs_in(self.groups) == (if self.toitsu is Some { 1nat } else { 0nat })
        &&& self.toitsu == pair_tile(self.groups)
        &&& forall|i: int|
            0 <= i < self.groups.len() ==> (#[trigger] self.groups[i]).0.valid()
                && self.groups[i].0.base() <= self.curr
        &&& forall|k: int|
            0 <= k < 34 ==> #[trigger] self.pool[k] == copies_in(self.groups, k) && self.pool[k]
                <= 4
        &&& forall|k: int| self.curr + 3 <= k < 34 ==> #[trigger] self.pool[k] == 0
        &&& self.curr + 1 < 34 ==> self.pool[self.curr + 1] <= self.pool[self.curr as int]
        &&& self.curr + 2 < 34 ==> self.pool[self.curr + 2] <= self.pool[self.curr + 1]
        &&& self.winner_placed()
    }

    /// A state that the walk can stand in.
    pub open spec fn wf(self) -> bool {
        &&& self.pool.len() == 34
        &&& is_tile(self.curr)
        &&& self.nmentsu <= 4
        &&& self.groups_placed()
    }
}

/// What one more group adds to the counts of tiles and pairs.
pub proof fn lemma_copies_push(groups: Seq<(TileGroup, bool)>, g: (TileGroup, bool), k: int)
    ensures
        copies_in(groups.push(g), k) == copies_in(groups, k) + g.0.copies(k),
        pairs_in(groups.push(g)) == pairs_in(groups) + (if g.0 is Toitsu { 1nat } else { 0nat }),
        pair_tile(groups.push(g)) == (match g.0 {
            TileGroup::Toitsu(t) => Some(t),
            _ => pair_tile(groups),
        }),
{
    assert(groups.push(g).drop_last() =~= groups);
}

impl FinderState {
    /// A later stage of the same kind is a state of the walk.
    pub proof fn lemma_with_stage_wf(self, stage: FinderStage)
        requires
            self.wf(),
        ensures
            self.with_stage(stage).wf(),
    {
        reveal(FinderState::groups_placed);
        let n = self.with_stage(stage);
        if self.winning_tile is Some {
            let w = self.winning_tile->0;
            let g = choose|g: int| #[trigger] self.winner_in(w, g);
            assert(n.winner_in(w, g));
        }
    }

    /// The first stage of the next kind is a state of the walk.
    pub proof fn lemma_with_next_kind_wf(self)
        requires
            self.wf(),
            self.curr + 1 < 34,
        ensures
            self.with_next_kind().wf(),
    {
        reveal(FinderState::groups_placed);
        let n = self.with_next_kind();
        if self.winning_tile is Some {
            let w = self.winning_tile->0;
            let g = choose|g: int| #[trigger] self.winner_in(w, g);
            assert(n.winner_in(w, g));
        }
    }

    /// Placing a group keeps the tags of a winner chosen before, or makes the
    /// new group the winner's.
    proof fn lemma_push_winner(self, n: FinderState, group: (TileGroup, bool), fresh: bool)
        requires
            self.winner_placed(),
            n.groups == self.groups.push(group),
            fresh ==> self.winning_tile is None && n.winning_tile is Some
                && group.0.copies(n.winning_tile->0 as int) > 0 && n.is_singular_wait
                == group.0.narrow_wait(n.winning_tile->0) && group.1 == (group.0 is Koutsu),
            !fresh ==> n.winning_tile == self.winning_tile && n.is_singular_wait
                == self.is_singular_wait && !group.1,
        ensures
            n.winner_placed(),
    {
        let len = self.groups.len() as int;
        if fresh {
            assert(n.winner_in(n.winning_tile->0, len));
        } else if self.winning_tile is Some {
            let w = self.winning_tile->0;
            let g = choose|g: int| #[trigger] self.winner_in(w, g);
            assert(n.groups[g] == self.groups[g]);
            assert(n.winner_in(w, g));
        }
    }

    /// A pair placed where it can be gives a state of the walk.
    pub proof fn lemma_with_pair_wf(self, won: bool)
        requires
            self.wf(),
            self.can_pair(),
            won ==> self.winning_tile is None,
        ensures
            self.with_pair(won).wf(),
    {
        reveal(FinderState::groups_placed);
        let n = self.with_pair(won);
        let group = (TileGroup::Toitsu(self.curr), false);
        assert forall|k: int| 0 <= k < 34 implies #[trigger] n.pool[k] == copies_in(n.groups, k)
            && n.pool[k] <= 4 by {
            lemma_copies_push(self.groups, group, k);
        }
        lemma_copies_push(self.groups, group, 0);
        self.lemma_push_winner(n, group, won);
    }

    /// A triplet placed where it can be gives a state of the walk.
    pub proof fn lemma_with_triplet_wf(self, won: bool)
        requires
            self.wf(),
            self.can_triplet(),
            won ==> self.winning_tile is None,
        ensures
            self.with_triplet(won).wf(),
    {
        reveal(FinderState::groups_placed);
        let n = self.with_triplet(won);
        let group = (TileGroup::Koutsu(self.curr), won);
        assert forall|k: int| 0 <= k < 34 implies #[trigger] n.pool[k] == copies_in(n.groups, k)
            && n.pool[k] <= 4 by {
            lemma_copies_push(self.groups, group, k);
        }
        lemma_copies_push(self.groups, group, 0);
        self.lemma_push_winner(n, group, won);
    }

    /// A run placed where it can be gives a state of the walk; its second
    /// and third kind had a tile free.
    pub proof fn lemma_with_run_wf(self, won: Option<u8>)
        requires
            self.wf(),
            self.can_run(),
            won matches Some(place) ==> place <= 2 && self.winning_tile is None,
        ensures
            self.with_run(won).wf(),
            self.pool[self.curr + 1] <= 3,
            self.pool[self.curr + 2] <= 3,
    {
        reveal(FinderState::groups_placed);
        let n = self.with_run(won);
        let group = (TileGroup::Shuntsu(self.curr), false);
        assert forall|k: int| 0 <= k < 34 implies #[trigger] n.pool[k] == copies_in(n.groups, k)
            && n.pool[k] <= 4 by {
            lemma_copies_push(self.groups, group, k);
        }
        lemma_copies_push(self.groups, group, 0);
        self.lemma_push_winner(n, group, won is Some);
    }
}

/// The tiles of the first `n` kinds of a pool, in increasing order.
pub open spec fn flatten(pool: Seq<u8>, n: nat) -> Seq<u8>
    decreases n,
{
    if n == 0 {
        Seq::empty()
    } else {
        flatten(pool, (n - 1) as nat) + Seq::new(pool[n - 1] as nat, |i: int| (n - 1) as u8)
    }
}

/// The thirteen tiles of a finished state before its winning tile arrives,
/// in increasing order.
pub open spec fn waiting_tiles(state: FinderState) -> Seq<u8> {
    let w = state.winning_tile->0 as int;
    flatten(state.pool.update(w, (state.pool[w] - 1) as u8), 34)
}

/// Which kinds a pool of counters holds at least once.
pub open spec fn presence(pool: Seq<u8>) -> Seq<bool> {
    Seq::new(34, |k: int| pool[k] != 0)
}

/// The flattened tiles are as many as the pool counts, all of kinds below `n`.
pub proof fn lemma_flatten(pool: Seq<u8>, n: nat)
    requires
        n <= pool.len() <= 256,
    ensures
        flatten(pool, n).len() == pool_total(pool, n),
        forall|i: int| 0 <= i < flatten(pool, n).len() ==> #[trigger] flatten(pool, n)[i] < n,
    decreases n,
{
    if n > 0 {
        let m = (n - 1) as nat;
        lemma_flatten(pool, m);
        let head = flatten(pool, m);
        let tail = Seq::new(pool[n - 1] as nat, |i: int| (n - 1) as u8);
        let all = flatten(pool, n);
        assert(all == head + tail);
        assert forall|i: int| 0 <= i < all.len() implies #[trigger] all[i] < n by {
            if i < head.len() {
                assert(all[i] == head[i]);
            } else {
                assert(all[i] == tail[i - head.len()]);
            }
        }
    }
}

/// Kind `k` occurs among the flattened tiles exactly if its counter is not zero.
pub proof fn lemma_flatten_holds(pool: Seq<u8>, n: nat, k: int)
    requires
        n <= pool.len() <= 256,
        0 <= k < n,
    ensures
        (exists|i: int| 0 <= i < flatten(pool, n).len() && flatten(pool, n)[i] == k) <==> pool[k]
            != 0,
    decreases n,
{
    let m = (n - 1) as nat;
    lemma_flatten(pool, m);
    let head = flatten(pool, m);
    let tail = Seq::new(pool[n - 1] as nat, |i: int| (n - 1) as u8);
    let all = flatten(pool, n);
    assert(all == head + tail);
    assert forall|i: int| head.len() <= i < all.len() implies all[i] == m by {
        assert(all[i] == tail[i - head.len()]);
    }
    assert forall|i: int| 0 <= i < head.len() implies all[i] == head[i] && all[i] < m by {}
    if k < m {
        lemma_flatten_holds(pool, m, k);
        if pool[k] != 0 {
            let i = choose|i: int| 0 <= i < head.len() && head[i] == k;
            assert(all[i] == k);
        }
        if exists|i: int| 0 <= i < all.len() && all[i] == k {
            let i = choose|i: int| 0 <= i < all.len() && all[i] == k;
            assert(i < head.len());
            assert(head[i] == k);
        }
    } else {
        if pool[k] != 0 {
            assert(all[head.len() as int] == k);
        }
        if exists|i: int| 0 <= i < all.len() && all[i] == k {
            let i = choose|i: int| 0 <= i < all.len() && all[i] == k;
            assert(i >= head.len());
        }
    }
}

/// The sum over more counters is no smaller.
pub proof fn lemma_pool_total_monotone(pool: Seq<u8>, m: nat, n: nat)
    requires
        m <= n,
    ensures
        pool_total(pool, m) <= pool_total(pool, n),
    decreases n,
{
    if m < n {
        lemma_pool_total_monotone(pool, m, (n - 1) as nat);
    }
}

/// Changing one counter changes the sum by as much.
pub proof fn lemma_pool_total_update(pool: Seq<u8>, k: int, v: u8, n: nat)
    requires
        0 <= k < pool.len(),
        n <= pool.len(),
    ensures
        pool_total(pool.update(k, v), n) == pool_total(pool, n) + (if k < n {
            v - pool[k]
        } else {
            0
        }),
    decreases n,
{
    if n > 0 {
        lemma_pool_total_update(pool, k, v, (n - 1) as nat);
    }
}

/// Sum over the first `n` kinds of the tiles that a group holds.
pub open spec fn group_total(group: TileGroup, n: nat) -> nat
    decreases n,
{
    if n == 0 {
        0
    } else {
        group_total(group, (n - 1) as nat) + group.copies(n - 1)
    }
}

proof fn lemma_group_total(group: TileGroup, n: nat)
    requires
        group.valid(),
    ensures
        group_total(group, n) == match group {
            TileGroup::Toitsu(t) => if t < n { 2nat } else { 0nat },
            TileGroup::Koutsu(t) => if t < n { 3nat } else { 0nat },
            TileGroup::Shuntsu(t) => if n <= t {
                0nat
            } else if n >= t + 3 {
                3nat
            } else {
                (n - t) as nat
            },
        },
    decreases n,
{
    if n > 0 {
        lemma_group_total(group, (n - 1) as nat);
    }
}

/// Sum over the first `n` kinds of the tiles that the groups hold.
pub open spec fn copies_total(groups: Seq<(TileGroup, bool)>, n: nat) -> nat
    decreases n,
{
    if n == 0 {
        0
    } else {
        copies_total(groups, (n - 1) as nat) + copies_in(groups, n - 1)
    }
}

proof fn lemma_copies_total_push(groups: Seq<(TileGroup, bool)>, g: (TileGroup, bool), n: nat)
    ensures
        copies_total(groups.push(g), n) == copies_total(groups, n) + group_total(g.0, n),
    decreases n,
{
    if n > 0 {
        lemma_copies_total_push(groups, g, (n - 1) as nat);
        lemma_copies_push(groups, g, n - 1);
    }
}

/// Valid groups hold two tiles for each pair and three for each other group.
pub proof fn lemma_copies_total(groups: Seq<(TileGroup, bool)>)
    requires
        forall|i: int| 0 <= i < groups.len() ==> (#[trigger] groups[i]).0.valid(),
    ensures
        copies_total(groups, 34) == 3 * groups.len() - pairs_in(groups),
    decreases groups.len(),
{
    if groups.len() == 0 {
        assert forall|n: nat| copies_total(groups, n) == 0 by {
            lemma_copies_total_empty(groups, n);
        }
    } else {
        let init = groups.drop_last();
        let g = groups.last();
        assert(groups =~= init.push(g));
        lemma_copies_total(init);
        lemma_copies_total_push(init, g, 34);
        lemma_group_total(g.0, 34);
        lemma_copies_push(init, g, 0);
    }
}

proof fn lemma_copies_total_empty(groups: Seq<(TileGroup, bool)>, n: nat)
    requires
        groups.len() == 0,
    ensures
        copies_total(groups, n) == 0,
    decreases n,
{
    if n > 0 {
        lemma_copies_total_empty(groups, (n - 1) as nat);
    }
}

proof fn lemma_pool_is_copies(pool: Seq<u8>, groups: Seq<(TileGroup, bool)>, n: nat)
    requires
        n <= pool.len(),
        forall|k: int| 0 <= k < n ==> #[trigger] pool[k] == copies_in(groups, k),
    ensures
        pool_total(pool, n) == copies_total(groups, n),
    decreases n,
{
    if n > 0 {
        lemma_pool_is_copies(pool, groups, (n - 1) as nat);
    }
}

proof fn lemma_copies_of_member(groups: Seq<(TileGroup, bool)>, g: int, k: int)
    requires
        0 <= g < groups.len(),
    ensures
        copies_in(groups, k) >= groups[g].0.copies(k),
    decreases groups.len(),
{
    if g < groups.len() - 1 {
        lemma_copies_of_member(groups.drop_last(), g, k);
    }
}

impl FinderState {
    /// A finished state holds fourteen tiles in five groups, one of them a
    /// pair, and its winning tile is one of the fourteen.
    pub proof fn lemma_finished(self)
        requires
            self.wf(),
            self.finished(),
        ensures
            self.groups.len() == 5,
            pairs_in(self.groups) == 1,
            pool_total(self.pool, 34) == 14,
            is_tile(self.winning_tile->0),
            self.pool[self.winning_tile->0 as int] >= 1,
    {
        reveal(FinderState::groups_placed);
        lemma_copies_total(self.groups);
        lemma_pool_is_copies(self.pool, self.groups, 34);
        let w = self.winning_tile->0;
        let g = choose|g: int| #[trigger] self.winner_in(w, g);
        lemma_copies_of_member(self.groups, g, w as int);
        assert(self.groups[g].0.valid());
    }

    /// Every state that the walk reports is well formed and finished.
    pub proof fn lemma_emitted_finished(self)
        requires
            self.wf(),
        ensures
            all_finished(self.emitted()),
        decreases 34 - self.curr, self.stage_rank(), 4 - self.nmentsu,
    {
        let none = Seq::<FinderState>::empty();
        match self.stage {
            FinderStage::Toitsu => {
                let won = if self.can_pair() && self.winning_tile is None {
                    self.lemma_with_pair_wf(true);
                    self.with_pair(true).lemma_emitted_finished();
                    self.with_pair(true).emitted()
                } else {
                    none
                };
                let plain = if self.can_pair() {
                    self.lemma_with_pair_wf(false);
                    self.with_pair(false).lemma_emitted_finished();
                    self.with_pair(false).emitted()
                } else {
                    none
                };
                self.lemma_with_stage_wf(FinderStage::Koutsu);
                self.with_stage(FinderStage::Koutsu).lemma_emitted_finished();
                let skip = self.with_stage(FinderStage::Koutsu).emitted();
                lemma_all_finished_concat(won, plain);
                lemma_all_finished_concat(won + plain, skip);
                assert(self.emitted() =~= won + plain + skip);
            },
            FinderStage::Koutsu => {
                let won = if self.can_triplet() && self.winning_tile is None {
                    self.lemma_with_triplet_wf(true);
                    self.with_triplet(true).lemma_emitted_finished();
                    self.with_triplet(true).emitted()
                } else {
                    none
                };
                let plain = if self.can_triplet() {
                    self.lemma_with_triplet_wf(false);
                    self.with_triplet(false).lemma_emitted_finished();
                    self.with_triplet(false).emitted()
                } else {
                    none
                };
                self.lemma_with_stage_wf(FinderStage::Shuntsu);
                self.with_stage(FinderStage::Shuntsu).lemma_emitted_finished();
                let skip = self.with_stage(FinderStage::Shuntsu).emitted();
                lemma_all_finished_concat(won, plain);
                lemma_all_finished_concat(won + plain, skip);
                assert(self.emitted() =~= won + plain + skip);
            },
            FinderStage::Shuntsu => {
                let won = if self.can_run() && self.winning_tile is None {
                    self.lemma_with_run_wf(Some(0u8));
                    self.with_run(Some(0u8)).lemma_emitted_finished();
                    self.lemma_with_run_wf(Some(1u8));
                    self.with_run(Some(1u8)).lemma_emitted_finished();
                    self.lemma_with_run_wf(Some(2u8));
                    self.with_run(Some(2u8)).lemma_emitted_finished();
                    let a = self.with_run(Some(0u8)).emitted();
                    let b = self.with_run(Some(1u8)).emitted();
                    let c = self.with_run(Some(2u8)).emitted();
                    lemma_all_finished_concat(a, b);
                    lemma_all_finished_concat(a + b, c);
                    a + b + c
                } else {
                    none
                };
                let plain = if self.can_run() {
                    self.lemma_with_run_wf(None);
                    self.with_run(None).lemma_emitted_finished();
                    self.with_run(None).emitted()
                } else {
                    none
                };
                self.lemma_with_stage_wf(FinderStage::Check);
                self.with_stage(FinderStage::Check).lemma_emitted_finished();
                let skip = self.with_stage(FinderStage::Check).emitted();
                lemma_all_finished_concat(won, plain);
                lemma_all_finished_concat(won + plain, skip);
                assert(self.emitted() =~= won + plain + skip);
            },
            FinderStage::Check => {
                if !self.finished() && self.curr + 1 < 34 {
                    self.lemma_with_next_kind_wf();
                    self.with_next_kind().lemma_emitted_finished();
                }
            },
        }
    }
}

/// Every state of the sequence is a well-formed finished hand.
pub open spec fn all_finished(found: Seq<FinderState>) -> bool {
    forall|i: int| 0 <= i < found.len() ==> (#[trigger] found[i]).wf() && found[i].emits()
}

proof fn lemma_all_finished_concat(a: Seq<FinderState>, b: Seq<FinderState>)
    requires
        all_finished(a),
        all_finished(b),
    ensures
        all_finished(a + b),
{
    assert forall|i: int| 0 <= i < (a + b).len() implies (#[trigger] (a + b)[i]).wf() && (a
        + b)[i].emits() by {
        if i < a.len() {
            assert((a + b)[i] == a[i]);
        } else {
            assert((a + b)[i] == b[i - a.len()]);
        }
    }
}

/// The mathematical values of a stack of states.
pub open spec fn states(stack: Seq<Finder>) -> Seq<FinderState> {
    stack.map_values(|f: Finder| f@)
}

/// Every state of the stack is a state of the walk.
pub open spec fn all_wf(stack: Seq<FinderState>) -> bool {
    forall|i: int| 0 <= i < stack.len() ==> (#[trigger] stack[i]).wf()
}

/// What a walk reports that visits the states of a stack from its top down.
pub open spec fn pending_emitted(stack: Seq<FinderState>) -> Seq<FinderState>
    decreases stack.len(),
{
    if stack.len() == 0 {
        Seq::empty()
    } else {
        stack.last().emitted() + pending_emitted(stack.drop_last())
    }
}

/// Number of states that a walk from a stack still visits.
pub open spec fn pending_work(stack: Seq<FinderState>) -> nat
    decreases stack.len(),
{
    if stack.len() == 0 {
        0
    } else {
        stack.last().work() + pending_work(stack.drop_last())
    }
}

proof fn lemma_pending_push(stack: Seq<Finder>, f: Finder)
    ensures
        states(stack.push(f)) == states(stack).push(f@),
        pending_emitted(states(stack.push(f))) == f@.emitted() + pending_emitted(states(stack)),
        pending_work(states(stack.push(f))) == f@.work() + pending_work(states(stack)),
        all_wf(states(stack)) && f@.wf() ==> all_wf(states(stack.push(f))),
{
    assert(states(stack.push(f)) =~= states(stack).push(f@));
    assert(states(stack).push(f@).drop_last() =~= states(stack));
}

impl View for Finder {
    type V = FinderState;

    open spec fn view(&self) -> FinderState {
        FinderState {
            groups: self.partitions.group_items@,
            is_singular_wait: self.partitions.is_singular_wait,
            pool: self.pool@,
            winning_tile: self.winning_tile,
            toitsu: self.toitsu,
            nmentsu: self.nmentsu,
            stage: self.stage,
            curr: self.curr,
        }
    }
}

/// The state that a walk starts from: nothing placed, at kind `first`.
pub open spec fn start_state(first: u8) -> FinderState {
    FinderState {
        groups: Seq::empty(),
        is_singular_wait: false,
        pool: Seq::new(34, |k: int| 0u8),
        winning_tile: None,
        toitsu: None,
        nmentsu: 0,
        stage: FinderStage::Toitsu,
        curr: first,
    }
}

impl Finder {
    /// The start of the walk over all standard hands.
    pub fn new() -> (finder: Finder)
        ensures
            finder@ == start_state(0),
            finder@.wf(),
    {
        Finder::from_tile(0)
    }

    /// The start of a walk that places groups at kind `first` and above only.
    pub fn from_tile(first: u8) -> (finder: Finder)
        requires
            is_tile(first),
        ensures
            finder@ == start_state(first),
            finder@.wf(),
    {
        let finder = Finder {
            partitions: PartitionedHand { group_items: Vec::new(), is_singular_wait: false },
            pool: [0; 34],
            winning_tile: None,
            toitsu: None,
            nmentsu: 0,
            stage: FinderStage::Toitsu,
            curr: first,
        };
        proof {
            reveal(FinderState::groups_placed);
            assert(finder@.pool =~= start_state(first).pool);
        }
        finder
    }

    /// How many tiles of the current kind are used.
    fn curr_num(&self) -> (num: u8)
        requires
            is_tile(self.curr),
        ensures
            num == self@.pool[self.curr as int],
    {
        self.pool[self.curr as usize]
    }

    /// Whether the pair is still missing.
    fn need_toitsu(&self) -> (need: bool)
        ensures
            need == (self.toitsu is None),
    {
        self.toitsu.is_none()
    }

    /// Whether a group is still missing.
    fn need_mentsu(&self) -> (need: bool)
        ensures
            need == (self.nmentsu != 4),
    {
        self.nmentsu != 4
    }

    /// Whether one pair, four groups and a winning tile are placed.
    fn finished(&self) -> (done: bool)
        ensures
            done == self@.finished(),
    {
        !self.need_mentsu() && !self.need_toitsu() && self.winning_tile.is_some()
    }

    /// A copy of the state.
    pub fn dup(&self) -> (copy: Finder)
        ensures
            copy@ == self@,
    {
        let mut items: Vec<(TileGroup, bool)> = Vec::new();
        let n = self.partitions.group_items.len();
        for i in 0..n
            invariant
                n == self.partitions.group_items@.len(),
                items@ == self.partitions.group_items@.subrange(0, i as int),
        {
            items.push(self.partitions.group_items[i]);
            assert(items@ =~= self.partitions.group_items@.subrange(0, i + 1));
        }
        assert(items@ =~= self.partitions.group_items@);
        Finder {
            partitions: PartitionedHand {
                group_items: items,
                is_singular_wait: self.partitions.is_singular_wait,
            },
            pool: self.pool,
            winning_tile: self.winning_tile,
            toitsu: self.toitsu,
            nmentsu: self.nmentsu,
            stage: self.stage,
            curr: self.curr,
        }
    }

    /// The state at a later stage of the current kind.
    fn staged(&self, stage: FinderStage) -> (next: Finder)
        requires
            self@.wf(),
        ensures
            next@ == self@.with_stage(stage),
            next@.wf(),
    {
        let mut next = self.dup();
        next.stage = stage;
        proof {
            self@.lemma_with_stage_wf(stage);
        }
        next
    }

    /// The state with a pair of the current kind placed.
    fn paired(&self, won: bool) -> (next: Finder)
        requires
            self@.wf(),
            self@.can_pair(),
            won ==> self.winning_tile is None,
        ensures
            next@ == self@.with_pair(won),
            next@.wf(),
    {
        let mut next = self.dup();
        next.stage = FinderStage::Shuntsu;
        next.partitions.group_items.push((crate::utils::toitsu_of_tile(next.curr), false));
        next.toitsu = Some(next.curr);
        next.pool[next.curr as usize] += 2;
        if won {
            next.winning_tile = Some(next.curr);
            next.partitions.is_singular_wait = true;
        }
        proof {
            self@.lemma_with_pair_wf(won);
            assert(next@.pool =~= self@.with_pair(won).pool);
        }
        next
    }

    /// The state with a triplet of the current kind placed.
    fn tripled(&self, won: bool) -> (next: Finder)
        requires
            self@.wf(),
            self@.can_triplet(),
            won ==> self.winning_tile is None,
        ensures
            next@ == self@.with_triplet(won),
            next@.wf(),
    {
        let mut next = self.dup();
        next.stage = FinderStage::Shuntsu;
        next.nmentsu += 1;
        next.pool[next.curr as usize] += 3;
        next.partitions.group_items.push((crate::utils::koutsu_of_tile(next.curr), won));
        if won {
            next.winning_tile = Some(next.curr);
        }
        proof {
            self@.lemma_with_triplet_wf(won);
            assert(next@.pool =~= self@.with_triplet(won).pool);
        }
        next
    }

    /// The state with a run from the current kind placed.
    fn ran(&self, won: Option<u8>) -> (next: Finder)
        requires
            self@.wf(),
            self@.can_run(),
            won matches Some(place) ==> place <= 2 && self.winning_tile is None,
        ensures
            next@ == self@.with_run(won),
            next@.wf(),
    {
        proof {
            self@.lemma_with_run_wf(won);
        }
        let mut next = self.dup();
        let curr = next.curr;
        let first = curr as usize;
        next.partitions.group_items.push((TileGroup::Shuntsu(curr), false));
        next.nmentsu += 1;
        next.pool[first] += 1;
        next.pool[first + 1] += 1;
        next.pool[first + 2] += 1;
        match won {
            Some(place) => {
                next.winning_tile = Some(curr + place);
                next.partitions.is_singular_wait = place == 1 || (place == 2 && curr % 9 == 0) || (
                place == 0 && curr % 9 == 6);
            },
            None => {},
        }
        proof {
            assert(next@.pool =~= self@.with_run(won).pool);
        }
        next
    }

    /// The state at the first stage of the next kind.
    fn advanced(&self) -> (next: Finder)
        requires
            self@.wf(),
            self.curr + 1 < 34,
        ensures
            next@ == self@.with_next_kind(),
            next@.wf(),
    {
        let mut next = self.dup();
        next.curr = next.curr + 1;
        next.stage = FinderStage::Toitsu;
        proof {
            self@.lemma_with_next_kind_wf();
        }
        next
    }

    /// The flags that a verdict of the scoring rules gives a hand.
    pub fn get_flags(score: &Score) -> (flags: u8)
        ensures
            flags == flags_of_score(*score),
    {
        match score {
            Score::Done => store::MASK_TRUE_ALWAYS,
            Score::Name(agenda_names) => {
                let mut pinfu = false;
                let mut ton = false;
                let mut nan = false;
                let mut shaa = false;
                let mut pei = false;
                let mut pair_ton = false;
                let mut pair_nan = false;
                let mut pair_shaa = false;
                let mut pair_pei = false;
                let n = agenda_names.len();
                let ghost names = agenda_names@;
                for i in 0..n
                    invariant
                        n == names.len(),
                        names == agenda_names@,
                        pinfu == seen(names, i as int, AgendaName::Pinfu),
                        ton == seen(names, i as int, AgendaName::YakuhaiTon),
                        nan == seen(names, i as int, AgendaName::YakuhaiNan),
                        shaa == seen(names, i as int, AgendaName::YakuhaiShaa),
                        pei == seen(names, i as int, AgendaName::YakuhaiPei),
                        pair_ton == seen(names, i as int, AgendaName::YakuhaiJantouTon),
                        pair_nan == seen(names, i as int, AgendaName::YakuhaiJantouNan),
                        pair_shaa == seen(names, i as int, AgendaName::YakuhaiJantouShaa),
                        pair_pei == seen(names, i as int, AgendaName::YakuhaiJantouPei),
                {
                    match agenda_names[i] {
                        AgendaName::Pinfu => pinfu = true,
                        AgendaName::YakuhaiTon => ton = true,
                        AgendaName::YakuhaiNan => nan = true,
                        AgendaName::YakuhaiShaa => shaa = true,
                        AgendaName::YakuhaiPei => pei = true,
                        AgendaName::YakuhaiJantouTon => pair_ton = true,
                        AgendaName::YakuhaiJantouNan => pair_nan = true,
                        AgendaName::YakuhaiJantouShaa => pair_shaa = true,
                        AgendaName::YakuhaiJantouPei => pair_pei = true,
                        AgendaName::Other => {},
                    }
                }
                let any: u8 = (if ton { store::ANY_TON } else { 0 }) | (if nan {
                    store::ANY_NAN
                } else {
                    0
                }) | (if shaa { store::ANY_SHA } else { 0 }) | (if pei { store::ANY_PEI } else { 0 });
                if pinfu {
                    let not_any: u8 = (if pair_nan { store::NOT_ANY_NAN } else { 0 }) | (
                    if pair_shaa {
                        store::NOT_ANY_SHA
                    } else {
                        0
                    }) | (if pair_pei { store::NOT_ANY_PEI } else { 0 });
                    let pending = pair_ton || pair_nan || pair_shaa || pair_pei;
                    any | not_any | (if pending { 0 } else { store::MASK_TRUE_ALWAYS })
                } else {
                    any | (if any == 0 { store::MASK_FALSE_IF_RON } else { 0 })
                }
            },
        }
    }

    /// The hand of a finished state: the thirteen tiles before the winning
    /// tile in increasing order, then the winning tile; the kinds it holds;
    /// and the flags that the verdict `score` of the scoring rules gives it.
    pub fn to_handle(self, score: &Score) -> (handle: Handle)
        requires
            self@.wf(),
            self@.finished(),
        ensures
            handle.hand@ == waiting_tiles(self@).push(self.winning_tile->0),
            handle.pool@ == presence(self@.pool),
            handle.flags == flags_of_score(*score),
            handle.wf(),
    {
        let ghost state = self@;
        proof {
            state.lemma_finished();
        }
        let mut pool = [false; 34];
        for i in 0..34usize
            invariant
                forall|k: int| 0 <= k < i ==> pool@[k] == (self.pool@[k] != 0),
        {
            pool[i] = self.pool[i] != 0;
        }
        assert(pool@ =~= presence(state.pool));

        let winning_tile = match self.winning_tile {
            Some(tile) => tile,
            None => 0,
        };
        let mut counts = self.pool;
        counts[winning_tile as usize] -= 1;
        let ghost waiting = counts@;
        proof {
            lemma_pool_total_update(state.pool, winning_tile as int, counts@[winning_tile as int], 34);
            assert(waiting =~= state.pool.update(
                winning_tile as int,
                (state.pool[winning_tile as int] - 1) as u8,
            ));
            lemma_flatten(waiting, 34);
        }
        let mut hand = [0u8; 14];
        let mut filled: usize = 0;
        for i in 0..34usize
            invariant
                counts@ == waiting,
                pool_total(waiting, 34) == 13,
                filled == pool_total(waiting, i as nat),
                filled <= 13,
                hand@.subrange(0, filled as int) == flatten(waiting, i as nat),
        {
            let count = counts[i];
            proof {
                lemma_pool_total_monotone(waiting, (i + 1) as nat, 34);
            }
            let ghost before = hand@.subrange(0, filled as int);
            let ghost start = filled;
            for j in 0..count
                invariant
                    i < 34,
                    waiting.len() == 34,
                    count == waiting[i as int],
                    start == pool_total(waiting, i as nat),
                    start + count <= 13,
                    filled == start + j,
                    hand@.subrange(0, filled as int) == before + Seq::new(
                        j as nat,
                        |x: int| i as u8,
                    ),
            {
                let ghost prior = hand@;
                hand[filled] = i as u8;
                filled += 1;
                assert(hand@ == prior.update(filled - 1, i as u8));
                assert(prior.subrange(0, filled - 1) == before + Seq::new(
                    j as nat,
                    |x: int| i as u8,
                ));
                assert(hand@.subrange(0, filled as int) =~= prior.subrange(0, filled - 1).push(
                    i as u8,
                ));
                assert(hand@.subrange(0, filled as int) =~= before + Seq::new(
                    (j + 1) as nat,
                    |x: int| i as u8,
                ));
            }
        }
        assert(hand@.subrange(0, 13) == flatten(waiting, 34));
        hand[13] = winning_tile;
        assert(hand@ =~= flatten(waiting, 34).push(winning_tile));
        let flags = Self::get_flags(score);
        let handle = Handle { hand, pool, flags };
        proof {
            let tiles = flatten(waiting, 34);
            assert forall|k: int| 0 <= k < 34 implies pool@[k] == crate::handle::pool_of(hand@)[k] by {
                lemma_flatten_holds(waiting, 34, k);
                if k == winning_tile {
                    assert(hand@[13] == k);
                } else {
                    assert(waiting[k] == state.pool[k]);
                    if state.pool[k] != 0 {
                        let i = choose|i: int| 0 <= i < tiles.len() && tiles[i] == k;
                        assert(hand@[i] == k);
                    }
                    if exists|i: int| 0 <= i < hand@.len() && hand@[i] == k {
                        let i = choose|i: int| 0 <= i < hand@.len() && hand@[i] == k;
                        assert(tiles[i] == k);
                    }
                }
            }
            assert(pool@ =~= crate::handle::pool_of(hand@));
            assert forall|i: int| 0 <= i < 14 implies #[trigger] hand@[i] < 34 by {
                if i < 13 {
                    assert(hand@[i] == tiles[i]);
                }
            }
        }
        handle
    }

    /// Runs the walk from the states on `pending` up to its next finished
    /// hand. `None` says that the walk is over.
    pub fn search(pending: &mut Vec<Finder>) -> (found: Option<Finder>)
        requires
            all_wf(states(old(pending)@)),
        ensures
            all_wf(states(final(pending)@)),
            match found {
                Some(f) => {
                    &&& f@.wf()
                    &&& f@.emits()
                    &&& pending_emitted(states(old(pending)@)) == seq![f@] + pending_emitted(
                        states(final(pending)@),
                    )
                },
                None => {
                    &&& pending_emitted(states(old(pending)@)).len() == 0
                    &&& final(pending)@.len() == 0
                },
            },
    {
        let ghost awaited = pending_emitted(states(pending@));
        loop
            invariant
                all_wf(states(pending@)),
                pending_emitted(states(pending@)) == awaited,
                awaited == pending_emitted(states(old(pending)@)),
            decreases pending_work(states(pending@)),
        {
            let ghost before = pending@;
            match pending.pop() {
                None => {
                    return None;
                },
                Some(finder) => {
                    proof {
                        assert(before =~= pending@.push(finder));
                        lemma_pending_push(pending@, finder);
                        assert(states(before)[before.len() - 1].wf());
                        assert forall|i: int| 0 <= i < pending@.len() implies (#[trigger] states(
                            pending@,
                        )[i]).wf() by {
                            assert(states(before)[i].wf());
                        }
                    }
                    match finder.next(pending) {
                        Some(done) => {
                            assert(awaited =~= seq![done@] + pending_emitted(states(pending@)));
                            return Some(done);
                        },
                        None => {},
                    }
                },
            }
        }
    }

    /// The step at the stage of the pair.
    fn next_toitsu(&self, pending: &mut Vec<Finder>)
        requires
            self@.wf(),
            all_wf(states(old(pending)@)),
            self.stage is Toitsu,
        ensures
            all_wf(states(final(pending)@)),
            pending_emitted(states(final(pending)@)) == self@.emitted() + pending_emitted(
                states(old(pending)@),
            ),
            pending_work(states(final(pending)@)) + 1 == self@.work() + pending_work(
                states(old(pending)@),
            ),
    {
        let ghost rest = pending_emitted(states(pending@));
        let skip = self.staged(FinderStage::Koutsu);
        proof {
            lemma_pending_push(pending@, skip);
        }
        pending.push(skip);
        if self.need_toitsu() && self.curr_num() <= 2 {
            let plain = self.paired(false);
            proof {
                lemma_pending_push(pending@, plain);
            }
            pending.push(plain);
            if self.winning_tile.is_none() {
                let won = self.paired(true);
                proof {
                    lemma_pending_push(pending@, won);
                }
                pending.push(won);
            }
        }
        assert(pending_emitted(states(pending@)) =~= self@.emitted() + rest);
    }

    /// The step at the stage of the triplet.
    fn next_koutsu(&self, pending: &mut Vec<Finder>)
        requires
            self@.wf(),
            all_wf(states(old(pending)@)),
            self.stage is Koutsu,
        ensures
            all_wf(states(final(pending)@)),
            pending_emitted(states(final(pending)@)) == self@.emitted() + pending_emitted(
                states(old(pending)@),
            ),
            pending_work(states(final(pending)@)) + 1 == self@.work() + pending_work(
                states(old(pending)@),
            ),
    {
        let ghost rest = pending_emitted(states(pending@));
        let skip = self.staged(FinderStage::Shuntsu);
        proof {
            lemma_pending_push(pending@, skip);
        }
        pending.push(skip);
        if self.need_mentsu() && self.curr_num() <= 1 {
            let plain = self.tripled(false);
            proof {
                lemma_pending_push(pending@, plain);
            }
            pending.push(plain);
            if self.winning_tile.is_none() {
                let won = self.tripled(true);
                proof {
                    lemma_pending_push(pending@, won);
                }
                pending.push(won);
            }
        }
        assert(pending_emitted(states(pending@)) =~= self@.emitted() + rest);
    }

    /// Puts on the stack the three states in which the winning tile
    /// completed a run from the current kind.
    fn push_won_runs(&self, pending: &mut Vec<Finder>)
        requires
            self@.wf(),
            all_wf(states(old(pending)@)),
            self@.can_run(),
            self.winning_tile is None,
        ensures
            all_wf(states(final(pending)@)),
            pending_emitted(states(final(pending)@)) == self@.with_run(Some(0u8)).emitted()
                + self@.with_run(Some(1u8)).emitted() + self@.with_run(Some(2u8)).emitted()
                + pending_emitted(states(old(pending)@)),
            pending_work(states(final(pending)@)) == self@.with_run(Some(0u8)).work()
                + self@.with_run(Some(1u8)).work() + self@.with_run(Some(2u8)).work()
                + pending_work(states(old(pending)@)),
    {
        let ghost rest = pending_emitted(states(pending@));
        let last = self.ran(Some(2));
        proof {
            lemma_pending_push(pending@, last);
        }
        pending.push(last);
        let middle = self.ran(Some(1));
        proof {
            lemma_pending_push(pending@, middle);
        }
        pending.push(middle);
        let first = self.ran(Some(0));
        proof {
            lemma_pending_push(pending@, first);
        }
        pending.push(first);
        assert(pending_emitted(states(pending@)) =~= first@.emitted() + middle@.emitted()
            + last@.emitted() + rest);
    }

    /// The step at the stage of the runs.
    fn next_shuntsu(&self, pending: &mut Vec<Finder>)
        requires
            self@.wf(),
            all_wf(states(old(pending)@)),
            self.stage is Shuntsu,
        ensures
            all_wf(states(final(pending)@)),
            pending_emitted(states(final(pending)@)) == self@.emitted() + pending_emitted(
                states(old(pending)@),
            ),
            pending_work(states(final(pending)@)) + 1 == self@.work() + pending_work(
                states(old(pending)@),
            ),
    {
        let ghost rest = pending_emitted(states(pending@));
        let skip = self.staged(FinderStage::Check);
        proof {
            lemma_pending_push(pending@, skip);
        }
        pending.push(skip);
        let shuntsu = crate::utils::shuntsu_of_tile(self.curr);
        if self.need_mentsu() && self.curr_num() <= 3 && shuntsu.is_some() {
            let plain = self.ran(None);
            proof {
                lemma_pending_push(pending@, plain);
            }
            pending.push(plain);
            if self.winning_tile.is_none() {
                self.push_won_runs(pending);
            }
        }
        assert(pending_emitted(states(pending@)) =~= self@.emitted() + rest);
    }

    /// The step of an unfinished state at the last stage of a kind.
    fn next_check(&self, pending: &mut Vec<Finder>)
        requires
            self@.wf(),
            all_wf(states(old(pending)@)),
            self.stage is Check,
            !self@.finished(),
        ensures
            all_wf(states(final(pending)@)),
            pending_emitted(states(final(pending)@)) == self@.emitted() + pending_emitted(
                states(old(pending)@),
            ),
            pending_work(states(final(pending)@)) + 1 == self@.work() + pending_work(
                states(old(pending)@),
            ),
    {
        let ghost rest = pending_emitted(states(pending@));
        match crate::utils::next_tile(self.curr) {
            Some(_) => {
                let moved = self.advanced();
                proof {
                    lemma_pending_push(pending@, moved);
                }
                pending.push(moved);
            },
            None => {},
        }
        assert(pending_emitted(states(pending@)) =~= self@.emitted() + rest);
    }

    /// One step of the walk. A finished hand is handed back; from any other
    /// state, the states that follow it are put on `pending`, the one to
    /// visit first on top.
    pub fn next(self, pending: &mut Vec<Finder>) -> (found: Option<Finder>)
        requires
            self@.wf(),
            all_wf(states(old(pending)@)),
        ensures
            all_wf(states(final(pending)@)),
            match found {
                Some(f) => self@.emits() && f@ == self@ && final(pending)@ == old(pending)@,
                None => {
                    &&& !self@.emits()
                    &&& pending_emitted(states(final(pending)@)) == self@.emitted()
                        + pending_emitted(states(old(pending)@))
                    &&& pending_work(states(final(pending)@)) + 1 == self@.work() + pending_work(
                        states(old(pending)@),
                    )
                },
            },
    {
        match self.stage {
            FinderStage::Toitsu => {
                self.next_toitsu(pending);
                None
            },
            FinderStage::Koutsu => {
                self.next_koutsu(pending);
                None
            },
            FinderStage::Shuntsu => {
                self.next_shuntsu(pending);
                None
            },
            FinderStage::Check => {
                if self.finished() {
                    Some(self)
                } else {
                    self.next_check(pending);
                    None
                }
            },
        }
    }
}

/// The hand with the tile at place `p` taken out and put last.
pub open spec fn move_to_end(hand: Seq<u8>, p: int) -> Seq<u8> {
    Seq::new(
        hand.len(),
        |j: int|
            if j == hand.len() - 1 {
                hand[p]
            } else if j < p {
                hand[j]
            } else {
                hand[j + 1]
            },
    )
}

/// Moving a tile to the end changes no kind's presence.
pub proof fn lemma_move_to_end_pool(hand: Seq<u8>, p: int)
    requires
        0 <= p < hand.len(),
    ensures
        crate::handle::pool_of(move_to_end(hand, p)) == crate::handle::pool_of(hand),
{
    let moved = move_to_end(hand, p);
    assert forall|k: int| 0 <= k < 34 implies crate::handle::pool_of(moved)[k]
        == crate::handle::pool_of(hand)[k] by {
        if exists|i: int| 0 <= i < hand.len() && hand[i] == k {
            let i = choose|i: int| 0 <= i < hand.len() && hand[i] == k;
            if i == p {
                assert(moved[hand.len() - 1] == k);
            } else if i < p {
                assert(moved[i] == k);
            } else {
                assert(moved[i - 1] == k);
            }
        }
        if exists|i: int| 0 <= i < moved.len() && moved[i] == k {
            let i = choose|i: int| 0 <= i < moved.len() && moved[i] == k;
            if i == hand.len() - 1 {
                assert(hand[p] == k);
            } else if i < p {
                assert(hand[i] == k);
            } else {
                assert(hand[i + 1] == k);
            }
        }
    }
    assert(crate::handle::pool_of(moved) =~= crate::handle::pool_of(hand));
}

/// The hand with its tile at place `p` moved to the last place, where the
/// winning tile stands.
pub fn rotate(hand: &[u8; 14], p: usize) -> (moved: [u8; 14])
    requires
        p < 14,
    ensures
        moved@ == move_to_end(hand@, p as int),
{
    let mut moved = [0u8; 14];
    for j in 0..13usize
        invariant
            p < 14,
            forall|x: int| 0 <= x < j ==> moved@[x] == move_to_end(hand@, p as int)[x],
    {
        moved[j] = if j < p { hand[j] } else { hand[j + 1] };
    }
    moved[13] = hand[p];
    assert(moved@ =~= move_to_end(hand@, p as int));
    moved
}

/// A state of the walk over seven-pairs hands: the pairs chosen so far, in
/// increasing order of kind, and the kind to decide on next.
#[derive(Clone, Copy, Debug)]
pub struct ChiitoiFinder {
    pub hand: [u8; 14],
    pub pool: [bool; 34],
    pub npairs: usize,
    pub curr: u8,
}

/// The mathematical value of a `ChiitoiFinder`.
pub struct ChiitoiState {
    pub hand: Seq<u8>,
    pub pool: Seq<bool>,
    pub npairs: usize,
    pub curr: u8,
}

impl ChiitoiState {
    /// Seven pairs are chosen.
    pub open spec fn finished(self) -> bool {
        self.npairs == 7
    }

    /// The current kind is left out.
    pub open spec fn with_skip(self) -> ChiitoiState {
        ChiitoiState { curr: (self.curr + 1) as u8, ..self }
    }

    /// The current kind becomes the next pair.
    pub open spec fn with_take(self) -> ChiitoiState {
        ChiitoiState {
            hand: self.hand.update(2 * self.npairs, self.curr).update(
                2 * self.npairs + 1,
                self.curr,
            ),
            pool: self.pool.update(self.curr as int, true),
            npairs: (self.npairs + 1) as usize,
            curr: (self.curr + 1) as u8,
        }
    }

    /// The finished states that the walk reports from this state on, in the
    /// order in which it reports them.
    pub open spec fn emitted(self) -> Seq<ChiitoiState>
        decreases 34 - self.curr,
    {
        if self.finished() {
            seq![self]
        } else if self.curr < 34 {
            self.with_skip().emitted() + self.with_take().emitted()
        } else {
            Seq::empty()
        }
    }

    /// Number of states that the walk visits from this state on.
    pub open spec fn work(self) -> nat
        decreases 34 - self.curr,
    {
        if self.finished() {
            1
        } else if self.curr < 34 {
            1 + self.with_skip().work() + self.with_take().work()
        } else {
            1
        }
    }

    /// The kind of the `i`-th pair.
    pub open spec fn pair_kind(self, i: int) -> u8 {
        self.hand[2 * i]
    }

    /// The pairs chosen so far are of distinct kinds below the current one,
    /// in increasing order, and the pool holds exactly their kinds.
    #[verifier::opaque]
    pub open spec fn wf(self) -> bool {
        &&& self.hand.len() == 14
        &&& self.pool.len() == 34
        &&& self.npairs <= 7
        &&& self.curr <= 34
        &&& forall|i: int|
            0 <= i < self.npairs ==> #[trigger] self.pair_kind(i) == self.hand[2 * i + 1]
                && self.pair_kind(i) < self.curr
        &&& forall|i: int|
            0 <= i < self.npairs - 1 ==> #[trigger] self.pair_kind(i) < self.pair_kind(i + 1)
        &&& forall|j: int| 2 * self.npairs <= j < 14 ==> #[trigger] self.hand[j] == 0
        &&& forall|k: int|
            0 <= k < 34 ==> (#[trigger] self.pool[k] <==> exists|i: int|
                0 <= i < self.npairs && #[trigger] self.pair_kind(i) == k)
    }

    /// Leaving the current kind out gives a state of the walk.
    pub proof fn lemma_with_skip_wf(self)
        requires
            self.wf(),
            self.curr < 34,
        ensures
            self.with_skip().wf(),
    {
        reveal(ChiitoiState::wf);
        let n = self.with_skip();
        assert forall|i: int| 0 <= i < n.npairs implies #[trigger] n.pair_kind(i) == n.hand[2 * i
            + 1] && n.pair_kind(i) < n.curr by {
            assert(self.pair_kind(i) < self.curr);
        }
        assert forall|i: int| 0 <= i < n.npairs - 1 implies #[trigger] n.pair_kind(i)
            < n.pair_kind(i + 1) by {
            assert(self.pair_kind(i) < self.pair_kind(i + 1));
        }
        assert forall|k: int| 0 <= k < 34 implies (#[trigger] n.pool[k] <==> exists|i: int|
            0 <= i < n.npairs && #[trigger] n.pair_kind(i) == k) by {
            if self.pool[k] {
                let i = choose|i: int| 0 <= i < self.npairs && #[trigger] self.pair_kind(i) == k;
                assert(n.pair_kind(i) == k);
            }
            if exists|i: int| 0 <= i < n.npairs && #[trigger] n.pair_kind(i) == k {
                let i = choose|i: int| 0 <= i < n.npairs && #[trigger] n.pair_kind(i) == k;
                assert(self.pair_kind(i) == k);
            }
        }
    }

    /// Choosing the current kind gives a state of the walk.
    pub proof fn lemma_with_take_wf(self)
        requires
            self.wf(),
            self.curr < 34,
            !self.finished(),
        ensures
            self.with_take().wf(),
            self.npairs < 7,
    {
        reveal(ChiitoiState::wf);
        let n = self.with_take();
        let np = self.npairs as int;
        assert forall|i: int| 0 <= i < n.npairs implies #[trigger] n.pair_kind(i) == n.hand[2 * i
            + 1] && n.pair_kind(i) < n.curr by {
            if i < np {
                assert(self.pair_kind(i) == self.hand[2 * i + 1]);
            }
        }
        assert forall|i: int| 0 <= i < n.npairs - 1 implies #[trigger] n.pair_kind(i)
            < n.pair_kind(i + 1) by {
            if i < np - 1 {
                assert(self.pair_kind(i) < self.pair_kind(i + 1));
            } else {
                assert(self.pair_kind(i) < self.curr);
            }
        }
        assert forall|k: int| 0 <= k < 34 implies (#[trigger] n.pool[k] <==> exists|i: int|
            0 <= i < n.npairs && #[trigger] n.pair_kind(i) == k) by {
            if k == self.curr {
                assert(n.pair_kind(np) == k);
            } else {
                if self.pool[k] {
                    let i = choose|i: int|
                        0 <= i < self.npairs && #[trigger] self.pair_kind(i) == k;
                    assert(n.pair_kind(i) == k);
                }
                if exists|i: int| 0 <= i < n.npairs && #[trigger] n.pair_kind(i) == k {
                    let i = choose|i: int| 0 <= i < n.npairs && #[trigger] n.pair_kind(i) == k;
                    assert(i < np);
                    assert(self.pair_kind(i) == k);
                }
            }
        }
    }

    /// In a finished state the pool is the presence set of the hand, and
    /// every tile is a real kind.
    pub proof fn lemma_finished(self)
        requires
            self.wf(),
            self.finished(),
        ensures
            self.pool == crate::handle::pool_of(self.hand),
            forall|j: int| 0 <= j < 14 ==> #[trigger] self.hand[j] < 34,
    {
        reveal(ChiitoiState::wf);
        assert forall|j: int| 0 <= j < 14 implies #[trigger] self.hand[j] < 34 by {
            let i = j / 2;
            assert(self.pair_kind(i) == self.hand[2 * i + 1] && self.pair_kind(i) < self.curr);
        }
        assert forall|k: int| 0 <= k < 34 implies self.pool[k] == crate::handle::pool_of(
            self.hand,
        )[k] by {
            if self.pool[k] {
                let i = choose|i: int| 0 <= i < self.npairs && #[trigger] self.pair_kind(i) == k;
                assert(self.hand[2 * i] == k);
            }
            if exists|j: int| 0 <= j < self.hand.len() && self.hand[j] == k {
                let j = choose|j: int| 0 <= j < self.hand.len() && self.hand[j] == k;
                let i = j / 2;
                assert(self.pair_kind(i) == self.hand[2 * i + 1]);
                assert(self.pair_kind(i) == k);
            }
        }
        assert(self.pool =~= crate::handle::pool_of(self.hand));
    }
}

impl View for ChiitoiFinder {
    type V = ChiitoiState;

    open spec fn view(&self) -> ChiitoiState {
        ChiitoiState { hand: self.hand@, pool: self.pool@, npairs: self.npairs, curr: self.curr }
    }
}

/// The mathematical values of a stack of seven-pairs states.
pub open spec fn chiitoi_states(stack: Seq<ChiitoiFinder>) -> Seq<ChiitoiState> {
    stack.map_values(|f: ChiitoiFinder| f@)
}

/// Every state of the stack is a state of the walk.
pub open spec fn chiitoi_all_wf(stack: Seq<ChiitoiState>) -> bool {
    forall|i: int| 0 <= i < stack.len() ==> (#[trigger] stack[i]).wf()
}

/// What a walk reports that visits the states of a stack from its top down.
pub open spec fn chiitoi_pending(stack: Seq<ChiitoiState>) -> Seq<ChiitoiState>
    decreases stack.len(),
{
    if stack.len() == 0 {
        Seq::empty()
    } else {
        stack.last().emitted() + chiitoi_pending(stack.drop_last())
    }
}

/// Number of states that a walk from a stack still visits.
pub open spec fn chiitoi_work(stack: Seq<ChiitoiState>) -> nat
    decreases stack.len(),
{
    if stack.len() == 0 {
        0
    } else {
        stack.last().work() + chiitoi_work(stack.drop_last())
    }
}

proof fn lemma_chiitoi_push(stack: Seq<ChiitoiFinder>, f: ChiitoiFinder)
    ensures
        chiitoi_states(stack.push(f)) == chiitoi_states(stack).push(f@),
        chiitoi_pending(chiitoi_states(stack.push(f))) == f@.emitted() + chiitoi_pending(
            chiitoi_states(stack),
        ),
        chiitoi_work(chiitoi_states(stack.push(f))) == f@.work() + chiitoi_work(
            chiitoi_states(stack),
        ),
        chiitoi_all_wf(chiitoi_states(stack)) && f@.wf() ==> chiitoi_all_wf(
            chiitoi_states(stack.push(f)),
        ),
{
    assert(chiitoi_states(stack.push(f)) =~= chiitoi_states(stack).push(f@));
    assert(chiitoi_states(stack).push(f@).drop_last() =~= chiitoi_states(stack));
}

/// The state that the seven-pairs walk starts from: nothing chosen, at kind `first`.
pub open spec fn chiitoi_start(first: u8) -> ChiitoiState {
    ChiitoiState {
        hand: Seq::new(14, |j: int| 0u8),
        pool: Seq::new(34, |k: int| false),
        npairs: 0,
        curr: first,
    }
}

impl ChiitoiFinder {
    /// The start of the walk over all seven-pairs hands.
    pub fn new() -> (finder: ChiitoiFinder)
        ensures
            finder@ == chiitoi_start(0),
            finder@.wf(),
    {
        ChiitoiFinder::from_tile(0)
    }

    /// The start of a walk that chooses pairs of kind `first` and above only.
    pub fn from_tile(first: u8) -> (finder: ChiitoiFinder)
        requires
            first <= 34,
        ensures
            finder@ == chiitoi_start(first),
            finder@.wf(),
    {
        let finder = ChiitoiFinder { hand: [0; 14], pool: [false; 34], npairs: 0, curr: first };
        reveal(ChiitoiState::wf);
        assert(finder@.hand =~= chiitoi_start(first).hand);
        assert(finder@.pool =~= chiitoi_start(first).pool);
        finder
    }

    /// Whether seven pairs are chosen.
    fn finished(&self) -> (done: bool)
        ensures
            done == self@.finished(),
    {
        self.npairs == 7
    }

    /// The state that leaves the current kind out.
    fn skipped(&self) -> (next: ChiitoiFinder)
        requires
            self@.wf(),
            self.curr < 34,
        ensures
            next@ == self@.with_skip(),
            next@.wf(),
    {
        proof {
            self@.lemma_with_skip_wf();
        }
        ChiitoiFinder { curr: self.curr + 1, ..*self }
    }

    /// The state that chooses the current kind.
    fn taken(&self) -> (next: ChiitoiFinder)
        requires
            self@.wf(),
            self.curr < 34,
            !self@.finished(),
        ensures
            next@ == self@.with_take(),
            next@.wf(),
    {
        proof {
            self@.lemma_with_take_wf();
        }
        let mut next = *self;
        next.hand[self.npairs * 2] = self.curr;
        next.hand[self.npairs * 2 + 1] = self.curr;
        next.npairs += 1;
        next.pool[self.curr as usize] = true;
        next.curr += 1;
        proof {
            assert(next@.hand =~= self@.with_take().hand);
            assert(next@.pool =~= self@.with_take().pool);
        }
        next
    }

    /// One step of the walk. A finished choice of seven pairs is handed back;
    /// from any other state, the states that follow it are put on `pending`,
    /// the one to visit first on top.
    pub fn next(self, pending: &mut Vec<ChiitoiFinder>) -> (found: Option<ChiitoiFinder>)
        requires
            self@.wf(),
            chiitoi_all_wf(chiitoi_states(old(pending)@)),
        ensures
            chiitoi_all_wf(chiitoi_states(final(pending)@)),
            match found {
                Some(f) => self@.finished() && f@ == self@ && final(pending)@ == old(pending)@,
                None => {
                    &&& !self@.finished()
                    &&& chiitoi_pending(chiitoi_states(final(pending)@)) == self@.emitted()
                        + chiitoi_pending(chiitoi_states(old(pending)@))
                    &&& chiitoi_work(chiitoi_states(final(pending)@)) + 1 == self@.work()
                        + chiitoi_work(chiitoi_states(old(pending)@))
                },
            },
    {
        let ghost state = self@;
        let ghost rest = chiitoi_pending(chiitoi_states(pending@));
        if self.finished() {
            Some(self)
        } else {
            if self.curr < 34 {
                let take = self.taken();
                proof {
                    lemma_chiitoi_push(pending@, take);
                }
                pending.push(take);
                let skip = self.skipped();
                proof {
                    lemma_chiitoi_push(pending@, skip);
                }
                pending.push(skip);
            }
            assert(chiitoi_pending(chiitoi_states(pending@)) =~= state.emitted() + rest);
            None
        }
    }

    /// Runs the walk from the states on `pending` up to its next finished
    /// choice of seven pairs. `None` says that the walk is over.
    pub fn search(pending: &mut Vec<ChiitoiFinder>) -> (found: Option<ChiitoiFinder>)
        requires
            chiitoi_all_wf(chiitoi_states(old(pending)@)),
        ensures
            chiitoi_all_wf(chiitoi_states(final(pending)@)),
            match found {
                Some(f) => {
                    &&& f@.wf()
                    &&& f@.finished()
                    &&& chiitoi_pending(chiitoi_states(old(pending)@)) == seq![f@]
                        + chiitoi_pending(chiitoi_states(final(pending)@))
                },
                None => {
                    &&& chiitoi_pending(chiitoi_states(old(pending)@)).len() == 0
                    &&& final(pending)@.len() == 0
                },
            },
    {
        let ghost awaited = chiitoi_pending(chiitoi_states(pending@));
        loop
            invariant
                chiitoi_all_wf(chiitoi_states(pending@)),
                chiitoi_pending(chiitoi_states(pending@)) == awaited,
                awaited == chiitoi_pending(chiitoi_states(old(pending)@)),
            decreases chiitoi_work(chiitoi_states(pending@)),
        {
            let ghost before = pending@;
            match pending.pop() {
                None => {
                    return None;
                },
                Some(finder) => {
                    proof {
                        assert(before =~= pending@.push(finder));
                        lemma_chiitoi_push(pending@, finder);
                        assert(chiitoi_states(before)[before.len() - 1].wf());
                        assert forall|i: int| 0 <= i < pending@.len() implies (
                        #[trigger] chiitoi_states(pending@)[i]).wf() by {
                            assert(chiitoi_states(before)[i].wf());
                        }
                    }
                    match finder.next(pending) {
                        Some(done) => {
                            assert(awaited =~= seq![done@] + chiitoi_pending(
                                chiitoi_states(pending@),
                            ));
                            return Some(done);
                        },
                        None => {},
                    }
                },
            }
        }
    }

    /// The seven hands of a finished choice of pairs: each pair in turn
    /// gives the winning tile, starting with the highest; the thirteen tiles
    /// before it stay in increasing order.
    pub fn handles(&self) -> (found: Vec<Handle>)
        requires
            self@.wf(),
            self@.finished(),
        ensures
            found@.len() == 7,
            forall|i: int|
                0 <= i < 7 ==> {
                    &&& (#[trigger] found@[i]).hand@ == move_to_end(self.hand@, 13 - 2 * i)
                    &&& found@[i].pool == self.pool
                    &&& found@[i].flags == store::MASK_TRUE_ALWAYS
                    &&& found@[i].wf()
                },
    {
        let mut found: Vec<Handle> = Vec::new();
        proof {
            self@.lemma_finished();
        }
        for i in 0..7usize
            invariant
                self.pool@ == crate::handle::pool_of(self.hand@),
                forall|j: int| 0 <= j < 14 ==> #[trigger] self.hand@[j] < 34,
                found@.len() == i,
                forall|x: int|
                    0 <= x < i ==> {
                        &&& (#[trigger] found@[x]).hand@ == move_to_end(self.hand@, 13 - 2 * x)
                        &&& found@[x].pool == self.pool
                        &&& found@[x].flags == store::MASK_TRUE_ALWAYS
                        &&& found@[x].wf()
                    },
        {
            let hand = rotate(&self.hand, 13 - 2 * i);
            let handle = Handle { hand, pool: self.pool, flags: store::MASK_TRUE_ALWAYS };
            proof {
                lemma_move_to_end_pool(self.hand@, 13 - 2 * i);
            }
            found.push(handle);
        }
        found
    }
}

/// The fourteen tiles of the thirteen-unique shape that doubles its `d`-th
/// kind, in increasing order.
pub open spec fn kokushi_doubled(d: int) -> Seq<u8> {
    Seq::new(14, |j: int| kokushi_kinds()[if j <= d { j } else { j - 1 }])
}

/// The presence set of every thirteen-unique hand: terminals and honors.
pub open spec fn kokushi_pool() -> Seq<bool> {
    Seq::new(34, |k: int| is_terminal_or_honor(k as u8))
}

/// Where the `w`-th kind stands first in the shape that doubles the `d`-th.
pub open spec fn kokushi_place(d: int, w: int) -> int {
    if w <= d {
        w
    } else {
        w + 1
    }
}

/// Every thirteen-unique shape holds exactly the terminals and honors.
pub proof fn lemma_kokushi_doubled(d: int)
    requires
        0 <= d < 13,
    ensures
        crate::handle::pool_of(kokushi_doubled(d)) == kokushi_pool(),
        forall|j: int| 0 <= j < 14 ==> #[trigger] kokushi_doubled(d)[j] < 34,
{
    crate::utils::lemma_kokushi_kinds();
    let hand = kokushi_doubled(d);
    assert forall|k: int| 0 <= k < 34 implies crate::handle::pool_of(hand)[k] == kokushi_pool()[k] by {
        if is_terminal_or_honor(k as u8) {
            let i = choose|i: int| 0 <= i < 13 && kokushi_kinds()[i] == k as u8;
            assert(hand[kokushi_place(d, i)] == k);
        }
        if exists|j: int| 0 <= j < hand.len() && hand[j] == k {
            let j = choose|j: int| 0 <= j < hand.len() && hand[j] == k;
            let i = if j <= d { j } else { j - 1 };
            assert(is_terminal_or_honor(kokushi_kinds()[i]));
        }
    }
    assert(crate::handle::pool_of(hand) =~= kokushi_pool());
    assert forall|j: int| 0 <= j < 14 implies #[trigger] hand[j] < 34 by {
        let i = if j <= d { j } else { j - 1 };
        assert(is_terminal_or_honor(kokushi_kinds()[i]));
    }
}

/// The start of the walk over thirteen-unique hands: one shape and the
/// presence set that all of them share.
#[derive(Clone, Copy, Debug)]
pub struct KokushiFinder {
    pub hand: [u8; 14],
    pub pool: [bool; 34],
}

impl KokushiFinder {
    /// The pool holds the terminals and honors.
    pub open spec fn wf(&self) -> bool {
        self.pool@ == kokushi_pool()
    }

    /// The shape that doubles the lowest kind.
    pub fn new() -> (finder: KokushiFinder)
        ensures
            finder.hand@ == kokushi_doubled(0),
            finder.wf(),
    {
        let mut pool = [false; 34];
        for k in 0..34usize
            invariant
                forall|x: int| 0 <= x < k ==> pool@[x] == is_terminal_or_honor(x as u8),
        {
            pool[k] = k >= 27 || k % 9 == 0 || k % 9 == 8;
        }
        assert(pool@ =~= kokushi_pool());
        KokushiFinder { hand: Self::doubled(0), pool }
    }

    /// The shape that doubles the `d`-th kind.
    fn doubled(d: u8) -> (hand: [u8; 14])
        requires
            d < 13,
        ensures
            hand@ == kokushi_doubled(d as int),
    {
        let mut hand = [0u8; 14];
        for j in 0..14u8
            invariant
                d < 13,
                forall|x: int| 0 <= x < j ==> hand@[x] == kokushi_doubled(d as int)[x],
        {
            hand[j as usize] = crate::utils::tile_of_kokushi(if j <= d { j } else { j - 1 });
        }
        assert(hand@ =~= kokushi_doubled(d as int));
        hand
    }

    /// The thirteen hands of the shape that doubles the `d`-th kind: each of
    /// the thirteen kinds in turn, lowest first, gives the winning tile.
    fn next_helper(&self, d: u8, found: &mut Vec<Handle>)
        requires
            d < 13,
            self.wf(),
            self.hand@ == kokushi_doubled(d as int),
        ensures
            final(found)@.len() == old(found)@.len() + 13,
            forall|i: int| 0 <= i < old(found)@.len() ==> final(found)@[i] == old(found)@[i],
            forall|w: int|
                0 <= w < 13 ==> {
                    let handle = #[trigger] final(found)@[old(found)@.len() + w];
                    &&& handle.hand@ == move_to_end(
                        kokushi_doubled(d as int),
                        kokushi_place(d as int, w),
                    )
                    &&& handle.pool@ == kokushi_pool()
                    &&& handle.flags == store::MASK_TRUE_ALWAYS
                    &&& handle.wf()
                },
    {
        let ghost base = found@;
        proof {
            lemma_kokushi_doubled(d as int);
        }
        for w in 0..13u8
            invariant
                d < 13,
                self.wf(),
                self.hand@ == kokushi_doubled(d as int),
                crate::handle::pool_of(kokushi_doubled(d as int)) == kokushi_pool(),
                forall|j: int| 0 <= j < 14 ==> #[trigger] kokushi_doubled(d as int)[j] < 34,
                found@.len() == base.len() + w,
                forall|i: int| 0 <= i < base.len() ==> found@[i] == base[i],
                forall|x: int|
                    0 <= x < w ==> {
                        let handle = #[trigger] found@[base.len() + x];
                        &&& handle.hand@ == move_to_end(
                            kokushi_doubled(d as int),
                            kokushi_place(d as int, x),
                        )
                        &&& handle.pool@ == kokushi_pool()
                        &&& handle.flags == store::MASK_TRUE_ALWAYS
                        &&& handle.wf()
                    },
        {
            let place: usize = if w <= d { w as usize } else { w as usize + 1 };
            let hand = rotate(&self.hand, place);
            let handle = Handle { hand, pool: self.pool, flags: store::MASK_TRUE_ALWAYS };
            proof {
                lemma_move_to_end_pool(self.hand@, place as int);
            }
            found.push(handle);
        }
    }

    /// Every thirteen-unique hand: each of the thirteen kinds in turn is the
    /// doubled one, and with it each of the thirteen kinds the winning tile.
    pub fn next(self) -> (found: Vec<Handle>)
        requires
            self.wf(),
        ensures
            found@.len() == 169,
            forall|d: int, w: int|
                0 <= d < 13 && 0 <= w < 13 ==> {
                    let handle = #[trigger] found@[13 * d + w];
                    &&& handle.hand@ == move_to_end(kokushi_doubled(d), kokushi_place(d, w))
                    &&& handle.pool@ == kokushi_pool()
                    &&& handle.flags == store::MASK_TRUE_ALWAYS
                    &&& handle.wf()
                },
    {
        let mut found: Vec<Handle> = Vec::new();
        for d in 0..13u8
            invariant
                self.wf(),
                found@.len() == 13 * d,
                forall|x: int, w: int|
                    0 <= x < d && 0 <= w < 13 ==> {
                        let handle = #[trigger] found@[13 * x + w];
                        &&& handle.hand@ == move_to_end(kokushi_doubled(x), kokushi_place(x, w))
                        &&& handle.pool@ == kokushi_pool()
                        &&& handle.flags == store::MASK_TRUE_ALWAYS
                        &&& handle.wf()
                    },
        {
            let finder = KokushiFinder { hand: Self::doubled(d), pool: self.pool };
            let ghost before = found@;
            finder.next_helper(d, &mut found);
            assert forall|x: int, w: int| 0 <= x < d + 1 && 0 <= w < 13 implies {
                let handle = #[trigger] found@[13 * x + w];
                &&& handle.hand@ == move_to_end(kokushi_doubled(x), kokushi_place(x, w))
                &&& handle.pool@ == kokushi_pool()
                &&& handle.flags == store::MASK_TRUE_ALWAYS
                &&& handle.wf()
            } by {
                if x < d {
                    assert(found@[13 * x + w] == before[13 * x + w]);
                } else {
                    assert(13 * x + w == before.len() + w);
                }
            }
        }
        found
    }
}

/// What the enumeration reports: a finished state of one of the three walks.
pub enum Found {
    /// A standard hand, still to be scored.
    Standard(Finder),
    /// A choice of seven pairs, which stands for seven hands.
    SevenPairs(ChiitoiFinder),
    /// The thirteen-unique shapes, which stand for all their hands.
    ThirteenUnique(KokushiFinder),
}

/// The three walks one after the other: standard hands, then seven pairs,
/// then thirteen unique.
pub struct Generator {
    pub standard: Vec<Finder>,
    pub seven_pairs: Vec<ChiitoiFinder>,
    pub thirteen_unique: Option<KokushiFinder>,
}

impl Generator {
    /// All pending states are states of their walks.
    pub open spec fn wf(&self) -> bool {
        &&& all_wf(states(self.standard@))
        &&& chiitoi_all_wf(chiitoi_states(self.seven_pairs@))
        &&& self.thirteen_unique matches Some(k) ==> k.wf()
    }

    /// The standard hands still to report.
    pub open spec fn standard_left(&self) -> Seq<FinderState> {
        pending_emitted(states(self.standard@))
    }

    /// The choices of seven pairs still to report.
    pub open spec fn seven_pairs_left(&self) -> Seq<ChiitoiState> {
        chiitoi_pending(chiitoi_states(self.seven_pairs@))
    }

    /// The enumeration of all hands, nothing reported yet.
    pub fn new() -> (generator: Generator)
        ensures
            generator.wf(),
            generator.standard_left() == start_state(0).emitted(),
            generator.seven_pairs_left() == chiitoi_start(0).emitted(),
            generator.thirteen_unique matches Some(finder) && finder.hand@ == kokushi_doubled(0),
    {
        let mut standard: Vec<Finder> = Vec::new();
        let finder = Finder::new();
        proof {
            lemma_pending_push(standard@, finder);
        }
        standard.push(finder);
        let mut seven_pairs: Vec<ChiitoiFinder> = Vec::new();
        let chiitoi = ChiitoiFinder::new();
        proof {
            lemma_chiitoi_push(seven_pairs@, chiitoi);
        }
        seven_pairs.push(chiitoi);
        let generator = Generator {
            standard,
            seven_pairs,
            thirteen_unique: Some(KokushiFinder::new()),
        };
        assert(generator.standard_left() =~= start_state(0).emitted());
        assert(generator.seven_pairs_left() =~= chiitoi_start(0).emitted());
        generator
    }

    /// The next finished state, or `None` once all three walks are over.
    pub fn next(&mut self) -> (found: Option<Found>)
        requires
            old(self).wf(),
        ensures
            final(self).wf(),
            match found {
                Some(Found::Standard(f)) => {
                    &&& f@.wf()
                    &&& f@.emits()
                    &&& old(self).standard_left() == seq![f@] + final(self).standard_left()
                    &&& final(self).seven_pairs@ == old(self).seven_pairs@
                    &&& final(self).thirteen_unique == old(self).thirteen_unique
                },
                Some(Found::SevenPairs(c)) => {
                    &&& c@.wf()
                    &&& c@.finished()
                    &&& old(self).standard_left().len() == 0
                    &&& final(self).standard@.len() == 0
                    &&& old(self).seven_pairs_left() == seq![c@] + final(self).seven_pairs_left()
                    &&& final(self).thirteen_unique == old(self).thirteen_unique
                },
                Some(Found::ThirteenUnique(k)) => {
                    &&& k.wf()
                    &&& old(self).standard_left().len() == 0
                    &&& final(self).standard@.len() == 0
                    &&& old(self).seven_pairs_left().len() == 0
                    &&& final(self).seven_pairs@.len() == 0
                    &&& old(self).thirteen_unique == Some(k)
                    &&& final(self).thirteen_unique is None
                },
                None => {
                    &&& old(self).standard_left().len() == 0
                    &&& old(self).seven_pairs_left().len() == 0
                    &&& old(self).thirteen_unique is None
                    &&& final(self).standard@.len() == 0
                    &&& final(self).seven_pairs@.len() == 0
                    &&& final(self).thirteen_unique is None
                },
            },
    {
        match Finder::search(&mut self.standard) {
            Some(finder) => {
                return Some(Found::Standard(finder));
            },
            None => {},
        }
        match ChiitoiFinder::search(&mut self.seven_pairs) {
            Some(finder) => {
                return Some(Found::SevenPairs(finder));
            },
            None => {},
        }
        match self.thirteen_unique {
            Some(finder) => {
                self.thirteen_unique = None;
                Some(Found::ThirteenUnique(finder))
            },
            None => None,
        }
    }
}

} // verus!
