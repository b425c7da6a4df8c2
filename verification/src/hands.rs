//! The hands that the walks report, tile by tile: a standard hand holds
//! exactly the tiles of its groups, a seven-pairs hand two tiles of each of
//! seven kinds, a thirteen-unique hand every terminal and honor with one of
//! them twice; and the thirteen tiles before the winning tile never fall.

use vstd::prelude::*;
use crate::generator::{
    chiitoi_start, copies_in, flatten, kokushi_doubled, kokushi_place, lemma_flatten, move_to_end,
    waiting_tiles, ChiitoiState, FinderState,
};
use crate::seven_pairs::{lemma_emitted_distinct, lemma_emitted_sound};
use crate::handle::count_kind;
use crate::utils::{is_terminal_or_honor, kokushi_kinds, lemma_kokushi_kinds};

verus! {

/// The tiles do not fall along the first `n` places.
pub open spec fn ascending(hand: Seq<u8>, n: int) -> bool {
    forall|i: int, j: int| 0 <= i < j < n ==> hand[i] <= hand[j]
}

/// A count over the first places looks at those places only.
proof fn lemma_count_same(a: Seq<u8>, b: Seq<u8>, k: u8, n: int)
    requires
        forall|i: int| 0 <= i < n ==> a[i] == b[i],
    ensures
        count_kind(a, k, n) == count_kind(b, k, n),
    decreases n,
{
    if n > 0 {
        lemma_count_same(a, b, k, n - 1);
    }
}

/// Counting over two lists one after the other adds up.
proof fn lemma_count_concat(a: Seq<u8>, b: Seq<u8>, k: u8, n: int)
    requires
        0 <= n <= b.len(),
    ensures
        count_kind(a + b, k, a.len() + n) == count_kind(a, k, a.len() as int) + count_kind(b, k, n),
    decreases n,
{
    if n == 0 {
        lemma_count_same(a + b, a, k, a.len() as int);
    } else {
        lemma_count_concat(a, b, k, n - 1);
        assert((a + b)[a.len() + n - 1] == b[n - 1]);
    }
}

proof fn lemma_count_repeat(tile: u8, times: nat, k: u8, n: int)
    requires
        0 <= n <= times,
    ensures
        count_kind(Seq::new(times, |i: int| tile), k, n) == (if tile == k { n } else { 0 }),
    decreases n,
{
    if n > 0 {
        lemma_count_repeat(tile, times, k, n - 1);
    }
}

/// The flattened tiles of a pool are as many of each kind as the pool
/// counts, and they never fall.
pub proof fn lemma_flatten_counts(pool: Seq<u8>, n: nat, k: u8)
    requires
        n <= pool.len() <= 256,
    ensures
        count_kind(flatten(pool, n), k, flatten(pool, n).len() as int) == (if k < n {
            pool[k as int] as int
        } else {
            0
        }),
        ascending(flatten(pool, n), flatten(pool, n).len() as int),
    decreases n,
{
    if n > 0 {
        let m = (n - 1) as nat;
        lemma_flatten_counts(pool, m, k);
        lemma_flatten(pool, m);
        let head = flatten(pool, m);
        let tail = Seq::new(pool[n - 1] as nat, |i: int| (n - 1) as u8);
        lemma_count_concat(head, tail, k, tail.len() as int);
        lemma_count_repeat((n - 1) as u8, pool[n - 1] as nat, k, tail.len() as int);
        let all = head + tail;
        assert forall|i: int, j: int| 0 <= i < j < all.len() implies all[i] <= all[j] by {
            if j < head.len() {
                assert(all[i] == head[i] && all[j] == head[j]);
            } else if i < head.len() {
                assert(all[i] == head[i]);
                assert(head[i] < m);
                assert(all[j] == tail[j - head.len()]);
            } else {
                assert(all[i] == tail[i - head.len()]);
                assert(all[j] == tail[j - head.len()]);
            }
        }
    }
}

/// Moving a tile to the end changes no kind's count.
pub proof fn lemma_move_to_end_counts(hand: Seq<u8>, p: int, k: u8)
    requires
        0 <= p < hand.len(),
    ensures
        count_kind(move_to_end(hand, p), k, hand.len() as int) == count_kind(
            hand,
            k,
            hand.len() as int,
        ),
{
    lemma_moved_prefix(hand, p, k, hand.len() - 1);
}

proof fn lemma_moved_prefix(hand: Seq<u8>, p: int, k: u8, n: int)
    requires
        0 <= p < hand.len(),
        0 <= n < hand.len(),
    ensures
        count_kind(move_to_end(hand, p), k, n) == (if n <= p {
            count_kind(hand, k, n) as int
        } else {
            count_kind(hand, k, n + 1) - (if hand[p] == k {
                1int
            } else {
                0int
            })
        }),
    decreases n,
{
    if n > 0 {
        lemma_moved_prefix(hand, p, k, n - 1);
        let moved = move_to_end(hand, p);
        if n - 1 < p {
            assert(moved[n - 1] == hand[n - 1]);
        } else {
            assert(moved[n - 1] == hand[n]);
            assert(count_kind(hand, k, n + 1) == count_kind(hand, k, n) + (if hand[n] == k {
                1int
            } else {
                0int
            }));
            if n - 1 == p {
                assert(count_kind(hand, k, n) == count_kind(hand, k, n - 1) + (if hand[p] == k {
                    1int
                } else {
                    0int
                }));
            }
        }
    }
}

/// Where the tile at `p` has an equal tile before it or stands last, moving
/// it to the end leaves the tiles before the last in their order.
pub proof fn lemma_move_to_end_ascending(hand: Seq<u8>, p: int)
    requires
        0 <= p < hand.len(),
        ascending(hand, hand.len() as int),
    ensures
        ascending(move_to_end(hand, p), hand.len() - 1),
{
    let moved = move_to_end(hand, p);
    assert forall|i: int, j: int| 0 <= i < j < hand.len() - 1 implies moved[i] <= moved[j] by {
        let x = if i < p { i } else { i + 1 };
        let y = if j < p { j } else { j + 1 };
        assert(hand[x] <= hand[y]);
    }
}

impl FinderState {
    /// The hand of a finished state holds of each kind as many tiles as its
    /// groups do, and its tiles before the winning tile never fall.
    pub proof fn lemma_hand_of_groups(self, k: u8)
        requires
            self.wf(),
            self.finished(),
            k < 34,
        ensures
            waiting_tiles(self).len() == 13,
            count_kind(waiting_tiles(self).push(self.winning_tile->0), k, 14) == copies_in(
                self.groups,
                k as int,
            ),
            ascending(waiting_tiles(self), 13),
    {
        reveal(FinderState::groups_placed);
        self.lemma_finished();
        let w = self.winning_tile->0;
        let waiting = self.pool.update(w as int, (self.pool[w as int] - 1) as u8);
        let tiles = waiting_tiles(self);
        lemma_flatten(waiting, 34);
        lemma_flatten_counts(waiting, 34, k);
        crate::generator::lemma_pool_total_update(self.pool, w as int, waiting[w as int], 34);
        lemma_count_concat(tiles, seq![w], k, 1);
        assert(tiles.push(w) =~= tiles + seq![w]);
        assert(count_kind(seq![w], k, 1) == (if w == k { 1int } else { 0int })) by {
            assert(count_kind(seq![w], k, 0) == 0);
        }
    }
}

impl ChiitoiState {
    /// A finished choice of pairs holds two tiles of each chosen kind and
    /// none of any other, in increasing order.
    pub proof fn lemma_two_of_each(self, k: u8)
        requires
            self.wf(),
            self.finished(),
            k < 34,
        ensures
            count_kind(self.hand, k, 14) == (if self.pool[k as int] { 2int } else { 0int }),
            ascending(self.hand, 14),
    {
        reveal(ChiitoiState::wf);
        self.lemma_pairs_counted(k, 7);
        assert forall|i: int, j: int| 0 <= i < j < 14 implies self.hand[i] <= self.hand[j] by {
            let x = i / 2;
            let y = j / 2;
            assert(self.pair_kind(x) == self.hand[2 * x + 1]);
            assert(self.pair_kind(y) == self.hand[2 * y + 1]);
            if x < y {
                self.lemma_pairs_rise(x, y);
            }
        }
        if self.pool[k as int] {
            let i = choose|i: int| 0 <= i < self.npairs && #[trigger] self.pair_kind(i) == k;
            assert(self.pair_kind(i) == k);
        }
    }

    proof fn lemma_pairs_rise(self, x: int, y: int)
        requires
            self.wf(),
            0 <= x < y < self.npairs,
        ensures
            self.pair_kind(x) < self.pair_kind(y),
        decreases y - x,
    {
        reveal(ChiitoiState::wf);
        if x + 1 < y {
            self.lemma_pairs_rise(x + 1, y);
        }
        assert(self.pair_kind(x) < self.pair_kind(x + 1));
    }

    /// Among the first `m` pairs the kind `k` counts twice if one of them is
    /// of that kind, and not at all otherwise.
    proof fn lemma_pairs_counted(self, k: u8, m: int)
        requires
            self.wf(),
            0 <= m <= self.npairs,
        ensures
            count_kind(self.hand, k, 2 * m) == (if exists|i: int|
                0 <= i < m && #[trigger] self.pair_kind(i) == k {
                2int
            } else {
                0int
            }),
        decreases m,
    {
        reveal(ChiitoiState::wf);
        if m > 0 {
            self.lemma_pairs_counted(k, m - 1);
            assert(self.pair_kind(m - 1) == self.hand[2 * (m - 1) + 1]);
            assert(count_kind(self.hand, k, 2 * m) == count_kind(self.hand, k, 2 * m - 1) + (
            if self.hand[2 * m - 1] == k {
                1int
            } else {
                0int
            }));
            assert(count_kind(self.hand, k, 2 * m - 1) == count_kind(self.hand, k, 2 * m - 2) + (
            if self.hand[2 * m - 2] == k {
                1int
            } else {
                0int
            }));
            if exists|i: int| 0 <= i < m - 1 && #[trigger] self.pair_kind(i) == k {
                let i = choose|i: int| 0 <= i < m - 1 && #[trigger] self.pair_kind(i) == k;
                self.lemma_pairs_rise(i, m - 1);
                assert(0 <= i < m && self.pair_kind(i) == k);
            } else if self.pair_kind(m - 1) == k {
                assert(0 <= m - 1 < m && self.pair_kind(m - 1) == k);
            } else {
                assert forall|i: int| 0 <= i < m implies #[trigger] self.pair_kind(i) != k by {
                    if i < m - 1 {
                        assert(!(0 <= i < m - 1 && self.pair_kind(i) == k));
                    }
                }
            }
        }
    }
}

/// In a list that rises strictly a kind counts once if it occurs.
proof fn lemma_count_rising(hand: Seq<u8>, k: u8, n: int)
    requires
        0 <= n <= hand.len(),
        forall|i: int, j: int| 0 <= i < j < hand.len() ==> hand[i] < hand[j],
    ensures
        count_kind(hand, k, n) == (if exists|i: int| 0 <= i < n && hand[i] == k {
            1int
        } else {
            0int
        }),
    decreases n,
{
    if n > 0 {
        lemma_count_rising(hand, k, n - 1);
        if exists|i: int| 0 <= i < n - 1 && hand[i] == k {
            let i = choose|i: int| 0 <= i < n - 1 && hand[i] == k;
            assert(hand[i] < hand[n - 1]);
            assert(0 <= i < n && hand[i] == k);
        } else if hand[n - 1] == k {
            assert(0 <= n - 1 < n && hand[n - 1] == k);
        } else {
            assert forall|i: int| 0 <= i < n implies hand[i] != k by {
                if i < n - 1 {
                    assert(!(0 <= i < n - 1 && hand[i] == k));
                }
            }
        }
    }
}

/// The first places of a thirteen-unique shape are those of the thirteen
/// kinds, with the doubled kind once more behind its place.
proof fn lemma_doubled_prefix(d: int, k: u8, n: int)
    requires
        0 <= d < 13,
        0 <= n <= 14,
    ensures
        count_kind(kokushi_doubled(d), k, n) == (if n <= d + 1 {
            count_kind(kokushi_kinds(), k, n) as int
        } else {
            count_kind(kokushi_kinds(), k, n - 1) + (if kokushi_kinds()[d] == k {
                1int
            } else {
                0int
            })
        }),
    decreases n,
{
    if n > 0 {
        lemma_doubled_prefix(d, k, n - 1);
        let hand = kokushi_doubled(d);
        let kinds = kokushi_kinds();
        if n - 1 <= d {
            assert(hand[n - 1] == kinds[n - 1]);
        } else {
            assert(hand[n - 1] == kinds[n - 2]);
            if n - 1 == d + 1 {
                assert(count_kind(kinds, k, n - 1) == count_kind(kinds, k, n - 2) + (if kinds[d]
                    == k {
                    1int
                } else {
                    0int
                }));
            } else {
                assert(count_kind(kinds, k, n - 1) == count_kind(kinds, k, n - 2) + (if kinds[n
                    - 2] == k {
                    1int
                } else {
                    0int
                }));
            }
        }
    }
}

/// A thirteen-unique shape holds every terminal and honor once, the doubled
/// one twice, and nothing else, in increasing order.
pub proof fn lemma_thirteen_unique(d: int, k: u8)
    requires
        0 <= d < 13,
        k < 34,
    ensures
        count_kind(kokushi_doubled(d), k, 14) == (if k == kokushi_kinds()[d] {
            2int
        } else if is_terminal_or_honor(k) {
            1int
        } else {
            0int
        }),
        ascending(kokushi_doubled(d), 14),
{
    lemma_kokushi_kinds();
    let hand = kokushi_doubled(d);
    let kinds = kokushi_kinds();
    lemma_doubled_prefix(d, k, 14);
    lemma_count_rising(kinds, k, 13);
    if is_terminal_or_honor(k) {
        let i = choose|i: int| 0 <= i < 13 && kokushi_kinds()[i] == k;
        assert(0 <= i < 13 && kinds[i] == k);
    }
    if exists|i: int| 0 <= i < 13 && kinds[i] == k {
        let i = choose|i: int| 0 <= i < 13 && kinds[i] == k;
        assert(is_terminal_or_honor(kinds[i]));
    }
    assert forall|i: int, j: int| 0 <= i < j < 14 implies hand[i] <= hand[j] by {
        let x = if i <= d { i } else { i - 1 };
        let y = if j <= d { j } else { j - 1 };
        if x < y {
            assert(kinds[x] < kinds[y]);
        }
    }
}

/// Hands that hold different numbers of tiles of some kind are different hands.
proof fn lemma_counts_tell_apart(a: Seq<u8>, b: Seq<u8>, k: u8)
    requires
        count_kind(a, k, 14) != count_kind(b, k, 14),
    ensures
        a != b,
{
}

/// Thirteen-unique hands with different doubled kinds or different winning
/// tiles are different hands.
pub proof fn lemma_thirteen_unique_distinct(d: int, w: int, e: int, v: int)
    requires
        0 <= d < 13,
        0 <= w < 13,
        0 <= e < 13,
        0 <= v < 13,
        d != e || w != v,
    ensures
        move_to_end(kokushi_doubled(d), kokushi_place(d, w)) != move_to_end(
            kokushi_doubled(e),
            kokushi_place(e, v),
        ),
{
    lemma_kokushi_kinds();
    let kinds = kokushi_kinds();
    let a = move_to_end(kokushi_doubled(d), kokushi_place(d, w));
    let b = move_to_end(kokushi_doubled(e), kokushi_place(e, v));
    if w != v {
        assert(a[13] == kinds[w]);
        assert(b[13] == kinds[v]);
        if w < v {
            assert(kinds[w] < kinds[v]);
        } else {
            assert(kinds[v] < kinds[w]);
        }
    } else {
        let k = kinds[d];
        if d < e {
            assert(kinds[d] < kinds[e]);
        } else {
            assert(kinds[e] < kinds[d]);
        }
        assert(is_terminal_or_honor(k));
        lemma_thirteen_unique(d, k);
        lemma_thirteen_unique(e, k);
        lemma_move_to_end_counts(kokushi_doubled(d), kokushi_place(d, w), k);
        lemma_move_to_end_counts(kokushi_doubled(e), kokushi_place(e, v), k);
        lemma_counts_tell_apart(a, b, k);
    }
}

impl ChiitoiState {
    /// A state that the walk reports stands right behind its last pair.
    proof fn lemma_reported_curr(self)
        requires
            self.wf(),
            self.finished() ==> self.curr == self.pair_kind(6) + 1,
        ensures
            forall|x: int|
                0 <= x < self.emitted().len() ==> (#[trigger] self.emitted()[x]).curr
                    == self.emitted()[x].pair_kind(6) + 1,
        decreases 34 - self.curr,
    {
        if !self.finished() && self.curr < 34 {
            let skip = self.with_skip();
            let take = self.with_take();
            self.lemma_with_skip_wf();
            self.lemma_with_take_wf();
            assert(self.hand.len() == 14) by {
                reveal(ChiitoiState::wf);
            }
            skip.lemma_reported_curr();
            take.lemma_reported_curr();
            let all = self.emitted();
            assert(all == skip.emitted() + take.emitted());
            assert forall|x: int| 0 <= x < all.len() implies (#[trigger] all[x]).curr
                == all[x].pair_kind(6) + 1 by {
                if x < skip.emitted().len() {
                    assert(all[x] == skip.emitted()[x]);
                } else {
                    assert(all[x] == take.emitted()[x - skip.emitted().len()]);
                }
            }
        }
    }

    /// Finished choices of the same kinds that stand right behind their
    /// last pair are the same state.
    proof fn lemma_same_pool_same_state(self, other: ChiitoiState)
        requires
            self.wf(),
            self.finished(),
            other.wf(),
            other.finished(),
            self.pool == other.pool,
            self.curr == self.pair_kind(6) + 1,
            other.curr == other.pair_kind(6) + 1,
        ensures
            self == other,
    {
        reveal(ChiitoiState::wf);
        assert forall|i: int| 0 <= i < 7 implies self.pair_kind(i) == other.pair_kind(i) by {
            self.lemma_same_pool_same_pair(other, i);
        }
        assert forall|j: int| 0 <= j < 14 implies self.hand[j] == other.hand[j] by {
            let i = j / 2;
            assert(self.pair_kind(i) == self.hand[2 * i + 1]);
            assert(other.pair_kind(i) == other.hand[2 * i + 1]);
            assert(self.pair_kind(i) == other.pair_kind(i));
        }
        assert(self.hand =~= other.hand);
    }

    proof fn lemma_same_pool_same_pair(self, other: ChiitoiState, i: int)
        requires
            self.wf(),
            self.finished(),
            other.wf(),
            other.finished(),
            self.pool == other.pool,
            0 <= i < 7,
        ensures
            self.pair_kind(i) == other.pair_kind(i),
        decreases i,
    {
        if i > 0 {
            self.lemma_same_pool_same_pair(other, i - 1);
        }
        self.lemma_place_of_pair(other, i);
        other.lemma_place_of_pair(self, i);
    }

    /// The `i`-th pair of one choice is no lower than the `i`-th pair of
    /// another choice of the same kinds that agrees with it before.
    proof fn lemma_place_of_pair(self, other: ChiitoiState, i: int)
        requires
            self.wf(),
            self.finished(),
            other.wf(),
            other.finished(),
            self.pool == other.pool,
            0 <= i < 7,
            i > 0 ==> self.pair_kind(i - 1) == other.pair_kind(i - 1),
        ensures
            self.pair_kind(i) >= other.pair_kind(i),
    {
        reveal(ChiitoiState::wf);
        let k = self.pair_kind(i);
        assert(k < self.curr);
        assert(self.pool[k as int]) by {
            assert(0 <= i < self.npairs && self.pair_kind(i) == k);
        }
        let m = choose|m: int| 0 <= m < other.npairs && #[trigger] other.pair_kind(m) == k;
        if m < i {
            if m < i - 1 {
                other.lemma_pairs_rise(m, i - 1);
            }
            self.lemma_pairs_rise(i - 1, i);
        } else if m > i {
            other.lemma_pairs_rise(i, m);
        }
    }
}

/// The seven-pairs walk reports no hand twice: two of its hands are
/// different unless they come from the same choice of pairs with the same
/// pair completed last.
pub proof fn lemma_seven_pairs_hands_distinct(x: int, i: int, y: int, j: int)
    requires
        0 <= x < chiitoi_start(0).emitted().len(),
        0 <= y < chiitoi_start(0).emitted().len(),
        0 <= i < 7,
        0 <= j < 7,
        x != y || i != j,
    ensures
        move_to_end(chiitoi_start(0).emitted()[x].hand, 13 - 2 * i) != move_to_end(
            chiitoi_start(0).emitted()[y].hand,
            13 - 2 * j,
        ),
{
    let start = chiitoi_start(0);
    assert(start.wf()) by {
        reveal(ChiitoiState::wf);
    }
    lemma_emitted_sound(start);
    lemma_emitted_distinct(start);
    start.lemma_reported_curr();
    let s = start.emitted()[x];
    let t = start.emitted()[y];
    assert(crate::seven_pairs::follows(start, s));
    assert(crate::seven_pairs::follows(start, t));
    let a = move_to_end(s.hand, 13 - 2 * i);
    let b = move_to_end(t.hand, 13 - 2 * j);
    assert(s.hand.len() == 14 && t.hand.len() == 14) by {
        reveal(ChiitoiState::wf);
    }
    if x != y {
        assert(s != t);
        if s.pool == t.pool {
            s.lemma_same_pool_same_state(t);
        }
        assert(s.pool.len() == 34 && t.pool.len() == 34) by {
            reveal(ChiitoiState::wf);
        }
        assert(!(s.pool =~= t.pool));
        let k = choose|k: int| 0 <= k < 34 && s.pool[k] != t.pool[k];
        s.lemma_two_of_each(k as u8);
        t.lemma_two_of_each(k as u8);
        lemma_move_to_end_counts(s.hand, 13 - 2 * i, k as u8);
        lemma_move_to_end_counts(t.hand, 13 - 2 * j, k as u8);
        lemma_counts_tell_apart(a, b, k as u8);
    } else {
        assert(a[13] == s.hand[13 - 2 * i]);
        assert(b[13] == s.hand[13 - 2 * j]);
        assert(s.pair_kind(6 - i) == s.hand[2 * (6 - i) + 1]) by {
            reveal(ChiitoiState::wf);
        }
        assert(s.pair_kind(6 - j) == s.hand[2 * (6 - j) + 1]) by {
            reveal(ChiitoiState::wf);
        }
        if i < j {
            s.lemma_pairs_rise(6 - j, 6 - i);
        } else {
            s.lemma_pairs_rise(6 - i, 6 - j);
        }
    }
}

} // verus!
