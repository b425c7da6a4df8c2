//! What the walk over seven-pairs hands reports: every choice of seven
//! kinds once, and so as many choices as seven out of thirty-four.

use vstd::prelude::*;
use crate::generator::{chiitoi_start, ChiitoiState};

verus! {

/// The number of ways to choose `k` out of `n`.
pub open spec fn binom(n: nat, k: nat) -> nat
    decreases n,
{
    if k == 0 {
        1
    } else if n == 0 {
        0
    } else {
        binom((n - 1) as nat, k) + binom((n - 1) as nat, (k - 1) as nat)
    }
}

/// Choosing `k` out of `n` and marking one of the chosen is choosing the
/// marked one and then `k - 1` out of the others.
pub proof fn lemma_binom_absorb(n: nat, k: nat)
    requires
        n >= 1,
        k >= 1,
    ensures
        binom(n, k) * k == binom((n - 1) as nat, (k - 1) as nat) * n,
    decreases n,
{
    let a = binom((n - 1) as nat, k);
    let b = binom((n - 1) as nat, (k - 1) as nat);
    assert(binom(n, k) == a + b);
    if n == 1 {
        assert(a == 0);
        assert(b == (if k == 1 { 1nat } else { 0nat }));
        assert((a + b) * k == b * n) by (nonlinear_arith)
            requires
                a == 0,
                n == 1,
                b == (if k == 1 { 1nat } else { 0nat }),
        ;
    } else {
        let c = binom((n - 2) as nat, (k - 1) as nat);
        lemma_binom_absorb((n - 1) as nat, k);
        assert(a * k == c * (n - 1));
        if k == 1 {
            assert(b == 1);
            assert(c == 1);
            assert((a + b) * k == b * n) by (nonlinear_arith)
                requires
                    k == 1,
                    b == 1,
                    c == 1,
                    a * k == c * (n - 1),
            ;
        } else {
            let d = binom((n - 2) as nat, (k - 2) as nat);
            lemma_binom_absorb((n - 1) as nat, (k - 1) as nat);
            assert(b * (k - 1) == d * (n - 1));
            assert(b == c + d);
            assert((a + b) * k == b * n) by (nonlinear_arith)
                requires
                    a * k == c * (n - 1),
                    b * (k - 1) == d * (n - 1),
                    b == c + d,
            ;
        }
    }
}

/// There are 5 379 616 ways to choose seven kinds out of thirty-four.
pub proof fn lemma_seven_of_thirty_four()
    ensures
        binom(34, 7) == 5379616,
{
    assert(binom(27, 0) == 1);
    lemma_binom_absorb(28, 1);
    assert(binom(28, 1) == 28);
    lemma_binom_absorb(29, 2);
    assert(binom(29, 2) == 406);
    lemma_binom_absorb(30, 3);
    assert(binom(30, 3) == 4060);
    lemma_binom_absorb(31, 4);
    assert(binom(31, 4) == 31465);
    lemma_binom_absorb(32, 5);
    assert(binom(32, 5) == 201376);
    lemma_binom_absorb(33, 6);
    assert(binom(33, 6) == 1107568);
    lemma_binom_absorb(34, 7);
}

/// The walk reports as many states as there are ways to choose the pairs
/// still missing out of the kinds still to decide on.
pub proof fn lemma_emitted_count(state: ChiitoiState)
    requires
        state.npairs <= 7,
        state.curr <= 34,
    ensures
        state.emitted().len() == binom((34 - state.curr) as nat, (7 - state.npairs) as nat),
    decreases 34 - state.curr,
{
    if !state.finished() && state.curr < 34 {
        lemma_emitted_count(state.with_skip());
        lemma_emitted_count(state.with_take());
    }
}

/// The walk over all seven-pairs hands reports 5 379 616 choices of pairs,
/// each of which stands for seven hands.
pub proof fn lemma_seven_pairs_count()
    ensures
        chiitoi_start(0).emitted().len() == 5379616,
{
    lemma_emitted_count(chiitoi_start(0));
    lemma_seven_of_thirty_four();
}

/// A choice of seven kinds: real kinds in increasing order.
pub open spec fn is_selection(kinds: Seq<u8>) -> bool {
    &&& kinds.len() == 7
    &&& forall|i: int| 0 <= i < 7 ==> #[trigger] kinds[i] < 34
    &&& forall|i: int, j: int| 0 <= i < j < 7 ==> kinds[i] < kinds[j]
}

/// The finished state of the walk that has chosen the kinds.
pub open spec fn selection_state(kinds: Seq<u8>) -> ChiitoiState {
    ChiitoiState {
        hand: Seq::new(14, |j: int| kinds[j / 2]),
        pool: Seq::new(34, |k: int| exists|i: int| 0 <= i < 7 && kinds[i] == k),
        npairs: 7,
        curr: (kinds[6] + 1) as u8,
    }
}

/// The state has chosen the first kinds of the selection and can still
/// choose the others.
pub open spec fn leads_to(state: ChiitoiState, kinds: Seq<u8>) -> bool {
    &&& forall|i: int| 0 <= i < state.npairs ==> #[trigger] state.pair_kind(i) == kinds[i]
    &&& state.npairs < 7 ==> state.curr <= kinds[state.npairs as int]
    &&& state.npairs == 7 ==> state.curr == kinds[6] + 1
}

/// The walk reports every selection that its state leads to.
pub proof fn lemma_emitted_complete(state: ChiitoiState, kinds: Seq<u8>)
    requires
        state.wf(),
        is_selection(kinds),
        leads_to(state, kinds),
    ensures
        state.emitted().contains(selection_state(kinds)),
    decreases 34 - state.curr,
{
    reveal(ChiitoiState::wf);
    let target = selection_state(kinds);
    if state.finished() {
        assert forall|j: int| 0 <= j < 14 implies state.hand[j] == target.hand[j] by {
            let i = j / 2;
            assert(state.pair_kind(i) == kinds[i]);
            assert(state.pair_kind(i) == state.hand[2 * i + 1]);
        }
        assert(state.hand =~= target.hand);
        assert forall|k: int| 0 <= k < 34 implies state.pool[k] == target.pool[k] by {
            if state.pool[k] {
                let i = choose|i: int| 0 <= i < state.npairs && #[trigger] state.pair_kind(i) == k;
                assert(kinds[i] == k);
            }
            if target.pool[k] {
                let i = choose|i: int| 0 <= i < 7 && kinds[i] == k;
                assert(state.pair_kind(i) == k);
            }
        }
        assert(state.pool =~= target.pool);
        assert(state == target);
        assert(state.emitted()[0] == target);
    } else {
        let m = state.npairs as int;
        assert(kinds[m] < 34);
        let skipped = state.with_skip().emitted();
        let taken = state.with_take().emitted();
        assert(state.emitted() == skipped + taken);
        if kinds[m] == state.curr {
            let next = state.with_take();
            state.lemma_with_take_wf();
            assert forall|i: int| 0 <= i < next.npairs implies #[trigger] next.pair_kind(i)
                == kinds[i] by {
                if i < m {
                    assert(state.pair_kind(i) == kinds[i]);
                }
            }
            if m + 1 < 7 {
                assert(kinds[m] < kinds[m + 1]);
            }
            lemma_emitted_complete(next, kinds);
            let x = choose|x: int| 0 <= x < taken.len() && taken[x] == target;
            assert((skipped + taken)[skipped.len() + x] == target);
        } else {
            let next = state.with_skip();
            state.lemma_with_skip_wf();
            assert forall|i: int| 0 <= i < next.npairs implies #[trigger] next.pair_kind(i)
                == kinds[i] by {
                assert(state.pair_kind(i) == kinds[i]);
            }
            lemma_emitted_complete(next, kinds);
            let x = choose|x: int| 0 <= x < skipped.len() && skipped[x] == target;
            assert((skipped + taken)[x] == target);
        }
    }
}

/// The walk over all seven-pairs hands reports every choice of seven kinds.
pub proof fn lemma_seven_pairs_complete(kinds: Seq<u8>)
    requires
        is_selection(kinds),
    ensures
        chiitoi_start(0).emitted().contains(selection_state(kinds)),
{
    let start = chiitoi_start(0);
    assert(start.wf()) by {
        reveal(ChiitoiState::wf);
    }
    lemma_emitted_complete(start, kinds);
}

/// Every reported state keeps the pairs that the state had chosen and
/// chooses the next pair, if any, at the current kind or above.
pub open spec fn follows(state: ChiitoiState, found: ChiitoiState) -> bool {
    &&& found.wf()
    &&& found.finished()
    &&& forall|i: int| 0 <= i < state.npairs ==> #[trigger] found.pair_kind(i) == state.pair_kind(i)
    &&& state.npairs < 7 ==> found.pair_kind(state.npairs as int) >= state.curr
}

/// Every state that the walk reports is a finished choice of seven kinds
/// that continues the state.
pub proof fn lemma_emitted_sound(state: ChiitoiState)
    requires
        state.wf(),
    ensures
        forall|x: int|
            0 <= x < state.emitted().len() ==> follows(state, #[trigger] state.emitted()[x]),
    decreases 34 - state.curr,
{
    if state.finished() {
        assert(follows(state, state.emitted()[0]));
    } else if state.curr < 34 {
        let m = state.npairs as int;
        let skip = state.with_skip();
        let take = state.with_take();
        state.lemma_with_skip_wf();
        state.lemma_with_take_wf();
        lemma_emitted_sound(skip);
        lemma_emitted_sound(take);
        assert(state.hand.len() == 14 && m < 7) by {
            reveal(ChiitoiState::wf);
        }
        assert(take.pair_kind(m) == state.curr);
        assert forall|i: int| 0 <= i < m implies #[trigger] take.pair_kind(i) == state.pair_kind(
            i,
        ) by {}
        let all = state.emitted();
        assert(all == skip.emitted() + take.emitted());
        assert forall|x: int| 0 <= x < all.len() implies follows(state, #[trigger] all[x]) by {
            let found = all[x];
            if x < skip.emitted().len() {
                assert(found == skip.emitted()[x]);
                assert(follows(skip, found));
                assert forall|i: int| 0 <= i < state.npairs implies #[trigger] found.pair_kind(i)
                    == state.pair_kind(i) by {
                    assert(found.pair_kind(i) == skip.pair_kind(i));
                }
                assert(found.pair_kind(m) >= skip.curr);
            } else {
                assert(found == take.emitted()[x - skip.emitted().len()]);
                assert(follows(take, found));
                assert forall|i: int| 0 <= i < state.npairs implies #[trigger] found.pair_kind(i)
                    == state.pair_kind(i) by {
                    assert(found.pair_kind(i) == take.pair_kind(i));
                }
                assert(found.pair_kind(m) == take.pair_kind(m));
            }
        }
    }
}

/// The walk reports no state twice.
pub proof fn lemma_emitted_distinct(state: ChiitoiState)
    requires
        state.wf(),
    ensures
        state.emitted().no_duplicates(),
    decreases 34 - state.curr,
{
    if state.finished() {
    } else if state.curr < 34 {
        let m = state.npairs as int;
        let skip = state.with_skip();
        let take = state.with_take();
        state.lemma_with_skip_wf();
        state.lemma_with_take_wf();
        lemma_emitted_distinct(skip);
        lemma_emitted_distinct(take);
        lemma_emitted_sound(skip);
        lemma_emitted_sound(take);
        assert(state.hand.len() == 14 && m < 7) by {
            reveal(ChiitoiState::wf);
        }
        let a = skip.emitted();
        let b = take.emitted();
        let all = state.emitted();
        assert(all == a + b);
        assert forall|x: int, y: int| 0 <= x < y < all.len() implies all[x] != all[y] by {
            if y < a.len() {
                assert(all[x] == a[x] && all[y] == a[y]);
            } else if x >= a.len() {
                assert(all[x] == b[x - a.len()] && all[y] == b[y - a.len()]);
            } else {
                assert(all[x] == a[x] && all[y] == b[y - a.len()]);
                assert(follows(skip, a[x]));
                assert(follows(take, b[y - a.len()]));
                assert(a[x].pair_kind(m) >= skip.curr);
                assert(b[y - a.len()].pair_kind(m) == take.pair_kind(m));
                assert(take.pair_kind(m) == state.curr);
            }
        }
    }
}

} // verus!
