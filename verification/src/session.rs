//! The decisions of a session: which candidates stay after a context or a
//! feedback is known, when to search for a guess that ends the game, how
//! many guesses to score exactly, and which scored guess to play.

use vstd::prelude::*;
use crate::handle::{color_result_to_index, feedback, index_of, qualifies, Color, ColorResult, Context, Handle};
use crate::mahd_fast2::{all_handles_wf, mahd_killer_inner, separates, HandleEntropy};
use crate::universe::all_valid_tiles;

verus! {

/// Below this many candidates a guess that tells them all apart is searched.
pub const SEARCH_LIMIT: usize = 1000;

/// The work allowed for scoring guesses exactly: guesses times candidates.
pub const WORK_BUDGET: usize = 10000000;

/// How many exactly scored guesses are shown.
pub const SHORTLIST: usize = 10;

/// The candidates that qualify in a context.
pub open spec fn fits_context(context: Context) -> spec_fn(Handle) -> bool {
    |h: Handle| qualifies(h.flags, context)
}

/// The candidates against which a guess gets the given feedback.
pub open spec fn fits_feedback(guess: Handle, result: Seq<Color>) -> spec_fn(Handle) -> bool {
    |h: Handle| feedback(guess.hand@, h.hand@) == result
}

/// Whether all hands are as the universe stores them: real tile kinds, and
/// the pool of each the presence set of its hand.
pub fn all_wf(hs: &Vec<Handle>) -> (ok: bool)
    ensures
        ok == all_handles_wf(hs@),
{
    let n = hs.len();
    for i in 0..n
        invariant
            n == hs@.len(),
            forall|j: int| 0 <= j < i ==> (#[trigger] hs@[j]).wf(),
    {
        if !hs[i].is_wf() {
            return false;
        }
    }
    true
}

/// Whether all hands hold real tile kinds only.
pub fn all_valid(hs: &Vec<Handle>) -> (ok: bool)
    ensures
        ok == all_valid_tiles(hs@),
{
    let n = hs.len();
    for i in 0..n
        invariant
            n == hs@.len(),
            forall|j: int| 0 <= j < i ==> (#[trigger] hs@[j]).valid_tiles(),
    {
        if !hs[i].has_valid_tiles() {
            return false;
        }
    }
    true
}

/// Keeps the hands that qualify in the context, in their order.
pub fn filter_context(hs: Vec<Handle>, context: &Context) -> (kept: Vec<Handle>)
    ensures
        kept@ == hs@.filter(fits_context(*context)),
{
    let mut kept: Vec<Handle> = Vec::new();
    let n = hs.len();
    assert(hs@.subrange(0, 0).filter(fits_context(*context)) =~= Seq::empty()) by {
        hs@.subrange(0, 0).lemma_filter_len(fits_context(*context));
    }
    for i in 0..n
        invariant
            n == hs@.len(),
            kept@ == hs@.subrange(0, i as int).filter(fits_context(*context)),
    {
        let handle = hs[i];
        proof {
            assert(hs@.subrange(0, i + 1) =~= hs@.subrange(0, i as int).push(handle));
            hs@.subrange(0, i as int).lemma_filter_push(handle, fits_context(*context));
        }
        if handle.match_context(context) {
            kept.push(handle);
        }
    }
    assert(hs@.subrange(0, n as int) =~= hs@);
    kept
}

/// Keeps the candidates against which `guess` gets the feedback `result`,
/// in their order.
pub fn filter_color_result(hs: Vec<Handle>, guess: &Handle, result: &ColorResult) -> (kept: Vec<
    Handle,
>)
    ensures
        kept@ == hs@.filter(fits_feedback(*guess, result@)),
{
    let mut kept: Vec<Handle> = Vec::new();
    let n = hs.len();
    assert(hs@.subrange(0, 0).filter(fits_feedback(*guess, result@)) =~= Seq::empty()) by {
        hs@.subrange(0, 0).lemma_filter_len(fits_feedback(*guess, result@));
    }
    for i in 0..n
        invariant
            n == hs@.len(),
            kept@ == hs@.subrange(0, i as int).filter(fits_feedback(*guess, result@)),
    {
        let handle = hs[i];
        proof {
            assert(hs@.subrange(0, i + 1) =~= hs@.subrange(0, i as int).push(handle));
            hs@.subrange(0, i as int).lemma_filter_push(handle, fits_feedback(*guess, result@));
        }
        if handle.match_color_result(guess, result) {
            kept.push(handle);
        }
    }
    assert(hs@.subrange(0, n as int) =~= hs@);
    kept
}

/// A secret among the candidates stays among them when they are filtered
/// by the feedback that a guess gets against that secret.
pub proof fn lemma_filter_keeps_secret(hs: Seq<Handle>, guess: Handle, secret: Handle)
    requires
        hs.contains(secret),
    ensures
        hs.filter(fits_feedback(guess, feedback(guess.hand@, secret.hand@))).contains(secret),
{
    let pred = fits_feedback(guess, feedback(guess.hand@, secret.hand@));
    let i = choose|i: int| 0 <= i < hs.len() && hs[i] == secret;
    assert(pred(hs[i]));
    hs.lemma_filter_contains(pred, i);
}

/// Searches for a guess that tells all candidates apart, while they are
/// few enough for the search.
pub fn perfect_guess(hs: &Vec<Handle>) -> (guess: Option<Handle>)
    ensures
        hs@.len() >= SEARCH_LIMIT ==> guess is None,
        hs@.len() < SEARCH_LIMIT ==> match guess {
            Some(g) => exists|k: int|
                {
                    &&& 0 <= k < hs@.len()
                    &&& #[trigger] hs@[k] == g
                    &&& separates(g, hs@)
                    &&& forall|m: int| 0 <= m < k ==> !separates(#[trigger] hs@[m], hs@)
                },
            None => forall|m: int| 0 <= m < hs@.len() ==> !separates(#[trigger] hs@[m], hs@),
        },
{
    if hs.len() < SEARCH_LIMIT {
        mahd_killer_inner(hs)
    } else {
        None
    }
}

/// How many guesses are scored exactly against `candidates` candidates:
/// the work budget shared out among them. It is at least one while the
/// candidates do not exceed the budget.
pub fn killer_candidates(candidates: usize) -> (guesses: usize)
    requires
        candidates > 0,
    ensures
        guesses == WORK_BUDGET / candidates,
        candidates <= WORK_BUDGET ==> guesses >= 1,
{
    assert(candidates <= WORK_BUDGET ==> WORK_BUDGET as int / candidates as int >= 1) by (nonlinear_arith)
        requires
            candidates > 0,
    ;
    WORK_BUDGET / candidates
}

/// The guess to play: the last of those with the highest score, as a handle
/// with an empty pool and no flags.
pub fn best_guess(hes: &Vec<HandleEntropy>) -> (guess: Handle)
    requires
        hes@.len() > 0,
    ensures
        exists|k: int|
            {
                &&& 0 <= k < hes@.len()
                &&& guess.hand == (#[trigger] hes@[k]).hand
                &&& forall|i: int| 0 <= i < hes@.len() ==> hes@[i].entropy <= hes@[k].entropy
                &&& forall|i: int| k < i < hes@.len() ==> hes@[i].entropy < hes@[k].entropy
            },
        guess.pool@ == Seq::new(34, |k: int| false),
        guess.flags == 0,
{
    let mut best: usize = 0;
    let n = hes.len();
    for i in 1..n
        invariant
            n == hes@.len(),
            best < i,
            forall|x: int| 0 <= x < i ==> hes@[x].entropy <= hes@[best as int].entropy,
            forall|x: int| best < x < i ==> hes@[x].entropy < hes@[best as int].entropy,
    {
        if hes[i].entropy >= hes[best].entropy {
            best = i;
        }
    }
    let guess = Handle { hand: hes[best].hand, pool: [false; 34], flags: 0 };
    assert(guess.pool@ =~= Seq::new(34, |k: int| false));
    assert(guess.hand == hes@[best as int].hand);
    guess
}

/// Where the entry of a feedback starts in the index file: four bytes for
/// each feedback key below its own, less one entry. The entry before a
/// feedback's own holds where its hands start, its own where they end.
pub fn index_position(color_result: &ColorResult) -> (position: u64)
    requires
        index_of(color_result@) >= 1,
    ensures
        position == (index_of(color_result@) - 1) * 4,
{
    let color_index = color_result_to_index(color_result);
    (color_index - 1) as u64 * 4
}

/// The handle of a short record: fourteen tiles and the flags, no pool.
pub fn from_short_record(record: &[u8; 15]) -> (handle: Handle)
    ensures
        handle.hand@ == record@.subrange(0, 14),
        handle.pool@ == Seq::new(34, |k: int| false),
        handle.flags == record@[14],
{
    let mut hand = [0u8; 14];
    for i in 0..14usize
        invariant
            forall|j: int| 0 <= j < i ==> hand@[j] == record@[j],
    {
        hand[i] = record[i];
    }
    let handle = Handle { hand, pool: [false; 34], flags: record[14] };
    assert(handle.hand@ =~= record@.subrange(0, 14));
    assert(handle.pool@ =~= Seq::new(34, |k: int| false));
    handle
}

/// The stage of a session at which it cannot go on.
#[derive(Debug, Clone, Copy, PartialEq, Eq, Structural)]
pub enum Failure {
    /// A stored record does not hold a hand with its pool.
    Load,
    /// No candidate fits all the feedback given.
    Filter,
    /// No guess was scored.
    Scoring,
}

impl Failure {
    /// What to tell the player.
    pub fn message(&self) -> (text: &'static str)
        ensures
            text@ == (match *self {
                Failure::Load => "load failed: a record holds no well-formed hand"@,
                Failure::Filter => "filter failed: no hand fits all the feedback given"@,
                Failure::Scoring => "scoring failed: no guess was scored"@,
            }),
    {
        match self {
            Failure::Load => "load failed: a record holds no well-formed hand",
            Failure::Filter => "filter failed: no hand fits all the feedback given",
            Failure::Scoring => "scoring failed: no guess was scored",
        }
    }
}

/// What a round does next.
pub enum Step {
    /// Play this guess: its feedback tells which candidate is the secret.
    Play(Handle),
    /// Score all guesses roughly and this many of the best exactly.
    Score(usize),
}

/// The handle of a record, if the record holds a hand of real tile kinds
/// with the pool that belongs to it.
pub fn checked_record(info: u128) -> (loaded: Result<Handle, Failure>)
    ensures
        match loaded {
            Ok(handle) => {
                &&& handle.wf()
                &&& handle.hand@ == crate::store::unpacked_hand(info)
                &&& handle.pool@ == crate::store::unpacked_pool(info)
                &&& handle.flags == crate::store::unpacked_flags(info)
            },
            Err(failure) => {
                &&& failure == Failure::Load
                &&& !(crate::store::unpacked_pool(info) == crate::handle::pool_of(
                    crate::store::unpacked_hand(info),
                ) && forall|i: int|
                    0 <= i < 14 ==> #[trigger] crate::store::unpacked_hand(info)[i] < 34)
            },
        },
{
    let handle = Handle::from_u128(info);
    if handle.is_wf() {
        Ok(handle)
    } else {
        Err(Failure::Load)
    }
}

/// The candidates that stay after a feedback; it is a failure if none stays.
pub fn narrowed(hs: Vec<Handle>, guess: &Handle, result: &ColorResult) -> (kept: Result<
    Vec<Handle>,
    Failure,
>)
    ensures
        match kept {
            Ok(left) => left@.len() > 0 && left@ == hs@.filter(fits_feedback(*guess, result@)),
            Err(failure) => failure == Failure::Filter && hs@.filter(
                fits_feedback(*guess, result@),
            ).len() == 0,
        },
{
    let left = filter_color_result(hs, guess, result);
    if left.len() == 0 {
        Err(Failure::Filter)
    } else {
        Ok(left)
    }
}

/// What the round does with the candidates left: without candidates it
/// fails; with few candidates of which one tells all apart it plays the
/// first such; else it scores guesses, and exactly as many as the work
/// budget allows for this many candidates.
pub fn plan(hs: &Vec<Handle>) -> (step: Result<Step, Failure>)
    ensures
        match step {
            Err(failure) => failure == Failure::Filter && hs@.len() == 0,
            Ok(Step::Play(guess)) => hs@.len() < SEARCH_LIMIT && exists|k: int|
                {
                    &&& 0 <= k < hs@.len()
                    &&& #[trigger] hs@[k] == guess
                    &&& separates(guess, hs@)
                    &&& forall|m: int| 0 <= m < k ==> !separates(#[trigger] hs@[m], hs@)
                },
            Ok(Step::Score(guesses)) => {
                &&& hs@.len() > 0
                &&& guesses == WORK_BUDGET as int / hs@.len() as int
                &&& hs@.len() < SEARCH_LIMIT ==> forall|m: int|
                    0 <= m < hs@.len() ==> !separates(#[trigger] hs@[m], hs@)
            },
        },
{
    if hs.len() == 0 {
        return Err(Failure::Filter);
    }
    match perfect_guess(hs) {
        Some(guess) => Ok(Step::Play(guess)),
        None => Ok(Step::Score(killer_candidates(hs.len()))),
    }
}

/// The guess to play among the scored ones; it is a failure if none was scored.
pub fn chosen(hes: &Vec<HandleEntropy>) -> (guess: Result<Handle, Failure>)
    ensures
        match guess {
            Ok(handle) => {
                &&& exists|k: int|
                    {
                        &&& 0 <= k < hes@.len()
                        &&& handle.hand == (#[trigger] hes@[k]).hand
                        &&& forall|i: int|
                            0 <= i < hes@.len() ==> hes@[i].entropy <= hes@[k].entropy
                        &&& forall|i: int| k < i < hes@.len() ==> hes@[i].entropy < hes@[k].entropy
                    }
                &&& handle.pool@ == Seq::new(34, |k: int| false)
                &&& handle.flags == 0
            },
            Err(failure) => failure == Failure::Scoring && hes@.len() == 0,
        },
{
    if hes.len() == 0 {
        Err(Failure::Scoring)
    } else {
        Ok(best_guess(hes))
    }
}

} // verus!
