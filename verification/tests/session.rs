use mahjong_handle_solver::handle::Color::{Absent, Green, Yellow};
use mahjong_handle_solver::handle::{Context, Handle};
use mahjong_handle_solver::mahd_fast2::HandleEntropy;
use mahjong_handle_solver::session::{
    all_valid, all_wf, best_guess, checked_record, chosen, filter_color_result, filter_context,
    from_short_record, index_position, killer_candidates, narrowed, perfect_guess, plan, Failure,
    Step,
};
use mahjong_handle_solver::store;
use mahjong_handle_solver::universe::refine;

fn flagged(first: u8, flags: u8) -> Handle {
    let mut hand = [0u8; 14];
    hand[0] = first;
    Handle {
        hand,
        pool: [false; 34],
        flags,
    }
}

#[test]
fn context_filter_keeps_qualifying_hands_in_order() {
    let hs = vec![
        flagged(1, store::MASK_TRUE_ALWAYS),
        flagged(2, store::MASK_FALSE_IF_RON),
        flagged(3, store::ANY_TON),
        flagged(4, store::NOT_ANY_NAN),
        flagged(5, store::ANY_NAN),
    ];
    let tsumo = Context::parse_context("t");
    let kept = filter_context(hs.clone(), &tsumo);
    let firsts: Vec<u8> = kept.iter().map(|handle| handle.hand[0]).collect();
    assert_eq!(firsts, vec![1, 4]);
    let south = Context::parse_context("s");
    let kept = filter_context(hs, &south);
    let firsts: Vec<u8> = kept.iter().map(|handle| handle.hand[0]).collect();
    assert_eq!(firsts, vec![1, 2, 5]);
    assert!(filter_context(Vec::new(), &south).is_empty());
}

#[test]
fn feedback_filter_keeps_the_secret() {
    let mut seed = 41u64;
    let mut hs = Vec::new();
    for _ in 0..200 {
        let mut hand = [0u8; 14];
        for slot in hand.iter_mut() {
            seed = seed
                .wrapping_mul(6364136223846793005)
                .wrapping_add(1442695040888963407);
            *slot = ((seed >> 33) % 5) as u8;
        }
        hs.push(Handle {
            hand,
            pool: [false; 34],
            flags: 0,
        });
    }
    let guess = hs[3];
    for secret in [hs[0], hs[57], hs[199]] {
        let result = secret.get_color_result(&guess);
        let kept = filter_color_result(hs.clone(), &guess, &result);
        assert!(kept.iter().any(|handle| handle.hand == secret.hand));
        assert!(kept
            .iter()
            .all(|handle| handle.get_color_result(&guess) == result));
        let expected: Vec<[u8; 14]> = hs
            .iter()
            .filter(|handle| handle.get_color_result(&guess) == result)
            .map(|handle| handle.hand)
            .collect();
        let got: Vec<[u8; 14]> = kept.iter().map(|handle| handle.hand).collect();
        assert_eq!(got, expected);
    }
}

#[test]
fn feedback_filter_can_leave_nothing() {
    let hs = vec![Handle::best_1st()];
    let guess = Handle::best_1st();
    let mut result = [Green; 14];
    result[0] = Yellow;
    result[1] = Absent;
    assert!(filter_color_result(hs.clone(), &guess, &result).is_empty());
    assert_eq!(filter_color_result(hs, &guess, &[Green; 14]).len(), 1);
}

fn shifted(by: usize) -> Handle {
    let mut hand = [0u8; 14];
    for (i, slot) in hand.iter_mut().enumerate() {
        *slot = ((i + by) % 34) as u8;
    }
    Handle {
        hand,
        pool: [false; 34],
        flags: 0,
    }
}

#[test]
fn search_only_among_few_candidates() {
    let few: Vec<Handle> = (0..3).map(shifted).collect();
    assert_eq!(perfect_guess(&few).unwrap().hand, few[0].hand);
    let many: Vec<Handle> = (0..1000).map(shifted).collect();
    assert!(perfect_guess(&many).is_none());
    let nearly: Vec<Handle> = many[..999].to_vec();
    // Repeated hands: no guess tells them apart.
    assert!(perfect_guess(&nearly).is_none());
    // The first hand shares no tile with the others; the second tells all apart.
    let apart: Vec<Handle> = vec![shifted(0), shifted(14), shifted(15)];
    assert_eq!(perfect_guess(&apart).unwrap().hand, apart[1].hand);
}

#[test]
fn share_of_the_budget() {
    assert_eq!(killer_candidates(1), 10000000);
    assert_eq!(killer_candidates(3), 3333333);
    assert_eq!(killer_candidates(1000), 10000);
    assert_eq!(killer_candidates(10000000), 1);
    assert_eq!(killer_candidates(10000001), 0);
}

#[test]
fn best_guess_is_the_last_of_the_highest() {
    let hes: Vec<HandleEntropy> = [3u64, 8, 5, 8, 1]
        .iter()
        .enumerate()
        .map(|(i, &entropy)| HandleEntropy {
            hand: [i as u8; 14],
            entropy,
        })
        .collect();
    let guess = best_guess(&hes);
    assert_eq!(guess.hand, [3; 14]);
    assert_eq!(guess.pool, [false; 34]);
    assert_eq!(guess.flags, 0);
    assert_eq!(best_guess(&hes[..1].to_vec()).hand, [0; 14]);
}

#[test]
fn index_entries() {
    let mut result = [Green; 14];
    result[13] = Yellow;
    assert_eq!(index_position(&result), 0);
    result[13] = Absent;
    assert_eq!(index_position(&result), 4);
    assert_eq!(index_position(&[Absent; 14]), 4782967 * 4);
}

#[test]
fn short_records() {
    let mut record = [0u8; 15];
    for (i, byte) in record.iter_mut().enumerate() {
        *byte = i as u8 + 1;
    }
    let handle = from_short_record(&record);
    assert_eq!(handle.hand, [1, 2, 3, 4, 5, 6, 7, 8, 9, 10, 11, 12, 13, 14]);
    assert_eq!(handle.flags, 15);
    assert_eq!(handle.pool, [false; 34]);
}

#[test]
fn refine_keeps_each_hand_once() {
    let hs = vec![
        flagged(1, store::MASK_FALSE_IF_RON),
        flagged(2, store::ANY_TON),
        flagged(1, store::ANY_NAN),
        flagged(3, store::MASK_TRUE_ALWAYS),
        flagged(2, store::MASK_FALSE_IF_RON),
        flagged(3, store::ANY_PEI),
        flagged(1, store::MASK_FALSE_IF_RON),
        flagged(2, store::MASK_TRUE_ALWAYS),
        flagged(1, store::ANY_SHA),
    ];
    let found = refine(&hs);
    let got: Vec<(u8, u8)> = found
        .iter()
        .map(|handle| (handle.hand[0], handle.flags))
        .collect();
    assert_eq!(
        got,
        vec![
            (1, store::ANY_NAN),
            (2, store::MASK_TRUE_ALWAYS),
            (3, store::MASK_TRUE_ALWAYS),
        ]
    );
    assert!(refine(&Vec::new()).is_empty());
}

#[test]
fn refine_tells_hands_apart_by_every_slot() {
    let mut hs = Vec::new();
    for slot in 0..14 {
        let mut hand = [0u8; 14];
        hand[slot] = 33;
        hs.push(Handle {
            hand,
            pool: [false; 34],
            flags: 0,
        });
    }
    hs.push(hs[5]);
    let found = refine(&hs);
    assert_eq!(found.len(), 14);
    for (slot, handle) in found.iter().enumerate() {
        assert_eq!(handle.hand[slot], 33);
    }
}

#[test]
fn checks_before_counting() {
    let good = Handle::best_1st();
    let mut no_pool = good;
    no_pool.pool = [false; 34];
    let mut bad_tile = good;
    bad_tile.hand[0] = 40;
    assert!(all_wf(&vec![good, good]));
    assert!(!all_wf(&vec![good, no_pool]));
    assert!(all_valid(&vec![good, no_pool]));
    assert!(!all_valid(&vec![bad_tile, good]));
    assert!(all_wf(&Vec::new()) && all_valid(&Vec::new()));
}

#[test]
fn records_are_checked_on_loading() {
    let handle = Handle::best_1st();
    let loaded = checked_record(handle.to_u128()).unwrap();
    assert_eq!(loaded.hand, handle.hand);
    assert_eq!(loaded.pool, handle.pool);
    assert_eq!(loaded.flags, handle.flags);
    // A record whose pool lacks a kind of the hand.
    let damaged = handle.to_u128() & !(1u128 << (92 + 6));
    assert_eq!(checked_record(damaged).err(), Some(Failure::Load));
    // A record with a tile that is no kind.
    let damaged = handle.to_u128() | (63u128 << 8);
    assert_eq!(checked_record(damaged).err(), Some(Failure::Load));
    assert_eq!(checked_record(0).err(), Some(Failure::Load));
}

#[test]
fn rounds_fail_without_candidates() {
    assert!(matches!(plan(&Vec::new()), Err(Failure::Filter)));
    let few: Vec<Handle> = (0..3).map(shifted).collect();
    match plan(&few) {
        Ok(Step::Play(guess)) => assert_eq!(guess.hand, few[0].hand),
        _ => panic!("a guess that tells all apart was to be played"),
    }
    let same = vec![few[0], few[0]];
    match plan(&same) {
        Ok(Step::Score(guesses)) => assert_eq!(guesses, 5000000),
        _ => panic!("guesses were to be scored"),
    }
    let guess = few[0];
    let result = few[1].get_color_result(&guess);
    let left = narrowed(few.clone(), &guess, &result).unwrap();
    assert_eq!(left.len(), 1);
    assert_eq!(left[0].hand, few[1].hand);
    let mut impossible = [Green; 14];
    impossible[0] = Absent;
    assert_eq!(
        narrowed(few.clone(), &guess, &impossible).err(),
        Some(Failure::Filter)
    );
}

#[test]
fn scoring_fails_without_guesses() {
    assert_eq!(chosen(&Vec::new()).err(), Some(Failure::Scoring));
    let hes = vec![
        HandleEntropy {
            hand: [1; 14],
            entropy: 4,
        },
        HandleEntropy {
            hand: [2; 14],
            entropy: 9,
        },
    ];
    assert_eq!(chosen(&hes).unwrap().hand, [2; 14]);
}

#[test]
fn failures_name_their_stage() {
    assert!(Failure::Load.message().starts_with("load failed"));
    assert!(Failure::Filter.message().starts_with("filter failed"));
    assert!(Failure::Scoring.message().starts_with("scoring failed"));
}
