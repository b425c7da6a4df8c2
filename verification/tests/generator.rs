use mahjong_handle_solver::generator::{
    rotate, AgendaName, ChiitoiFinder, Finder, FinderStage, Found, Generator, KokushiFinder,
    PartitionedHand, Score,
};
use mahjong_handle_solver::handle::Handle;
use mahjong_handle_solver::store;
use mahjong_handle_solver::utils::TileGroup::{Koutsu, Shuntsu, Toitsu};
use mahjong_handle_solver::utils::{
    koutsu_of_tile, next_tile, shuntsu_of_tile, tile_of_kokushi, tile_of_toitsu, toitsu_of_tile,
    TileGroup,
};
use std::collections::HashSet;

/// The verdict of the scoring rules on the hands below.
fn named(names: &[AgendaName]) -> Score {
    Score::Name(names.to_vec())
}

/// Four runs with the given pair.
fn all_runs(pair: u8, is_singular_wait: bool) -> PartitionedHand {
    PartitionedHand {
        group_items: vec![
            (Toitsu(pair), false),
            (Shuntsu(0), false),
            (Shuntsu(3), false),
            (Shuntsu(9), false),
            (Shuntsu(24), false),
        ],
        is_singular_wait,
    }
}

#[test]
fn test_pinfu() {
    // 11m 123m 456m 123p 789s on a two-sided wait: the all-runs rule.
    let partitions = all_runs(0, false);
    assert!(!partitions.is_singular_wait);
    let flags = Finder::get_flags(&named(&[AgendaName::Pinfu]));
    assert_eq!(flags, store::MASK_TRUE_ALWAYS);

    // The same groups on a narrow wait: no rule.
    let partitions = all_runs(0, true);
    assert!(partitions.is_singular_wait);
    let flags = Finder::get_flags(&named(&[]));
    assert_eq!(flags, store::MASK_FALSE_IF_RON);

    // A pair of dragons: no rule either.
    let partitions = all_runs(32, false);
    assert_eq!(partitions.group_items[0].0, Toitsu(32));
    let flags = Finder::get_flags(&named(&[]));
    assert_eq!(flags, store::MASK_FALSE_IF_RON);

    // A pair of east winds: all runs unless east is live.
    let partitions = all_runs(27, false);
    assert_eq!(partitions.group_items[0].0, Toitsu(27));
    let flags = Finder::get_flags(&named(&[AgendaName::Pinfu, AgendaName::YakuhaiJantouTon]));
    assert_eq!(flags, 0b00000000);

    // A pair of north winds: all runs unless north is live.
    let partitions = all_runs(30, false);
    assert_eq!(partitions.group_items[0].0, Toitsu(30));
    let flags = Finder::get_flags(&named(&[AgendaName::Pinfu, AgendaName::YakuhaiJantouPei]));
    assert_eq!(flags, 0b00110000);
}

#[test]
fn test_yakuhai() {
    // 11m 111z 222z 333z 567s: triplets of east, south and west.
    let partitions = PartitionedHand {
        group_items: vec![
            (Toitsu(0), false),
            (Koutsu(27), false),
            (Koutsu(28), true),
            (Koutsu(29), false),
            (Shuntsu(22), false),
        ],
        is_singular_wait: false,
    };
    assert_eq!(partitions.group_items.len(), 5);
    let flags = Finder::get_flags(&named(&[
        AgendaName::YakuhaiTon,
        AgendaName::YakuhaiNan,
        AgendaName::YakuhaiShaa,
    ]));
    assert_eq!(flags, 0b00000111);
}

#[test]
fn flags_of_every_kind_of_verdict() {
    assert_eq!(Finder::get_flags(&Score::Done), store::MASK_TRUE_ALWAYS);
    assert_eq!(
        Finder::get_flags(&named(&[AgendaName::Other])),
        store::MASK_FALSE_IF_RON
    );
    assert_eq!(
        Finder::get_flags(&named(&[AgendaName::YakuhaiPei, AgendaName::Other])),
        store::ANY_PEI
    );
    assert_eq!(
        Finder::get_flags(&named(&[AgendaName::YakuhaiJantouNan])),
        store::MASK_FALSE_IF_RON
    );
    assert_eq!(
        Finder::get_flags(&named(&[AgendaName::YakuhaiJantouNan, AgendaName::Pinfu])),
        store::NOT_ANY_NAN
    );
    assert_eq!(
        Finder::get_flags(&named(&[AgendaName::Pinfu, AgendaName::YakuhaiJantouShaa])),
        store::NOT_ANY_SHA
    );
    assert_eq!(
        Finder::get_flags(&named(&[AgendaName::Pinfu, AgendaName::YakuhaiNan])),
        store::ANY_NAN | store::MASK_TRUE_ALWAYS
    );
    assert_eq!(
        Finder::get_flags(&named(&[AgendaName::YakuhaiTon, AgendaName::YakuhaiTon])),
        store::ANY_TON
    );
}

#[test]
fn tile_vocabulary() {
    assert_eq!(next_tile(0), Some(1));
    assert_eq!(next_tile(8), Some(9));
    assert_eq!(next_tile(32), Some(33));
    assert_eq!(next_tile(33), None);
    assert_eq!(toitsu_of_tile(5), TileGroup::Toitsu(5));
    assert_eq!(tile_of_toitsu(TileGroup::Toitsu(31)), 31);
    assert_eq!(koutsu_of_tile(33), TileGroup::Koutsu(33));
    assert_eq!(shuntsu_of_tile(0), Some(TileGroup::Shuntsu(0)));
    assert_eq!(shuntsu_of_tile(6), Some(TileGroup::Shuntsu(6)));
    assert_eq!(shuntsu_of_tile(7), None);
    assert_eq!(shuntsu_of_tile(8), None);
    assert_eq!(shuntsu_of_tile(15), Some(TileGroup::Shuntsu(15)));
    assert_eq!(shuntsu_of_tile(24), Some(TileGroup::Shuntsu(24)));
    assert_eq!(shuntsu_of_tile(25), None);
    assert_eq!(shuntsu_of_tile(27), None);
    let kinds: Vec<u8> = (0..13).map(tile_of_kokushi).collect();
    assert_eq!(kinds, vec![0, 8, 9, 17, 18, 26, 27, 28, 29, 30, 31, 32, 33]);
}

/// Every standard hand of a walk that starts at `first`, each with the
/// state it came from.
fn standard_from(first: u8) -> Vec<(Finder, Handle)> {
    let mut pending = vec![Finder::from_tile(first)];
    let mut found = Vec::new();
    while let Some(finder) = Finder::search(&mut pending) {
        let handle = finder.dup().to_handle(&Score::Done);
        found.push((finder, handle));
    }
    assert!(pending.is_empty());
    found
}

#[test]
fn standard_hands_of_honors_only() {
    // One pair out of seven kinds, four triplets out of the other six,
    // and any of the five groups completed last.
    let found = standard_from(27);
    assert_eq!(found.len(), 7 * 15 * 5);
    let hands: HashSet<[u8; 14]> = found.iter().map(|(_, handle)| handle.hand).collect();
    assert_eq!(hands.len(), found.len());
    for (finder, handle) in &found {
        assert_eq!(finder.nmentsu, 4);
        assert!(finder.toitsu.is_some());
        assert_eq!(finder.partitions.group_items.len(), 5);
        assert_eq!(handle.flags, store::MASK_TRUE_ALWAYS);
        assert!(handle.hand.iter().all(|&tile| (27..34).contains(&tile)));
        assert!(handle.hand[..13].windows(2).all(|pair| pair[0] <= pair[1]));
        assert_eq!(Some(handle.hand[13]), finder.winning_tile);
        for kind in 0..34 {
            let count = handle.hand.iter().filter(|&&tile| tile == kind as u8).count();
            assert_eq!(count, finder.pool[kind] as usize);
            assert_eq!(handle.pool[kind], count > 0);
            assert!(count == 0 || count == 2 || count == 3);
        }
        // The wait is narrow exactly if the pair was completed last.
        let pair = finder.toitsu.unwrap();
        assert_eq!(
            finder.partitions.is_singular_wait,
            handle.hand[13] == pair
        );
        // Only the triplet completed last is flagged.
        for (group, flagged) in &finder.partitions.group_items {
            assert_eq!(*flagged, *group == TileGroup::Koutsu(handle.hand[13]));
        }
    }
}

#[test]
fn standard_hands_of_five_honors() {
    let found = standard_from(29);
    assert_eq!(found.len(), 5 * 5);
    assert!(standard_from(30).is_empty());
    assert!(standard_from(33).is_empty());
}

/// The walk written as plain recursion, for the number of hands it reports.
fn recursive_count(
    curr: u8,
    stage: u8,
    pool: &mut [u8; 34],
    pair: bool,
    groups: u8,
    won: bool,
) -> u64 {
    let at = curr as usize;
    match stage {
        0 => {
            let mut total = 0;
            if !pair && pool[at] <= 2 {
                pool[at] += 2;
                if !won {
                    total += recursive_count(curr, 2, pool, true, groups, true);
                }
                total += recursive_count(curr, 2, pool, true, groups, won);
                pool[at] -= 2;
            }
            total + recursive_count(curr, 1, pool, pair, groups, won)
        }
        1 => {
            let mut total = 0;
            if groups != 4 && pool[at] <= 1 {
                pool[at] += 3;
                if !won {
                    total += recursive_count(curr, 2, pool, pair, groups + 1, true);
                }
                total += recursive_count(curr, 2, pool, pair, groups + 1, won);
                pool[at] -= 3;
            }
            total + recursive_count(curr, 2, pool, pair, groups, won)
        }
        2 => {
            let mut total = 0;
            if groups != 4 && pool[at] <= 3 && curr < 27 && curr % 9 < 7 {
                for k in 0..3 {
                    pool[at + k] += 1;
                }
                if !won {
                    total += 3 * recursive_count(curr, 2, pool, pair, groups + 1, true);
                }
                total += recursive_count(curr, 2, pool, pair, groups + 1, won);
                for k in 0..3 {
                    pool[at + k] -= 1;
                }
            }
            total + recursive_count(curr, 3, pool, pair, groups, won)
        }
        _ => {
            if groups == 4 && pair && won {
                1
            } else if curr < 33 {
                recursive_count(curr + 1, 0, pool, pair, groups, won)
            } else {
                0
            }
        }
    }
}

#[test]
fn standard_hands_with_runs() {
    // The last three ranks of the last suit and the honors.
    let found = standard_from(24);
    let expected = recursive_count(24, 0, &mut [0; 34], false, 0, false);
    assert_eq!(found.len() as u64, expected);
    for (finder, handle) in &found {
        let mut tiles = Vec::new();
        for (group, _) in &finder.partitions.group_items {
            match group {
                TileGroup::Toitsu(t) => tiles.extend([*t, *t]),
                TileGroup::Koutsu(t) => tiles.extend([*t, *t, *t]),
                TileGroup::Shuntsu(t) => tiles.extend([*t, *t + 1, *t + 2]),
            }
        }
        tiles.sort();
        let mut hand = handle.hand.to_vec();
        hand.sort();
        assert_eq!(tiles, hand);
        assert!((0..34).all(|kind| finder.pool[kind] <= 4));
        assert!(handle.hand[..13].windows(2).all(|pair| pair[0] <= pair[1]));
    }
    // 777s 888s 999s as three runs 789s, with a pair and a fourth group.
    assert!(found.iter().any(|(finder, _)| finder
        .partitions
        .group_items
        .iter()
        .filter(|(group, _)| *group == TileGroup::Shuntsu(24))
        .count()
        == 3));
}

#[test]
fn wait_of_a_run() {
    let found = standard_from(24);
    let mut seen = 0;
    for (finder, _) in &found {
        let winner = finder.winning_tile.unwrap();
        let flagged = finder.partitions.group_items.iter().any(|(_, flag)| *flag);
        if finder.pool[24] == 1 && finder.pool[25] == 1 && finder.pool[26] == 1 {
            // Exactly one run 789s: the winner in it decides the wait.
            if winner == 24 || winner == 25 {
                // 89 waiting for 7, or 79 waiting for 8.
                assert!(finder.partitions.is_singular_wait);
                assert!(!flagged);
                seen += 1;
            } else if winner == 26 {
                // 78 waiting for 6 or 9.
                assert!(!finder.partitions.is_singular_wait);
                seen += 1;
            }
        }
    }
    assert!(seen > 0);
}

#[test]
fn first_steps_of_the_standard_walk() {
    let start = Finder::new();
    assert_eq!(start.curr, 0);
    assert_eq!(start.stage, FinderStage::Toitsu);
    assert_eq!(start.pool, [0; 34]);
    let mut pending = Vec::new();
    assert!(start.next(&mut pending).is_none());
    // Visited first: the pair of the first kind as the winning group.
    assert_eq!(pending.len(), 3);
    let won = pending.pop().unwrap();
    assert_eq!(won.winning_tile, Some(0));
    assert!(won.partitions.is_singular_wait);
    assert_eq!(won.pool[0], 2);
    assert_eq!(won.stage, FinderStage::Shuntsu);
    let plain = pending.pop().unwrap();
    assert_eq!(plain.winning_tile, None);
    assert_eq!(plain.toitsu, Some(0));
    assert_eq!(plain.partitions.group_items, vec![(TileGroup::Toitsu(0), false)]);
    let skip = pending.pop().unwrap();
    assert_eq!(skip.stage, FinderStage::Koutsu);
    assert_eq!(skip.pool, [0; 34]);
}

#[test]
fn rotation_moves_one_tile_to_the_end() {
    let hand = [0, 0, 1, 1, 2, 2, 3, 3, 4, 4, 5, 5, 6, 6];
    assert_eq!(rotate(&hand, 13), hand);
    assert_eq!(
        rotate(&hand, 11),
        [0, 0, 1, 1, 2, 2, 3, 3, 4, 4, 5, 6, 6, 5]
    );
    assert_eq!(
        rotate(&hand, 1),
        [0, 1, 1, 2, 2, 3, 3, 4, 4, 5, 5, 6, 6, 0]
    );
}

fn seven_pairs_from(first: u8) -> Vec<Handle> {
    let mut pending = vec![ChiitoiFinder::from_tile(first)];
    let mut found = Vec::new();
    while let Some(finder) = ChiitoiFinder::search(&mut pending) {
        found.extend(finder.handles());
    }
    found
}

#[test]
fn seven_pairs_of_the_honors() {
    let found = seven_pairs_from(27);
    assert_eq!(found.len(), 7);
    for (i, handle) in found.iter().enumerate() {
        let winner = 33 - i as u8;
        assert_eq!(handle.hand[13], winner);
        assert!(handle.hand[..13].windows(2).all(|pair| pair[0] <= pair[1]));
        for kind in 27..34u8 {
            assert_eq!(handle.hand.iter().filter(|&&tile| tile == kind).count(), 2);
            assert!(handle.pool[kind as usize]);
        }
        assert!(!handle.pool[26]);
        assert_eq!(handle.flags, store::MASK_TRUE_ALWAYS);
    }
    assert_eq!(found[0].hand, [27, 27, 28, 28, 29, 29, 30, 30, 31, 31, 32, 32, 33, 33]);
    assert_eq!(found[6].hand, [27, 28, 28, 29, 29, 30, 30, 31, 31, 32, 32, 33, 33, 27]);
}

#[test]
fn seven_pairs_out_of_ten_kinds() {
    // Seven out of ten kinds in 120 ways, each with seven winning tiles.
    let found = seven_pairs_from(24);
    assert_eq!(found.len(), 120 * 7);
    let hands: HashSet<[u8; 14]> = found.iter().map(|handle| handle.hand).collect();
    assert_eq!(hands.len(), found.len());
    assert!(seven_pairs_from(28).is_empty());
    assert!(seven_pairs_from(34).is_empty());
}

#[test]
fn thirteen_unique_hands() {
    let finder = KokushiFinder::new();
    assert_eq!(finder.hand, [0, 0, 8, 9, 17, 18, 26, 27, 28, 29, 30, 31, 32, 33]);
    let found = finder.next();
    assert_eq!(found.len(), 13 * 13);
    let hands: HashSet<[u8; 14]> = found.iter().map(|handle| handle.hand).collect();
    assert_eq!(hands.len(), found.len());
    let kinds = [0u8, 8, 9, 17, 18, 26, 27, 28, 29, 30, 31, 32, 33];
    for (i, handle) in found.iter().enumerate() {
        let doubled = kinds[i / 13];
        let winner = kinds[i % 13];
        assert_eq!(handle.hand[13], winner);
        assert!(handle.hand[..13].windows(2).all(|pair| pair[0] <= pair[1]));
        for kind in 0..34u8 {
            let count = handle.hand.iter().filter(|&&tile| tile == kind).count();
            let expected = if kind == doubled {
                2
            } else if kinds.contains(&kind) {
                1
            } else {
                0
            };
            assert_eq!(count, expected);
            assert_eq!(handle.pool[kind as usize], expected > 0);
        }
        assert_eq!(handle.flags, store::MASK_TRUE_ALWAYS);
    }
    // Doubled east with the lone nine of characters drawn last.
    assert_eq!(
        found[13 * 6 + 1].hand,
        [0, 9, 17, 18, 26, 27, 27, 28, 29, 30, 31, 32, 33, 8]
    );
}

#[test]
fn generator_runs_the_three_walks_in_turn() {
    let mut generator = Generator::new();
    assert_eq!(generator.standard.len(), 1);
    assert_eq!(generator.seven_pairs.len(), 1);
    // Cut the walks short: standard hands of the honors, no seven pairs.
    generator.standard = vec![Finder::from_tile(27)];
    generator.seven_pairs = vec![ChiitoiFinder::from_tile(27)];
    let mut standard = 0;
    let mut pairs = 0;
    let mut unique = 0;
    while let Some(found) = generator.next() {
        match found {
            Found::Standard(finder) => {
                assert_eq!(pairs + unique, 0);
                assert_eq!(finder.nmentsu, 4);
                standard += 1;
            }
            Found::SevenPairs(finder) => {
                assert_eq!(unique, 0);
                assert_eq!(finder.npairs, 7);
                pairs += 1;
            }
            Found::ThirteenUnique(finder) => {
                assert_eq!(finder.next().len(), 169);
                unique += 1;
            }
        }
    }
    assert_eq!((standard, pairs, unique), (525, 1, 1));
    assert!(generator.next().is_none());
}
