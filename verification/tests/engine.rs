use mahjong_handle_solver::handle::{color_result_to_index, Handle};
use mahjong_handle_solver::heap::{heap_pop, heap_push};
use mahjong_handle_solver::mahd_fast::{mahd_fast, mahd_fast_prepare};
use mahjong_handle_solver::mahd_fast2::{
    color_classes, mahd_fast2, mahd_fast2_prepare, mahd_killer, mahd_killer_inner,
    mahd_killer_prepare, mk_catagory, top_n_biggest, HandleEntropy, MetaMap, PairColor,
};
use std::collections::HashMap;

fn with_pool(hand: [u8; 14]) -> Handle {
    let mut pool = [false; 34];
    for tile in hand {
        pool[tile as usize] = true;
    }
    Handle {
        hand,
        pool,
        flags: 0,
    }
}

fn scrambled(seed: &mut u64, kinds: u64) -> Handle {
    let mut hand = [0u8; 14];
    for slot in hand.iter_mut() {
        *seed = seed
            .wrapping_mul(6364136223846793005)
            .wrapping_add(1442695040888963407);
        *slot = ((*seed >> 33) % kinds) as u8;
    }
    with_pool(hand)
}

fn candidates(count: usize, seed: u64) -> Vec<Handle> {
    let mut seed = seed;
    (0..count).map(|_| scrambled(&mut seed, 34)).collect()
}

/// The outcome of guessing `a`, `b` at `pos`, `pos + 1` against a candidate,
/// as its place among the nine counters.
fn outcome(handle: &Handle, pos: usize, a: usize, b: usize) -> usize {
    let color = |at: usize, kind: usize| {
        if handle.hand[at] as usize == kind {
            0
        } else if handle.pool[kind] {
            1
        } else {
            2
        }
    };
    match (color(pos, a), color(pos + 1, b)) {
        (0, 0) => 0,
        (0, 1) => 1,
        (1, 0) => 2,
        (1, 1) => 3,
        (0, 2) => 4,
        (2, 0) => 5,
        (1, 2) => 6,
        (2, 1) => 7,
        _ => 8,
    }
}

#[test]
fn outcome_slots() {
    let all = [
        PairColor::GG,
        PairColor::GY,
        PairColor::YG,
        PairColor::YY,
        PairColor::GN,
        PairColor::NG,
        PairColor::YN,
        PairColor::NY,
        PairColor::NN,
    ];
    for (i, color) in all.iter().enumerate() {
        assert_eq!(color.slot(), i);
    }
}

#[test]
fn outcome_counts_match_a_direct_count() {
    let hs = candidates(40, 5);
    let (map, total) = mahd_fast2_prepare(&hs);
    assert_eq!(total, 40);
    assert_eq!(map.len(), 13 * 34 * 34);
    for pos in 0..13 {
        for a in 0..34 {
            for b in 0..34 {
                let mut expected = [0u32; 9];
                for handle in &hs {
                    expected[outcome(handle, pos, a, b)] += 1;
                }
                let cell = map[(pos * 34 + a) * 34 + b];
                assert_eq!(cell, expected);
                assert_eq!(cell.iter().sum::<u32>(), total);
            }
        }
    }
}

#[test]
fn outcome_counts_of_one_candidate() {
    let handle = Handle::best_1st();
    let (map, total) = mahd_fast2_prepare(&vec![handle]);
    assert_eq!(total, 1);
    // Guessing the candidate's own first two tiles: both in place.
    assert_eq!(map[(0 * 34 + 2) * 34 + 3][PairColor::GG.slot()], 1);
    // Guessing them the other way round: both elsewhere.
    assert_eq!(map[(0 * 34 + 3) * 34 + 2][PairColor::YY.slot()], 1);
    // A kind the candidate does not hold, before its second tile.
    assert_eq!(map[(0 * 34 + 0) * 34 + 3][PairColor::NG.slot()], 1);
    assert_eq!(map[(0 * 34 + 0) * 34 + 1][PairColor::NN.slot()], 1);
    assert_eq!(map[(12 * 34 + 25) * 34 + 0][PairColor::GN.slot()], 1);
    assert_eq!(map[(12 * 34 + 0) * 34 + 25][PairColor::NY.slot()], 1);
    assert_eq!(map[(12 * 34 + 6) * 34 + 0][PairColor::YN.slot()], 1);
    assert_eq!(map[(12 * 34 + 25) * 34 + 2][PairColor::GY.slot()], 1);
    assert_eq!(map[(12 * 34 + 2) * 34 + 6][PairColor::YG.slot()], 1);
}

fn tallies(hs: &[Handle]) -> MetaMap {
    let mut map = MetaMap::new();
    for handle in hs {
        map = map.register(handle);
    }
    map
}

#[test]
fn tallies_of_registered_candidates() {
    let hs = candidates(25, 9);
    let map = tallies(&hs);
    assert_eq!(map.total, 25);
    for pos in 0..14 {
        for kind in 0..34 {
            let expected = hs
                .iter()
                .filter(|handle| handle.hand[pos] as usize == kind)
                .count() as u32;
            assert_eq!(map.g[pos * 34 + kind], expected);
        }
    }
    for a in 0..34 {
        let expected = hs.iter().filter(|handle| handle.pool[a]).count() as u32;
        assert_eq!(map.y[a], expected);
        for b in 0..34 {
            let both = hs
                .iter()
                .filter(|handle| handle.pool[a] && handle.pool[b])
                .count() as u32;
            // Only the upper half is kept before it is mirrored.
            assert_eq!(map.yy[a * 34 + b], if a <= b { both } else { 0 });
        }
    }
    let map = map.flip_yy();
    for a in 0..34 {
        for b in 0..34 {
            assert_eq!(map.yy[a * 34 + b], map.yy[b * 34 + a]);
        }
    }
}

#[test]
fn merged_tallies_are_tallies_of_all() {
    let hs = candidates(30, 21);
    let whole = tallies(&hs);
    let merged = tallies(&hs[..12]).add(tallies(&hs[12..]));
    assert_eq!(merged.total, whole.total);
    assert_eq!(merged.gg, whole.gg);
    assert_eq!(merged.gy, whole.gy);
    assert_eq!(merged.yg, whole.yg);
    assert_eq!(merged.g, whole.g);
    assert_eq!(merged.yy, whole.yy);
    assert_eq!(merged.y, whole.y);
    // The order of merging does not matter.
    let other = tallies(&hs[12..]).add(tallies(&hs[..12]));
    assert_eq!(other.gg, whole.gg);
    assert_eq!(other.yy, whole.yy);
    let (left, _) = mk_catagory(merged.flip_yy());
    let (right, _) = mk_catagory(whole.flip_yy());
    assert_eq!(left, right);
}

#[test]
fn slot_counts_match_a_direct_count() {
    let hs = candidates(30, 17);
    let map = mahd_fast_prepare(&hs);
    assert_eq!(map.len(), 14 * 34);
    for pos in 0..14 {
        for kind in 0..34 {
            let green = hs
                .iter()
                .filter(|handle| handle.hand[pos] as usize == kind)
                .count() as u32;
            let held = hs.iter().filter(|handle| handle.pool[kind]).count() as u32;
            assert_eq!(map[pos * 34 + kind], [green, held - green, 30 - held]);
        }
    }
}

fn scored(entropies: &[u64]) -> Vec<HandleEntropy> {
    entropies
        .iter()
        .enumerate()
        .map(|(i, &entropy)| HandleEntropy {
            hand: [i as u8; 14],
            entropy,
        })
        .collect()
}

#[test]
fn top_n_keeps_the_highest_scores() {
    let hes = scored(&[5, 1, 9, 3, 9, 7, 2]);
    let kept = top_n_biggest(hes.clone(), 3);
    let entropies: Vec<u64> = kept.iter().map(|he| he.entropy).collect();
    assert_eq!(entropies, vec![7, 9, 9]);
    let hands: Vec<u8> = kept.iter().map(|he| he.hand[0]).collect();
    assert_eq!(hands[0], 5);
    assert!(hands[1..].contains(&2) && hands[1..].contains(&4));
    assert!(top_n_biggest(hes.clone(), 0).is_empty());
    let all = top_n_biggest(hes.clone(), 20);
    let entropies: Vec<u64> = all.iter().map(|he| he.entropy).collect();
    assert_eq!(entropies, vec![1, 2, 3, 5, 7, 9, 9]);
    assert!(top_n_biggest(Vec::new(), 4).is_empty());
}

#[test]
fn top_n_on_many_scores() {
    let mut seed = 99u64;
    let mut entropies = Vec::new();
    for _ in 0..500 {
        seed = seed
            .wrapping_mul(6364136223846793005)
            .wrapping_add(1442695040888963407);
        entropies.push((seed >> 40) % 1000);
    }
    let kept = top_n_biggest(scored(&entropies), 25);
    let mut sorted = entropies.clone();
    sorted.sort();
    let expected: Vec<u64> = sorted[475..].to_vec();
    let got: Vec<u64> = kept.iter().map(|he| he.entropy).collect();
    assert_eq!(got, expected);
    for he in &kept {
        assert!(entropies.contains(&he.entropy));
    }
}

#[test]
fn shortlists() {
    let hes = scored(&[4, 8, 6, 2, 7, 1, 9, 3, 5, 0, 11, 10]);
    let guesses = mahd_fast2(hes.clone(), 2);
    assert_eq!(guesses.len(), 2);
    assert_eq!(guesses[0].hand, [11; 14]);
    assert_eq!(guesses[1].hand, [10; 14]);
    assert_eq!(guesses[0].pool, [false; 34]);
    assert_eq!(guesses[0].flags, 0);
    let kept = mahd_killer(hes.clone(), 3);
    let entropies: Vec<u64> = kept.iter().map(|he| he.entropy).collect();
    assert_eq!(entropies, vec![9, 10, 11]);
    let ten = mahd_fast(hes);
    let entropies: Vec<u64> = ten.iter().map(|he| he.entropy).collect();
    assert_eq!(entropies, vec![2, 3, 4, 5, 6, 7, 8, 9, 10, 11]);
}

#[test]
fn classes_of_a_guess() {
    let hs = candidates(60, 31);
    let mut seed = 77u64;
    let guess = scrambled(&mut seed, 34);
    let sizes = color_classes(&hs, &guess);
    assert_eq!(sizes.iter().sum::<u32>(), 60);
    assert!(sizes.iter().all(|&size| size >= 1));
    let mut expected: HashMap<u32, u32> = HashMap::new();
    let mut order = Vec::new();
    for handle in &hs {
        let key = color_result_to_index(&handle.get_color_result(&guess));
        if !expected.contains_key(&key) {
            order.push(key);
        }
        *expected.entry(key).or_insert(0) += 1;
    }
    let expected: Vec<u32> = order.iter().map(|key| expected[key]).collect();
    assert_eq!(sizes, expected);
}

#[test]
fn classes_of_few_kinds() {
    // With two kinds only, many candidates share a feedback.
    let mut seed = 1u64;
    let hs: Vec<Handle> = (0..50).map(|_| scrambled(&mut seed, 2)).collect();
    let guess = with_pool([0; 14]);
    let sizes = color_classes(&hs, &guess);
    assert_eq!(sizes.iter().sum::<u32>(), 50);
    assert!(sizes.len() < 50);
    let all = mahd_killer_prepare(&hs, &vec![guess, hs[0]]);
    assert_eq!(all.len(), 2);
    assert_eq!(all[0], sizes);
    assert_eq!(all[1].iter().sum::<u32>(), 50);
    assert!(color_classes(&Vec::new(), &guess).is_empty());
}

#[test]
fn perfect_separator_is_found() {
    let a = with_pool([1, 2, 3, 4, 5, 6, 7, 8, 10, 11, 12, 13, 14, 15]);
    let b = with_pool([2, 1, 3, 4, 5, 6, 7, 8, 10, 11, 12, 13, 14, 15]);
    let c = with_pool([1, 2, 4, 3, 5, 6, 7, 8, 10, 11, 12, 13, 14, 15]);
    let hs = vec![a, b, c];
    let killer = mahd_killer_inner(&hs).unwrap();
    // The first candidate already gets a different feedback from each.
    assert_eq!(killer.hand, a.hand);
    let results: Vec<_> = hs.iter().map(|h| h.get_color_result(&killer)).collect();
    assert!(results[0] != results[1] && results[0] != results[2] && results[1] != results[2]);
}

#[test]
fn candidates_that_differ_in_one_spent_tile() {
    // Each differs from the others in the last tile only, and the others
    // hold that tile matched elsewhere: no guess among them tells them apart.
    let a = with_pool([0, 0, 0, 1, 2, 3, 4, 5, 6, 7, 8, 8, 8, 4]);
    let b = with_pool([0, 0, 0, 1, 2, 3, 4, 5, 6, 7, 8, 8, 8, 1]);
    let c = with_pool([0, 0, 0, 1, 2, 3, 4, 5, 6, 7, 8, 8, 8, 7]);
    assert!(mahd_killer_inner(&vec![a, b, c]).is_none());
    assert_eq!(mahd_killer_inner(&vec![a, b]).unwrap().hand, a.hand);
}

#[test]
fn perfect_separator_need_not_be_first() {
    // Against the first candidate the other two get the same feedback.
    let a = with_pool([9, 9, 9, 9, 9, 9, 9, 9, 9, 9, 9, 9, 9, 9]);
    let b = with_pool([1, 2, 3, 4, 5, 6, 7, 8, 10, 11, 12, 13, 14, 15]);
    let c = with_pool([2, 1, 3, 4, 5, 6, 7, 8, 10, 11, 12, 13, 14, 15]);
    let hs = vec![a, b, c];
    assert_eq!(
        b.get_color_result(&a),
        c.get_color_result(&a)
    );
    let killer = mahd_killer_inner(&hs).unwrap();
    assert_eq!(killer.hand, b.hand);
}

#[test]
fn no_perfect_separator() {
    let a = with_pool([0, 0, 0, 1, 2, 3, 4, 5, 6, 7, 8, 8, 8, 4]);
    // The same hand twice can never be told apart.
    assert!(mahd_killer_inner(&vec![a, a]).is_none());
    assert!(mahd_killer_inner(&Vec::new()).is_none());
    assert_eq!(mahd_killer_inner(&vec![a]).unwrap().hand, a.hand);
}

#[test]
fn heap_hands_out_lowest_first() {
    let mut seed = 5u64;
    let mut heap = Vec::new();
    let mut entropies = Vec::new();
    for i in 0..200 {
        seed = seed
            .wrapping_mul(6364136223846793005)
            .wrapping_add(1442695040888963407);
        let entropy = (seed >> 40) % 50;
        entropies.push(entropy);
        heap_push(
            &mut heap,
            HandleEntropy {
                hand: [i as u8; 14],
                entropy,
            },
        );
        for place in 1..heap.len() {
            assert!(heap[(place - 1) / 2].entropy <= heap[place].entropy);
        }
    }
    entropies.sort();
    let mut seen = Vec::new();
    while !heap.is_empty() {
        let low = heap_pop(&mut heap);
        seen.push(low.entropy);
        for place in 1..heap.len() {
            assert!(heap[(place - 1) / 2].entropy <= heap[place].entropy);
        }
    }
    assert_eq!(seen, entropies);
}
