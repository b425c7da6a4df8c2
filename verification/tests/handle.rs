use mahjong_handle_solver::handle::Color::{Absent, Green, Yellow};
use mahjong_handle_solver::handle::{
    color_result_to_index, color_result_to_string, parse_color_result, ColorResult, Context,
    Handle,
};
use mahjong_handle_solver::store;

#[test]
fn test_play_ground() {
    let handle = Handle::from_string("24888m678p22333s3m");
    let other = Handle::from_string("678m678p12233s55z1s");
    println!(
        "{:?}",
        color_result_to_string(&handle.get_color_result(&other))
    );
}

#[test]
fn test_color_result_to_index() {
    let color_result: ColorResult = [
        Green, Green, Green, Green, Green, Green, Green, Green, Green, Green, Green, Green, Green,
        Green,
    ];
    assert_eq!(color_result_to_index(&color_result), 0);

    let color_result: ColorResult = [
        Absent, Absent, Absent, Absent, Absent, Absent, Absent, Absent, Absent, Absent, Absent,
        Absent, Absent, Absent,
    ];
    assert_eq!(color_result_to_index(&color_result), 4782968);
}

#[test]
fn test_get_color_result() {
    let handle = Handle::from_string("2235m345p345888s4m");
    let other = Handle::from_string("2245567789m123p3m");
    let color_result = parse_color_result("ggygnnnnnnnnyy");
    println!("{:?}", handle.get_color_result(&other));
    assert_eq!(handle.get_color_result(&other), color_result);

    let handle = Handle {
        hand: [1, 1, 2, 4, 11, 12, 13, 20, 21, 22, 25, 25, 25, 3],
        pool: [false; 34],
        flags: 0,
    };
    let other = Handle {
        hand: [2, 3, 4, 6, 11, 12, 13, 20, 21, 22, 23, 24, 25, 6],
        pool: [false; 34],
        flags: 0,
    };
    let color_result = [
        Yellow, Yellow, Yellow, Absent, Green, Green, Green, Green, Green, Green, Absent, Absent,
        Green, Absent,
    ];
    println!("{:?}", handle.get_color_result(&other));
    assert_eq!(handle.get_color_result(&other), color_result);

    let handle = Handle {
        hand: [1, 2, 3, 4, 5, 6, 7, 8, 9, 10, 11, 12, 13, 1],
        pool: [false; 34],
        flags: 0,
    };
    let other = Handle {
        hand: [1, 2, 3, 4, 5, 6, 7, 8, 9, 10, 11, 12, 13, 1],
        pool: [false; 34],
        flags: 0,
    };
    let color_result = [
        Green, Green, Green, Green, Green, Green, Green, Green, Green, Green, Green, Green, Green,
        Green,
    ];
    assert_eq!(handle.get_color_result(&other), color_result);

    let handle = Handle {
        hand: [1, 2, 3, 4, 5, 6, 7, 8, 9, 10, 11, 12, 13, 1],
        pool: [false; 34],
        flags: 0,
    };
    let other = Handle {
        hand: [1, 3, 2, 4, 5, 6, 7, 8, 9, 10, 11, 12, 13, 1],
        pool: [false; 34],
        flags: 0,
    };
    let color_result = [
        Green, Yellow, Yellow, Green, Green, Green, Green, Green, Green, Green, Green, Green,
        Green, Green,
    ];
    assert_eq!(handle.get_color_result(&other), color_result);
}

#[test]
fn test_match_color_result() {
    let handle = Handle {
        hand: [1, 1, 2, 4, 11, 12, 13, 20, 21, 22, 25, 25, 25, 3],
        pool: [false; 34],
        flags: 0,
    };
    let other = Handle {
        hand: [2, 3, 4, 6, 11, 12, 13, 20, 21, 22, 23, 24, 25, 6],
        pool: [false; 34],
        flags: 0,
    };
    let color_result = [
        Yellow, Yellow, Yellow, Absent, Green, Green, Green, Green, Green, Green, Absent, Absent,
        Green, Absent,
    ];
    assert!(handle.match_color_result(&other, &color_result));

    let handle = Handle {
        hand: [1, 2, 3, 4, 5, 6, 7, 8, 9, 10, 11, 12, 13, 1],
        pool: [false; 34],
        flags: 0,
    };
    let other = Handle {
        hand: [1, 2, 3, 4, 5, 6, 7, 8, 9, 10, 11, 12, 13, 1],
        pool: [false; 34],
        flags: 0,
    };
    let color_result = [
        Green, Green, Green, Green, Green, Green, Green, Green, Green, Green, Green, Green, Green,
        Green,
    ];
    assert!(handle.match_color_result(&other, &color_result));

    let handle = Handle {
        hand: [1, 2, 3, 4, 5, 6, 7, 8, 9, 10, 11, 12, 13, 1],
        pool: [false; 34],
        flags: 0,
    };
    let other = Handle {
        hand: [1, 3, 2, 4, 5, 6, 7, 8, 9, 10, 11, 12, 13, 1],
        pool: [false; 34],
        flags: 0,
    };
    let color_result = [
        Green, Yellow, Yellow, Green, Green, Green, Green, Green, Green, Green, Green, Green,
        Green, Green,
    ];
    assert!(handle.match_color_result(&other, &color_result));

    let handle = Handle {
        hand: [1, 2, 3, 4, 5, 6, 7, 8, 9, 10, 11, 12, 13, 1],
        pool: [false; 34],
        flags: 0,
    };
    let other = Handle {
        hand: [14, 15, 16, 17, 18, 19, 20, 21, 22, 23, 24, 25, 26, 14],
        pool: [false; 34],
        flags: 0,
    };
    let color_result = [
        Absent, Absent, Absent, Absent, Absent, Absent, Absent, Absent, Absent, Absent, Absent,
        Absent, Absent, Absent,
    ];
    assert!(handle.match_color_result(&other, &color_result));
}

#[test]
fn test_match_context() {
    let flags = store::MASK_TRUE_ALWAYS;
    let context = Context::parse_context("t");
    let handle = Handle {
        hand: [0; 14],
        pool: [false; 34],
        flags,
    };
    assert!(handle.match_context(&context));

    let flags = store::MASK_FALSE_IF_RON;
    let context = Context::parse_context("t");
    let handle = Handle {
        hand: [0; 14],
        pool: [false; 34],
        flags,
    };
    assert!(!handle.match_context(&context));

    let flags = 0b00000001;
    let context = Context::parse_context("");
    let handle = Handle {
        hand: [0; 14],
        pool: [false; 34],
        flags,
    };
    assert!(!handle.match_context(&context));
}

#[test]
fn test_handle_1() {
    let handle = Handle {
        hand: [1, 1, 2, 4, 11, 12, 13, 20, 21, 22, 25, 25, 25, 3],
        pool: [false; 34],
        flags: store::MASK_TRUE_ALWAYS,
    };
    println!("{}", Handle::handle_to_string(&handle));
    let other = Handle {
        hand: [2, 3, 4, 6, 11, 12, 13, 20, 21, 22, 23, 24, 25, 6],
        pool: [false; 34],
        flags: 0,
    };
    let context = Context::parse_context("e");
    let color_result = [
        Yellow, Yellow, Yellow, Absent, Green, Green, Green, Green, Green, Green, Absent, Absent,
        Green, Absent,
    ];
    let kept: Vec<Handle> = [handle]
        .iter()
        .filter(|handle| handle.match_context(&context))
        .filter(|handle| handle.match_color_result(&other, &color_result))
        .copied()
        .collect();
    assert_eq!(kept.len(), 1);
    for handle in &kept {
        println!("{}", Handle::handle_to_string(handle));
    }
}

/// The two-pass colouring with a sentinel for used tiles, as a judge would
/// do it by hand.
fn judge(guess: &[u8; 14], secret: &[u8; 14]) -> ColorResult {
    let mut result = [Absent; 14];
    let mut left: Vec<Option<u8>> = secret.iter().map(|&tile| Some(tile)).collect();
    for i in 0..14 {
        if guess[i] == secret[i] {
            result[i] = Green;
            left[i] = None;
        }
    }
    for i in 0..14 {
        if result[i] == Absent {
            for j in 0..14 {
                if left[j] == Some(guess[i]) {
                    result[i] = Yellow;
                    left[j] = None;
                    break;
                }
            }
        }
    }
    result
}

fn scrambled(seed: &mut u64) -> [u8; 14] {
    let mut hand = [0u8; 14];
    for slot in hand.iter_mut() {
        *seed = seed
            .wrapping_mul(6364136223846793005)
            .wrapping_add(1442695040888963407);
        *slot = ((*seed >> 33) % 6) as u8;
    }
    hand
}

fn bare(hand: [u8; 14]) -> Handle {
    Handle {
        hand,
        pool: [false; 34],
        flags: 0,
    }
}

#[test]
fn feedback_agrees_with_judge() {
    let mut seed = 7u64;
    for _ in 0..2000 {
        let guess = scrambled(&mut seed);
        let secret = scrambled(&mut seed);
        let expected = judge(&guess, &secret);
        let got = bare(secret).get_color_result(&bare(guess));
        assert_eq!(got, expected);
        assert!(bare(secret).match_color_result(&bare(guess), &expected));
    }
}

#[test]
fn feedback_with_highest_tile_value() {
    // A tile value of 255 is no marker for a used tile.
    let guess = [255, 1, 1, 1, 1, 1, 1, 1, 1, 1, 1, 1, 1, 1];
    let secret = [1, 1, 1, 1, 1, 1, 1, 1, 1, 1, 1, 1, 1, 2];
    let got = bare(secret).get_color_result(&bare(guess));
    let mut expected = [Green; 14];
    expected[0] = Absent;
    expected[13] = Yellow;
    assert_eq!(got, expected);
}

#[test]
fn match_rejects_every_other_feedback() {
    let guess = bare([1, 1, 2, 4, 11, 12, 13, 20, 21, 22, 25, 25, 25, 3]);
    let secret = bare([2, 3, 4, 6, 11, 12, 13, 20, 21, 22, 23, 24, 25, 6]);
    let truth = secret.get_color_result(&guess);
    for i in 0..14 {
        for color in [Green, Yellow, Absent] {
            let mut other = truth;
            other[i] = color;
            assert_eq!(secret.match_color_result(&guess, &other), other == truth);
        }
    }
}

#[test]
fn green_exactly_where_equal() {
    let mut seed = 11u64;
    for _ in 0..500 {
        let guess = scrambled(&mut seed);
        let secret = scrambled(&mut seed);
        let got = bare(secret).get_color_result(&bare(guess));
        for i in 0..14 {
            assert_eq!(got[i] == Green, guess[i] == secret[i]);
        }
    }
}

#[test]
fn marks_equal_shared_tiles() {
    let mut seed = 13u64;
    for _ in 0..500 {
        let guess = scrambled(&mut seed);
        let secret = scrambled(&mut seed);
        let got = bare(secret).get_color_result(&bare(guess));
        let marks = got.iter().filter(|&&color| color != Absent).count();
        let mut shared = 0;
        for kind in 0..34u8 {
            let in_guess = guess.iter().filter(|&&tile| tile == kind).count();
            let in_secret = secret.iter().filter(|&&tile| tile == kind).count();
            shared += in_guess.min(in_secret);
        }
        assert_eq!(marks, shared);
    }
}

#[test]
fn same_hand_is_all_green() {
    let hand = bare([0, 0, 0, 1, 2, 3, 4, 5, 6, 7, 8, 8, 8, 4]);
    assert_eq!(hand.get_color_result(&hand), [Green; 14]);
    assert!(hand.match_color_result(&hand, &[Green; 14]));
}

#[test]
fn index_reads_colors_as_base_three_digits() {
    let mut colors = [Green; 14];
    colors[13] = Yellow;
    assert_eq!(color_result_to_index(&colors), 1);
    colors[13] = Absent;
    assert_eq!(color_result_to_index(&colors), 2);
    colors[12] = Yellow;
    assert_eq!(color_result_to_index(&colors), 5);
    let mut colors = [Green; 14];
    colors[0] = Yellow;
    assert_eq!(color_result_to_index(&colors), 1594323);
}

#[test]
fn parse_color_result_reads_first_fourteen_letters() {
    assert_eq!(parse_color_result(""), [Absent; 14]);
    let short = parse_color_result("GyX");
    assert_eq!(short[0], Green);
    assert_eq!(short[1], Yellow);
    assert_eq!(short[2], Absent);
    assert_eq!(short[3], Absent);
    let long = parse_color_result("ggggggggggggggyyyy\n");
    assert_eq!(long, [Green; 14]);
}

#[test]
fn color_result_to_string_writes_letters() {
    let mut colors = [Green; 14];
    colors[1] = Yellow;
    colors[2] = Absent;
    assert_eq!(color_result_to_string(&colors), "GYNGGGGGGGGGGG");
    assert_eq!(parse_color_result(&color_result_to_string(&colors)), colors);
}

#[test]
fn hand_to_string_groups_by_suit() {
    assert_eq!(
        Handle::hand_to_string(&[1, 3, 7, 7, 7, 14, 15, 16, 19, 19, 20, 20, 20, 2]),
        "24888m678p22333s3m"
    );
    assert_eq!(Handle::hand_to_string(&[]), "x");
    assert_eq!(Handle::hand_to_string(&[27]), "1z");
    assert_eq!(Handle::hand_to_string(&[0, 9, 0]), "1m1p1m");
}

#[test]
fn from_string_reads_what_hand_to_string_writes() {
    let handle = Handle::from_string("24888m678p22333s3m");
    assert_eq!(
        handle.hand,
        [1, 3, 7, 7, 7, 14, 15, 16, 19, 19, 20, 20, 20, 2]
    );
    assert_eq!(handle.pool, [false; 34]);
    assert_eq!(handle.flags, store::MASK_TRUE_ALWAYS);
    assert_eq!(Handle::hand_to_string(&handle.hand), "24888m678p22333s3m");
    let spaced = Handle::from_string(" 123 456 789m, 11122z");
    assert_eq!(spaced.hand, [0, 1, 2, 3, 4, 5, 6, 7, 8, 27, 27, 27, 28, 28]);
}

#[test]
fn handle_to_string_pads_and_names_flags() {
    let mut handle = Handle::from_string("24888m678p22333s3m");
    assert_eq!(
        Handle::handle_to_string(&handle),
        "24888m678p22333s3m   _ALWAYS_"
    );
    handle.flags = store::MASK_FALSE_IF_RON;
    assert_eq!(
        Handle::handle_to_string(&handle),
        "24888m678p22333s3m   _TSUMO__"
    );
    handle.flags = store::MASK_FALSE_IF_RON | store::MASK_TRUE_ALWAYS;
    assert_eq!(
        Handle::handle_to_string(&handle),
        "24888m678p22333s3m   _TSUMO__"
    );
    handle.flags = 0b00110101;
    assert_eq!(
        Handle::handle_to_string(&handle),
        "24888m678p22333s3m   00110101"
    );
}

#[test]
fn best_first_guess() {
    let handle = Handle::best_1st();
    assert_eq!(
        handle.hand,
        [2, 3, 4, 6, 11, 12, 13, 20, 21, 22, 23, 24, 25, 6]
    );
    assert_eq!(handle.flags, store::MASK_TRUE_ALWAYS);
    for kind in 0..34 {
        assert_eq!(handle.pool[kind], handle.hand.contains(&(kind as u8)));
    }
    assert_eq!(
        Handle::handle_to_string(&handle),
        "3457m345p345678s7m   _ALWAYS_"
    );
}

#[test]
fn default_handle_is_blank() {
    let handle = Handle::default();
    assert_eq!(handle.hand, [0; 14]);
    assert_eq!(handle.pool, [false; 34]);
    assert_eq!(handle.flags, 0);
}

#[test]
fn handles_are_equal_by_hand() {
    let mut a = Handle::best_1st();
    let b = Handle::best_1st();
    a.flags = 0;
    a.pool = [false; 34];
    assert!(a == b);
    a.hand[13] = 7;
    assert!(a != b);
}

#[test]
fn context_letters() {
    let context = Context::parse_context("TeSwN,x");
    assert!(context.tsumo && context.east && context.south && context.west && context.north);
    let context = Context::parse_context("w");
    assert!(!context.tsumo && !context.east && !context.south && context.west && !context.north);
    let context = Context::new();
    assert!(!context.tsumo && !context.east && !context.south && !context.west && !context.north);
}

#[test]
fn flags_in_context() {
    let ron = Context::parse_context("");
    let tsumo = Context::parse_context("t");
    let east = Context::parse_context("e");
    let south_west = Context::parse_context("sw");
    // Always qualifies, whatever else is set.
    assert!(ron.check_flags(store::MASK_TRUE_ALWAYS));
    assert!(tsumo.check_flags(store::MASK_TRUE_ALWAYS | store::MASK_FALSE_IF_RON));
    // Disqualified on self-draw only.
    assert!(!tsumo.check_flags(store::MASK_FALSE_IF_RON));
    assert!(!tsumo.check_flags(store::MASK_FALSE_IF_RON | store::ANY_TON));
    // Any of the flagged winds live.
    assert!(east.check_flags(store::ANY_TON));
    assert!(!east.check_flags(store::ANY_NAN | store::ANY_PEI));
    assert!(south_west.check_flags(store::ANY_TON | store::ANY_SHA));
    assert!(east.check_flags(store::MASK_FALSE_IF_RON | store::ANY_TON));
    // The one named wind not live.
    assert!(!east.check_flags(store::NOT_ANY_TON));
    assert!(ron.check_flags(store::NOT_ANY_TON));
    assert!(east.check_flags(store::NOT_ANY_NAN));
    assert!(!south_west.check_flags(store::NOT_ANY_NAN));
    assert!(!south_west.check_flags(store::NOT_ANY_SHA));
    assert!(south_west.check_flags(store::NOT_ANY_PEI));
    assert!(!Context::parse_context("n").check_flags(store::NOT_ANY_PEI));
    assert!(ron.check_flags(store::MASK_FALSE_IF_RON));
}

#[test]
fn handles_are_ordered_by_hand() {
    let low = bare([0, 1, 2, 3, 4, 5, 6, 7, 8, 9, 10, 11, 12, 13]);
    let mut high = low;
    high.hand[13] = 14;
    let mut other = low;
    other.hand[0] = 1;
    other.flags = 0x80;
    assert!(low < high);
    assert!(high < other);
    assert!(other > low);
    assert!(low <= low && low >= low);
    assert_eq!(low.partial_cmp(&high), Some(std::cmp::Ordering::Less));
    assert_eq!(other.partial_cmp(&high), Some(std::cmp::Ordering::Greater));
    let mut same = low;
    same.flags = 3;
    same.pool[0] = true;
    assert_eq!(low.partial_cmp(&same), Some(std::cmp::Ordering::Equal));
}

#[test]
fn well_formed_handles() {
    let handle = Handle::best_1st();
    assert!(handle.is_wf());
    assert!(handle.has_valid_tiles());
    assert!(handle.holds(6) && handle.holds(25) && !handle.holds(5));
    let mut wrong_pool = handle;
    wrong_pool.pool[0] = true;
    assert!(!wrong_pool.is_wf());
    assert!(wrong_pool.has_valid_tiles());
    let mut missing = handle;
    missing.pool[6] = false;
    assert!(!missing.is_wf());
    let mut wrong_tile = handle;
    wrong_tile.hand[3] = 34;
    assert!(!wrong_tile.has_valid_tiles());
    assert!(!wrong_tile.is_wf());
    // A hand read from text has no pool yet.
    assert!(!Handle::from_string("24888m678p22333s3m").is_wf());
}

#[test]
fn text_with_another_number_of_tiles() {
    assert!(Handle::try_from_string("").is_none());
    assert!(Handle::try_from_string("123m").is_none());
    assert!(Handle::try_from_string("123456789m123456p").is_none());
    // Digits that no suit letter follows name no tiles.
    assert!(Handle::try_from_string("123456789m1234p5").is_none());
    let handle = Handle::try_from_string("123456789m12345p6").unwrap();
    assert_eq!(handle.hand, [0, 1, 2, 3, 4, 5, 6, 7, 8, 9, 10, 11, 12, 13]);
    assert_eq!(handle.flags, store::MASK_TRUE_ALWAYS);
}

#[test]
fn a_kind_is_marked_as_often_as_the_secret_holds_it() {
    // The secret holds three tiles of kind 5, none where the guess has one.
    let secret = bare([5, 5, 5, 1, 1, 1, 1, 1, 1, 1, 1, 1, 1, 1]);
    let guess = bare([2, 2, 2, 5, 5, 5, 5, 2, 2, 2, 2, 2, 2, 2]);
    let got = secret.get_color_result(&guess);
    let mut expected = [Absent; 14];
    expected[3] = Yellow;
    expected[4] = Yellow;
    expected[5] = Yellow;
    assert_eq!(got, expected);
    // One of the three in place: two more can be marked.
    let guess = bare([5, 2, 2, 5, 5, 5, 2, 2, 2, 2, 2, 2, 2, 2]);
    let got = secret.get_color_result(&guess);
    let mut expected = [Absent; 14];
    expected[0] = Green;
    expected[3] = Yellow;
    expected[4] = Yellow;
    assert_eq!(got, expected);
}
