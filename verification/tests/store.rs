use mahjong_handle_solver::handle::Handle;
use mahjong_handle_solver::store::{get_hand, get_pool, set_hand, set_pool};

#[test]
fn record_layout() {
    let mut info: u128 = 0;
    let mut hand = [0u8; 14];
    hand[0] = 33;
    hand[13] = 1;
    set_hand(&mut info, hand);
    assert_eq!(info, (33u128 << 8) | (1u128 << 86));
    let mut pool = [false; 34];
    pool[0] = true;
    pool[33] = true;
    let mut info: u128 = 0;
    set_pool(&mut info, pool);
    assert_eq!(info, (1u128 << 92) | (1u128 << 125));
}

#[test]
fn setters_keep_other_bits() {
    let mut info: u128 = 0b10100101;
    set_hand(&mut info, [5; 14]);
    assert_eq!(info & 0xff, 0b10100101);
    assert_eq!(get_hand(&info), [5; 14]);
    set_pool(&mut info, [true; 34]);
    assert_eq!(get_hand(&info), [5; 14]);
    assert_eq!(get_pool(&info), [true; 34]);
    assert_eq!(info >> 126, 0);
}

#[test]
fn record_round_trip() {
    let mut seed = 3u64;
    for round in 0..500u32 {
        let mut hand = [0u8; 14];
        let mut pool = [false; 34];
        for slot in hand.iter_mut() {
            seed = seed
                .wrapping_mul(6364136223846793005)
                .wrapping_add(1442695040888963407);
            *slot = ((seed >> 33) % 34) as u8;
            pool[*slot as usize] = true;
        }
        let handle = Handle {
            hand,
            pool,
            flags: (round % 256) as u8,
        };
        let record = handle.to_u128();
        let back = Handle::from_u128(record);
        assert_eq!(back.hand, handle.hand);
        assert_eq!(back.pool, handle.pool);
        assert_eq!(back.flags, handle.flags);
        assert_eq!(back.to_u128(), record);
    }
}

#[test]
fn record_of_first_guess() {
    let handle = Handle::best_1st();
    let record = handle.to_u128();
    assert_eq!(record & 0xff, 0x80);
    assert_eq!((record >> 8) & 0x3f, 2);
    assert_eq!((record >> 86) & 0x3f, 6);
    assert_eq!((record >> (92 + 2)) & 1, 1);
    assert_eq!((record >> (92 + 5)) & 1, 0);
    assert_eq!(Handle::from_u128(record).hand, handle.hand);
}
