//! Reading back what the text notation of hands writes.

use vstd::prelude::*;
use crate::handle::{hand_string, hand_text, parse_state, parsed_tiles, rank_char, suit_char};

verus! {

/// Where the tiles of the suit of the `n`-th tile begin that end with it.
pub open spec fn suit_start(tiles: Seq<u8>, n: nat) -> nat
    decreases n,
{
    if n <= 1 {
        0
    } else if suit_char(tiles[n - 2]) == suit_char(tiles[n - 1]) {
        suit_start(tiles, (n - 1) as nat)
    } else {
        (n - 1) as nat
    }
}

/// The rank of a tile, counted from zero.
pub open spec fn rank_of(tile: u8) -> u8 {
    tile % 9
}

/// What a reader holds after a text: the tiles named and the ranks read
/// since the last suit letter.
pub open spec fn read(text: Seq<char>) -> (Seq<u8>, Seq<u8>) {
    parse_state(text, text.len())
}

/// Reading a text looks at its characters in turn.
proof fn lemma_read_prefix(text: Seq<char>, more: Seq<char>, n: nat)
    requires
        n <= text.len(),
    ensures
        parse_state(text + more, n) == parse_state(text, n),
    decreases n,
{
    if n > 0 {
        lemma_read_prefix(text, more, (n - 1) as nat);
        assert((text + more)[n - 1] == text[n - 1]);
    }
}

/// One more character after a text.
proof fn lemma_read_push(text: Seq<char>, c: char)
    ensures
        read(text.push(c)) == ({
            let (hand, ranks) = read(text);
            if '1' <= c <= '9' {
                (hand, ranks.push((c as u8 - 49) as u8))
            } else if c == 'm' {
                (hand + ranks, Seq::empty())
            } else if c == 'p' {
                (hand + ranks.map_values(|r: u8| (9 + r) as u8), Seq::empty())
            } else if c == 's' {
                (hand + ranks.map_values(|r: u8| (18 + r) as u8), Seq::empty())
            } else if c == 'z' {
                (hand + ranks.map_values(|r: u8| (27 + r) as u8), Seq::empty())
            } else {
                (hand, ranks)
            }
        }),
{
    let more = text.push(c);
    assert(more =~= text + seq![c]);
    lemma_read_prefix(text, seq![c], text.len());
    assert(more[text.len() as int] == c);
}

/// A suit letter after ranks of tiles of that suit names those tiles.
proof fn lemma_flush(tiles: Seq<u8>, from: int, to: int, hand: Seq<u8>, ranks: Seq<u8>)
    requires
        0 <= from <= to <= tiles.len(),
        hand == tiles.subrange(0, from),
        ranks == tiles.subrange(from, to).map_values(|t: u8| rank_of(t)),
        forall|i: int| 0 <= i < tiles.len() ==> #[trigger] tiles[i] < 36,
        forall|i: int| from <= i < to ==> suit_char(#[trigger] tiles[i]) == suit_char(tiles[to - 1]),
    ensures
        to > from ==> tiles.subrange(0, to) == (if suit_char(tiles[to - 1]) == 'm' {
            hand + ranks
        } else if suit_char(tiles[to - 1]) == 'p' {
            hand + ranks.map_values(|r: u8| (9 + r) as u8)
        } else if suit_char(tiles[to - 1]) == 's' {
            hand + ranks.map_values(|r: u8| (18 + r) as u8)
        } else {
            hand + ranks.map_values(|r: u8| (27 + r) as u8)
        }),
{
    if to > from {
        let last = suit_char(tiles[to - 1]);
        let named = if last == 'm' {
            hand + ranks
        } else if last == 'p' {
            hand + ranks.map_values(|r: u8| (9 + r) as u8)
        } else if last == 's' {
            hand + ranks.map_values(|r: u8| (18 + r) as u8)
        } else {
            hand + ranks.map_values(|r: u8| (27 + r) as u8)
        };
        assert forall|i: int| 0 <= i < to implies named[i] == tiles[i] by {
            if i >= from {
                assert(suit_char(tiles[i]) == last);
                assert(ranks[i - from] == tiles[i] % 9);
            }
        }
        assert(named =~= tiles.subrange(0, to));
    }
}

/// After the text of the first `n` tiles a reader has named the tiles
/// before the last suit began and holds the ranks of the tiles since.
proof fn lemma_read_text(tiles: Seq<u8>, n: nat)
    requires
        n <= tiles.len(),
        forall|i: int| 0 <= i < tiles.len() ==> #[trigger] tiles[i] < 36,
    ensures
        read(hand_text(tiles, n)).0 == tiles.subrange(0, suit_start(tiles, n) as int),
        read(hand_text(tiles, n)).1 == tiles.subrange(
            suit_start(tiles, n) as int,
            n as int,
        ).map_values(|t: u8| rank_of(t)),
        suit_start(tiles, n) <= n,
        n > 0 ==> suit_start(tiles, n) < n,
        forall|i: int|
            suit_start(tiles, n) <= i < n ==> suit_char(#[trigger] tiles[i]) == suit_char(
                tiles[n - 1],
            ),
    decreases n,
{
    if n == 0 {
        assert(read(hand_text(tiles, 0)).0 =~= tiles.subrange(0, 0));
        assert(read(hand_text(tiles, 0)).1 =~= tiles.subrange(0, 0).map_values(
            |t: u8| rank_of(t),
        ));
    } else {
        let m = (n - 1) as nat;
        lemma_read_text(tiles, m);
        let t = tiles[n - 1];
        let digit = rank_char(t);
        assert('1' <= digit <= '9');
        assert((digit as u8 - 49) as u8 == t % 9);
        let before = hand_text(tiles, m);
        let (hand, ranks) = read(before);
        let from = suit_start(tiles, m) as int;
        if n == 1 || suit_char(tiles[n - 2]) == suit_char(t) {
            lemma_read_push(before, digit);
            assert(read(hand_text(tiles, n)).1 =~= tiles.subrange(
                suit_start(tiles, n) as int,
                n as int,
            ).map_values(|t: u8| rank_of(t)));
        } else {
            let letter = suit_char(tiles[n - 2]);
            lemma_read_push(before, letter);
            lemma_flush(tiles, from, m as int, hand, ranks);
            let named = read(before.push(letter));
            assert(named.0 == tiles.subrange(0, m as int));
            assert(named.1 =~= Seq::<u8>::empty());
            lemma_read_push(before.push(letter), digit);
            assert(read(hand_text(tiles, n)).1 =~= tiles.subrange(m as int, n as int).map_values(
                |t: u8| rank_of(t),
            ));
        }
    }
}

/// Reading the text of tiles gives the tiles back.
pub proof fn lemma_text_round_trip(tiles: Seq<u8>)
    requires
        forall|i: int| 0 <= i < tiles.len() ==> #[trigger] tiles[i] < 36,
    ensures
        parsed_tiles(hand_string(tiles)) == tiles,
{
    let n = tiles.len();
    let text = hand_text(tiles, n);
    lemma_read_text(tiles, n);
    let (hand, ranks) = read(text);
    if n == 0 {
        lemma_read_push(text, 'x');
        assert(hand =~= tiles);
    } else {
        let letter = suit_char(tiles[n - 1]);
        lemma_read_push(text, letter);
        lemma_flush(tiles, suit_start(tiles, n) as int, n as int, hand, ranks);
        assert(tiles.subrange(0, n as int) =~= tiles);
    }
}

} // verus!
