//! Hands, their feedback colouring, and the context that decides whether a
//! hand's conditional scoring rules apply.

use vstd::prelude::*;
use vstd::string::StrSliceExecFns;
use vstd::string::StringExecFns;
use crate::store;

verus! {

/// Feedback for one position of a guess.
#[derive(Debug, Clone, Copy, PartialEq, Eq, Hash, Structural)]
pub enum Color {
    /// The guessed tile stands at this position of the secret.
    Green,
    /// The guessed tile stands elsewhere in the secret.
    Yellow,
    /// The secret has no further tile of this kind.
    Absent,
}

/// The feedback of one guess: a colour for each of its fourteen positions.
pub type ColorResult = [Color; 14];

/// The base-three digit of a colour.
pub open spec fn color_digit(color: Color) -> nat {
    match color {
        Color::Green => 0,
        Color::Yellow => 1,
        Color::Absent => 2,
    }
}

/// The number whose base-three digits, highest first, are the colours.
pub open spec fn index_of(colors: Seq<Color>) -> nat
    decreases colors.len(),
{
    if colors.len() == 0 {
        0
    } else {
        index_of(colors.drop_last()) * 3 + color_digit(colors.last())
    }
}

/// The `n`-th power of three.
pub open spec fn pow3(n: nat) -> nat
    decreases n,
{
    if n == 0 {
        1
    } else {
        3 * pow3((n - 1) as nat)
    }
}

/// An index of `n` colours lies below the `n`-th power of three.
pub proof fn lemma_index_bound(colors: Seq<Color>)
    ensures
        index_of(colors) < pow3(colors.len()),
    decreases colors.len(),
{
    if colors.len() > 0 {
        lemma_index_bound(colors.drop_last());
    }
}

/// Feedbacks of one length with one index are the same feedback.
pub proof fn lemma_index_injective(a: Seq<Color>, b: Seq<Color>)
    requires
        a.len() == b.len(),
        index_of(a) == index_of(b),
    ensures
        a == b,
    decreases a.len(),
{
    if a.len() > 0 {
        let x = index_of(a.drop_last());
        let y = index_of(b.drop_last());
        assert(x * 3 + color_digit(a.last()) == y * 3 + color_digit(b.last()));
        assert(x == y);
        lemma_index_injective(a.drop_last(), b.drop_last());
        assert(a =~= a.drop_last().push(a.last()));
        assert(b =~= b.drop_last().push(b.last()));
    } else {
        assert(a =~= b);
    }
}

/// The key of a feedback in an index: its colours read as base-three
/// digits, the first colour the highest digit.
pub fn color_result_to_index(color_result: &ColorResult) -> (index: u32)
    ensures
        index == index_of(color_result@),
        index < 4782969,
{
    let mut index: u32 = 0;
    proof {
        reveal_with_fuel(pow3, 15);
        assert(pow3(14) == 4782969);
    }
    for i in 0..14usize
        invariant
            index == index_of(color_result@.subrange(0, i as int)),
            pow3(14) == 4782969,
    {
        proof {
            lemma_index_bound(color_result@.subrange(0, i as int));
            lemma_pow3_monotone(i as nat, 13);
            assert(color_result@.subrange(0, i + 1).drop_last() =~= color_result@.subrange(
                0,
                i as int,
            ));
        }
        index = index * 3 + match color_result[i] {
            Color::Green => 0,
            Color::Yellow => 1,
            Color::Absent => 2,
        };
    }
    proof {
        assert(color_result@.subrange(0, 14) =~= color_result@);
        lemma_index_bound(color_result@);
    }
    index
}

proof fn lemma_pow3_monotone(m: nat, n: nat)
    requires
        m <= n,
    ensures
        pow3(m) <= pow3(n),
    decreases n,
{
    if m < n {
        lemma_pow3_monotone(m, (n - 1) as nat);
    }
}

/// The colour that a letter of a typed feedback stands for.
pub open spec fn color_of_char(c: char) -> Color {
    if c == 'G' || c == 'g' {
        Color::Green
    } else if c == 'Y' || c == 'y' {
        Color::Yellow
    } else {
        Color::Absent
    }
}

/// Reads a feedback from its first fourteen letters: `G` for green, `Y` for
/// yellow, in either case; any other letter, and a letter that is missing,
/// reads as absent.
pub fn parse_color_result(s: &str) -> (result: ColorResult)
    ensures
        forall|i: int|
            0 <= i < 14 ==> #[trigger] result@[i] == (if i < s@.len() {
                color_of_char(s@[i])
            } else {
                Color::Absent
            }),
{
    let mut result = [Color::Absent; 14];
    let n = s.unicode_len();
    for i in 0..14usize
        invariant
            n == s@.len(),
            forall|j: int|
                0 <= j < i ==> #[trigger] result@[j] == (if j < s@.len() {
                    color_of_char(s@[j])
                } else {
                    Color::Absent
                }),
            forall|j: int| i <= j < 14 ==> #[trigger] result@[j] == Color::Absent,
    {
        if i < n {
            let c = s.get_char(i);
            result[i] = if c == 'G' || c == 'g' {
                Color::Green
            } else if c == 'Y' || c == 'y' {
                Color::Yellow
            } else {
                Color::Absent
            };
        }
    }
    result
}

/// The letter that a colour is written as.
pub open spec fn char_of_color(color: Color) -> char {
    match color {
        Color::Green => 'G',
        Color::Yellow => 'Y',
        Color::Absent => 'N',
    }
}

/// `String::push` appends one character to the string.
pub assume_specification[ String::push ](s: &mut String, ch: char)
    ensures
        final(s)@ == old(s)@.push(ch),
;

/// Writes a feedback as fourteen letters, `G`, `Y` or `N`.
pub fn color_result_to_string(color_result: &ColorResult) -> (text: String)
    ensures
        text@ == color_result@.map_values(|color: Color| char_of_color(color)),
{
    let mut text = String::new();
    for i in 0..14usize
        invariant
            text@ == color_result@.subrange(0, i as int).map_values(
                |color: Color| char_of_color(color),
            ),
    {
        let c = match color_result[i] {
            Color::Green => 'G',
            Color::Yellow => 'Y',
            Color::Absent => 'N',
        };
        text.push(c);
        assert(text@ =~= color_result@.subrange(0, i + 1).map_values(
            |color: Color| char_of_color(color),
        ));
    }
    assert(color_result@.subrange(0, 14) =~= color_result@);
    text
}

/// The circumstances of a win: whether the winning tile was drawn by the
/// winner, and which winds are live.
#[derive(Debug, Clone, Copy)]
pub struct Context {
    pub tsumo: bool,
    pub east: bool,
    pub south: bool,
    pub west: bool,
    pub north: bool,
}

/// The wind bits of the winds that are live in a context.
pub open spec fn live_winds(context: Context) -> u8 {
    (if context.east { store::ANY_TON } else { 0u8 }) | (if context.south {
        store::ANY_NAN
    } else {
        0u8
    }) | (if context.west { store::ANY_SHA } else { 0u8 }) | (if context.north {
        store::ANY_PEI
    } else {
        0u8
    })
}

/// Whether a hand with these flags qualifies in a context. The groups of
/// bits are read in turn: the bit that always qualifies; the bit that
/// disqualifies on self-draw; the winds of which one must be live; and last
/// the selector of the one wind that must not be live.
pub open spec fn qualifies(flags: u8, context: Context) -> bool {
    if flags & store::MASK_TRUE_ALWAYS != 0 {
        true
    } else if flags & store::MASK_FALSE_IF_RON != 0 && context.tsumo {
        false
    } else if flags & store::MASK_GROUP_ANY != 0 {
        flags & live_winds(context) != 0
    } else if flags & store::MASK_GROUP_NOT_ANY == store::NOT_ANY_TON {
        !context.east
    } else if flags & store::MASK_GROUP_NOT_ANY == store::NOT_ANY_NAN {
        !context.south
    } else if flags & store::MASK_GROUP_NOT_ANY == store::NOT_ANY_SHA {
        !context.west
    } else {
        !context.north
    }
}

impl Context {
    /// The context in which nothing is set.
    pub fn new() -> (context: Context)
        ensures
            !context.tsumo && !context.east && !context.south && !context.west && !context.north,
    {
        Context { tsumo: false, east: false, south: false, west: false, north: false }
    }

    /// Whether a hand with these flags qualifies in this context.
    pub fn check_flags(&self, flags: u8) -> (valid: bool)
        ensures
            valid == qualifies(flags, *self),
    {
        if flags & store::MASK_TRUE_ALWAYS != 0 {
            true
        } else if flags & store::MASK_FALSE_IF_RON != 0 && self.tsumo {
            false
        } else if flags & store::MASK_GROUP_ANY != 0 {
            let live: u8 = (if self.east { store::ANY_TON } else { 0u8 }) | (if self.south {
                store::ANY_NAN
            } else {
                0u8
            }) | (if self.west { store::ANY_SHA } else { 0u8 }) | (if self.north {
                store::ANY_PEI
            } else {
                0u8
            });
            flags & live != 0
        } else {
            let selector = flags & store::MASK_GROUP_NOT_ANY;
            if selector == store::NOT_ANY_TON {
                !self.east
            } else if selector == store::NOT_ANY_NAN {
                !self.south
            } else if selector == store::NOT_ANY_SHA {
                !self.west
            } else {
                !self.north
            }
        }
    }

    /// Reads a context from its letters, in either case: `T` for self-draw,
    /// `E`, `S`, `W`, `N` for the winds. Other letters say nothing.
    pub fn parse_context(s: &str) -> (context: Context)
        ensures
            context.tsumo == (s@.contains('T') || s@.contains('t')),
            context.east == (s@.contains('E') || s@.contains('e')),
            context.south == (s@.contains('S') || s@.contains('s')),
            context.west == (s@.contains('W') || s@.contains('w')),
            context.north == (s@.contains('N') || s@.contains('n')),
    {
        let mut context = Context::new();
        let n = s.unicode_len();
        for i in 0..n
            invariant
                n == s@.len(),
                context.tsumo == (has_char(s@, i as int, 'T') || has_char(s@, i as int, 't')),
                context.east == (has_char(s@, i as int, 'E') || has_char(s@, i as int, 'e')),
                context.south == (has_char(s@, i as int, 'S') || has_char(s@, i as int, 's')),
                context.west == (has_char(s@, i as int, 'W') || has_char(s@, i as int, 'w')),
                context.north == (has_char(s@, i as int, 'N') || has_char(s@, i as int, 'n')),
        {
            let c = s.get_char(i);
            if c == 'T' || c == 't' {
                context.tsumo = true;
            } else if c == 'E' || c == 'e' {
                context.east = true;
            } else if c == 'S' || c == 's' {
                context.south = true;
            } else if c == 'W' || c == 'w' {
                context.west = true;
            } else if c == 'N' || c == 'n' {
                context.north = true;
            }
        }
        context
    }
}

/// Whether `c` occurs among the first `n` characters.
pub open spec fn has_char(text: Seq<char>, n: int, c: char) -> bool {
    exists|j: int| 0 <= j < n && text[j] == c
}

/// Fourteen tile kinds; the last is the winning tile.
pub type Hand = [u8; 14];

/// A hand with the set of kinds it holds and its rule flags.
#[derive(Debug, Clone, Copy)]
pub struct Handle {
    pub hand: Hand,
    pub pool: [bool; 34],
    pub flags: u8,
}

/// Two handles are the same if they hold the same hand, whatever their
/// pools and flags.
impl PartialEq for Handle {
    fn eq(&self, other: &Self) -> (equal: bool) {
        let mut equal = true;
        for i in 0..14usize
            invariant
                equal == (forall|j: int| 0 <= j < i ==> self.hand@[j] == other.hand@[j]),
        {
            if self.hand[i] != other.hand[i] {
                equal = false;
            }
        }
        assert(equal == (self.hand@ =~= other.hand@));
        equal
    }
}

impl Eq for Handle {

}

impl vstd::std_specs::cmp::PartialEqSpecImpl for Handle {
    open spec fn obeys_eq_spec() -> bool {
        true
    }

    open spec fn eq_spec(&self, other: &Self) -> bool {
        self.hand@ == other.hand@
    }
}

/// The presence set of a hand: which of the thirty-four kinds occur in it.
pub open spec fn pool_of(hand: Seq<u8>) -> Seq<bool> {
    Seq::new(34, |k: int| exists|i: int| 0 <= i < hand.len() && hand[i] == k)
}

impl Handle {
    /// Every slot holds one of the thirty-four tile kinds.
    pub open spec fn valid_tiles(&self) -> bool {
        forall|i: int| 0 <= i < 14 ==> #[trigger] self.hand@[i] < 34
    }

    /// The pool is the presence set of the hand.
    pub open spec fn pool_consistent(&self) -> bool {
        self.pool@ == pool_of(self.hand@)
    }

    /// A handle as the enumerators emit it and as a record stores it.
    pub open spec fn wf(&self) -> bool {
        self.valid_tiles() && self.pool_consistent()
    }

    /// Whether every slot holds one of the thirty-four tile kinds.
    pub fn has_valid_tiles(&self) -> (valid: bool)
        ensures
            valid == self.valid_tiles(),
    {
        for i in 0..14usize
            invariant
                forall|j: int| 0 <= j < i ==> #[trigger] self.hand@[j] < 34,
        {
            if self.hand[i] >= 34 {
                return false;
            }
        }
        true
    }

    /// Whether the hand holds kind `kind`.
    pub fn holds(&self, kind: u8) -> (held: bool)
        ensures
            held == exists|i: int| 0 <= i < 14 && self.hand@[i] == kind,
    {
        for i in 0..14usize
            invariant
                forall|j: int| 0 <= j < i ==> self.hand@[j] != kind,
        {
            if self.hand[i] == kind {
                return true;
            }
        }
        false
    }

    /// Whether the tiles are real kinds and the pool is the presence set of
    /// the hand.
    pub fn is_wf(&self) -> (ok: bool)
        ensures
            ok == self.wf(),
    {
        if !self.has_valid_tiles() {
            return false;
        }
        for k in 0..34u8
            invariant
                self.valid_tiles(),
                forall|x: int| 0 <= x < k ==> self.pool@[x] == pool_of(self.hand@)[x],
        {
            if self.pool[k as usize] != self.holds(k) {
                assert(self.pool@[k as int] != pool_of(self.hand@)[k as int]);
                return false;
            }
        }
        assert(self.pool@ =~= pool_of(self.hand@));
        true
    }
}

/// The letter of the suit of a tile.
pub open spec fn suit_char(tile: u8) -> char {
    if tile / 9 == 0 {
        'm'
    } else if tile / 9 == 1 {
        'p'
    } else if tile / 9 == 2 {
        's'
    } else {
        'z'
    }
}

/// The digit of the rank of a tile, `1` to `9`.
pub open spec fn rank_char(tile: u8) -> char {
    (49 + tile % 9) as u8 as char
}

/// The text of the first `n` tiles up to the last rank digit: each tile
/// gives its rank digit, and where the suit changes the letter of the suit
/// that ends goes before it.
pub open spec fn hand_text(tiles: Seq<u8>, n: nat) -> Seq<char>
    decreases n,
{
    if n == 0 {
        Seq::empty()
    } else if n == 1 || suit_char(tiles[n - 2]) == suit_char(tiles[n - 1]) {
        hand_text(tiles, (n - 1) as nat).push(rank_char(tiles[n - 1]))
    } else {
        hand_text(tiles, (n - 1) as nat).push(suit_char(tiles[n - 2])).push(
            rank_char(tiles[n - 1]),
        )
    }
}

/// Tiles in text notation: the rank digits of each run of tiles of one
/// suit, followed by the letter of the suit. No tiles are written `x`.
pub open spec fn hand_string(tiles: Seq<u8>) -> Seq<char> {
    hand_text(tiles, tiles.len()).push(
        if tiles.len() == 0 {
            'x'
        } else {
            suit_char(tiles.last())
        },
    )
}

/// The eight bits of the flags as digits, the highest bit first.
pub open spec fn flags_text(flags: u8) -> Seq<char> {
    Seq::new(8, |i: int| if (flags >> ((7 - i) as u8)) & 1 == 1 { '1' } else { '0' })
}

/// What the text of a handle says of its flags.
pub open spec fn flags_suffix(flags: u8) -> Seq<char> {
    if flags & store::MASK_FALSE_IF_RON != 0 {
        " _TSUMO__"@
    } else if flags & store::MASK_TRUE_ALWAYS != 0 {
        " _ALWAYS_"@
    } else {
        seq![' '] + flags_text(flags)
    }
}

/// The tiles that a text names and the rank digits read since the last
/// suit letter, after the first `n` characters.
pub open spec fn parse_state(text: Seq<char>, n: nat) -> (Seq<u8>, Seq<u8>)
    decreases n,
{
    if n == 0 {
        (Seq::empty(), Seq::empty())
    } else {
        let (hand, ranks) = parse_state(text, (n - 1) as nat);
        let c = text[n - 1];
        if '1' <= c <= '9' {
            (hand, ranks.push((c as u8 - 49) as u8))
        } else if c == 'm' {
            (hand + ranks, Seq::empty())
        } else if c == 'p' {
            (hand + ranks.map_values(|r: u8| (9 + r) as u8), Seq::empty())
        } else if c == 's' {
            (hand + ranks.map_values(|r: u8| (18 + r) as u8), Seq::empty())
        } else if c == 'z' {
            (hand + ranks.map_values(|r: u8| (27 + r) as u8), Seq::empty())
        } else {
            (hand, ranks)
        }
    }
}

/// The tiles that a text in hand notation names. Digits that no suit
/// letter follows name nothing.
pub open spec fn parsed_tiles(text: Seq<char>) -> Seq<u8> {
    parse_state(text, text.len()).0
}

proof fn lemma_parse_state(text: Seq<char>, n: nat)
    ensures
        forall|i: int|
            0 <= i < parse_state(text, n).1.len() ==> #[trigger] parse_state(text, n).1[i] < 9,
    decreases n,
{
    if n > 0 {
        lemma_parse_state(text, (n - 1) as nat);
        let before = parse_state(text, (n - 1) as nat).1;
        let after = parse_state(text, n).1;
        let c = text[n - 1];
        if '1' <= c <= '9' {
            assert(49 <= c as u8 <= 57);
            assert(after == before.push((c as u8 - 49) as u8));
            assert forall|i: int| 0 <= i < after.len() implies #[trigger] after[i] < 9 by {
                if i < before.len() {
                    assert(after[i] == before[i]);
                }
            }
        }
    }
}

impl Handle {
    /// The hand that opens every game.
    pub fn best_1st() -> (handle: Handle)
        ensures
            handle.hand@ == seq![2u8, 3, 4, 6, 11, 12, 13, 20, 21, 22, 23, 24, 25, 6],
            handle.flags == store::MASK_TRUE_ALWAYS,
            handle.wf(),
    {
        let hand: [u8; 14] = [2, 3, 4, 6, 11, 12, 13, 20, 21, 22, 23, 24, 25, 6];
        let mut pool = [false; 34];
        for i in 0..14usize
            invariant
                hand@ == seq![2u8, 3, 4, 6, 11, 12, 13, 20, 21, 22, 23, 24, 25, 6],
                forall|k: int|
                    0 <= k < 34 ==> (#[trigger] pool@[k] <==> exists|j: int|
                        0 <= j < i && hand@[j] == k),
        {
            let ghost before = pool@;
            pool[hand[i] as usize] = true;
            assert forall|k: int| 0 <= k < 34 implies (#[trigger] pool@[k] <==> exists|j: int|
                0 <= j < i + 1 && hand@[j] == k) by {
                if before[k] {
                    let j = choose|j: int| 0 <= j < i && hand@[j] == k;
                    assert(0 <= j < i + 1 && hand@[j] == k);
                }
                if k == hand@[i as int] {
                    assert(0 <= i < i + 1 && hand@[i as int] == k);
                }
            }
        }
        assert(pool@ =~= pool_of(hand@));
        Handle { hand, pool, flags: store::MASK_TRUE_ALWAYS }
    }

    /// The handle of all zeros.
    pub fn default() -> (handle: Handle)
        ensures
            handle.hand@ == Seq::new(14, |i: int| 0u8),
            handle.pool@ == Seq::new(34, |i: int| false),
            handle.flags == 0,
    {
        let handle = Handle { hand: [0; 14], pool: [false; 34], flags: 0 };
        assert(handle.hand@ =~= Seq::new(14, |i: int| 0u8));
        assert(handle.pool@ =~= Seq::new(34, |i: int| false));
        handle
    }

    /// The record of the handle.
    pub fn to_u128(&self) -> (info: u128)
        ensures
            info == store::record(self.hand@, self.pool@, self.flags),
    {
        let mut info: u128 = 0;
        store::set_hand(&mut info, self.hand);
        store::set_pool(&mut info, self.pool);
        info |= self.flags as u128;
        assert(info == store::record(self.hand@, self.pool@, self.flags)) by {
            let h = store::hand_bits(self.hand@, 14);
            let p = store::pool_bits(self.pool@, 34);
            let f = self.flags as u128;
            assert(((0u128 | h) | p) | f == h | p | f) by (bit_vector);
        }
        info
    }

    /// The handle that a record holds.
    pub fn from_u128(info: u128) -> (handle: Handle)
        ensures
            handle.hand@ == store::unpacked_hand(info),
            handle.pool@ == store::unpacked_pool(info),
            handle.flags == store::unpacked_flags(info),
    {
        let low: u128 = info & 0b11111111;
        assert(low < 256) by (bit_vector)
            requires
                low == info & 0b11111111,
        ;
        Handle { hand: store::get_hand(&info), pool: store::get_pool(&info), flags: low as u8 }
    }

    /// Appends the text of one tile, with the letter of the suit before it
    /// where that suit ends, and gives back the letter of the tile's own suit.
    fn tile_to_string(text: &mut String, tile: u8, last_suit: char) -> (suit: char)
        requires
            tile < 36,
        ensures
            suit == suit_char(tile),
            final(text)@ == (if suit == last_suit || last_suit == 'x' {
                old(text)@.push(rank_char(tile))
            } else {
                old(text)@.push(last_suit).push(rank_char(tile))
            }),
    {
        let number: u8 = 49 + tile % 9;
        let suit = if tile / 9 == 0 {
            'm'
        } else if tile / 9 == 1 {
            'p'
        } else if tile / 9 == 2 {
            's'
        } else {
            'z'
        };
        if !(suit == last_suit || last_suit == 'x') {
            text.push(last_suit);
        }
        text.push(number as char);
        suit
    }

    /// Writes tiles in text notation: the rank digits of each run of tiles
    /// of one suit, followed by the letter of the suit.
    pub fn hand_to_string(tiles: &[u8]) -> (text: String)
        requires
            forall|i: int| 0 <= i < tiles@.len() ==> #[trigger] tiles@[i] < 36,
        ensures
            text@ == hand_string(tiles@),
    {
        let mut last_suit = 'x';
        let mut text = String::new();
        let n = tiles.len();
        for i in 0..n
            invariant
                n == tiles@.len(),
                forall|j: int| 0 <= j < tiles@.len() ==> #[trigger] tiles@[j] < 36,
                text@ == hand_text(tiles@, i as nat),
                last_suit == (if i == 0 { 'x' } else { suit_char(tiles@[i - 1]) }),
        {
            last_suit = Self::tile_to_string(&mut text, tiles[i], last_suit);
        }
        text.push(last_suit);
        text
    }

    /// Writes a handle: its hand in text notation, filled with spaces to
    /// twenty characters, and what its flags say.
    pub fn handle_to_string(handle: &Handle) -> (text: String)
        requires
            forall|i: int| 0 <= i < 14 ==> #[trigger] handle.hand@[i] < 36,
            hand_string(handle.hand@).len() <= 20,
        ensures
            text@ == hand_string(handle.hand@) + Seq::new(
                (20 - hand_string(handle.hand@).len()) as nat,
                |i: int| ' ',
            ) + flags_suffix(handle.flags),
    {
        let mut text = Self::hand_to_string(handle.hand.as_slice());
        let ghost hand = text@;
        let fill = 20 - text.as_str().unicode_len();
        for i in 0..fill
            invariant
                fill == 20 - hand.len(),
                text@ == hand + Seq::new(i as nat, |j: int| ' '),
        {
            text.push(' ');
            assert(text@ =~= hand + Seq::new((i + 1) as nat, |j: int| ' '));
        }
        let ghost padded = text@;
        if handle.flags & store::MASK_FALSE_IF_RON != 0 {
            text.append(" _TSUMO__");
        } else if handle.flags & store::MASK_TRUE_ALWAYS != 0 {
            text.append(" _ALWAYS_");
        } else {
            text.push(' ');
            for i in 0..8u8
                invariant
                    text@ == padded + seq![' '] + flags_text(handle.flags).subrange(0, i as int),
            {
                let bit = (handle.flags >> (7 - i)) & 1;
                text.push(if bit == 1 { '1' } else { '0' });
                assert(text@ =~= padded + seq![' '] + flags_text(handle.flags).subrange(
                    0,
                    i + 1,
                ));
            }
            assert(flags_text(handle.flags).subrange(0, 8) =~= flags_text(handle.flags));
            assert(text@ =~= padded + (seq![' '] + flags_text(handle.flags)));
        }
        text
    }

    /// The tiles that a text in hand notation names.
    fn parse_tiles(s: &str) -> (tiles: Vec<u8>)
        ensures
            tiles@ == parsed_tiles(s@),
    {
        let mut tiles: Vec<u8> = Vec::new();
        let mut buf: Vec<u8> = Vec::new();
        let n = s.unicode_len();
        for i in 0..n
            invariant
                n == s@.len(),
                tiles@ == parse_state(s@, i as nat).0,
                buf@ == parse_state(s@, i as nat).1,
        {
            let c = s.get_char(i);
            proof {
                lemma_parse_state(s@, i as nat);
            }
            if '1' <= c && c <= '9' {
                buf.push(c as u8 - 49);
            } else if c == 'm' || c == 'p' || c == 's' || c == 'z' {
                let suit: u8 = if c == 'm' {
                    0
                } else if c == 'p' {
                    1
                } else if c == 's' {
                    2
                } else {
                    3
                };
                let ghost hand = tiles@;
                let ghost ranks = buf@;
                let count = buf.len();
                for j in 0..count
                    invariant
                        count == ranks.len(),
                        buf@ == ranks,
                        suit <= 3,
                        forall|x: int| 0 <= x < ranks.len() ==> #[trigger] ranks[x] < 9,
                        tiles@ == hand + ranks.subrange(0, j as int).map_values(
                            |r: u8| (suit * 9 + r) as u8,
                        ),
                {
                    tiles.push(suit * 9 + buf[j]);
                    assert(tiles@ =~= hand + ranks.subrange(0, j + 1).map_values(
                        |r: u8| (suit * 9 + r) as u8,
                    ));
                }
                buf.clear();
                proof {
                    assert(ranks.subrange(0, count as int) =~= ranks);
                    assert(ranks.map_values(|r: u8| (0 * 9 + r) as u8) =~= ranks);
                    assert(ranks.map_values(|r: u8| (1 * 9 + r) as u8) =~= ranks.map_values(
                        |r: u8| (9 + r) as u8,
                    ));
                    assert(ranks.map_values(|r: u8| (2 * 9 + r) as u8) =~= ranks.map_values(
                        |r: u8| (18 + r) as u8,
                    ));
                    assert(ranks.map_values(|r: u8| (3 * 9 + r) as u8) =~= ranks.map_values(
                        |r: u8| (27 + r) as u8,
                    ));
                }
            }
        }
        tiles
    }

    /// Reads a hand from text notation, if the text names fourteen tiles.
    /// Characters that are neither rank digits nor suit letters are passed
    /// over. The handle has an empty pool and always qualifies.
    pub fn try_from_string(s: &str) -> (found: Option<Handle>)
        ensures
            found is Some <==> parsed_tiles(s@).len() == 14,
            found matches Some(handle) ==> {
                &&& handle.hand@ == parsed_tiles(s@)
                &&& handle.pool@ == Seq::new(34, |i: int| false)
                &&& handle.flags == store::MASK_TRUE_ALWAYS
            },
    {
        let tiles = Self::parse_tiles(s);
        if tiles.len() != 14 {
            return None;
        }
        let mut hand = [0u8; 14];
        for i in 0..14usize
            invariant
                tiles@.len() == 14,
                forall|j: int| 0 <= j < i ==> hand@[j] == tiles@[j],
        {
            hand[i] = tiles[i];
        }
        assert(hand@ =~= tiles@);
        let handle = Handle { hand, pool: [false; 34], flags: store::MASK_TRUE_ALWAYS };
        assert(handle.pool@ =~= Seq::new(34, |i: int| false));
        Some(handle)
    }

    /// Reads a hand of fourteen tiles from text notation. Characters that
    /// are neither rank digits nor suit letters are passed over. The handle
    /// has an empty pool and always qualifies.
    pub fn from_string(s: &str) -> (handle: Handle)
        requires
            parsed_tiles(s@).len() == 14,
        ensures
            handle.hand@ == parsed_tiles(s@),
            handle.pool@ == Seq::new(34, |i: int| false),
            handle.flags == store::MASK_TRUE_ALWAYS,
    {
        match Self::try_from_string(s) {
            Some(handle) => handle,
            None => Handle::default(),
        }
    }

    /// Whether the hand qualifies in a context.
    pub fn match_context(&self, context: &Context) -> (valid: bool)
        ensures
            valid == qualifies(self.flags, *context),
    {
        context.check_flags(self.flags)
    }
}

/// Among the first `n` positions, those where the guess misses and the
/// secret holds kind `k`: the tiles of kind `k` that the secret has to spare.
pub open spec fn spare(guess: Seq<u8>, secret: Seq<u8>, k: u8, n: int) -> nat
    decreases n,
{
    if n <= 0 {
        0
    } else {
        spare(guess, secret, k, n - 1) + (if secret[n - 1] == k && guess[n - 1] != secret[n - 1] {
            1nat
        } else {
            0nat
        })
    }
}

/// Among the first `n` positions, those where the guess holds kind `k` and
/// misses: the tiles of kind `k` that the guess wants placed elsewhere.
pub open spec fn wanted(guess: Seq<u8>, secret: Seq<u8>, k: u8, n: int) -> nat
    decreases n,
{
    if n <= 0 {
        0
    } else {
        wanted(guess, secret, k, n - 1) + (if guess[n - 1] == k && guess[n - 1] != secret[n - 1] {
            1nat
        } else {
            0nat
        })
    }
}

/// The colour of position `i`: green where guess and secret agree; else
/// yellow while the secret has a tile of the guessed kind to spare that no
/// earlier position of the guess has claimed.
pub open spec fn feedback_at(guess: Seq<u8>, secret: Seq<u8>, i: int) -> Color {
    if guess[i] == secret[i] {
        Color::Green
    } else if wanted(guess, secret, guess[i], i) < spare(guess, secret, guess[i], 14) {
        Color::Yellow
    } else {
        Color::Absent
    }
}

/// The feedback that a guess gets against a secret.
pub open spec fn feedback(guess: Seq<u8>, secret: Seq<u8>) -> Seq<Color> {
    Seq::new(14, |i: int| feedback_at(guess, secret, i))
}

/// Among the first `n` positions of the secret, the spare tiles of kind `k`
/// that are marked as used.
pub open spec fn taken(guess: Seq<u8>, secret: Seq<u8>, used: Seq<bool>, k: u8, n: int) -> nat
    decreases n,
{
    if n <= 0 {
        0
    } else {
        taken(guess, secret, used, k, n - 1) + (if used[n - 1] && secret[n - 1] == k && guess[n
            - 1] != secret[n - 1] {
            1nat
        } else {
            0nat
        })
    }
}

/// The bookkeeping of the second pass before it looks at position `i`:
/// every matched tile of the secret is used, and of each kind as many spare
/// tiles are used as the earlier positions of the guess could claim.
pub open spec fn claimed(guess: Seq<u8>, secret: Seq<u8>, used: Seq<bool>, i: int) -> bool {
    &&& used.len() == 14
    &&& forall|j: int| 0 <= j < 14 && guess[j] == secret[j] ==> #[trigger] used[j]
    &&& forall|k: u8| #[trigger]
        taken(guess, secret, used, k, 14) == vstd::math::min(
            wanted(guess, secret, k, i) as int,
            spare(guess, secret, k, 14) as int,
        )
}

proof fn lemma_taken_bound(guess: Seq<u8>, secret: Seq<u8>, used: Seq<bool>, k: u8, n: int)
    ensures
        taken(guess, secret, used, k, n) <= spare(guess, secret, k, n),
        (forall|j: int|
            0 <= j < n && secret[j] == k && guess[j] != secret[j] ==> #[trigger] used[j]) ==> taken(
            guess,
            secret,
            used,
            k,
            n,
        ) == spare(guess, secret, k, n),
        (exists|j: int| 0 <= j < n && secret[j] == k && guess[j] != secret[j] && !#[trigger] used[j])
            ==> taken(guess, secret, used, k, n) < spare(guess, secret, k, n),
    decreases n,
{
    if n > 0 {
        lemma_taken_bound(guess, secret, used, k, n - 1);
        if exists|j: int|
            0 <= j < n && secret[j] == k && guess[j] != secret[j] && !#[trigger] used[j] {
            let j = choose|j: int|
                0 <= j < n && secret[j] == k && guess[j] != secret[j] && !#[trigger] used[j];
            if j < n - 1 {
                assert(!used[j]);
            }
        }
    }
}

proof fn lemma_taken_update(
    guess: Seq<u8>,
    secret: Seq<u8>,
    used: Seq<bool>,
    j: int,
    k: u8,
    n: int,
)
    requires
        0 <= j < used.len(),
        n <= used.len(),
        !used[j],
        guess[j] != secret[j],
    ensures
        taken(guess, secret, used.update(j, true), k, n) == taken(guess, secret, used, k, n) + (
        if j < n && secret[j] == k {
            1nat
        } else {
            0nat
        }),
    decreases n,
{
    if n > 0 {
        lemma_taken_update(guess, secret, used, j, k, n - 1);
    }
}

proof fn lemma_taken_matches(guess: Seq<u8>, secret: Seq<u8>, used: Seq<bool>, k: u8, n: int)
    requires
        forall|j: int| 0 <= j < n ==> #[trigger] used[j] == (guess[j] == secret[j]),
    ensures
        taken(guess, secret, used, k, n) == 0,
    decreases n,
{
    if n > 0 {
        lemma_taken_matches(guess, secret, used, k, n - 1);
    }
}

/// A green position leaves the bookkeeping as it is.
proof fn lemma_claimed_green(guess: Seq<u8>, secret: Seq<u8>, used: Seq<bool>, i: int)
    requires
        claimed(guess, secret, used, i),
        0 <= i < 14,
        guess[i] == secret[i],
    ensures
        claimed(guess, secret, used, i + 1),
{
    assert forall|k: u8| #[trigger]
        taken(guess, secret, used, k, 14) == vstd::math::min(
            wanted(guess, secret, k, i + 1) as int,
            spare(guess, secret, k, 14) as int,
        ) by {
        assert(wanted(guess, secret, k, i + 1) == wanted(guess, secret, k, i));
    }
}

impl Handle {
    /// Marks the tiles of the secret `self` that the guess `other` matches
    /// in place.
    fn mark_matches(&self, other: &Handle) -> (used: [bool; 14])
        ensures
            forall|j: int| 0 <= j < 14 ==> #[trigger] used@[j] == (other.hand@[j] == self.hand@[j]),
            claimed(other.hand@, self.hand@, used@, 0),
    {
        let mut used = [false; 14];
        for i in 0..14usize
            invariant
                forall|j: int|
                    0 <= j < i ==> #[trigger] used@[j] == (other.hand@[j] == self.hand@[j]),
        {
            used[i] = self.hand[i] == other.hand[i];
        }
        proof {
            assert forall|k: u8| #[trigger]
                taken(other.hand@, self.hand@, used@, k, 14) == vstd::math::min(
                    wanted(other.hand@, self.hand@, k, 0) as int,
                    spare(other.hand@, self.hand@, k, 14) as int,
                ) by {
                lemma_taken_matches(other.hand@, self.hand@, used@, k, 14);
            }
        }
        used
    }

    /// Looks among the unused tiles of the secret `self` for one of the kind
    /// that the guess `other` holds at the missed position `i`, and uses up
    /// the first one found.
    fn claim_spare(&self, other: &Handle, used: &mut [bool; 14], i: usize) -> (found: bool)
        requires
            i < 14,
            other.hand@[i as int] != self.hand@[i as int],
            claimed(other.hand@, self.hand@, old(used)@, i as int),
        ensures
            claimed(other.hand@, self.hand@, final(used)@, i + 1),
            found == (feedback_at(other.hand@, self.hand@, i as int) == Color::Yellow),
            found == (feedback_at(other.hand@, self.hand@, i as int) != Color::Absent),
    {
        let ghost guess = other.hand@;
        let ghost secret = self.hand@;
        let ghost before = used@;
        let tile = other.hand[i];
        let mut j: usize = 0;
        while j < 14 && !(!used[j] && self.hand[j] == tile)
            invariant
                j <= 14,
                used@ == before,
                tile == guess[i as int],
                guess == other.hand@,
                secret == self.hand@,
                forall|x: int| 0 <= x < j ==> #[trigger] before[x] || secret[x] != tile,
            decreases 14 - j,
        {
            j += 1;
        }
        let found = j < 14;
        if found {
            used[j] = true;
        }
        proof {
            let w = wanted(guess, secret, tile, i as int);
            let s = spare(guess, secret, tile, 14);
            assert(wanted(guess, secret, tile, i + 1) == w + 1);
            lemma_taken_bound(guess, secret, before, tile, 14);
            if found {
                assert(!before[j as int] && secret[j as int] == tile);
                assert(guess[j as int] != secret[j as int]);
                assert(used@ == before.update(j as int, true));
            }
            assert forall|k: u8| #[trigger]
                taken(guess, secret, used@, k, 14) == vstd::math::min(
                    wanted(guess, secret, k, i + 1) as int,
                    spare(guess, secret, k, 14) as int,
                ) by {
                if found {
                    lemma_taken_update(guess, secret, before, j as int, k, 14);
                }
                if k != tile {
                    assert(wanted(guess, secret, k, i + 1) == wanted(guess, secret, k, i as int));
                }
            }
        }
        found
    }

    /// The feedback that the guess `other` gets when `self` is the secret.
    ///
    /// First every position where the two hands agree turns green and uses
    /// up that tile of the secret. Then each remaining position of the guess,
    /// in order, turns yellow if an unused tile of the secret has its kind,
    /// and uses that tile up.
    pub fn get_color_result(self, other: &Handle) -> (result: ColorResult)
        ensures
            result@ == feedback(other.hand@, self.hand@),
    {
        let mut result = [Color::Absent; 14];
        let mut used = self.mark_matches(other);
        for i in 0..14usize
            invariant
                claimed(other.hand@, self.hand@, used@, i as int),
                forall|x: int|
                    0 <= x < i ==> #[trigger] result@[x] == feedback_at(other.hand@, self.hand@, x),
        {
            if self.hand[i] == other.hand[i] {
                result[i] = Color::Green;
                proof {
                    lemma_claimed_green(other.hand@, self.hand@, used@, i as int);
                }
            } else if self.claim_spare(other, &mut used, i) {
                result[i] = Color::Yellow;
            } else {
                result[i] = Color::Absent;
            }
        }
        assert(result@ =~= feedback(other.hand@, self.hand@));
        result
    }

    /// Whether the guess `other` gets exactly the feedback `color_result`
    /// when `self` is the secret.
    pub fn match_color_result(self, other: &Handle, color_result: &ColorResult) -> (matches: bool)
        ensures
            matches == (feedback(other.hand@, self.hand@) == color_result@),
    {
        let ghost expected = feedback(other.hand@, self.hand@);
        for i in 0..14usize
            invariant
                expected == feedback(other.hand@, self.hand@),
                forall|x: int|
                    0 <= x < i ==> ((#[trigger] color_result@[x] == Color::Green) == (
                    other.hand@[x] == self.hand@[x])),
        {
            if (color_result[i] == Color::Green) != (self.hand[i] == other.hand[i]) {
                assert(expected[i as int] != color_result@[i as int]);
                return false;
            }
        }
        let mut used = self.mark_matches(other);
        for i in 0..14usize
            invariant
                expected == feedback(other.hand@, self.hand@),
                claimed(other.hand@, self.hand@, used@, i as int),
                forall|x: int|
                    0 <= x < 14 ==> ((#[trigger] color_result@[x] == Color::Green) == (
                    other.hand@[x] == self.hand@[x])),
                forall|x: int| 0 <= x < i ==> #[trigger] color_result@[x] == expected[x],
        {
            if color_result[i] == Color::Green {
                proof {
                    lemma_claimed_green(other.hand@, self.hand@, used@, i as int);
                }
            } else {
                let found = self.claim_spare(other, &mut used, i);
                if found != (color_result[i] == Color::Yellow) {
                    assert(expected[i as int] != color_result@[i as int]);
                    return false;
                }
            }
        }
        assert(expected =~= color_result@);
        true
    }
}

/// A position is green exactly where guess and secret hold the same tile.
pub proof fn lemma_green_iff_equal(guess: Seq<u8>, secret: Seq<u8>, i: int)
    requires
        0 <= i < 14,
    ensures
        (feedback(guess, secret)[i] == Color::Green) <==> guess[i] == secret[i],
{
}

/// A hand guessed against itself is green at every position.
pub proof fn lemma_feedback_self(hand: Seq<u8>)
    ensures
        feedback(hand, hand) == Seq::new(14, |i: int| Color::Green),
{
    assert(feedback(hand, hand) =~= Seq::new(14, |i: int| Color::Green));
}

/// How many of the first `n` tiles are of kind `k`.
pub open spec fn count_kind(hand: Seq<u8>, k: u8, n: int) -> nat
    decreases n,
{
    if n <= 0 {
        0
    } else {
        count_kind(hand, k, n - 1) + (if hand[n - 1] == k {
            1nat
        } else {
            0nat
        })
    }
}

/// Among the first `n` positions, those where the guess holds kind `k` and
/// the feedback is green or yellow.
pub open spec fn marked(guess: Seq<u8>, secret: Seq<u8>, k: u8, n: int) -> nat
    decreases n,
{
    if n <= 0 {
        0
    } else {
        marked(guess, secret, k, n - 1) + (if guess[n - 1] == k && feedback_at(
            guess,
            secret,
            n - 1,
        ) != Color::Absent {
            1nat
        } else {
            0nat
        })
    }
}

/// Among the first `n` positions, those where the guess holds a kind below
/// `kinds` and the feedback is green or yellow.
pub open spec fn marks_below(guess: Seq<u8>, secret: Seq<u8>, kinds: int, n: int) -> nat
    decreases n,
{
    if n <= 0 {
        0
    } else {
        marks_below(guess, secret, kinds, n - 1) + (if guess[n - 1] < kinds && feedback_at(
            guess,
            secret,
            n - 1,
        ) != Color::Absent {
            1nat
        } else {
            0nat
        })
    }
}

/// Among the first `n` positions, those whose feedback is green or yellow.
pub open spec fn marks(guess: Seq<u8>, secret: Seq<u8>, n: int) -> nat
    decreases n,
{
    if n <= 0 {
        0
    } else {
        marks(guess, secret, n - 1) + (if feedback_at(guess, secret, n - 1) != Color::Absent {
            1nat
        } else {
            0nat
        })
    }
}

/// Summed over the kinds below `kinds`: the smaller of the number of tiles
/// of the kind in the guess and in the secret.
pub open spec fn overlap(guess: Seq<u8>, secret: Seq<u8>, kinds: int) -> nat
    decreases kinds,
{
    if kinds <= 0 {
        0
    } else {
        overlap(guess, secret, kinds - 1) + vstd::math::min(
            count_kind(guess, (kinds - 1) as u8, 14) as int,
            count_kind(secret, (kinds - 1) as u8, 14) as int,
        ) as nat
    }
}

/// Among the first `n` positions, those where both hands hold kind `k`.
pub open spec fn greens(guess: Seq<u8>, secret: Seq<u8>, k: u8, n: int) -> nat
    decreases n,
{
    if n <= 0 {
        0
    } else {
        greens(guess, secret, k, n - 1) + (if guess[n - 1] == k && guess[n - 1] == secret[n - 1] {
            1nat
        } else {
            0nat
        })
    }
}

proof fn lemma_marked_prefix(guess: Seq<u8>, secret: Seq<u8>, k: u8, n: int)
    requires
        0 <= n <= 14,
    ensures
        marked(guess, secret, k, n) == greens(guess, secret, k, n) + vstd::math::min(
            wanted(guess, secret, k, n) as int,
            spare(guess, secret, k, 14) as int,
        ),
        count_kind(guess, k, n) == greens(guess, secret, k, n) + wanted(guess, secret, k, n),
        count_kind(secret, k, n) == greens(guess, secret, k, n) + spare(guess, secret, k, n),
    decreases n,
{
    if n > 0 {
        lemma_marked_prefix(guess, secret, k, n - 1);
    }
}

/// Of each kind, the guess gets as many green and yellow marks as both
/// hands hold tiles of the kind.
pub proof fn lemma_marked_kind(guess: Seq<u8>, secret: Seq<u8>, k: u8)
    ensures
        marked(guess, secret, k, 14) == vstd::math::min(
            count_kind(guess, k, 14) as int,
            count_kind(secret, k, 14) as int,
        ),
{
    lemma_marked_prefix(guess, secret, k, 14);
}

proof fn lemma_marks_split(guess: Seq<u8>, secret: Seq<u8>, kinds: int, n: int)
    requires
        0 <= kinds < 256,
    ensures
        marks_below(guess, secret, kinds + 1, n) == marks_below(guess, secret, kinds, n) + marked(
            guess,
            secret,
            kinds as u8,
            n,
        ),
    decreases n,
{
    if n > 0 {
        lemma_marks_split(guess, secret, kinds, n - 1);
    }
}

proof fn lemma_marks_none(guess: Seq<u8>, secret: Seq<u8>, n: int)
    ensures
        marks_below(guess, secret, 0, n) == 0,
        marks_below(guess, secret, 256, n) == marks(guess, secret, n),
    decreases n,
{
    if n > 0 {
        lemma_marks_none(guess, secret, n - 1);
    }
}

proof fn lemma_overlap_marks(guess: Seq<u8>, secret: Seq<u8>, kinds: int)
    requires
        0 <= kinds <= 256,
    ensures
        overlap(guess, secret, kinds) == marks_below(guess, secret, kinds, 14),
    decreases kinds,
{
    if kinds == 0 {
        lemma_marks_none(guess, secret, 14);
    } else {
        lemma_overlap_marks(guess, secret, kinds - 1);
        lemma_marks_split(guess, secret, kinds - 1, 14);
        lemma_marked_kind(guess, secret, (kinds - 1) as u8);
    }
}

/// The number of green and yellow marks in a feedback is the sum over all
/// kinds of the smaller of the kind's counts in guess and secret; so it
/// never exceeds that sum.
pub proof fn lemma_feedback_conservation(guess: Seq<u8>, secret: Seq<u8>)
    ensures
        marks(guess, secret, 14) == overlap(guess, secret, 256),
        marks(guess, secret, 14) <= overlap(guess, secret, 256),
{
    lemma_overlap_marks(guess, secret, 256);
    lemma_marks_none(guess, secret, 14);
}

} // verus!
