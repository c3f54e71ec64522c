//! The 52-card domain and the hand evaluator.
//!
//! A card is a value in `[0, 52)` that encodes a suit (`value / 13`) and a
//! rank (`value % 13`, rank 0 is the deuce and rank 12 the ace). The
//! evaluator maps a 7-card hand to a single integer whose order agrees with
//! the standard No-Limit Hold'em hand order.

use vstd::prelude::*;

verus! {

/// A playing card.
#[derive(Clone, Copy, Debug, Eq, PartialEq, Structural)]
pub struct Card {
    pub value: u8,
}

/// Why a two-character card token failed to parse.
#[derive(Clone, Copy, Debug, Eq, PartialEq, Structural)]
pub enum CardParseError {
    /// The token is not exactly two characters long.
    Length,
    /// The first character is not one of `A`, `B`, `C`, `D`.
    Suit,
    /// The second character is not a base-13 digit.
    Rank,
}

/// The suit encoded by the first character of a card token.
pub open spec fn suit_char_value(c: char) -> Option<u8> {
    if c == 'A' {
        Some(0u8)
    } else if c == 'B' {
        Some(1u8)
    } else if c == 'C' {
        Some(2u8)
    } else if c == 'D' {
        Some(3u8)
    } else {
        None
    }
}

/// The rank encoded by the second character of a card token: a base-13
/// digit, upper or lower case.
pub open spec fn rank_char_value(c: char) -> Option<u8> {
    if 48 <= c as u32 && c as u32 <= 57 {
        Some((c as u32 - 48) as u8)
    } else if 97 <= c as u32 && c as u32 <= 99 {
        Some((c as u32 - 97 + 10) as u8)
    } else if 65 <= c as u32 && c as u32 <= 67 {
        Some((c as u32 - 65 + 10) as u8)
    } else {
        None
    }
}

/// What parsing a card token returns: the card for a well-formed
/// two-character token, and the reason of failure otherwise.
pub open spec fn spec_parse_card(s: Seq<char>) -> Result<Card, CardParseError> {
    if s.len() != 2 {
        Err(CardParseError::Length)
    } else {
        match suit_char_value(s[0]) {
            None => Err(CardParseError::Suit),
            Some(col) => match rank_char_value(s[1]) {
                None => Err(CardParseError::Rank),
                Some(val) => Ok(Card { value: (col * 13 + val) as u8 }),
            },
        }
    }
}

/// The one-character suit part of a card's token.
pub open spec fn suit_token(col: int) -> Seq<char> {
    if col == 0 {
        "A"@
    } else if col == 1 {
        "B"@
    } else if col == 2 {
        "C"@
    } else {
        "D"@
    }
}

/// The one-character rank part of a card's token.
pub open spec fn rank_token(r: int) -> Seq<char> {
    if r == 0 {
        "0"@
    } else if r == 1 {
        "1"@
    } else if r == 2 {
        "2"@
    } else if r == 3 {
        "3"@
    } else if r == 4 {
        "4"@
    } else if r == 5 {
        "5"@
    } else if r == 6 {
        "6"@
    } else if r == 7 {
        "7"@
    } else if r == 8 {
        "8"@
    } else if r == 9 {
        "9"@
    } else if r == 10 {
        "A"@
    } else if r == 11 {
        "B"@
    } else {
        "C"@
    }
}

/// A card's two-character token, suit letter then base-13 rank digit.
pub open spec fn spec_token(c: Card) -> Seq<char> {
    suit_token(c.value as int / 13) + rank_token(c.value as int % 13)
}

/// The rank part of a card's display form.
pub open spec fn rank_display(r: int) -> Seq<char> {
    if r == 0 {
        "2"@
    } else if r == 1 {
        "3"@
    } else if r == 2 {
        "4"@
    } else if r == 3 {
        "5"@
    } else if r == 4 {
        "6"@
    } else if r == 5 {
        "7"@
    } else if r == 6 {
        "8"@
    } else if r == 7 {
        "9"@
    } else if r == 8 {
        "10"@
    } else if r == 9 {
        "J"@
    } else if r == 10 {
        "Q"@
    } else if r == 11 {
        "K"@
    } else {
        "A"@
    }
}

/// The suit glyph of a card's display form.
pub open spec fn suit_display(col: int) -> Seq<char> {
    if col == 0 {
        "♣︎"@
    } else if col == 1 {
        "♦︎"@
    } else if col == 2 {
        "♥︎"@
    } else {
        "♠︎"@
    }
}

/// A card's display form: rank name then suit glyph.
pub open spec fn spec_display(c: Card) -> Seq<char> {
    rank_display(c.value as int % 13) + suit_display(c.value as int / 13)
}

impl Card {
    /// Returns the Card's color (suit), `value / 13`.
    pub fn color(&self) -> (c: u8)
        ensures
            c == self.value / 13,
    {
        self.value / 13
    }

    /// Returns the Card's value (rank), `value % 13`.
    pub fn value(&self) -> (r: u8)
        ensures
            r == self.value % 13,
    {
        self.value % 13
    }

    /// Builds the card with the given suit and rank.
    pub fn from(value: (u8, u8)) -> (c: Card)
        requires
            value.0 < 4,
            value.1 < 13,
        ensures
            c.value == value.0 * 13 + value.1,
    {
        Card { value: value.0 * 13 + value.1 }
    }

    /// Parses a two-character card token such as `A0` or `CA`.
    pub fn try_from(value: &str) -> (r: Result<Card, CardParseError>)
        ensures
            r == spec_parse_card(value@),
    {
        let len = value.unicode_len();
        if len != 2 {
            return Err(CardParseError::Length);
        }
        let c0 = value.get_char(0);
        let c1 = value.get_char(1);
        let col: u8 = if c0 == 'A' {
            0
        } else if c0 == 'B' {
            1
        } else if c0 == 'C' {
            2
        } else if c0 == 'D' {
            3
        } else {
            return Err(CardParseError::Suit);
        };
        let n1 = c1 as u32;
        let val: u8 = if 48 <= n1 && n1 <= 57 {
            (n1 - 48) as u8
        } else if 97 <= n1 && n1 <= 99 {
            (n1 - 97 + 10) as u8
        } else if 65 <= n1 && n1 <= 67 {
            (n1 - 65 + 10) as u8
        } else {
            return Err(CardParseError::Rank);
        };
        Ok(Card { value: col * 13 + val })
    }

    /// The card's two-character token, the form `try_from` parses.
    pub fn token(&self) -> (r: String)
        requires
            self.value < 52,
        ensures
            r@ == spec_token(*self),
    {
        let col = self.value / 13;
        let rank = self.value % 13;
        let suit_part: &str = if col == 0 {
            "A"
        } else if col == 1 {
            "B"
        } else if col == 2 {
            "C"
        } else {
            "D"
        };
        let rank_part: &str = if rank == 0 {
            "0"
        } else if rank == 1 {
            "1"
        } else if rank == 2 {
            "2"
        } else if rank == 3 {
            "3"
        } else if rank == 4 {
            "4"
        } else if rank == 5 {
            "5"
        } else if rank == 6 {
            "6"
        } else if rank == 7 {
            "7"
        } else if rank == 8 {
            "8"
        } else if rank == 9 {
            "9"
        } else if rank == 10 {
            "A"
        } else if rank == 11 {
            "B"
        } else {
            "C"
        };
        let mut out = String::from_str(suit_part);
        out.append(rank_part);
        out
    }

    /// The card's display form, rank name then suit glyph.
    pub fn display_string(&self) -> (r: String)
        requires
            self.value < 52,
        ensures
            r@ == spec_display(*self),
    {
        let col = self.value / 13;
        let rank = self.value % 13;
        let rank_part: &str = if rank == 0 {
            "2"
        } else if rank == 1 {
            "3"
        } else if rank == 2 {
            "4"
        } else if rank == 3 {
            "5"
        } else if rank == 4 {
            "6"
        } else if rank == 5 {
            "7"
        } else if rank == 6 {
            "8"
        } else if rank == 7 {
            "9"
        } else if rank == 8 {
            "10"
        } else if rank == 9 {
            "J"
        } else if rank == 10 {
            "Q"
        } else if rank == 11 {
            "K"
        } else {
            "A"
        };
        let suit_part: &str = if col == 0 {
            "♣︎"
        } else if col == 1 {
            "♦︎"
        } else if col == 2 {
            "♥︎"
        } else {
            "♠︎"
        };
        let mut out = String::from_str(rank_part);
        out.append(suit_part);
        out
    }
}

/// Building a card from the suit and rank decoded out of a value in
/// `[0, 52)` gives that value back: the `(suit, rank) <-> value` mapping
/// is a bijection on `[0, 52)`.
pub proof fn lemma_card_round_trip(v: u8)
    requires
        v < 52,
    ensures
        (v / 13) * 13 + v % 13 == v,
        v / 13 < 4,
        v % 13 < 13,
{
}

/// Parsing a card's token gives the card back, for every card in
/// `[0, 52)`: the token form is inverse to parsing.
pub proof fn lemma_card_token_round_trip(c: Card)
    requires
        c.value < 52,
    ensures
        spec_parse_card(spec_token(c)) == Ok::<Card, CardParseError>(c),
{
    reveal_strlit("A");
    reveal_strlit("B");
    reveal_strlit("C");
    reveal_strlit("D");
    reveal_strlit("0");
    reveal_strlit("1");
    reveal_strlit("2");
    reveal_strlit("3");
    reveal_strlit("4");
    reveal_strlit("5");
    reveal_strlit("6");
    reveal_strlit("7");
    reveal_strlit("8");
    reveal_strlit("9");
    let col = c.value as int / 13;
    let rank = c.value as int % 13;
    let s = spec_token(c);
    assert(s.len() == 2);
    assert(s[0] == suit_token(col)[0]);
    assert(s[1] == rank_token(rank)[0]);
    assert(suit_char_value(s[0]) == Some((col as u8)));
    assert(rank_char_value(s[1]) == Some((rank as u8)));
    assert((col * 13 + rank) as u8 == c.value);
}

// ---------------------------------------------------------------------------
// Hand evaluation.
//
// A hand is a sequence of exactly 7 `(suit, rank)` pairs. The evaluator
// sorts it by rank and takes the maximum of nine per-category candidate
// values. Each category value is `offset + o4*13^4 + o3*13^3 + o2*13^2 +
// o1*13 + o0` for the category's base offset and up to five rank orders,
// so categories dominate the ordering and kickers break ties within one.
// ---------------------------------------------------------------------------

/// The base offset for values of hands with type high card.
pub const HIGH_CARD_OFFSET: usize = 0;

/// The base offset for values of hands with type pair: the next number
/// after all possible high card values (`13^5`).
pub const PAIR_OFFSET: usize = HIGH_CARD_OFFSET + 371293;

/// The base offset for values of hands with type two pair: the next number
/// after all possible pair values (`+ 13^4`).
pub const TWO_PAIR_OFFSET: usize = PAIR_OFFSET + 28561;

/// The base offset for values of hands with type three of a kind: the next
/// number after all possible two pair values (`+ 13^3`).
pub const THREE_OFFSET: usize = TWO_PAIR_OFFSET + 2197;

/// The base offset for values of hands with type straight: the next number
/// after all possible three of a kind values (`+ 13^3`).
pub const STRAIGHT_OFFSET: usize = THREE_OFFSET + 2197;

/// The base offset for values of hands with type flush: the next number
/// after all possible straight values (`+ 13`).
pub const FLUSH_OFFSET: usize = STRAIGHT_OFFSET + 13;

/// The base offset for values of hands with type full house: the next
/// number after all possible flush values (`+ 13^5`).
pub const FULL_HOUSE_OFFSET: usize = FLUSH_OFFSET + 371293;

/// The base offset for values of hands with type four of a kind: the next
/// number after all possible full house values (`+ 13^2`).
pub const FOUR_OFFSET: usize = FULL_HOUSE_OFFSET + 169;

/// The base offset for values of hands with type straight flush: the next
/// number after all possible four of a kind values (`+ 13^2`).
pub const STRAIGHT_FLUSH_OFFSET: usize = FOUR_OFFSET + 169;

/// A well-formed 7-card hand: exactly 7 pairs, suits in `[0, 4)` and ranks
/// in `[0, 13)`.
pub open spec fn wf_hand(s: Seq<(u8, u8)>) -> bool {
    &&& s.len() == 7
    &&& forall|i: int| 0 <= i < s.len() ==> (#[trigger] s[i]).0 < 4 && s[i].1 < 13
}

/// The hand is sorted by rank, ascending.
pub open spec fn sorted_by_rank(s: Seq<(u8, u8)>) -> bool {
    forall|i: int, j: int| 0 <= i <= j < s.len() ==> (#[trigger] s[i]).1 <= (#[trigger] s[j]).1
}

/// Packs a category offset and five rank orders into one value, base 13,
/// most significant order first.
pub open spec fn pack(offset: int, o4: int, o3: int, o2: int, o1: int, o0: int) -> int {
    offset + o4 * 28561 + o3 * 2197 + o2 * 169 + o1 * 13 + o0
}

/// The largest index `j <= i` with `j >= 1` and equal ranks at `j` and
/// `j - 1`; 0 when there is none.
pub open spec fn pair_from(s: Seq<(u8, u8)>, i: int) -> int
    decreases i,
{
    if i < 1 {
        0
    } else if s[i].1 == s[i - 1].1 {
        i
    } else {
        pair_from(s, i - 1)
    }
}

/// The largest index `j <= i` with `j >= 2` and equal ranks at `j`, `j - 1`
/// and `j - 2`; 0 when there is none.
pub open spec fn trip_from(s: Seq<(u8, u8)>, i: int) -> int
    decreases i,
{
    if i < 2 {
        0
    } else if s[i].1 == s[i - 1].1 && s[i].1 == s[i - 2].1 {
        i
    } else {
        trip_from(s, i - 1)
    }
}

/// The largest index `j <= i` with `j >= 3` and equal ranks at `j` down to
/// `j - 3`; 0 when there is none.
pub open spec fn quad_from(s: Seq<(u8, u8)>, i: int) -> int
    decreases i,
{
    if i < 3 {
        0
    } else if s[i].1 == s[i - 1].1 && s[i].1 == s[i - 2].1 && s[i].1 == s[i - 3].1 {
        i
    } else {
        quad_from(s, i - 1)
    }
}

/// The largest index `j <= i` of an adjacent rank match that lies wholly
/// outside the triple occupying positions `t - 2 ..= t`; 0 when none.
pub open spec fn fh_pair_from(s: Seq<(u8, u8)>, i: int, t: int) -> int
    decreases i,
{
    if i < 1 {
        0
    } else if t - 2 <= i && i <= t {
        fh_pair_from(s, i - 1, t)
    } else if t - 2 <= i - 1 && i - 1 <= t {
        fh_pair_from(s, i - 1, t)
    } else if s[i].1 == s[i - 1].1 {
        i
    } else {
        fh_pair_from(s, i - 1, t)
    }
}

/// The high card candidate: the top five ranks of the sorted hand.
pub open spec fn high_card_spec(s: Seq<(u8, u8)>) -> int {
    pack(
        HIGH_CARD_OFFSET as int,
        s[6].1 as int,
        s[5].1 as int,
        s[4].1 as int,
        s[3].1 as int,
        s[2].1 as int,
    )
}

/// The pair candidate: the highest adjacent rank match, with the three
/// highest remaining ranks as kickers; 0 when the hand holds no pair.
pub open spec fn pair_spec(s: Seq<(u8, u8)>) -> int {
    let i = pair_from(s, 6);
    if i == 0 {
        0
    } else {
        let k1 = if i == 6 { s[4].1 } else { s[6].1 };
        let k2 = if i >= 5 { s[3].1 } else { s[5].1 };
        let k3 = if i >= 4 { s[2].1 } else { s[4].1 };
        pack(PAIR_OFFSET as int, 0, s[i].1 as int, k1 as int, k2 as int, k3 as int)
    }
}

/// The two pair candidate: the two highest disjoint-or-overlapping adjacent
/// matches found scanning down, with the highest remaining rank as kicker;
/// 0 when there is no second pair.
pub open spec fn two_pair_spec(s: Seq<(u8, u8)>) -> int {
    let p0 = pair_from(s, 6);
    if p0 == 0 {
        0
    } else {
        let p1 = pair_from(s, p0 - 1);
        if p1 == 0 {
            0
        } else {
            let kick = if p0 != 6 {
                s[6].1
            } else if p1 != 4 {
                s[4].1
            } else {
                s[2].1
            };
            pack(TWO_PAIR_OFFSET as int, 0, 0, s[p0].1 as int, s[p1].1 as int, kick as int)
        }
    }
}

/// The three of a kind candidate: the highest three consecutive equal
/// ranks, with the two highest remaining ranks as kickers; 0 when none.
pub open spec fn three_spec(s: Seq<(u8, u8)>) -> int {
    let i = trip_from(s, 6);
    if i == 0 {
        0
    } else {
        let k1 = if i == 6 { s[3].1 } else { s[6].1 };
        let k2 = if i >= 5 { s[2].1 } else { s[5].1 };
        pack(THREE_OFFSET as int, 0, 0, s[i].1 as int, k1 as int, k2 as int)
    }
}

/// The four of a kind candidate: four equal ranks with the highest
/// remaining rank as kicker; 0 when none.
pub open spec fn four_spec(s: Seq<(u8, u8)>) -> int {
    let i = quad_from(s, 6);
    if i == 0 {
        0
    } else {
        let kick = if i == 6 { s[2].1 } else { s[6].1 };
        pack(FOUR_OFFSET as int, 0, 0, 0, s[i].1 as int, kick as int)
    }
}

/// The full house candidate: the highest triple and then the highest pair
/// outside it; 0 when either is missing.
pub open spec fn full_house_spec(s: Seq<(u8, u8)>) -> int {
    let t = trip_from(s, 6);
    if t == 0 {
        0
    } else {
        let p = fh_pair_from(s, 6, t);
        if p == 0 {
            0
        } else {
            pack(FULL_HOUSE_OFFSET as int, 0, 0, 0, s[t].1 as int, s[p].1 as int)
        }
    }
}

/// Some card of the hand has the given rank.
pub open spec fn has_rank(s: Seq<(u8, u8)>, r: int) -> bool {
    exists|i: int| 0 <= i < s.len() && (#[trigger] s[i]).1 == r
}

/// The four ranks below `h` are all present, making `h` the high end of a
/// straight (`h` itself is read off the hand).
pub open spec fn straight_at(s: Seq<(u8, u8)>, h: int) -> bool {
    h > 3 && has_rank(s, h - 1) && has_rank(s, h - 2) && has_rank(s, h - 3) && has_rank(s, h - 4)
}

/// The wheel: ace used low, ranks A-2-3-4-5.
pub open spec fn wheel(s: Seq<(u8, u8)>) -> bool {
    has_rank(s, 3) && has_rank(s, 2) && has_rank(s, 1) && has_rank(s, 0) && has_rank(s, 12)
}

/// The straight candidate: the highest straight reachable from one of the
/// top three sorted positions, else the wheel with high rank 3; 0 when
/// none.
pub open spec fn straight_spec(s: Seq<(u8, u8)>) -> int {
    if straight_at(s, s[6].1 as int) {
        pack(STRAIGHT_OFFSET as int, 0, 0, 0, 0, s[6].1 as int)
    } else if straight_at(s, s[5].1 as int) {
        pack(STRAIGHT_OFFSET as int, 0, 0, 0, 0, s[5].1 as int)
    } else if straight_at(s, s[4].1 as int) {
        pack(STRAIGHT_OFFSET as int, 0, 0, 0, 0, s[4].1 as int)
    } else if wheel(s) {
        pack(STRAIGHT_OFFSET as int, 0, 0, 0, 0, 3)
    } else {
        0
    }
}

/// The ranks of the cards of suit `c`, highest position first (descending
/// rank order on a rank-sorted hand).
pub open spec fn ranks_desc(s: Seq<(u8, u8)>, c: int) -> Seq<u8>
    decreases s.len(),
{
    if s.len() == 0 {
        Seq::empty()
    } else if s.last().0 as int == c {
        seq![s.last().1] + ranks_desc(s.drop_last(), c)
    } else {
        ranks_desc(s.drop_last(), c)
    }
}

/// The flush candidate value for suit `c`: its top five ranks packed as
/// five orders.
pub open spec fn flush_pack(s: Seq<(u8, u8)>, c: int) -> int {
    let f = ranks_desc(s, c);
    pack(FLUSH_OFFSET as int, f[0] as int, f[1] as int, f[2] as int, f[3] as int, f[4] as int)
}

/// The flush candidate: the top five ranks of the suit holding at least
/// five cards; 0 when no suit does.
pub open spec fn flush_spec(s: Seq<(u8, u8)>) -> int {
    if ranks_desc(s, 0).len() >= 5 {
        flush_pack(s, 0)
    } else if ranks_desc(s, 1).len() >= 5 {
        flush_pack(s, 1)
    } else if ranks_desc(s, 2).len() >= 5 {
        flush_pack(s, 2)
    } else if ranks_desc(s, 3).len() >= 5 {
        flush_pack(s, 3)
    } else {
        0
    }
}

/// The hand contains the exact card `(c, r)`.
pub open spec fn has_card(s: Seq<(u8, u8)>, c: int, r: int) -> bool {
    exists|i: int|
        0 <= i < s.len() && (#[trigger] s[i]).0 as int == c && s[i].1 as int == r
}

/// Suit `c` holds the five consecutive ranks `h - 4 ..= h`.
pub open spec fn sf_at(s: Seq<(u8, u8)>, c: int, h: int) -> bool {
    h > 3 && has_card(s, c, h) && has_card(s, c, h - 1) && has_card(s, c, h - 2) && has_card(
        s,
        c,
        h - 3,
    ) && has_card(s, c, h - 4)
}

/// Suit `c` holds the wheel A-2-3-4-5.
pub open spec fn wheel_sf(s: Seq<(u8, u8)>, c: int) -> bool {
    has_card(s, c, 12) && has_card(s, c, 3) && has_card(s, c, 2) && has_card(s, c, 1) && has_card(
        s,
        c,
        0,
    )
}

/// Some suit holds the five consecutive ranks ending at `h`.
pub open spec fn sf_any_at(s: Seq<(u8, u8)>, h: int) -> bool {
    sf_at(s, 0, h) || sf_at(s, 1, h) || sf_at(s, 2, h) || sf_at(s, 3, h)
}

/// Scans high ranks downward for a straight flush, ending with the wheel.
pub open spec fn sf_scan(s: Seq<(u8, u8)>, h: int) -> int
    decreases h,
{
    if h <= 3 {
        if wheel_sf(s, 0) || wheel_sf(s, 1) || wheel_sf(s, 2) || wheel_sf(s, 3) {
            STRAIGHT_FLUSH_OFFSET as int + 3
        } else {
            0
        }
    } else {
        if sf_any_at(s, h) {
            STRAIGHT_FLUSH_OFFSET as int + h
        } else {
            sf_scan(s, h - 1)
        }
    }
}

/// The straight flush candidate: the highest rank ending five consecutive
/// same-suit ranks, the wheel counting with high rank 3; 0 when none.
pub open spec fn straight_flush_spec(s: Seq<(u8, u8)>) -> int {
    sf_scan(s, 12)
}

/// The larger of two values.
pub open spec fn spec_max(a: int, b: int) -> int {
    if a >= b {
        a
    } else {
        b
    }
}

/// The value of a sorted 7-card hand: the maximum of the nine category
/// candidates.
pub open spec fn eval_sorted(s: Seq<(u8, u8)>) -> int {
    spec_max(
        straight_flush_spec(s),
        spec_max(
            four_spec(s),
            spec_max(
                full_house_spec(s),
                spec_max(
                    flush_spec(s),
                    spec_max(
                        straight_spec(s),
                        spec_max(
                            three_spec(s),
                            spec_max(two_pair_spec(s), spec_max(pair_spec(s), high_card_spec(s))),
                        ),
                    ),
                ),
            ),
        ),
    )
}

/// The category of a sorted hand: the highest category whose candidate
/// value is nonzero, from 0 (high card) up to 8 (straight flush).
pub open spec fn category(s: Seq<(u8, u8)>) -> int {
    if straight_flush_spec(s) != 0 {
        8
    } else if four_spec(s) != 0 {
        7
    } else if full_house_spec(s) != 0 {
        6
    } else if flush_spec(s) != 0 {
        5
    } else if straight_spec(s) != 0 {
        4
    } else if three_spec(s) != 0 {
        3
    } else if two_pair_spec(s) != 0 {
        2
    } else if pair_spec(s) != 0 {
        1
    } else {
        0
    }
}

/// The base offset of each category, in category order.
pub open spec fn category_offset(c: int) -> int {
    if c <= 0 {
        HIGH_CARD_OFFSET as int
    } else if c == 1 {
        PAIR_OFFSET as int
    } else if c == 2 {
        TWO_PAIR_OFFSET as int
    } else if c == 3 {
        THREE_OFFSET as int
    } else if c == 4 {
        STRAIGHT_OFFSET as int
    } else if c == 5 {
        FLUSH_OFFSET as int
    } else if c == 6 {
        FULL_HOUSE_OFFSET as int
    } else if c == 7 {
        FOUR_OFFSET as int
    } else {
        STRAIGHT_FLUSH_OFFSET as int
    }
}

proof fn lemma_pair_from_range(s: Seq<(u8, u8)>, i: int)
    requires
        0 <= i,
    ensures
        0 <= pair_from(s, i) <= i,
    decreases i,
{
    if i >= 1 && !(s[i].1 == s[i - 1].1) {
        lemma_pair_from_range(s, i - 1);
    }
}

proof fn lemma_trip_from_range(s: Seq<(u8, u8)>, i: int)
    requires
        0 <= i,
    ensures
        trip_from(s, i) == 0 || 2 <= trip_from(s, i) <= i,
    decreases i,
{
    if i >= 2 && !(s[i].1 == s[i - 1].1 && s[i].1 == s[i - 2].1) {
        lemma_trip_from_range(s, i - 1);
    }
}

proof fn lemma_quad_from_range(s: Seq<(u8, u8)>, i: int)
    requires
        0 <= i,
    ensures
        quad_from(s, i) == 0 || 3 <= quad_from(s, i) <= i,
    decreases i,
{
    if i >= 3 && !(s[i].1 == s[i - 1].1 && s[i].1 == s[i - 2].1 && s[i].1 == s[i - 3].1) {
        lemma_quad_from_range(s, i - 1);
    }
}

proof fn lemma_fh_pair_range(s: Seq<(u8, u8)>, i: int, t: int)
    requires
        0 <= i,
    ensures
        fh_pair_from(s, i, t) == 0 || 1 <= fh_pair_from(s, i, t) <= i,
    decreases i,
{
    if i >= 1 {
        lemma_fh_pair_range(s, i - 1, t);
    }
}

proof fn lemma_sf_scan_range(s: Seq<(u8, u8)>, h: int)
    requires
        3 <= h <= 12,
    ensures
        sf_scan(s, h) == 0 || STRAIGHT_FLUSH_OFFSET as int <= sf_scan(s, h)
            <= STRAIGHT_FLUSH_OFFSET as int + h,
    decreases h,
{
    if h > 3 {
        lemma_sf_scan_range(s, h - 1);
    }
}

/// Bounds every category candidate of a well-formed hand: each nonzero
/// candidate lies in `[offset, next offset)`, so categories never collide.
pub proof fn lemma_category_bounds(s: Seq<(u8, u8)>)
    requires
        wf_hand(s),
    ensures
        HIGH_CARD_OFFSET as int <= high_card_spec(s) < PAIR_OFFSET as int,
        pair_spec(s) == 0 || PAIR_OFFSET as int <= pair_spec(s) < TWO_PAIR_OFFSET as int,
        two_pair_spec(s) == 0 || TWO_PAIR_OFFSET as int <= two_pair_spec(s)
            < THREE_OFFSET as int,
        three_spec(s) == 0 || THREE_OFFSET as int <= three_spec(s) < STRAIGHT_OFFSET as int,
        straight_spec(s) == 0 || STRAIGHT_OFFSET as int <= straight_spec(s)
            < FLUSH_OFFSET as int,
        flush_spec(s) == 0 || FLUSH_OFFSET as int <= flush_spec(s) < FULL_HOUSE_OFFSET as int,
        full_house_spec(s) == 0 || FULL_HOUSE_OFFSET as int <= full_house_spec(s)
            < FOUR_OFFSET as int,
        four_spec(s) == 0 || FOUR_OFFSET as int <= four_spec(s)
            < STRAIGHT_FLUSH_OFFSET as int,
        straight_flush_spec(s) == 0 || STRAIGHT_FLUSH_OFFSET as int <= straight_flush_spec(s)
            <= STRAIGHT_FLUSH_OFFSET as int + 12,
{
    lemma_pair_from_range(s, 6);
    if pair_from(s, 6) != 0 {
        lemma_pair_from_range(s, pair_from(s, 6) - 1);
    }
    lemma_trip_from_range(s, 6);
    lemma_quad_from_range(s, 6);
    if trip_from(s, 6) != 0 {
        lemma_fh_pair_range(s, 6, trip_from(s, 6));
    }
    lemma_ranks_desc_bounds(s, 0);
    lemma_ranks_desc_bounds(s, 1);
    lemma_ranks_desc_bounds(s, 2);
    lemma_ranks_desc_bounds(s, 3);
    lemma_sf_scan_range(s, 12);
}

/// Categories dominate the encoding: for two well-formed sorted hands
/// whose categories differ, the lower-category hand's value lies strictly
/// below the higher category's base offset, which bounds the higher hand's
/// value from below.
pub proof fn lemma_category_ordering(s1: Seq<(u8, u8)>, s2: Seq<(u8, u8)>)
    requires
        wf_hand(s1),
        wf_hand(s2),
        category(s1) < category(s2),
    ensures
        eval_sorted(s1) < category_offset(category(s2)),
        category_offset(category(s2)) <= eval_sorted(s2),
{
    lemma_category_bounds(s1);
    lemma_category_bounds(s2);
}

/// Calculates the value for internal representation: the category offset
/// plus the five orders packed base 13.
fn calculate_value(
    classification: usize,
    order4: u8,
    order3: u8,
    order2: u8,
    order1: u8,
    order0: u8,
) -> (r: usize)
    requires
        classification <= STRAIGHT_FLUSH_OFFSET,
        order4 < 13,
        order3 < 13,
        order2 < 13,
        order1 < 13,
        order0 < 13,
    ensures
        r as int == pack(
            classification as int,
            order4 as int,
            order3 as int,
            order2 as int,
            order1 as int,
            order0 as int,
        ),
{
    classification + (order4 as usize) * 28561 + (order3 as usize) * 2197 + (order2 as usize) * 169
        + (order1 as usize) * 13 + (order0 as usize)
}

/// Sorts the hand by rank, ascending, keeping exactly the same cards.
fn sort_hand(cards: &mut Vec<(u8, u8)>)
    ensures
        sorted_by_rank(final(cards)@),
        final(cards)@.to_multiset() == old(cards)@.to_multiset(),
        final(cards)@.len() == old(cards)@.len(),
{
    broadcast use vstd::seq_lib::group_to_multiset_ensures;

    let n = cards.len();
    let mut i: usize = 1;
    while i < n
        invariant
            n == cards@.len(),
            1 <= i,
            cards@.to_multiset() == old(cards)@.to_multiset(),
            forall|k: int, l: int|
                0 <= k <= l < i ==> (#[trigger] cards@[k]).1 <= (#[trigger] cards@[l]).1,
        decreases n - i,
    {
        let mut j: usize = i;
        while j >= 1 && cards[j - 1].1 > cards[j].1
            invariant
                n == cards@.len(),
                j <= i < n,
                cards@.to_multiset() == old(cards)@.to_multiset(),
                forall|k: int, l: int|
                    0 <= k <= l <= i && k != j && l != j ==> (#[trigger] cards@[k]).1 <= (
                    #[trigger] cards@[l]).1,
                forall|k: int|
                    j < k <= i ==> cards@[j as int].1 <= (#[trigger] cards@[k]).1,
            decreases j,
        {
            let a = cards[j - 1];
            let b = cards[j];
            let ghost before = cards@;
            cards[j - 1] = b;
            cards[j] = a;
            proof {
                broadcast use vstd::seq_lib::to_multiset_update;
                broadcast use vstd::multiset::group_multiset_axioms;

                let m = before.to_multiset();
                assert(before.contains(a));
                vstd::seq_lib::to_multiset_contains(before, a);
                assert(m.count(a) >= 1);
                assert(cards@ =~= before.update(j - 1, b).update(j as int, a));
                assert(before.update(j - 1, b).to_multiset() =~= m.remove(a).insert(b));
                assert(before.update(j - 1, b)[j as int] == b);
                assert(cards@.to_multiset() =~= m.remove(a).insert(b).remove(b).insert(a));
                assert(cards@.to_multiset() =~= m);
            }
            j -= 1;
        }
        i += 1;
    }
}

/// Finds the largest index `j <= start` with equal ranks at `j` and
/// `j - 1`; 0 when there is none.
fn find_pair_from(cards: &Vec<(u8, u8)>, start: usize) -> (r: usize)
    requires
        cards@.len() == 7,
        start <= 6,
    ensures
        r as int == pair_from(cards@, start as int),
        r <= start,
{
    let mut i: usize = start;
    while i >= 1
        invariant
            i <= start <= 6,
            cards@.len() == 7,
            pair_from(cards@, start as int) == pair_from(cards@, i as int),
        decreases i,
    {
        if cards[i].1 == cards[i - 1].1 {
            return i;
        }
        i -= 1;
    }
    0
}

/// Finds the largest index `j <= start` of three consecutive equal ranks;
/// 0 when there is none.
fn find_trip_from(cards: &Vec<(u8, u8)>, start: usize) -> (r: usize)
    requires
        cards@.len() == 7,
        start <= 6,
    ensures
        r as int == trip_from(cards@, start as int),
        r <= start,
        r == 0 || r >= 2,
{
    let mut i: usize = start;
    while i >= 2
        invariant
            i <= start <= 6,
            cards@.len() == 7,
            trip_from(cards@, start as int) == trip_from(cards@, i as int),
        decreases i,
    {
        if cards[i].1 == cards[i - 1].1 && cards[i].1 == cards[i - 2].1 {
            return i;
        }
        i -= 1;
    }
    0
}

/// Finds the largest index `j <= start` of four consecutive equal ranks;
/// 0 when there is none.
fn find_quad_from(cards: &Vec<(u8, u8)>, start: usize) -> (r: usize)
    requires
        cards@.len() == 7,
        start <= 6,
    ensures
        r as int == quad_from(cards@, start as int),
        r <= start,
{
    let mut i: usize = start;
    while i >= 3
        invariant
            i <= start <= 6,
            cards@.len() == 7,
            quad_from(cards@, start as int) == quad_from(cards@, i as int),
        decreases i,
    {
        if cards[i].1 == cards[i - 1].1 && cards[i].1 == cards[i - 2].1 && cards[i].1 == cards[i
            - 3].1 {
            return i;
        }
        i -= 1;
    }
    0
}

/// Finds the highest adjacent rank match lying wholly outside the triple
/// at positions `t - 2 ..= t`; 0 when there is none.
fn find_fh_pair(cards: &Vec<(u8, u8)>, t: usize) -> (r: usize)
    requires
        cards@.len() == 7,
        2 <= t <= 6,
    ensures
        r as int == fh_pair_from(cards@, 6, t as int),
        r <= 6,
{
    let mut i: usize = 6;
    while i >= 1
        invariant
            i <= 6,
            cards@.len() == 7,
            2 <= t <= 6,
            fh_pair_from(cards@, 6, t as int) == fh_pair_from(cards@, i as int, t as int),
        decreases i,
    {
        let in_triple = t - 2 <= i && i <= t;
        let partner_in_triple = t - 2 <= i - 1 && i - 1 <= t;
        if !in_triple && !partner_in_triple && cards[i].1 == cards[i - 1].1 {
            return i;
        }
        i -= 1;
    }
    0
}

/// Checks whether the provided card stack is a high-card.
fn calculate_high_card(cards: &Vec<(u8, u8)>) -> (r: usize)
    requires
        wf_hand(cards@),
    ensures
        r as int == high_card_spec(cards@),
{
    calculate_value(
        HIGH_CARD_OFFSET,
        cards[6].1,
        cards[5].1,
        cards[4].1,
        cards[3].1,
        cards[2].1,
    )
}

/// Checks whether the provided card stack is a pair.
fn calculate_pair(cards: &Vec<(u8, u8)>) -> (r: usize)
    requires
        wf_hand(cards@),
    ensures
        r as int == pair_spec(cards@),
{
    let i = find_pair_from(cards, 6);
    if i == 0 {
        return 0;
    }
    let kicker1 = if i == 6 {
        cards[4].1
    } else {
        cards[6].1
    };
    let kicker2 = if i >= 5 {
        cards[3].1
    } else {
        cards[5].1
    };
    let kicker3 = if i >= 4 {
        cards[2].1
    } else {
        cards[4].1
    };
    calculate_value(PAIR_OFFSET, 0, cards[i].1, kicker1, kicker2, kicker3)
}

/// Checks whether the provided card stack is a two-pair.
fn calculate_two_pair(cards: &Vec<(u8, u8)>) -> (r: usize)
    requires
        wf_hand(cards@),
    ensures
        r as int == two_pair_spec(cards@),
{
    let p0 = find_pair_from(cards, 6);
    if p0 == 0 {
        return 0;
    }
    let p1 = find_pair_from(cards, p0 - 1);
    if p1 == 0 {
        return 0;
    }
    let kicker = if p0 != 6 {
        cards[6].1
    } else if p1 != 4 {
        cards[4].1
    } else {
        cards[2].1
    };
    calculate_value(TWO_PAIR_OFFSET, 0, 0, cards[p0].1, cards[p1].1, kicker)
}

/// Checks whether the provided card stack is a three-of-a-kind.
fn calculate_three(cards: &Vec<(u8, u8)>) -> (r: usize)
    requires
        wf_hand(cards@),
    ensures
        r as int == three_spec(cards@),
{
    let i = find_trip_from(cards, 6);
    if i == 0 {
        return 0;
    }
    let kicker1 = if i == 6 {
        cards[3].1
    } else {
        cards[6].1
    };
    let kicker2 = if i >= 5 {
        cards[2].1
    } else {
        cards[5].1
    };
    calculate_value(THREE_OFFSET, 0, 0, cards[i].1, kicker1, kicker2)
}

/// Checks whether the provided card stack is a four-of-a-kind.
fn calculate_four(cards: &Vec<(u8, u8)>) -> (r: usize)
    requires
        wf_hand(cards@),
    ensures
        r as int == four_spec(cards@),
{
    let i = find_quad_from(cards, 6);
    if i == 0 {
        return 0;
    }
    let kicker = if i == 6 {
        cards[2].1
    } else {
        cards[6].1
    };
    calculate_value(FOUR_OFFSET, 0, 0, 0, cards[i].1, kicker)
}

/// Checks whether the provided card stack is a full house.
fn calculate_full_house(cards: &Vec<(u8, u8)>) -> (r: usize)
    requires
        wf_hand(cards@),
    ensures
        r as int == full_house_spec(cards@),
{
    let t = find_trip_from(cards, 6);
    if t == 0 {
        return 0;
    }
    let p = find_fh_pair(cards, t);
    if p == 0 {
        return 0;
    }
    calculate_value(FULL_HOUSE_OFFSET, 0, 0, 0, cards[t].1, cards[p].1)
}

/// Whether some card of the stack has the given rank.
fn contains_rank(cards: &Vec<(u8, u8)>, r: u8) -> (b: bool)
    ensures
        b == has_rank(cards@, r as int),
{
    let n = cards.len();
    let mut i: usize = 0;
    while i < n
        invariant
            i <= n,
            n == cards@.len(),
            forall|k: int| 0 <= k < i ==> (#[trigger] cards@[k]).1 != r,
        decreases n - i,
    {
        if cards[i].1 == r {
            return true;
        }
        i += 1;
    }
    false
}

/// Checks whether the provided card stack is a straight.
fn calculate_straight(cards: &Vec<(u8, u8)>) -> (r: usize)
    requires
        wf_hand(cards@),
    ensures
        r as int == straight_spec(cards@),
{
    let v6 = cards[6].1;
    if v6 > 3 && contains_rank(cards, v6 - 1) && contains_rank(cards, v6 - 2) && contains_rank(
        cards,
        v6 - 3,
    ) && contains_rank(cards, v6 - 4) {
        return calculate_value(STRAIGHT_OFFSET, 0, 0, 0, 0, v6);
    }
    let v5 = cards[5].1;
    if v5 > 3 && contains_rank(cards, v5 - 1) && contains_rank(cards, v5 - 2) && contains_rank(
        cards,
        v5 - 3,
    ) && contains_rank(cards, v5 - 4) {
        return calculate_value(STRAIGHT_OFFSET, 0, 0, 0, 0, v5);
    }
    let v4 = cards[4].1;
    if v4 > 3 && contains_rank(cards, v4 - 1) && contains_rank(cards, v4 - 2) && contains_rank(
        cards,
        v4 - 3,
    ) && contains_rank(cards, v4 - 4) {
        return calculate_value(STRAIGHT_OFFSET, 0, 0, 0, 0, v4);
    }
    if contains_rank(cards, 3) && contains_rank(cards, 2) && contains_rank(cards, 1)
        && contains_rank(cards, 0) && contains_rank(cards, 12) {
        return calculate_value(STRAIGHT_OFFSET, 0, 0, 0, 0, 3);
    }
    0
}

/// All elements of `ranks_desc` are ranks of the hand, so they stay below
/// 13 on a well-formed hand.
proof fn lemma_ranks_desc_bounds(s: Seq<(u8, u8)>, c: int)
    requires
        forall|i: int| 0 <= i < s.len() ==> (#[trigger] s[i]).1 < 13,
    ensures
        forall|k: int|
            0 <= k < ranks_desc(s, c).len() ==> (#[trigger] ranks_desc(s, c)[k]) < 13,
    decreases s.len(),
{
    if s.len() == 0 {
    } else {
        assert(forall|i: int|
            0 <= i < s.drop_last().len() ==> (#[trigger] s.drop_last()[i]).1 < 13);
        lemma_ranks_desc_bounds(s.drop_last(), c);
        let r = ranks_desc(s, c);
        let rd = ranks_desc(s.drop_last(), c);
        if s.last().0 as int == c {
            assert(r =~= seq![s.last().1] + rd);
            assert(s.last().1 < 13);
            assert forall|k: int| 0 <= k < r.len() implies (#[trigger] r[k]) < 13 by {
                if k == 0 {
                    assert(r[0] == s.last().1);
                } else {
                    assert(r[k] == rd[k - 1]);
                }
            }
        } else {
            assert(r == rd);
        }
    }
}

/// Collects the ranks of the cards of suit `c`, highest position first.
fn suit_ranks_desc(cards: &Vec<(u8, u8)>, c: u8) -> (out: Vec<u8>)
    ensures
        out@ == ranks_desc(cards@, c as int),
{
    let mut out: Vec<u8> = Vec::new();
    let mut i: usize = cards.len();
    proof {
        assert(cards@.subrange(0, cards@.len() as int) =~= cards@);
        assert(Seq::<u8>::empty() + ranks_desc(cards@, c as int) =~= ranks_desc(
            cards@,
            c as int,
        ));
    }
    while i > 0
        invariant
            i <= cards@.len(),
            ranks_desc(cards@, c as int) == out@ + ranks_desc(
                cards@.subrange(0, i as int),
                c as int,
            ),
        decreases i,
    {
        i -= 1;
        let ghost pre = cards@.subrange(0, i as int + 1);
        proof {
            assert(pre.drop_last() =~= cards@.subrange(0, i as int));
            assert(pre.last() == cards@[i as int]);
        }
        if cards[i].0 == c {
            let ghost out_pre = out@;
            out.push(cards[i].1);
            proof {
                assert(ranks_desc(pre, c as int) =~= seq![cards@[i as int].1] + ranks_desc(
                    cards@.subrange(0, i as int),
                    c as int,
                ));
                assert(out@ =~= out_pre + seq![cards@[i as int].1]);
                assert(out@ + ranks_desc(cards@.subrange(0, i as int), c as int) =~= out_pre
                    + ranks_desc(pre, c as int));
            }
        } else {
            proof {
                assert(ranks_desc(pre, c as int) == ranks_desc(
                    cards@.subrange(0, i as int),
                    c as int,
                ));
            }
        }
    }
    proof {
        assert(cards@.subrange(0, 0) =~= Seq::<(u8, u8)>::empty());
        assert(out@ + Seq::<u8>::empty() =~= out@);
    }
    out
}

/// Checks whether the provided card stack is a flush.
fn calculate_flush(cards: &Vec<(u8, u8)>) -> (r: usize)
    requires
        wf_hand(cards@),
    ensures
        r as int == flush_spec(cards@),
{
    proof {
        lemma_ranks_desc_bounds(cards@, 0);
        lemma_ranks_desc_bounds(cards@, 1);
        lemma_ranks_desc_bounds(cards@, 2);
        lemma_ranks_desc_bounds(cards@, 3);
    }
    let r0 = suit_ranks_desc(cards, 0);
    if r0.len() >= 5 {
        return calculate_value(FLUSH_OFFSET, r0[0], r0[1], r0[2], r0[3], r0[4]);
    }
    let r1 = suit_ranks_desc(cards, 1);
    if r1.len() >= 5 {
        return calculate_value(FLUSH_OFFSET, r1[0], r1[1], r1[2], r1[3], r1[4]);
    }
    let r2 = suit_ranks_desc(cards, 2);
    if r2.len() >= 5 {
        return calculate_value(FLUSH_OFFSET, r2[0], r2[1], r2[2], r2[3], r2[4]);
    }
    let r3 = suit_ranks_desc(cards, 3);
    if r3.len() >= 5 {
        return calculate_value(FLUSH_OFFSET, r3[0], r3[1], r3[2], r3[3], r3[4]);
    }
    0
}

/// Whether the stack contains the exact card `(c, r)`.
fn contains_card(cards: &Vec<(u8, u8)>, c: u8, r: u8) -> (b: bool)
    ensures
        b == has_card(cards@, c as int, r as int),
{
    let n = cards.len();
    let mut i: usize = 0;
    while i < n
        invariant
            i <= n,
            n == cards@.len(),
            forall|k: int|
                0 <= k < i ==> !((#[trigger] cards@[k]).0 == c && cards@[k].1 == r),
        decreases n - i,
    {
        if cards[i].0 == c && cards[i].1 == r {
            return true;
        }
        i += 1;
    }
    false
}

/// Whether suit `c` holds the five consecutive ranks ending at `h`.
fn check_sf_suit(cards: &Vec<(u8, u8)>, c: u8, h: u8) -> (b: bool)
    requires
        3 < h < 13,
    ensures
        b == sf_at(cards@, c as int, h as int),
{
    contains_card(cards, c, h) && contains_card(cards, c, h - 1) && contains_card(cards, c, h - 2)
        && contains_card(cards, c, h - 3) && contains_card(cards, c, h - 4)
}

/// Whether suit `c` holds the wheel A-2-3-4-5.
fn check_wheel_suit(cards: &Vec<(u8, u8)>, c: u8) -> (b: bool)
    ensures
        b == wheel_sf(cards@, c as int),
{
    contains_card(cards, c, 12) && contains_card(cards, c, 3) && contains_card(cards, c, 2)
        && contains_card(cards, c, 1) && contains_card(cards, c, 0)
}

/// Checks whether the provided card stack is a straight flush.
fn calculate_straight_flush(cards: &Vec<(u8, u8)>) -> (r: usize)
    requires
        wf_hand(cards@),
    ensures
        r as int == straight_flush_spec(cards@),
{
    let mut h: u8 = 12;
    while h > 3
        invariant
            3 <= h <= 12,
            sf_scan(cards@, 12) == sf_scan(cards@, h as int),
        decreases h,
    {
        if check_sf_suit(cards, 0, h) || check_sf_suit(cards, 1, h) || check_sf_suit(cards, 2, h)
            || check_sf_suit(cards, 3, h) {
            return STRAIGHT_FLUSH_OFFSET + (h as usize);
        }
        h -= 1;
    }
    if check_wheel_suit(cards, 0) || check_wheel_suit(cards, 1) || check_wheel_suit(cards, 2)
        || check_wheel_suit(cards, 3) {
        return STRAIGHT_FLUSH_OFFSET + 3;
    }
    0
}

/// The rank sequence of a hand.
pub open spec fn rank_seq(s: Seq<(u8, u8)>) -> Seq<u8> {
    s.map_values(|p: (u8, u8)| p.1)
}

/// Counting a rank over the rank sequence is counting that rank over the
/// four suits of the hand.
proof fn lemma_rank_count(s: Seq<(u8, u8)>)
    requires
        forall|i: int| 0 <= i < s.len() ==> (#[trigger] s[i]).0 < 4,
    ensures
        forall|r: u8| #![auto]
            rank_seq(s).to_multiset().count(r) == s.to_multiset().count((0u8, r))
                + s.to_multiset().count((1u8, r)) + s.to_multiset().count((2u8, r))
                + s.to_multiset().count((3u8, r)),
    decreases s.len(),
{
    broadcast use vstd::seq_lib::group_to_multiset_ensures;
    broadcast use vstd::multiset::group_multiset_axioms;

    if s.len() == 0 {
        assert(rank_seq(s) =~= Seq::<u8>::empty());
        assert forall|r: u8| #![auto]
            rank_seq(s).to_multiset().count(r) == s.to_multiset().count((0u8, r))
                + s.to_multiset().count((1u8, r)) + s.to_multiset().count((2u8, r))
                + s.to_multiset().count((3u8, r)) by {
            assert(!s.contains((0u8, r)));
            assert(!s.contains((1u8, r)));
            assert(!s.contains((2u8, r)));
            assert(!s.contains((3u8, r)));
            assert(!rank_seq(s).contains(r));
        }
    } else {
        let d = s.drop_last();
        let e = s.last();
        assert(forall|i: int| 0 <= i < d.len() ==> (#[trigger] d[i]).0 < 4);
        lemma_rank_count(d);
        assert(s =~= d.push(e));
        assert(rank_seq(s) =~= rank_seq(d).push(e.1));
        assert(s.to_multiset() =~= d.to_multiset().insert(e));
        assert(rank_seq(s).to_multiset() =~= rank_seq(d).to_multiset().insert(e.1));
        assert(e.0 < 4);
        assert(e == (e.0, e.1));
    }
}

/// Two rank-sorted hands with the same cards have the same rank sequence.
proof fn lemma_rank_seqs_equal(s1: Seq<(u8, u8)>, s2: Seq<(u8, u8)>)
    requires
        forall|i: int| 0 <= i < s1.len() ==> (#[trigger] s1[i]).0 < 4,
        forall|i: int| 0 <= i < s2.len() ==> (#[trigger] s2[i]).0 < 4,
        sorted_by_rank(s1),
        sorted_by_rank(s2),
        s1.to_multiset() == s2.to_multiset(),
    ensures
        rank_seq(s1) == rank_seq(s2),
{
    lemma_rank_count(s1);
    lemma_rank_count(s2);
    let leq = |a: u8, b: u8| a <= b;
    assert(vstd::relations::sorted_by(rank_seq(s1), leq)) by {
        assert forall|i: int, j: int| 0 <= i < j < rank_seq(s1).len() implies #[trigger] leq(
            rank_seq(s1)[i],
            rank_seq(s1)[j],
        ) by {
            assert(s1[i].1 <= s1[j].1);
        }
    }
    assert(vstd::relations::sorted_by(rank_seq(s2), leq)) by {
        assert forall|i: int, j: int| 0 <= i < j < rank_seq(s2).len() implies #[trigger] leq(
            rank_seq(s2)[i],
            rank_seq(s2)[j],
        ) by {
            assert(s2[i].1 <= s2[j].1);
        }
    }
    assert(vstd::relations::total_ordering(leq));
    assert(rank_seq(s1).to_multiset() =~= rank_seq(s2).to_multiset());
    vstd::seq_lib::lemma_sorted_unique(rank_seq(s1), rank_seq(s2), leq);
}

proof fn lemma_pair_from_congruent(s1: Seq<(u8, u8)>, s2: Seq<(u8, u8)>, i: int)
    requires
        s1.len() == s2.len(),
        i < s1.len(),
        forall|k: int| 0 <= k < s1.len() ==> (#[trigger] s1[k]).1 == (#[trigger] s2[k]).1,
    ensures
        pair_from(s1, i) == pair_from(s2, i),
    decreases i,
{
    if i >= 1 && !(s1[i].1 == s1[i - 1].1) {
        lemma_pair_from_congruent(s1, s2, i - 1);
    }
}

proof fn lemma_trip_from_congruent(s1: Seq<(u8, u8)>, s2: Seq<(u8, u8)>, i: int)
    requires
        s1.len() == s2.len(),
        i < s1.len(),
        forall|k: int| 0 <= k < s1.len() ==> (#[trigger] s1[k]).1 == (#[trigger] s2[k]).1,
    ensures
        trip_from(s1, i) == trip_from(s2, i),
    decreases i,
{
    if i >= 2 && !(s1[i].1 == s1[i - 1].1 && s1[i].1 == s1[i - 2].1) {
        lemma_trip_from_congruent(s1, s2, i - 1);
    }
}

proof fn lemma_quad_from_congruent(s1: Seq<(u8, u8)>, s2: Seq<(u8, u8)>, i: int)
    requires
        s1.len() == s2.len(),
        i < s1.len(),
        forall|k: int| 0 <= k < s1.len() ==> (#[trigger] s1[k]).1 == (#[trigger] s2[k]).1,
    ensures
        quad_from(s1, i) == quad_from(s2, i),
    decreases i,
{
    if i >= 3 && !(s1[i].1 == s1[i - 1].1 && s1[i].1 == s1[i - 2].1 && s1[i].1 == s1[i - 3].1) {
        lemma_quad_from_congruent(s1, s2, i - 1);
    }
}

proof fn lemma_fh_pair_congruent(s1: Seq<(u8, u8)>, s2: Seq<(u8, u8)>, i: int, t: int)
    requires
        s1.len() == s2.len(),
        i < s1.len(),
        forall|k: int| 0 <= k < s1.len() ==> (#[trigger] s1[k]).1 == (#[trigger] s2[k]).1,
    ensures
        fh_pair_from(s1, i, t) == fh_pair_from(s2, i, t),
    decreases i,
{
    if i >= 1 {
        lemma_fh_pair_congruent(s1, s2, i - 1, t);
    }
}

proof fn lemma_sf_scan_congruent(s1: Seq<(u8, u8)>, s2: Seq<(u8, u8)>, h: int)
    requires
        forall|c: int, r: int| #![auto] has_card(s1, c, r) == has_card(s2, c, r),
    ensures
        sf_scan(s1, h) == sf_scan(s2, h),
    decreases h,
{
    if h > 3 {
        lemma_sf_scan_congruent(s1, s2, h - 1);
    }
}

/// Counting a rank among one suit's descending ranks is counting that
/// exact card in the hand.
proof fn lemma_ranks_desc_count(s: Seq<(u8, u8)>, c: u8)
    ensures
        forall|r: u8| #![auto]
            ranks_desc(s, c as int).to_multiset().count(r) == s.to_multiset().count((c, r)),
    decreases s.len(),
{
    broadcast use vstd::seq_lib::group_to_multiset_ensures;
    broadcast use vstd::multiset::group_multiset_axioms;

    if s.len() == 0 {
        assert forall|r: u8| #![auto]
            ranks_desc(s, c as int).to_multiset().count(r) == s.to_multiset().count(
                (c, r),
            ) by {
            assert(!s.contains((c, r)));
            assert(!ranks_desc(s, c as int).contains(r));
        }
    } else {
        let d = s.drop_last();
        let e = s.last();
        lemma_ranks_desc_count(d, c);
        assert(s =~= d.push(e));
        assert(s.to_multiset() =~= d.to_multiset().insert(e));
        if e.0 as int == c as int {
            assert(ranks_desc(s, c as int) =~= seq![e.1] + ranks_desc(d, c as int));
            assert(ranks_desc(s, c as int) =~= ranks_desc(d, c as int).insert(0, e.1));
            assert forall|r: u8| #![auto]
                ranks_desc(s, c as int).to_multiset().count(r) == s.to_multiset().count(
                    (c, r),
                ) by {
                vstd::seq_lib::to_multiset_insert(ranks_desc(d, c as int), 0, e.1);
                assert(e == (c, e.1));
            }
        } else {
            assert(ranks_desc(s, c as int) == ranks_desc(d, c as int));
            assert forall|r: u8| #![auto]
                ranks_desc(s, c as int).to_multiset().count(r) == s.to_multiset().count(
                    (c, r),
                ) by {
                assert(e != (c, r));
            }
        }
    }
}

/// Every element of one suit's descending ranks is bounded by any bound on
/// the hand's ranks.
proof fn lemma_ranks_desc_le(s: Seq<(u8, u8)>, c: int, b: u8)
    requires
        forall|i: int| 0 <= i < s.len() ==> (#[trigger] s[i]).1 <= b,
    ensures
        forall|k: int|
            0 <= k < ranks_desc(s, c).len() ==> (#[trigger] ranks_desc(s, c)[k]) <= b,
    decreases s.len(),
{
    if s.len() > 0 {
        let d = s.drop_last();
        assert(forall|i: int| 0 <= i < d.len() ==> (#[trigger] d[i]).1 <= b);
        lemma_ranks_desc_le(d, c, b);
        let r = ranks_desc(s, c);
        let rd = ranks_desc(d, c);
        if s.last().0 as int == c {
            assert(r =~= seq![s.last().1] + rd);
            assert forall|k: int| 0 <= k < r.len() implies (#[trigger] r[k]) <= b by {
                if k == 0 {
                    assert(r[0] == s.last().1);
                } else {
                    assert(r[k] == rd[k - 1]);
                }
            }
        } else {
            assert(r == rd);
        }
    }
}

/// On a rank-sorted hand, one suit's collected ranks descend.
proof fn lemma_ranks_desc_sorted(s: Seq<(u8, u8)>, c: int)
    requires
        sorted_by_rank(s),
    ensures
        forall|k: int, l: int|
            0 <= k <= l < ranks_desc(s, c).len() ==> (#[trigger] ranks_desc(s, c)[k]) >= (
            #[trigger] ranks_desc(s, c)[l]),
    decreases s.len(),
{
    if s.len() > 0 {
        let d = s.drop_last();
        assert(sorted_by_rank(d)) by {
            assert(forall|i: int, j: int|
                0 <= i <= j < d.len() ==> (#[trigger] d[i]).1 <= (#[trigger] d[j]).1);
        }
        lemma_ranks_desc_sorted(d, c);
        let r = ranks_desc(s, c);
        let rd = ranks_desc(d, c);
        if s.last().0 as int == c {
            assert(forall|i: int| 0 <= i < d.len() ==> (#[trigger] d[i]).1 <= s.last().1);
            lemma_ranks_desc_le(d, c, s.last().1);
            assert(r =~= seq![s.last().1] + rd);
            assert forall|k: int, l: int| 0 <= k <= l < r.len() implies (#[trigger] r[k]) >= (
            #[trigger] r[l]) by {
                if k == 0 {
                    if l > 0 {
                        assert(r[l] == rd[l - 1]);
                    }
                } else {
                    assert(r[k] == rd[k - 1]);
                    assert(r[l] == rd[l - 1]);
                }
            }
        } else {
            assert(r == rd);
        }
    }
}

/// Two rank-sorted hands with the same cards collect the same descending
/// ranks for every suit.
proof fn lemma_ranks_desc_equal(s1: Seq<(u8, u8)>, s2: Seq<(u8, u8)>, c: u8)
    requires
        sorted_by_rank(s1),
        sorted_by_rank(s2),
        s1.to_multiset() == s2.to_multiset(),
    ensures
        ranks_desc(s1, c as int) == ranks_desc(s2, c as int),
{
    lemma_ranks_desc_count(s1, c);
    lemma_ranks_desc_count(s2, c);
    lemma_ranks_desc_sorted(s1, c as int);
    lemma_ranks_desc_sorted(s2, c as int);
    let geq = |a: u8, b: u8| a >= b;
    let r1 = ranks_desc(s1, c as int);
    let r2 = ranks_desc(s2, c as int);
    assert(vstd::relations::sorted_by(r1, geq)) by {
        assert forall|i: int, j: int| 0 <= i < j < r1.len() implies #[trigger] geq(
            r1[i],
            r1[j],
        ) by {
            assert(r1[i] >= r1[j]);
        }
    }
    assert(vstd::relations::sorted_by(r2, geq)) by {
        assert forall|i: int, j: int| 0 <= i < j < r2.len() implies #[trigger] geq(
            r2[i],
            r2[j],
        ) by {
            assert(r2[i] >= r2[j]);
        }
    }
    assert(vstd::relations::total_ordering(geq));
    assert(r1.to_multiset() =~= r2.to_multiset());
    vstd::seq_lib::lemma_sorted_unique(r1, r2, geq);
}

/// The evaluator is a function of the cards alone: two rank-sorted
/// arrangements of the same 7-card multiset evaluate to the same value, so
/// every permutation of a hand evaluates alike.
pub proof fn lemma_eval_permutation(s1: Seq<(u8, u8)>, s2: Seq<(u8, u8)>)
    requires
        wf_hand(s1),
        wf_hand(s2),
        sorted_by_rank(s1),
        sorted_by_rank(s2),
        s1.to_multiset() == s2.to_multiset(),
    ensures
        eval_sorted(s1) == eval_sorted(s2),
{
    lemma_rank_seqs_equal(s1, s2);
    assert forall|k: int| 0 <= k < s1.len() implies (#[trigger] s1[k]).1 == (
    #[trigger] s2[k]).1 by {
        assert(rank_seq(s1)[k] == rank_seq(s2)[k]);
    }
    lemma_pair_from_congruent(s1, s2, 6);
    lemma_pair_from_range(s1, 6);
    if pair_from(s1, 6) != 0 {
        lemma_pair_from_congruent(s1, s2, pair_from(s1, 6) - 1);
        lemma_pair_from_range(s1, pair_from(s1, 6) - 1);
    }
    lemma_trip_from_congruent(s1, s2, 6);
    lemma_trip_from_range(s1, 6);
    lemma_quad_from_congruent(s1, s2, 6);
    lemma_quad_from_range(s1, 6);
    if trip_from(s1, 6) != 0 {
        lemma_fh_pair_congruent(s1, s2, 6, trip_from(s1, 6));
        lemma_fh_pair_range(s1, 6, trip_from(s1, 6));
    }
    assert(high_card_spec(s1) == high_card_spec(s2));
    assert(pair_spec(s1) == pair_spec(s2));
    assert(two_pair_spec(s1) == two_pair_spec(s2));
    assert(three_spec(s1) == three_spec(s2));
    assert(four_spec(s1) == four_spec(s2));
    assert(full_house_spec(s1) == full_house_spec(s2));
    assert forall|r: int| #![auto] has_rank(s1, r) == has_rank(s2, r) by {
        if has_rank(s1, r) {
            let i = choose|i: int| 0 <= i < s1.len() && (#[trigger] s1[i]).1 == r;
            assert(s2[i].1 == r);
        }
        if has_rank(s2, r) {
            let i = choose|i: int| 0 <= i < s2.len() && (#[trigger] s2[i]).1 == r;
            assert(s1[i].1 == r);
        }
    }
    assert(straight_spec(s1) == straight_spec(s2));
    assert forall|c: int, r: int| #![auto] has_card(s1, c, r) == has_card(s2, c, r) by {
        broadcast use vstd::seq_lib::group_to_multiset_ensures;

        if has_card(s1, c, r) {
            let i = choose|i: int|
                0 <= i < s1.len() && (#[trigger] s1[i]).0 as int == c && s1[i].1 as int == r;
            let e = s1[i];
            assert(s1.contains(e));
            vstd::seq_lib::to_multiset_contains(s1, e);
            vstd::seq_lib::to_multiset_contains(s2, e);
            assert(s2.contains(e));
            let j = choose|j: int| 0 <= j < s2.len() && s2[j] == e;
            assert(s2[j].0 as int == c && s2[j].1 as int == r);
        }
        if has_card(s2, c, r) {
            let i = choose|i: int|
                0 <= i < s2.len() && (#[trigger] s2[i]).0 as int == c && s2[i].1 as int == r;
            let e = s2[i];
            assert(s2.contains(e));
            vstd::seq_lib::to_multiset_contains(s1, e);
            vstd::seq_lib::to_multiset_contains(s2, e);
            assert(s1.contains(e));
            let j = choose|j: int| 0 <= j < s1.len() && s1[j] == e;
            assert(s1[j].0 as int == c && s1[j].1 as int == r);
        }
    }
    lemma_sf_scan_congruent(s1, s2, 12);
    assert(straight_flush_spec(s1) == straight_flush_spec(s2));
    lemma_ranks_desc_equal(s1, s2, 0);
    lemma_ranks_desc_equal(s1, s2, 1);
    lemma_ranks_desc_equal(s1, s2, 2);
    lemma_ranks_desc_equal(s1, s2, 3);
    assert(flush_spec(s1) == flush_spec(s2));
}

/// A total order on cards that refines the rank order: by rank, then by
/// suit.
pub open spec fn card_leq(a: (u8, u8), b: (u8, u8)) -> bool {
    a.1 < b.1 || (a.1 == b.1 && a.0 <= b.0)
}

/// The card order as a function value, for sorting specifications.
pub open spec fn card_le_fn() -> spec_fn((u8, u8), (u8, u8)) -> bool {
    |a: (u8, u8), b: (u8, u8)| card_leq(a, b)
}

/// The value of a 7-card hand in any order: the sorted hand's value. By
/// `lemma_hand_value_permutation` this depends on the cards alone.
pub open spec fn hand_value_spec(s: Seq<(u8, u8)>) -> int {
    eval_sorted(s.sort_by(card_le_fn()))
}

/// The evaluator returns the same integer for every permutation of a
/// 7-card hand.
pub proof fn lemma_hand_value_permutation(s1: Seq<(u8, u8)>, s2: Seq<(u8, u8)>)
    requires
        wf_hand(s1),
        wf_hand(s2),
        s1.to_multiset() == s2.to_multiset(),
    ensures
        hand_value_spec(s1) == hand_value_spec(s2),
{
    broadcast use vstd::seq_lib::group_to_multiset_ensures;

    let cl = card_le_fn();
    assert(vstd::relations::total_ordering(cl));
    s1.lemma_sort_by_ensures(cl);
    s2.lemma_sort_by_ensures(cl);
    let p1 = s1.sort_by(cl);
    let p2 = s2.sort_by(cl);
    lemma_sorted_arrangement_wf(s1, p1);
    lemma_sorted_arrangement_wf(s2, p2);
    lemma_eval_permutation(p1, p2);
}

/// A sorted rearrangement of a well-formed hand is well-formed and sorted
/// by rank.
proof fn lemma_sorted_arrangement_wf(s: Seq<(u8, u8)>, p: Seq<(u8, u8)>)
    requires
        wf_hand(s),
        p.to_multiset() == s.to_multiset(),
        vstd::relations::sorted_by(p, card_le_fn()),
    ensures
        wf_hand(p),
        sorted_by_rank(p),
{
    broadcast use vstd::seq_lib::group_to_multiset_ensures;

    vstd::seq_lib::to_multiset_len(p);
    vstd::seq_lib::to_multiset_len(s);
    assert(p.len() == 7);
    assert forall|i: int| 0 <= i < p.len() implies (#[trigger] p[i]).0 < 4 && p[i].1 < 13 by {
        assert(p.contains(p[i]));
        vstd::seq_lib::to_multiset_contains(p, p[i]);
        vstd::seq_lib::to_multiset_contains(s, p[i]);
        assert(s.contains(p[i]));
    }
    let cl = card_le_fn();
    assert forall|i: int, j: int| 0 <= i <= j < p.len() implies (#[trigger] p[i]).1 <= (
    #[trigger] p[j]).1 by {
        if i < j {
            assert(cl(p[i], p[j]));
        }
    }
}

/// Returns the value of the hand: the maximum of the nine category
/// candidates on the rank-sorted 7-card stack. The stack is sorted in
/// place; its cards are unchanged as a multiset.
pub fn value_of_hand(cards: &mut Vec<(u8, u8)>) -> (r: usize)
    requires
        wf_hand(old(cards)@),
    ensures
        sorted_by_rank(final(cards)@),
        final(cards)@.to_multiset() == old(cards)@.to_multiset(),
        wf_hand(final(cards)@),
        r as int == eval_sorted(final(cards)@),
        r as int == hand_value_spec(old(cards)@),
{
    broadcast use vstd::seq_lib::group_to_multiset_ensures;

    sort_hand(cards);
    proof {
        assert forall|i: int| 0 <= i < cards@.len() implies (#[trigger] cards@[i]).0 < 4
            && cards@[i].1 < 13 by {
            assert(cards@.to_multiset().contains(cards@[i]));
            assert(old(cards)@.to_multiset().contains(cards@[i]));
            assert(old(cards)@.contains(cards@[i]));
        }
    }
    let mut hand_value: usize = 0;
    let v = calculate_high_card(cards);
    if v > hand_value {
        hand_value = v;
    }
    let v = calculate_pair(cards);
    if v > hand_value {
        hand_value = v;
    }
    let v = calculate_two_pair(cards);
    if v > hand_value {
        hand_value = v;
    }
    let v = calculate_three(cards);
    if v > hand_value {
        hand_value = v;
    }
    let v = calculate_straight(cards);
    if v > hand_value {
        hand_value = v;
    }
    let v = calculate_flush(cards);
    if v > hand_value {
        hand_value = v;
    }
    let v = calculate_full_house(cards);
    if v > hand_value {
        hand_value = v;
    }
    let v = calculate_four(cards);
    if v > hand_value {
        hand_value = v;
    }
    let v = calculate_straight_flush(cards);
    if v > hand_value {
        hand_value = v;
    }
    proof {
        let cl = card_le_fn();
        assert(vstd::relations::total_ordering(cl));
        old(cards)@.lemma_sort_by_ensures(cl);
        let sp = old(cards)@.sort_by(cl);
        lemma_sorted_arrangement_wf(old(cards)@, sp);
        lemma_eval_permutation(cards@, sp);
    }
    hand_value
}

} // verus!
