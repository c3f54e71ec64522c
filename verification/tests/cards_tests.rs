use holdem_server::cards::{
    value_of_hand, Card, CardParseError, FLUSH_OFFSET, FOUR_OFFSET, FULL_HOUSE_OFFSET,
    HIGH_CARD_OFFSET, PAIR_OFFSET, STRAIGHT_FLUSH_OFFSET, STRAIGHT_OFFSET, THREE_OFFSET,
    TWO_PAIR_OFFSET,
};

/// Generates every permutation of `arr` into `out` (Heap's algorithm).
fn permutations_into(arr: &mut Vec<(u8, u8)>, k: usize, out: &mut Vec<Vec<(u8, u8)>>) {
    if k <= 1 {
        out.push(arr.clone());
        return;
    }
    for i in 0..k {
        permutations_into(arr, k - 1, out);
        if k % 2 == 0 {
            arr.swap(i, k - 1);
        } else {
            arr.swap(0, k - 1);
        }
    }
}

/// Utility function for testing a string of a card combination.
fn test_combination(s: &str, expected: usize) {
    let mut cards: Vec<(u8, u8)> = s
        .split(' ')
        .map(|tok| {
            let c = Card::try_from(tok).unwrap();
            (c.color(), c.value())
        })
        .collect();
    let mut perms: Vec<Vec<(u8, u8)>> = Vec::new();
    permutations_into(&mut cards, 7, &mut perms);
    for mut per in perms {
        let shown = per.clone();
        let value = value_of_hand(&mut per);
        assert_eq!(
            expected, value,
            "Failed: {:?}. Expected {}, got {}",
            shown, expected, value
        );
    }
}

/// Testing allowed card combinations.
#[test]
fn test_possible_card_combinations() {
    let test_cases = vec![
        // Normal cases
        (
            "A0 B1 C3 D6 A7 B9 CA",
            HIGH_CARD_OFFSET + (28561 * 10) + (2197 * 9) + (169 * 7) + (13 * 6) + 3,
        ),
        (
            "A9 B1 C3 D6 A7 B9 CA",
            PAIR_OFFSET + (2197 * 9) + (169 * 10) + (13 * 7) + 6,
        ),
        (
            "A9 B1 C3 D3 A7 B9 CA",
            TWO_PAIR_OFFSET + (169 * 9) + (13 * 3) + 10,
        ),
        (
            "A0 BB CB D6 A7 BB CA",
            THREE_OFFSET + (169 * 11) + (13 * 10) + 7,
        ),
        ("AC B1 C2 D3 A4 B5 CA", STRAIGHT_OFFSET + 5),
        (
            "A0 B1 B3 B6 B7 B0 CA",
            FLUSH_OFFSET + (28561 * 7) + (2197 * 6) + (169 * 3) + (13 * 1) + 0,
        ),
        ("A0 B0 C0 D6 A7 B9 C9", FULL_HOUSE_OFFSET + (13 * 0) + 9),
        ("A0 B1 C6 D6 A7 A6 B6", FOUR_OFFSET + (13 * 6) + 7),
        ("BB B1 C6 C7 C8 C9 CA", STRAIGHT_FLUSH_OFFSET + 10),
        // Special cases
        ("AC C0 A1 D2 A3 CA B1", STRAIGHT_OFFSET + 3), // also called bicycle or wheel
    ];
    test_cases
        .iter()
        .for_each(|tuple| test_combination(tuple.0, tuple.1));
}

/// Testing failure of illegal cards.
#[test]
fn test_invalid_cards() {
    let test_cases = vec!["A23", "A", "AD", "12", "  "];
    for case in test_cases {
        assert!(
            Card::try_from(case).is_err(),
            "Failed: {}. Expected Error",
            case
        );
    }
}

/// Each parse failure names what went wrong.
#[test]
fn test_invalid_card_reasons() {
    assert_eq!(Card::try_from("A23"), Err(CardParseError::Length));
    assert_eq!(Card::try_from(""), Err(CardParseError::Length));
    assert_eq!(Card::try_from("E3"), Err(CardParseError::Suit));
    assert_eq!(Card::try_from("AD"), Err(CardParseError::Rank));
}

/// For every value in [0, 52) the (suit, rank) pair rebuilds the value.
#[test]
fn test_card_value_round_trip() {
    for v in 0u8..52 {
        let c = Card { value: v };
        let rebuilt = Card::from((c.color(), c.value()));
        assert_eq!(rebuilt.value, v);
    }
}

/// Parsing is inverse to the token form for all 52 cards.
#[test]
fn test_card_token_round_trip() {
    for v in 0u8..52 {
        let c = Card { value: v };
        let token = c.token();
        let parsed = Card::try_from(token.as_str()).unwrap();
        assert_eq!(parsed, c, "token {} of card {}", token, v);
    }
}

/// A few display forms, rank name then suit glyph.
#[test]
fn test_card_display() {
    assert_eq!(Card { value: 0 }.display_string(), "2♣︎");
    assert_eq!(Card { value: 12 }.display_string(), "A♣︎");
    assert_eq!(Card { value: 13 }.display_string(), "2♦︎");
    assert_eq!(Card { value: 34 }.display_string(), "10♥︎");
    assert_eq!(Card { value: 51 }.display_string(), "A♠︎");
}

/// A wheel in one suit is a straight flush with high rank 3.
#[test]
fn test_steel_wheel_straight_flush() {
    test_combination("BC B0 B1 B2 B3 CA D5", STRAIGHT_FLUSH_OFFSET + 3);
}

/// A hand of a higher category always values above every hand of a lower
/// one: each category's values start at its offset.
#[test]
fn test_category_ordering_examples() {
    let mut pair = vec![
        (0u8, 9u8),
        (1, 1),
        (2, 3),
        (3, 6),
        (0, 7),
        (1, 9),
        (2, 10),
    ];
    let mut flush = vec![
        (1u8, 0u8),
        (1, 1),
        (1, 3),
        (1, 6),
        (1, 7),
        (0, 0),
        (2, 10),
    ];
    let pair_value = value_of_hand(&mut pair);
    let flush_value = value_of_hand(&mut flush);
    assert!(pair_value < TWO_PAIR_OFFSET);
    assert!(FLUSH_OFFSET <= flush_value);
    assert!(pair_value < flush_value);
}
