//! The wire messages and their JSON codec.
//!
//! A message travels as a JSON object. The library converts between
//! `RawMessage` and `Json`, a plain model of the JSON values the protocol
//! uses; turning `Json` into JSON text and back is the transport's job.
//! `spec_decode` says exactly what decoding returns for every JSON value,
//! and `lemma_codec_round_trip` shows that decoding an encoded message
//! gives the message back.

use vstd::prelude::*;
use crate::cards::Card;

verus! {

/// A JSON value as the codec reads and writes it: null, booleans,
/// integers split by sign, strings, arrays and objects.
#[derive(Debug)]
pub enum Json {
    Null,
    Bool(bool),
    /// A non-negative number.
    UInt(u64),
    /// A negative number.
    Int(i64),
    Str(String),
    Arr(Vec<Json>),
    Obj(Vec<(String, Json)>),
}

/// An enumeration type for representing the types of messages.
#[derive(Debug, PartialEq)]
pub enum RawMessage {
    SetDisplayName(String),
    IsReady,
    Heartbeat,
    PlayerChoice(PlayerChoice),
    ConnectionEnded,
    AwaitingPlayer,
    GameStatus {
        personal_cards: (Card, Card),
        personal_id: usize,
        middle_cards: Vec<Card>,
        player_names: Vec<String>,
        player_cards: Vec<Option<(Card, Card)>>,
        player_betting_amount: Vec<usize>,
        player_money: Vec<usize>,
        player_has_folded: Vec<bool>,
        player_is_out: Vec<bool>,
        round_number: usize,
        is_started: bool,
        hand_winner: i8,
        is_showdown: bool,
    },
    GameEnd(Option<usize>),
}

/// An enumeration type for representing the choices of the player during a
/// poker round.
#[derive(Debug, Eq, PartialEq, Clone)]
pub enum PlayerChoice {
    RaiseTo(usize),
    Fold,
    Pass,
}

/// Why a JSON value failed to decode into a `RawMessage`.
#[derive(Clone, Copy, Debug, Eq, PartialEq, Structural)]
pub enum DecodeError {
    /// The value is not an object of one of the known message shapes.
    Malformed,
}

/// The mathematical shape of a message: `RawMessage` with every string
/// read as its character sequence and every list as a sequence.
#[verifier::ext_equal]
pub enum SpecMessage {
    SetDisplayName(Seq<char>),
    IsReady,
    Heartbeat,
    PlayerChoice(PlayerChoice),
    ConnectionEnded,
    AwaitingPlayer,
    GameStatus {
        personal_cards: (Card, Card),
        personal_id: usize,
        middle_cards: Seq<Card>,
        player_names: Seq<Seq<char>>,
        player_cards: Seq<Option<(Card, Card)>>,
        player_betting_amount: Seq<usize>,
        player_money: Seq<usize>,
        player_has_folded: Seq<bool>,
        player_is_out: Seq<bool>,
        round_number: usize,
        is_started: bool,
        hand_winner: i8,
        is_showdown: bool,
    },
    GameEnd(Option<usize>),
}

impl View for RawMessage {
    type V = SpecMessage;

    open spec fn view(&self) -> SpecMessage {
        match self {
            RawMessage::SetDisplayName(s) => SpecMessage::SetDisplayName(s@),
            RawMessage::IsReady => SpecMessage::IsReady,
            RawMessage::Heartbeat => SpecMessage::Heartbeat,
            RawMessage::PlayerChoice(c) => SpecMessage::PlayerChoice(*c),
            RawMessage::ConnectionEnded => SpecMessage::ConnectionEnded,
            RawMessage::AwaitingPlayer => SpecMessage::AwaitingPlayer,
            RawMessage::GameStatus {
                personal_cards,
                personal_id,
                middle_cards,
                player_names,
                player_cards,
                player_betting_amount,
                player_money,
                player_has_folded,
                player_is_out,
                round_number,
                is_started,
                hand_winner,
                is_showdown,
            } => SpecMessage::GameStatus {
                personal_cards: *personal_cards,
                personal_id: *personal_id,
                middle_cards: middle_cards@,
                player_names: Seq::new(player_names@.len(), |i: int| player_names@[i]@),
                player_cards: player_cards@,
                player_betting_amount: player_betting_amount@,
                player_money: player_money@,
                player_has_folded: player_has_folded@,
                player_is_out: player_is_out@,
                round_number: *round_number,
                is_started: *is_started,
                hand_winner: *hand_winner,
                is_showdown: *is_showdown,
            },
            RawMessage::GameEnd(w) => SpecMessage::GameEnd(*w),
        }
    }
}

/// The first value stored under `key`, searching the object's pairs in
/// order.
pub open spec fn obj_lookup(pairs: Seq<(String, Json)>, key: Seq<char>) -> Option<Json>
    decreases pairs.len(),
{
    if pairs.len() == 0 {
        None
    } else if pairs.first().0@ == key {
        Some(pairs.first().1)
    } else {
        obj_lookup(pairs.drop_first(), key)
    }
}

/// The card a wire number denotes: its low byte, as the transport has
/// always truncated.
pub open spec fn card_of(n: u64) -> Card {
    Card { value: (n % 256) as u8 }
}

/// The cards of a wire array: every element must be a non-negative
/// number.
pub open spec fn spec_cards_of(items: Seq<Json>) -> Option<Seq<Card>>
    decreases items.len(),
{
    if items.len() == 0 {
        Some(Seq::empty())
    } else {
        match items.first() {
            Json::UInt(n) => match spec_cards_of(items.drop_first()) {
                Some(rest) => Some(seq![card_of(n)] + rest),
                None => None,
            },
            _ => None,
        }
    }
}

/// The machine words of a wire array: non-negative numbers that fit.
pub open spec fn spec_usizes_of(items: Seq<Json>) -> Option<Seq<usize>>
    decreases items.len(),
{
    if items.len() == 0 {
        Some(Seq::empty())
    } else {
        match items.first() {
            Json::UInt(n) => if n <= usize::MAX {
                match spec_usizes_of(items.drop_first()) {
                    Some(rest) => Some(seq![n as usize] + rest),
                    None => None,
                }
            } else {
                None
            },
            _ => None,
        }
    }
}

/// The booleans of a wire array.
pub open spec fn spec_bools_of(items: Seq<Json>) -> Option<Seq<bool>>
    decreases items.len(),
{
    if items.len() == 0 {
        Some(Seq::empty())
    } else {
        match items.first() {
            Json::Bool(b) => match spec_bools_of(items.drop_first()) {
                Some(rest) => Some(seq![b] + rest),
                None => None,
            },
            _ => None,
        }
    }
}

/// The strings of a wire array, as character sequences.
pub open spec fn spec_strings_of(items: Seq<Json>) -> Option<Seq<Seq<char>>>
    decreases items.len(),
{
    if items.len() == 0 {
        Some(Seq::empty())
    } else {
        match items.first() {
            Json::Str(s) => match spec_strings_of(items.drop_first()) {
                Some(rest) => Some(seq![s@] + rest),
                None => None,
            },
            _ => None,
        }
    }
}

/// A pair of hole cards on the wire: an array of exactly two numbers.
pub open spec fn spec_card_pair_of(j: Json) -> Option<(Card, Card)> {
    match j {
        Json::Arr(v) => if v@.len() == 2 {
            match (v@[0], v@[1]) {
                (Json::UInt(a), Json::UInt(b)) => Some((card_of(a), card_of(b))),
                _ => None,
            }
        } else {
            None
        },
        _ => None,
    }
}

/// The revealed hole cards of a wire array: null for a hidden seat, a
/// two-card array for a revealed one.
pub open spec fn spec_opt_pairs_of(items: Seq<Json>) -> Option<Seq<Option<(Card, Card)>>>
    decreases items.len(),
{
    if items.len() == 0 {
        Some(Seq::empty())
    } else {
        let head = match items.first() {
            Json::Null => Some(None::<(Card, Card)>),
            other => match spec_card_pair_of(other) {
                Some(p) => Some(Some(p)),
                None => None,
            },
        };
        match head {
            Some(h) => match spec_opt_pairs_of(items.drop_first()) {
                Some(rest) => Some(seq![h] + rest),
                None => None,
            },
            None => None,
        }
    }
}

/// A machine word on the wire.
pub open spec fn spec_usize_of(j: Option<Json>) -> Option<usize> {
    match j {
        Some(Json::UInt(n)) => if n <= usize::MAX {
            Some(n as usize)
        } else {
            None
        },
        _ => None,
    }
}

/// A boolean on the wire.
pub open spec fn spec_bool_of(j: Option<Json>) -> Option<bool> {
    match j {
        Some(Json::Bool(b)) => Some(b),
        _ => None,
    }
}

/// A signed byte on the wire: a small number of either sign.
pub open spec fn spec_i8_of(j: Option<Json>) -> Option<i8> {
    match j {
        Some(Json::UInt(n)) => if n <= 127 {
            Some(n as i8)
        } else {
            None
        },
        Some(Json::Int(n)) => if -128 <= n && n <= 127 {
            Some(n as i8)
        } else {
            None
        },
        _ => None,
    }
}

/// What decoding a `game_state` object yields.
pub open spec fn spec_decode_game_state(pairs: Seq<(String, Json)>) -> Result<
    SpecMessage,
    DecodeError,
> {
    match spec_card_pair_of_opt(obj_lookup(pairs, "personal_cards"@)) {
        None => Err(DecodeError::Malformed),
        Some(personal_cards) => match spec_usize_of(obj_lookup(pairs, "personal_id"@)) {
            None => Err(DecodeError::Malformed),
            Some(personal_id) => match spec_arr_of(obj_lookup(pairs, "middle_cards"@)) {
                None => Err(DecodeError::Malformed),
                Some(mc) => match spec_cards_of(mc) {
                    None => Err(DecodeError::Malformed),
                    Some(middle_cards) => match spec_arr_of(obj_lookup(pairs, "player_names"@)) {
                        None => Err(DecodeError::Malformed),
                        Some(pn) => match spec_strings_of(pn) {
                            None => Err(DecodeError::Malformed),
                            Some(player_names) => match spec_arr_of(
                                obj_lookup(pairs, "player_cards"@),
                            ) {
                                None => Err(DecodeError::Malformed),
                                Some(pcj) => match spec_opt_pairs_of(pcj) {
                                    None => Err(DecodeError::Malformed),
                                    Some(player_cards) => match spec_arr_of(
                                        obj_lookup(pairs, "player_betting_amount"@),
                                    ) {
                                        None => Err(DecodeError::Malformed),
                                        Some(pba) => match spec_usizes_of(pba) {
                                            None => Err(DecodeError::Malformed),
                                            Some(player_betting_amount) => match spec_arr_of(
                                                obj_lookup(pairs, "player_money"@),
                                            ) {
                                                None => Err(DecodeError::Malformed),
                                                Some(pm) => match spec_usizes_of(pm) {
                                                    None => Err(DecodeError::Malformed),
                                                    Some(player_money) => {
                                                        spec_decode_game_state_rest(
                                                            pairs,
                                                            personal_cards,
                                                            personal_id,
                                                            middle_cards,
                                                            player_names,
                                                            player_cards,
                                                            player_betting_amount,
                                                            player_money,
                                                        )
                                                    },
                                                },
                                            },
                                        },
                                    },
                                },
                            },
                        },
                    },
                },
            },
        },
    }
}

/// The flag and counter fields of a `game_state` object, joined with the
/// already-decoded list fields.
pub open spec fn spec_decode_game_state_rest(
    pairs: Seq<(String, Json)>,
    personal_cards: (Card, Card),
    personal_id: usize,
    middle_cards: Seq<Card>,
    player_names: Seq<Seq<char>>,
    player_cards: Seq<Option<(Card, Card)>>,
    player_betting_amount: Seq<usize>,
    player_money: Seq<usize>,
) -> Result<SpecMessage, DecodeError> {
    match spec_arr_of(obj_lookup(pairs, "player_has_folded"@)) {
        None => Err(DecodeError::Malformed),
        Some(phf) => match spec_bools_of(phf) {
            None => Err(DecodeError::Malformed),
            Some(player_has_folded) => match spec_arr_of(obj_lookup(pairs, "player_is_out"@)) {
                None => Err(DecodeError::Malformed),
                Some(pio) => match spec_bools_of(pio) {
                    None => Err(DecodeError::Malformed),
                    Some(player_is_out) => match spec_usize_of(
                        obj_lookup(pairs, "round_number"@),
                    ) {
                        None => Err(DecodeError::Malformed),
                        Some(round_number) => match spec_bool_of(
                            obj_lookup(pairs, "is_started"@),
                        ) {
                            None => Err(DecodeError::Malformed),
                            Some(is_started) => match spec_i8_of(
                                obj_lookup(pairs, "hand_winner"@),
                            ) {
                                None => Err(DecodeError::Malformed),
                                Some(hand_winner) => match spec_bool_of(
                                    obj_lookup(pairs, "is_showdown"@),
                                ) {
                                    None => Err(DecodeError::Malformed),
                                    Some(is_showdown) => Ok(
                                        SpecMessage::GameStatus {
                                            personal_cards,
                                            personal_id,
                                            middle_cards,
                                            player_names,
                                            player_cards,
                                            player_betting_amount,
                                            player_money,
                                            player_has_folded,
                                            player_is_out,
                                            round_number,
                                            is_started,
                                            hand_winner,
                                            is_showdown,
                                        },
                                    ),
                                },
                            },
                        },
                    },
                },
            },
        },
    }
}

/// The element list of a wire array.
pub open spec fn spec_arr_of(j: Option<Json>) -> Option<Seq<Json>> {
    match j {
        Some(Json::Arr(v)) => Some(v@),
        _ => None,
    }
}

/// A present pair of hole cards on the wire.
pub open spec fn spec_card_pair_of_opt(j: Option<Json>) -> Option<(Card, Card)> {
    match j {
        Some(v) => spec_card_pair_of(v),
        None => None,
    }
}

/// What decoding a `response` object yields.
pub open spec fn spec_decode_response(pairs: Seq<(String, Json)>) -> Result<
    SpecMessage,
    DecodeError,
> {
    match obj_lookup(pairs, "action"@) {
        Some(Json::Str(a)) => if a@ == "raise_to"@ {
            match spec_usize_of(obj_lookup(pairs, "amount"@)) {
                Some(n) => Ok(SpecMessage::PlayerChoice(PlayerChoice::RaiseTo(n))),
                None => Err(DecodeError::Malformed),
            }
        } else if a@ == "fold"@ {
            Ok(SpecMessage::PlayerChoice(PlayerChoice::Fold))
        } else if a@ == "pass"@ {
            Ok(SpecMessage::PlayerChoice(PlayerChoice::Pass))
        } else {
            Err(DecodeError::Malformed)
        },
        _ => Err(DecodeError::Malformed),
    }
}

/// What decoding a `game_end` object yields: a missing or null winner is
/// no winner.
pub open spec fn spec_decode_game_end(pairs: Seq<(String, Json)>) -> Result<
    SpecMessage,
    DecodeError,
> {
    match obj_lookup(pairs, "winner"@) {
        None => Ok(SpecMessage::GameEnd(None)),
        Some(Json::Null) => Ok(SpecMessage::GameEnd(None)),
        Some(Json::UInt(n)) => if n <= usize::MAX {
            Ok(SpecMessage::GameEnd(Some(n as usize)))
        } else {
            Err(DecodeError::Malformed)
        },
        _ => Err(DecodeError::Malformed),
    }
}

/// What decoding an object of known type yields.
pub open spec fn spec_decode_typed(t: Seq<char>, pairs: Seq<(String, Json)>) -> Result<
    SpecMessage,
    DecodeError,
> {
    if t == "is_ready"@ {
        Ok(SpecMessage::IsReady)
    } else if t == "heartbeat"@ {
        Ok(SpecMessage::Heartbeat)
    } else if t == "awaiting_player"@ {
        Ok(SpecMessage::AwaitingPlayer)
    } else if t == "game_end"@ {
        spec_decode_game_end(pairs)
    } else if t == "set_display_name"@ {
        match obj_lookup(pairs, "player_name"@) {
            Some(Json::Str(s)) => Ok(SpecMessage::SetDisplayName(s@)),
            _ => Err(DecodeError::Malformed),
        }
    } else if t == "connection_ended"@ {
        Ok(SpecMessage::ConnectionEnded)
    } else if t == "response"@ {
        spec_decode_response(pairs)
    } else if t == "game_state"@ {
        spec_decode_game_state(pairs)
    } else {
        Err(DecodeError::Malformed)
    }
}

/// What decoding any JSON value yields: the message of a well-formed
/// object of one of the known shapes, and `Malformed` for every other
/// value.
pub open spec fn spec_decode(j: Json) -> Result<SpecMessage, DecodeError> {
    match j {
        Json::Obj(pairs) => match obj_lookup(pairs@, "type"@) {
            Some(Json::Str(t)) => spec_decode_typed(t@, pairs@),
            _ => Err(DecodeError::Malformed),
        },
        _ => Err(DecodeError::Malformed),
    }
}

/// The character sequences of a row of strings.
pub open spec fn views_of(ss: Seq<String>) -> Seq<Seq<char>> {
    Seq::new(ss.len(), |i: int| ss[i]@)
}

/// Whether a string holds exactly the given literal.
fn str_is(s: &String, lit: &str) -> (r: bool)
    ensures
        r == (s@ == lit@),
{
    let l = String::from_str(lit);
    *s == l
}

/// Finds the first value stored under `key` in an object's pairs.
fn obj_get<'a>(pairs: &'a Vec<(String, Json)>, key: &str) -> (r: Option<&'a Json>)
    ensures
        match obj_lookup(pairs@, key@) {
            Some(v) => r matches Some(rv) && *rv == v,
            None => r is None,
        },
{
    let n = pairs.len();
    proof {
        assert(pairs@.subrange(0, n as int) =~= pairs@);
    }
    let mut i: usize = 0;
    while i < n
        invariant
            i <= n,
            n == pairs@.len(),
            obj_lookup(pairs@, key@) == obj_lookup(pairs@.subrange(i as int, n as int), key@),
        decreases n - i,
    {
        proof {
            let suffix = pairs@.subrange(i as int, n as int);
            assert(suffix.first() == pairs@[i as int]);
            assert(suffix.drop_first() =~= pairs@.subrange(i as int + 1, n as int));
        }
        let pair = &pairs[i];
        if str_is(&pair.0, key) {
            return Some(&pair.1);
        }
        i += 1;
    }
    None
}

/// Reads a wire array of cards.
fn parse_cards(items: &Vec<Json>) -> (r: Option<Vec<Card>>)
    ensures
        match spec_cards_of(items@) {
            Some(s) => r matches Some(v) && v@ == s,
            None => r is None,
        },
{
    let n = items.len();
    proof {
        assert(items@.subrange(0, n as int) =~= items@);
        assert(Seq::<Card>::empty() + Seq::<Card>::empty() =~= Seq::<Card>::empty());
    }
    let mut out: Vec<Card> = Vec::new();
    let mut i: usize = 0;
    while i < n
        invariant
            i <= n,
            n == items@.len(),
            (match spec_cards_of(items@.subrange(i as int, n as int)) {
                Some(s) => spec_cards_of(items@) == Some(out@ + s),
                None => spec_cards_of(items@) is None,
            }),
        decreases n - i,
    {
        proof {
            let suffix = items@.subrange(i as int, n as int);
            assert(suffix.first() == items@[i as int]);
            assert(suffix.drop_first() =~= items@.subrange(i as int + 1, n as int));
        }
        let ghost out_pre = out@;
        match &items[i] {
            Json::UInt(nv) => {
                out.push(Card { value: (*nv % 256) as u8 });
                proof {
                    let nvv = *nv;
                    assert forall|rest: Seq<Card>| true implies out_pre + (seq![
                        card_of(nvv),
                    ] + rest) =~= out@ + rest by {}
                }
            },
            _ => {
                return None;
            },
        }
        i += 1;
    }
    proof {
        assert(out@ + Seq::<Card>::empty() =~= out@);
    }
    Some(out)
}

/// Reads a wire array of machine words.
fn parse_usizes(items: &Vec<Json>) -> (r: Option<Vec<usize>>)
    ensures
        match spec_usizes_of(items@) {
            Some(s) => r matches Some(v) && v@ == s,
            None => r is None,
        },
{
    let n = items.len();
    proof {
        assert(items@.subrange(0, n as int) =~= items@);
    }
    let mut out: Vec<usize> = Vec::new();
    let mut i: usize = 0;
    while i < n
        invariant
            i <= n,
            n == items@.len(),
            (match spec_usizes_of(items@.subrange(i as int, n as int)) {
                Some(s) => spec_usizes_of(items@) == Some(out@ + s),
                None => spec_usizes_of(items@) is None,
            }),
        decreases n - i,
    {
        proof {
            let suffix = items@.subrange(i as int, n as int);
            assert(suffix.first() == items@[i as int]);
            assert(suffix.drop_first() =~= items@.subrange(i as int + 1, n as int));
        }
        let ghost out_pre = out@;
        match &items[i] {
            Json::UInt(nv) => {
                if *nv <= usize::MAX as u64 {
                    out.push(*nv as usize);
                    proof {
                        let nvv = *nv;
                        assert forall|rest: Seq<usize>| true implies out_pre + (seq![
                            nvv as usize,
                        ] + rest) =~= out@ + rest by {}
                    }
                } else {
                    return None;
                }
            },
            _ => {
                return None;
            },
        }
        i += 1;
    }
    proof {
        assert(out@ + Seq::<usize>::empty() =~= out@);
    }
    Some(out)
}

/// Reads a wire array of booleans.
fn parse_bools(items: &Vec<Json>) -> (r: Option<Vec<bool>>)
    ensures
        match spec_bools_of(items@) {
            Some(s) => r matches Some(v) && v@ == s,
            None => r is None,
        },
{
    let n = items.len();
    proof {
        assert(items@.subrange(0, n as int) =~= items@);
    }
    let mut out: Vec<bool> = Vec::new();
    let mut i: usize = 0;
    while i < n
        invariant
            i <= n,
            n == items@.len(),
            (match spec_bools_of(items@.subrange(i as int, n as int)) {
                Some(s) => spec_bools_of(items@) == Some(out@ + s),
                None => spec_bools_of(items@) is None,
            }),
        decreases n - i,
    {
        proof {
            let suffix = items@.subrange(i as int, n as int);
            assert(suffix.first() == items@[i as int]);
            assert(suffix.drop_first() =~= items@.subrange(i as int + 1, n as int));
        }
        let ghost out_pre = out@;
        match &items[i] {
            Json::Bool(b) => {
                out.push(*b);
                proof {
                    let bv = *b;
                    assert forall|rest: Seq<bool>| true implies out_pre + (seq![bv] + rest)
                        =~= out@ + rest by {}
                }
            },
            _ => {
                return None;
            },
        }
        i += 1;
    }
    proof {
        assert(out@ + Seq::<bool>::empty() =~= out@);
    }
    Some(out)
}

/// Reads a wire array of strings.
fn parse_strings(items: &Vec<Json>) -> (r: Option<Vec<String>>)
    ensures
        match spec_strings_of(items@) {
            Some(s) => r matches Some(v) && views_of(v@) == s,
            None => r is None,
        },
{
    let n = items.len();
    proof {
        assert(items@.subrange(0, n as int) =~= items@);
    }
    let mut out: Vec<String> = Vec::new();
    let mut i: usize = 0;
    while i < n
        invariant
            i <= n,
            n == items@.len(),
            (match spec_strings_of(items@.subrange(i as int, n as int)) {
                Some(s) => spec_strings_of(items@) == Some(views_of(out@) + s),
                None => spec_strings_of(items@) is None,
            }),
        decreases n - i,
    {
        proof {
            let suffix = items@.subrange(i as int, n as int);
            assert(suffix.first() == items@[i as int]);
            assert(suffix.drop_first() =~= items@.subrange(i as int + 1, n as int));
        }
        let ghost out_pre = out@;
        match &items[i] {
            Json::Str(s) => {
                out.push(s.clone());
                proof {
                    assert(views_of(out@) =~= views_of(out_pre).push(s@));
                    assert forall|rest: Seq<Seq<char>>| true implies views_of(out_pre) + (seq![
                        s@,
                    ] + rest) =~= views_of(out@) + rest by {}
                }
            },
            _ => {
                return None;
            },
        }
        i += 1;
    }
    proof {
        assert(views_of(out@) + Seq::<Seq<char>>::empty() =~= views_of(out@));
    }
    Some(out)
}

/// Reads a pair of hole cards off the wire.
fn parse_card_pair(j: &Json) -> (r: Option<(Card, Card)>)
    ensures
        r == spec_card_pair_of(*j),
{
    match j {
        Json::Arr(v) => {
            if v.len() == 2 {
                let a: u64 = match &v[0] {
                    Json::UInt(a) => *a,
                    _ => {
                        return None;
                    },
                };
                let b: u64 = match &v[1] {
                    Json::UInt(b) => *b,
                    _ => {
                        return None;
                    },
                };
                Some((Card { value: (a % 256) as u8 }, Card { value: (b % 256) as u8 }))
            } else {
                None
            }
        },
        _ => None,
    }
}

/// Reads a wire array of revealed-or-hidden hole card pairs.
fn parse_opt_pairs(items: &Vec<Json>) -> (r: Option<Vec<Option<(Card, Card)>>>)
    ensures
        match spec_opt_pairs_of(items@) {
            Some(s) => r matches Some(v) && v@ == s,
            None => r is None,
        },
{
    let n = items.len();
    proof {
        assert(items@.subrange(0, n as int) =~= items@);
    }
    let mut out: Vec<Option<(Card, Card)>> = Vec::new();
    let mut i: usize = 0;
    while i < n
        invariant
            i <= n,
            n == items@.len(),
            (match spec_opt_pairs_of(items@.subrange(i as int, n as int)) {
                Some(s) => spec_opt_pairs_of(items@) == Some(out@ + s),
                None => spec_opt_pairs_of(items@) is None,
            }),
        decreases n - i,
    {
        proof {
            let suffix = items@.subrange(i as int, n as int);
            assert(suffix.first() == items@[i as int]);
            assert(suffix.drop_first() =~= items@.subrange(i as int + 1, n as int));
        }
        let ghost out_pre = out@;
        let entry: Option<(Card, Card)> = match &items[i] {
            Json::Null => None,
            other => match parse_card_pair(other) {
                Some(p) => Some(p),
                None => {
                    return None;
                },
            },
        };
        out.push(entry);
        proof {
            let e = entry;
            assert forall|rest: Seq<Option<(Card, Card)>>| true implies out_pre + (seq![e]
                + rest) =~= out@ + rest by {}
        }
        i += 1;
    }
    proof {
        assert(out@ + Seq::<Option<(Card, Card)>>::empty() =~= out@);
    }
    Some(out)
}

/// Reads the `game_state` fields of an object.
fn decode_game_state(pairs: &Vec<(String, Json)>) -> (r: Result<RawMessage, DecodeError>)
    ensures
        match spec_decode_game_state(pairs@) {
            Ok(sm) => r matches Ok(m) && m@ == sm,
            Err(e) => r == Err::<RawMessage, DecodeError>(e),
        },
{
    let personal_cards = match obj_get(pairs, "personal_cards") {
        Some(v) => match parse_card_pair(v) {
            Some(p) => p,
            None => {
                return Err(DecodeError::Malformed);
            },
        },
        None => {
            return Err(DecodeError::Malformed);
        },
    };
    let personal_id = match obj_get(pairs, "personal_id") {
        Some(Json::UInt(n)) => {
            if *n <= usize::MAX as u64 {
                *n as usize
            } else {
                return Err(DecodeError::Malformed);
            }
        },
        _ => {
            return Err(DecodeError::Malformed);
        },
    };
    let middle_cards = match obj_get(pairs, "middle_cards") {
        Some(Json::Arr(v)) => match parse_cards(v) {
            Some(cs) => cs,
            None => {
                return Err(DecodeError::Malformed);
            },
        },
        _ => {
            return Err(DecodeError::Malformed);
        },
    };
    let player_names = match obj_get(pairs, "player_names") {
        Some(Json::Arr(v)) => match parse_strings(v) {
            Some(ss) => ss,
            None => {
                return Err(DecodeError::Malformed);
            },
        },
        _ => {
            return Err(DecodeError::Malformed);
        },
    };
    let player_cards = match obj_get(pairs, "player_cards") {
        Some(Json::Arr(v)) => match parse_opt_pairs(v) {
            Some(ps) => ps,
            None => {
                return Err(DecodeError::Malformed);
            },
        },
        _ => {
            return Err(DecodeError::Malformed);
        },
    };
    let player_betting_amount = match obj_get(pairs, "player_betting_amount") {
        Some(Json::Arr(v)) => match parse_usizes(v) {
            Some(xs) => xs,
            None => {
                return Err(DecodeError::Malformed);
            },
        },
        _ => {
            return Err(DecodeError::Malformed);
        },
    };
    let player_money = match obj_get(pairs, "player_money") {
        Some(Json::Arr(v)) => match parse_usizes(v) {
            Some(xs) => xs,
            None => {
                return Err(DecodeError::Malformed);
            },
        },
        _ => {
            return Err(DecodeError::Malformed);
        },
    };
    let player_has_folded = match obj_get(pairs, "player_has_folded") {
        Some(Json::Arr(v)) => match parse_bools(v) {
            Some(bs) => bs,
            None => {
                return Err(DecodeError::Malformed);
            },
        },
        _ => {
            return Err(DecodeError::Malformed);
        },
    };
    let player_is_out = match obj_get(pairs, "player_is_out") {
        Some(Json::Arr(v)) => match parse_bools(v) {
            Some(bs) => bs,
            None => {
                return Err(DecodeError::Malformed);
            },
        },
        _ => {
            return Err(DecodeError::Malformed);
        },
    };
    let round_number = match obj_get(pairs, "round_number") {
        Some(Json::UInt(n)) => {
            if *n <= usize::MAX as u64 {
                *n as usize
            } else {
                return Err(DecodeError::Malformed);
            }
        },
        _ => {
            return Err(DecodeError::Malformed);
        },
    };
    let is_started = match obj_get(pairs, "is_started") {
        Some(Json::Bool(b)) => *b,
        _ => {
            return Err(DecodeError::Malformed);
        },
    };
    let hand_winner: i8 = match obj_get(pairs, "hand_winner") {
        Some(Json::UInt(n)) => {
            if *n <= 127 {
                *n as i8
            } else {
                return Err(DecodeError::Malformed);
            }
        },
        Some(Json::Int(n)) => {
            if -128 <= *n && *n <= 127 {
                *n as i8
            } else {
                return Err(DecodeError::Malformed);
            }
        },
        _ => {
            return Err(DecodeError::Malformed);
        },
    };
    let is_showdown = match obj_get(pairs, "is_showdown") {
        Some(Json::Bool(b)) => *b,
        _ => {
            return Err(DecodeError::Malformed);
        },
    };
    let m = RawMessage::GameStatus {
        personal_cards,
        personal_id,
        middle_cards,
        player_names,
        player_cards,
        player_betting_amount,
        player_money,
        player_has_folded,
        player_is_out,
        round_number,
        is_started,
        hand_winner,
        is_showdown,
    };
    proof {
        match spec_decode_game_state(pairs@) {
            Ok(sm) => {
                assert(m@ =~= sm);
            },
            Err(_) => {},
        }
    }
    Ok(m)
}

/// Creates a `RawMessage` from a JSON value, following `spec_decode`
/// exactly: every malformed value is rejected.
pub fn decode_message(j: &Json) -> (r: Result<RawMessage, DecodeError>)
    ensures
        match spec_decode(*j) {
            Ok(sm) => r matches Ok(m) && m@ == sm,
            Err(e) => r == Err::<RawMessage, DecodeError>(e),
        },
{
    let pairs = match j {
        Json::Obj(pairs) => pairs,
        _ => {
            return Err(DecodeError::Malformed);
        },
    };
    let t = match obj_get(pairs, "type") {
        Some(Json::Str(t)) => t,
        _ => {
            return Err(DecodeError::Malformed);
        },
    };
    if str_is(t, "is_ready") {
        return Ok(RawMessage::IsReady);
    }
    if str_is(t, "heartbeat") {
        return Ok(RawMessage::Heartbeat);
    }
    if str_is(t, "awaiting_player") {
        return Ok(RawMessage::AwaitingPlayer);
    }
    if str_is(t, "game_end") {
        return match obj_get(pairs, "winner") {
            None => Ok(RawMessage::GameEnd(None)),
            Some(Json::Null) => Ok(RawMessage::GameEnd(None)),
            Some(Json::UInt(n)) => {
                if *n <= usize::MAX as u64 {
                    Ok(RawMessage::GameEnd(Some(*n as usize)))
                } else {
                    Err(DecodeError::Malformed)
                }
            },
            _ => Err(DecodeError::Malformed),
        };
    }
    if str_is(t, "set_display_name") {
        return match obj_get(pairs, "player_name") {
            Some(Json::Str(s)) => Ok(RawMessage::SetDisplayName(s.clone())),
            _ => Err(DecodeError::Malformed),
        };
    }
    if str_is(t, "connection_ended") {
        return Ok(RawMessage::ConnectionEnded);
    }
    if str_is(t, "response") {
        let a = match obj_get(pairs, "action") {
            Some(Json::Str(a)) => a,
            _ => {
                return Err(DecodeError::Malformed);
            },
        };
        if str_is(a, "raise_to") {
            return match obj_get(pairs, "amount") {
                Some(Json::UInt(n)) => {
                    if *n <= usize::MAX as u64 {
                        Ok(RawMessage::PlayerChoice(PlayerChoice::RaiseTo(*n as usize)))
                    } else {
                        Err(DecodeError::Malformed)
                    }
                },
                _ => Err(DecodeError::Malformed),
            };
        }
        if str_is(a, "fold") {
            return Ok(RawMessage::PlayerChoice(PlayerChoice::Fold));
        }
        if str_is(a, "pass") {
            return Ok(RawMessage::PlayerChoice(PlayerChoice::Pass));
        }
        return Err(DecodeError::Malformed);
    }
    if str_is(t, "game_state") {
        return decode_game_state(pairs);
    }
    Err(DecodeError::Malformed)
}

// ---------------------------------------------------------------------------
// Encoding. `json_of` pins down the exact JSON shape of every message;
// `encode_message` builds it, and `lemma_codec_round_trip` shows decoding
// gives the message back.
// ---------------------------------------------------------------------------

/// The pair holds the given key and the given string value.
pub open spec fn kv_str(p: (String, Json), k: Seq<char>, v: Seq<char>) -> bool {
    p.0@ == k && (p.1 matches Json::Str(s) && s@ == v)
}

/// The JSON array of a row of cards, each as its wire number.
pub open spec fn cards_json(cards: Seq<Card>, j: Json) -> bool {
    j matches Json::Arr(items) && items@.len() == cards.len() && forall|k: int|
        0 <= k < cards.len() ==> (#[trigger] items@[k]) == Json::UInt(cards[k].value as u64)
}

/// The JSON array of a row of machine words.
pub open spec fn usizes_json(xs: Seq<usize>, j: Json) -> bool {
    j matches Json::Arr(items) && items@.len() == xs.len() && forall|k: int|
        0 <= k < xs.len() ==> (#[trigger] items@[k]) == Json::UInt(xs[k] as u64)
}

/// The JSON array of a row of booleans.
pub open spec fn bools_json(xs: Seq<bool>, j: Json) -> bool {
    j matches Json::Arr(items) && items@.len() == xs.len() && forall|k: int|
        0 <= k < xs.len() ==> (#[trigger] items@[k]) == Json::Bool(xs[k])
}

/// The JSON array of a row of strings.
pub open spec fn strings_json(xs: Seq<Seq<char>>, j: Json) -> bool {
    j matches Json::Arr(items) && items@.len() == xs.len() && forall|k: int|
        0 <= k < xs.len() ==> ((#[trigger] items@[k]) matches Json::Str(s) && s@ == xs[k])
}

/// The JSON array of a pair of hole cards.
pub open spec fn pair_json(p: (Card, Card), j: Json) -> bool {
    j matches Json::Arr(v) && v@.len() == 2 && v@[0] == Json::UInt(p.0.value as u64) && v@[1]
        == Json::UInt(p.1.value as u64)
}

/// The JSON array of a row of revealed-or-hidden hole card pairs.
pub open spec fn opt_pairs_json(xs: Seq<Option<(Card, Card)>>, j: Json) -> bool {
    j matches Json::Arr(items) && items@.len() == xs.len() && forall|k: int|
        0 <= k < xs.len() ==> match xs[k] {
            None => (#[trigger] items@[k]) == Json::Null,
            Some(p) => pair_json(p, items@[k]),
        }
}

/// The exact JSON object that carries a message on the wire.
pub open spec fn json_of(m: SpecMessage, j: Json) -> bool {
    match m {
        SpecMessage::SetDisplayName(name) => j matches Json::Obj(pairs) && pairs@.len() == 2
            && kv_str(pairs@[0], "type"@, "set_display_name"@) && pairs@[1].0@ == "player_name"@
            && (pairs@[1].1 matches Json::Str(s) && s@ == name),
        SpecMessage::IsReady => j matches Json::Obj(pairs) && pairs@.len() == 1 && kv_str(
            pairs@[0],
            "type"@,
            "is_ready"@,
        ),
        SpecMessage::Heartbeat => j matches Json::Obj(pairs) && pairs@.len() == 1 && kv_str(
            pairs@[0],
            "type"@,
            "heartbeat"@,
        ),
        SpecMessage::PlayerChoice(c) => match c {
            PlayerChoice::RaiseTo(v) => j matches Json::Obj(pairs) && pairs@.len() == 3 && kv_str(
                pairs@[0],
                "type"@,
                "response"@,
            ) && kv_str(pairs@[1], "action"@, "raise_to"@) && pairs@[2].0@ == "amount"@
                && pairs@[2].1 == Json::UInt(v as u64),
            PlayerChoice::Fold => j matches Json::Obj(pairs) && pairs@.len() == 2 && kv_str(
                pairs@[0],
                "type"@,
                "response"@,
            ) && kv_str(pairs@[1], "action"@, "fold"@),
            PlayerChoice::Pass => j matches Json::Obj(pairs) && pairs@.len() == 2 && kv_str(
                pairs@[0],
                "type"@,
                "response"@,
            ) && kv_str(pairs@[1], "action"@, "pass"@),
        },
        SpecMessage::ConnectionEnded => j matches Json::Obj(pairs) && pairs@.len() == 1 && kv_str(
            pairs@[0],
            "type"@,
            "connection_ended"@,
        ),
        SpecMessage::AwaitingPlayer => j matches Json::Obj(pairs) && pairs@.len() == 1 && kv_str(
            pairs@[0],
            "type"@,
            "awaiting_player"@,
        ),
        SpecMessage::GameStatus {
            personal_cards,
            personal_id,
            middle_cards,
            player_names,
            player_cards,
            player_betting_amount,
            player_money,
            player_has_folded,
            player_is_out,
            round_number,
            is_started,
            hand_winner,
            is_showdown,
        } => j matches Json::Obj(pairs) && pairs@.len() == 14 && kv_str(
            pairs@[0],
            "type"@,
            "game_state"@,
        ) && pairs@[1].0@ == "personal_cards"@ && pair_json(personal_cards, pairs@[1].1)
            && pairs@[2].0@ == "personal_id"@ && pairs@[2].1 == Json::UInt(personal_id as u64)
            && pairs@[3].0@ == "middle_cards"@ && cards_json(middle_cards, pairs@[3].1)
            && pairs@[4].0@ == "player_names"@ && strings_json(player_names, pairs@[4].1)
            && pairs@[5].0@ == "player_cards"@ && opt_pairs_json(player_cards, pairs@[5].1)
            && pairs@[6].0@ == "player_betting_amount"@ && usizes_json(
            player_betting_amount,
            pairs@[6].1,
        ) && pairs@[7].0@ == "player_money"@ && usizes_json(player_money, pairs@[7].1)
            && pairs@[8].0@ == "player_has_folded"@ && bools_json(player_has_folded, pairs@[8].1)
            && pairs@[9].0@ == "player_is_out"@ && bools_json(player_is_out, pairs@[9].1)
            && pairs@[10].0@ == "round_number"@ && pairs@[10].1 == Json::UInt(round_number as u64)
            && pairs@[11].0@ == "is_started"@ && pairs@[11].1 == Json::Bool(is_started)
            && pairs@[12].0@ == "hand_winner"@ && pairs@[12].1 == (if hand_winner >= 0 {
            Json::UInt(hand_winner as u64)
        } else {
            Json::Int(hand_winner as i64)
        }) && pairs@[13].0@ == "is_showdown"@ && pairs@[13].1 == Json::Bool(is_showdown),
        SpecMessage::GameEnd(w) => j matches Json::Obj(pairs) && pairs@.len() == 2 && kv_str(
            pairs@[0],
            "type"@,
            "game_end"@,
        ) && pairs@[1].0@ == "winner"@ && pairs@[1].1 == (match w {
            None => Json::Null,
            Some(x) => Json::UInt(x as u64),
        }),
    }
}

/// Builds the wire array of a row of cards.
fn encode_cards(cards: &Vec<Card>) -> (r: Json)
    ensures
        cards_json(cards@, r),
{
    let n = cards.len();
    let mut items: Vec<Json> = Vec::new();
    let mut i: usize = 0;
    while i < n
        invariant
            i <= n,
            n == cards@.len(),
            items@.len() == i,
            forall|k: int|
                0 <= k < i ==> (#[trigger] items@[k]) == Json::UInt(cards@[k].value as u64),
        decreases n - i,
    {
        items.push(Json::UInt(cards[i].value as u64));
        i += 1;
    }
    Json::Arr(items)
}

/// Builds the wire array of a row of machine words.
fn encode_usizes(xs: &Vec<usize>) -> (r: Json)
    ensures
        usizes_json(xs@, r),
{
    let n = xs.len();
    let mut items: Vec<Json> = Vec::new();
    let mut i: usize = 0;
    while i < n
        invariant
            i <= n,
            n == xs@.len(),
            items@.len() == i,
            forall|k: int| 0 <= k < i ==> (#[trigger] items@[k]) == Json::UInt(xs@[k] as u64),
        decreases n - i,
    {
        items.push(Json::UInt(xs[i] as u64));
        i += 1;
    }
    Json::Arr(items)
}

/// Builds the wire array of a row of booleans.
fn encode_bools(xs: &Vec<bool>) -> (r: Json)
    ensures
        bools_json(xs@, r),
{
    let n = xs.len();
    let mut items: Vec<Json> = Vec::new();
    let mut i: usize = 0;
    while i < n
        invariant
            i <= n,
            n == xs@.len(),
            items@.len() == i,
            forall|k: int| 0 <= k < i ==> (#[trigger] items@[k]) == Json::Bool(xs@[k]),
        decreases n - i,
    {
        items.push(Json::Bool(xs[i]));
        i += 1;
    }
    Json::Arr(items)
}

/// Builds the wire array of a row of strings.
fn encode_strings(xs: &Vec<String>) -> (r: Json)
    ensures
        strings_json(views_of(xs@), r),
{
    let n = xs.len();
    let mut items: Vec<Json> = Vec::new();
    let mut i: usize = 0;
    while i < n
        invariant
            i <= n,
            n == xs@.len(),
            items@.len() == i,
            forall|k: int|
                0 <= k < i ==> ((#[trigger] items@[k]) matches Json::Str(s) && s@ == xs@[k]@),
        decreases n - i,
    {
        items.push(Json::Str(xs[i].clone()));
        i += 1;
    }
    Json::Arr(items)
}

/// Builds the wire array of a pair of hole cards.
fn encode_pair(p: (Card, Card)) -> (r: Json)
    ensures
        pair_json(p, r),
{
    let mut v: Vec<Json> = Vec::new();
    v.push(Json::UInt(p.0.value as u64));
    v.push(Json::UInt(p.1.value as u64));
    Json::Arr(v)
}

/// Builds the wire array of a row of revealed-or-hidden hole card pairs.
fn encode_opt_pairs(xs: &Vec<Option<(Card, Card)>>) -> (r: Json)
    ensures
        opt_pairs_json(xs@, r),
{
    let n = xs.len();
    let mut items: Vec<Json> = Vec::new();
    let mut i: usize = 0;
    while i < n
        invariant
            i <= n,
            n == xs@.len(),
            items@.len() == i,
            forall|k: int|
                0 <= k < i ==> match xs@[k] {
                    None => (#[trigger] items@[k]) == Json::Null,
                    Some(p) => pair_json(p, items@[k]),
                },
        decreases n - i,
    {
        let entry = match &xs[i] {
            None => Json::Null,
            Some(p) => encode_pair(*p),
        };
        items.push(entry);
        i += 1;
    }
    Json::Arr(items)
}

/// Builds the JSON object that carries a message, in the exact shape
/// `json_of` describes.
pub fn encode_message(m: &RawMessage) -> (r: Json)
    ensures
        json_of(m@, r),
{
    let mut pairs: Vec<(String, Json)> = Vec::new();
    match m {
        RawMessage::SetDisplayName(s) => {
            pairs.push((String::from_str("type"), Json::Str(String::from_str(
                "set_display_name",
            ))));
            pairs.push((String::from_str("player_name"), Json::Str(s.clone())));
            Json::Obj(pairs)
        },
        RawMessage::IsReady => {
            pairs.push((String::from_str("type"), Json::Str(String::from_str("is_ready"))));
            Json::Obj(pairs)
        },
        RawMessage::Heartbeat => {
            pairs.push((String::from_str("type"), Json::Str(String::from_str("heartbeat"))));
            Json::Obj(pairs)
        },
        RawMessage::PlayerChoice(c) => {
            pairs.push((String::from_str("type"), Json::Str(String::from_str("response"))));
            match c {
                PlayerChoice::RaiseTo(v) => {
                    pairs.push((String::from_str("action"), Json::Str(String::from_str(
                        "raise_to",
                    ))));
                    pairs.push((String::from_str("amount"), Json::UInt(*v as u64)));
                },
                PlayerChoice::Fold => {
                    pairs.push((String::from_str("action"), Json::Str(String::from_str("fold"))));
                },
                PlayerChoice::Pass => {
                    pairs.push((String::from_str("action"), Json::Str(String::from_str("pass"))));
                },
            }
            Json::Obj(pairs)
        },
        RawMessage::ConnectionEnded => {
            pairs.push((String::from_str("type"), Json::Str(String::from_str(
                "connection_ended",
            ))));
            Json::Obj(pairs)
        },
        RawMessage::AwaitingPlayer => {
            pairs.push((String::from_str("type"), Json::Str(String::from_str(
                "awaiting_player",
            ))));
            Json::Obj(pairs)
        },
        RawMessage::GameStatus {
            personal_cards,
            personal_id,
            middle_cards,
            player_names,
            player_cards,
            player_betting_amount,
            player_money,
            player_has_folded,
            player_is_out,
            round_number,
            is_started,
            hand_winner,
            is_showdown,
        } => {
            pairs.push((String::from_str("type"), Json::Str(String::from_str("game_state"))));
            pairs.push((String::from_str("personal_cards"), encode_pair(*personal_cards)));
            pairs.push((String::from_str("personal_id"), Json::UInt(*personal_id as u64)));
            pairs.push((String::from_str("middle_cards"), encode_cards(middle_cards)));
            pairs.push((String::from_str("player_names"), encode_strings(player_names)));
            pairs.push((String::from_str("player_cards"), encode_opt_pairs(player_cards)));
            pairs.push((String::from_str("player_betting_amount"), encode_usizes(
                player_betting_amount,
            )));
            pairs.push((String::from_str("player_money"), encode_usizes(player_money)));
            pairs.push((String::from_str("player_has_folded"), encode_bools(player_has_folded)));
            pairs.push((String::from_str("player_is_out"), encode_bools(player_is_out)));
            pairs.push((String::from_str("round_number"), Json::UInt(*round_number as u64)));
            pairs.push((String::from_str("is_started"), Json::Bool(*is_started)));
            let hw = *hand_winner;
            if hw >= 0 {
                pairs.push((String::from_str("hand_winner"), Json::UInt(hw as u64)));
            } else {
                pairs.push((String::from_str("hand_winner"), Json::Int(hw as i64)));
            }
            pairs.push((String::from_str("is_showdown"), Json::Bool(*is_showdown)));
            proof {
                assert(views_of(player_names@) =~= Seq::new(
                    player_names@.len(),
                    |i: int| player_names@[i]@,
                ));
            }
            Json::Obj(pairs)
        },
        RawMessage::GameEnd(w) => {
            pairs.push((String::from_str("type"), Json::Str(String::from_str("game_end"))));
            let winner = match w {
                Some(x) => Json::UInt(*x as u64),
                None => Json::Null,
            };
            pairs.push((String::from_str("winner"), winner));
            Json::Obj(pairs)
        },
    }
}

// ---------------------------------------------------------------------------
// The codec round trip.
// ---------------------------------------------------------------------------

/// Looking a key up in an object finds the entry at `i` when no earlier
/// entry holds that key.
proof fn lemma_obj_lookup_at(pairs: Seq<(String, Json)>, key: Seq<char>, i: int)
    requires
        0 <= i < pairs.len(),
        pairs[i].0@ == key,
        forall|j: int| 0 <= j < i ==> (#[trigger] pairs[j]).0@ != key,
    ensures
        obj_lookup(pairs, key) == Some(pairs[i].1),
    decreases i,
{
    assert(pairs.first() == pairs[0]);
    if i > 0 {
        let d = pairs.drop_first();
        assert forall|j: int| 0 <= j < i - 1 implies (#[trigger] d[j]).0@ != key by {
            assert(d[j] == pairs[j + 1]);
        }
        assert(d[i - 1] == pairs[i]);
        lemma_obj_lookup_at(d, key, i - 1);
    }
}

proof fn lemma_cards_inverse(cards: Seq<Card>, items: Seq<Json>)
    requires
        items.len() == cards.len(),
        forall|k: int|
            0 <= k < cards.len() ==> (#[trigger] items[k]) == Json::UInt(cards[k].value as u64),
    ensures
        spec_cards_of(items) == Some(cards),
    decreases items.len(),
{
    if items.len() == 0 {
        assert(cards =~= Seq::<Card>::empty());
    } else {
        assert(items.first() == items[0]);
        assert(card_of(cards[0].value as u64) == cards[0]);
        let dc = cards.drop_first();
        let di = items.drop_first();
        assert forall|k: int| 0 <= k < dc.len() implies (#[trigger] di[k]) == Json::UInt(
            dc[k].value as u64,
        ) by {
            assert(di[k] == items[k + 1]);
            assert(dc[k] == cards[k + 1]);
        }
        lemma_cards_inverse(dc, di);
        assert(seq![cards[0]] + dc =~= cards);
    }
}

proof fn lemma_usizes_inverse(xs: Seq<usize>, items: Seq<Json>)
    requires
        items.len() == xs.len(),
        forall|k: int| 0 <= k < xs.len() ==> (#[trigger] items[k]) == Json::UInt(xs[k] as u64),
    ensures
        spec_usizes_of(items) == Some(xs),
    decreases items.len(),
{
    if items.len() == 0 {
        assert(xs =~= Seq::<usize>::empty());
    } else {
        assert(items.first() == items[0]);
        let dx = xs.drop_first();
        let di = items.drop_first();
        assert forall|k: int| 0 <= k < dx.len() implies (#[trigger] di[k]) == Json::UInt(
            dx[k] as u64,
        ) by {
            assert(di[k] == items[k + 1]);
            assert(dx[k] == xs[k + 1]);
        }
        lemma_usizes_inverse(dx, di);
        assert(seq![xs[0]] + dx =~= xs);
    }
}

proof fn lemma_bools_inverse(xs: Seq<bool>, items: Seq<Json>)
    requires
        items.len() == xs.len(),
        forall|k: int| 0 <= k < xs.len() ==> (#[trigger] items[k]) == Json::Bool(xs[k]),
    ensures
        spec_bools_of(items) == Some(xs),
    decreases items.len(),
{
    if items.len() == 0 {
        assert(xs =~= Seq::<bool>::empty());
    } else {
        assert(items.first() == items[0]);
        let dx = xs.drop_first();
        let di = items.drop_first();
        assert forall|k: int| 0 <= k < dx.len() implies (#[trigger] di[k]) == Json::Bool(
            dx[k],
        ) by {
            assert(di[k] == items[k + 1]);
            assert(dx[k] == xs[k + 1]);
        }
        lemma_bools_inverse(dx, di);
        assert(seq![xs[0]] + dx =~= xs);
    }
}

proof fn lemma_strings_inverse(xs: Seq<Seq<char>>, items: Seq<Json>)
    requires
        items.len() == xs.len(),
        forall|k: int|
            0 <= k < xs.len() ==> ((#[trigger] items[k]) matches Json::Str(s) && s@ == xs[k]),
    ensures
        spec_strings_of(items) == Some(xs),
    decreases items.len(),
{
    if items.len() == 0 {
        assert(xs =~= Seq::<Seq<char>>::empty());
    } else {
        assert(items.first() == items[0]);
        let dx = xs.drop_first();
        let di = items.drop_first();
        assert forall|k: int| 0 <= k < dx.len() implies ((#[trigger] di[k]) matches Json::Str(s)
            && s@ == dx[k]) by {
            assert(di[k] == items[k + 1]);
            assert(dx[k] == xs[k + 1]);
        }
        lemma_strings_inverse(dx, di);
        assert(seq![xs[0]] + dx =~= xs);
    }
}

proof fn lemma_opt_pairs_inverse(xs: Seq<Option<(Card, Card)>>, items: Seq<Json>)
    requires
        items.len() == xs.len(),
        forall|k: int|
            0 <= k < xs.len() ==> match xs[k] {
                None => (#[trigger] items[k]) == Json::Null,
                Some(p) => pair_json(p, items[k]),
            },
    ensures
        spec_opt_pairs_of(items) == Some(xs),
    decreases items.len(),
{
    if items.len() == 0 {
        assert(xs =~= Seq::<Option<(Card, Card)>>::empty());
    } else {
        assert(items.first() == items[0]);
        match xs[0] {
            None => {},
            Some(p) => {
                assert(pair_json(p, items[0]));
                assert(card_of(p.0.value as u64) == p.0);
                assert(card_of(p.1.value as u64) == p.1);
                assert(spec_card_pair_of(items[0]) == Some(p));
            },
        }
        let dx = xs.drop_first();
        let di = items.drop_first();
        assert forall|k: int| 0 <= k < dx.len() implies match dx[k] {
            None => (#[trigger] di[k]) == Json::Null,
            Some(p) => pair_json(p, di[k]),
        } by {
            assert(di[k] == items[k + 1]);
            assert(dx[k] == xs[k + 1]);
        }
        lemma_opt_pairs_inverse(dx, di);
        assert(seq![xs[0]] + dx =~= xs);
    }
}

/// Decoding an encoded message gives the message back: for every message
/// and every JSON value of its wire shape, decoding returns exactly the
/// message.
pub proof fn lemma_codec_round_trip(m: SpecMessage, j: Json)
    requires
        json_of(m, j),
    ensures
        spec_decode(j) == Ok::<SpecMessage, DecodeError>(m),
{
    reveal_strlit("type");
    reveal_strlit("is_ready");
    reveal_strlit("heartbeat");
    reveal_strlit("awaiting_player");
    reveal_strlit("game_end");
    reveal_strlit("set_display_name");
    reveal_strlit("connection_ended");
    reveal_strlit("response");
    reveal_strlit("game_state");
    reveal_strlit("player_name");
    reveal_strlit("winner");
    reveal_strlit("action");
    reveal_strlit("amount");
    reveal_strlit("raise_to");
    reveal_strlit("fold");
    reveal_strlit("pass");
    reveal_strlit("personal_cards");
    reveal_strlit("personal_id");
    reveal_strlit("middle_cards");
    reveal_strlit("player_names");
    reveal_strlit("player_cards");
    reveal_strlit("player_betting_amount");
    reveal_strlit("player_money");
    reveal_strlit("player_has_folded");
    reveal_strlit("player_is_out");
    reveal_strlit("round_number");
    reveal_strlit("is_started");
    reveal_strlit("hand_winner");
    reveal_strlit("is_showdown");
    assert(("type"@).len() == 4);
    assert(("is_ready"@).len() == 8);
    assert(("heartbeat"@).len() == 9);
    assert(("awaiting_player"@).len() == 15);
    assert(("game_end"@).len() == 8);
    assert(("set_display_name"@).len() == 16);
    assert(("connection_ended"@).len() == 16);
    assert(("response"@).len() == 8);
    assert(("game_state"@).len() == 10);
    assert(("player_name"@).len() == 11);
    assert(("winner"@).len() == 6);
    assert(("action"@).len() == 6);
    assert(("amount"@).len() == 6);
    assert(("raise_to"@).len() == 8);
    assert(("fold"@).len() == 4);
    assert(("pass"@).len() == 4);
    assert(("personal_cards"@).len() == 14);
    assert(("personal_id"@).len() == 11);
    assert(("middle_cards"@).len() == 12);
    assert(("player_names"@).len() == 12);
    assert(("player_cards"@).len() == 12);
    assert(("player_betting_amount"@).len() == 21);
    assert(("player_money"@).len() == 12);
    assert(("player_has_folded"@).len() == 17);
    assert(("player_is_out"@).len() == 13);
    assert(("round_number"@).len() == 12);
    assert(("is_started"@).len() == 10);
    assert(("hand_winner"@).len() == 11);
    assert(("is_showdown"@).len() == 11);
    assert(("is_ready"@)[0] != ("game_end"@)[0]);
    assert(("is_ready"@)[0] != ("response"@)[0]);
    assert(("game_end"@)[0] != ("response"@)[0]);
    assert(("set_display_name"@)[0] != ("connection_ended"@)[0]);
    assert(("personal_id"@)[0] != ("hand_winner"@)[0]);
    assert(("personal_id"@)[0] != ("is_showdown"@)[0]);
    assert(("hand_winner"@)[0] != ("is_showdown"@)[0]);
    assert(("middle_cards"@)[0] != ("player_names"@)[0]);
    assert(("middle_cards"@)[0] != ("player_cards"@)[0]);
    assert(("middle_cards"@)[0] != ("player_money"@)[0]);
    assert(("middle_cards"@)[0] != ("round_number"@)[0]);
    assert(("player_names"@)[7] != ("player_cards"@)[7]);
    assert(("player_names"@)[7] != ("player_money"@)[7]);
    assert(("player_names"@)[0] != ("round_number"@)[0]);
    assert(("player_cards"@)[7] != ("player_money"@)[7]);
    assert(("player_cards"@)[0] != ("round_number"@)[0]);
    assert(("player_money"@)[0] != ("round_number"@)[0]);
    assert(("action"@)[1] != ("amount"@)[1]);
    assert(("raise_to"@)[0] != ("fold"@)[0]);
    assert(("raise_to"@)[0] != ("pass"@)[0]);
    assert(("fold"@)[0] != ("pass"@)[0]);
    match m {
        SpecMessage::SetDisplayName(_name) => {
            let pairs = j->Obj_0@;
            lemma_obj_lookup_at(pairs, "type"@, 0);
            lemma_obj_lookup_at(pairs, "player_name"@, 1);
        },
        SpecMessage::IsReady => {
            let pairs = j->Obj_0@;
            lemma_obj_lookup_at(pairs, "type"@, 0);
        },
        SpecMessage::Heartbeat => {
            let pairs = j->Obj_0@;
            lemma_obj_lookup_at(pairs, "type"@, 0);
        },
        SpecMessage::PlayerChoice(c) => {
            let pairs = j->Obj_0@;
            lemma_obj_lookup_at(pairs, "type"@, 0);
            lemma_obj_lookup_at(pairs, "action"@, 1);
            match c {
                PlayerChoice::RaiseTo(_v) => {
                    lemma_obj_lookup_at(pairs, "amount"@, 2);
                },
                PlayerChoice::Fold => {},
                PlayerChoice::Pass => {},
            }
        },
        SpecMessage::ConnectionEnded => {
            let pairs = j->Obj_0@;
            lemma_obj_lookup_at(pairs, "type"@, 0);
        },
        SpecMessage::AwaitingPlayer => {
            let pairs = j->Obj_0@;
            lemma_obj_lookup_at(pairs, "type"@, 0);
        },
        SpecMessage::GameStatus {
            personal_cards,
            personal_id,
            middle_cards,
            player_names,
            player_cards,
            player_betting_amount,
            player_money,
            player_has_folded,
            player_is_out,
            round_number,
            is_started,
            hand_winner,
            is_showdown,
        } => {
            let pairs = j->Obj_0@;
            lemma_obj_lookup_at(pairs, "type"@, 0);
            lemma_obj_lookup_at(pairs, "personal_cards"@, 1);
            lemma_obj_lookup_at(pairs, "personal_id"@, 2);
            lemma_obj_lookup_at(pairs, "middle_cards"@, 3);
            lemma_obj_lookup_at(pairs, "player_names"@, 4);
            lemma_obj_lookup_at(pairs, "player_cards"@, 5);
            lemma_obj_lookup_at(pairs, "player_betting_amount"@, 6);
            lemma_obj_lookup_at(pairs, "player_money"@, 7);
            lemma_obj_lookup_at(pairs, "player_has_folded"@, 8);
            lemma_obj_lookup_at(pairs, "player_is_out"@, 9);
            lemma_obj_lookup_at(pairs, "round_number"@, 10);
            lemma_obj_lookup_at(pairs, "is_started"@, 11);
            lemma_obj_lookup_at(pairs, "hand_winner"@, 12);
            lemma_obj_lookup_at(pairs, "is_showdown"@, 13);
            assert(card_of(personal_cards.0.value as u64) == personal_cards.0);
            assert(card_of(personal_cards.1.value as u64) == personal_cards.1);
            lemma_cards_inverse(middle_cards, pairs[3].1->Arr_0@);
            lemma_strings_inverse(player_names, pairs[4].1->Arr_0@);
            lemma_opt_pairs_inverse(player_cards, pairs[5].1->Arr_0@);
            lemma_usizes_inverse(player_betting_amount, pairs[6].1->Arr_0@);
            lemma_usizes_inverse(player_money, pairs[7].1->Arr_0@);
            lemma_bools_inverse(player_has_folded, pairs[8].1->Arr_0@);
            lemma_bools_inverse(player_is_out, pairs[9].1->Arr_0@);
            assert(spec_decode_game_state(pairs) == Ok::<SpecMessage, DecodeError>(m));
        },
        SpecMessage::GameEnd(_w) => {
            let pairs = j->Obj_0@;
            lemma_obj_lookup_at(pairs, "type"@, 0);
            lemma_obj_lookup_at(pairs, "winner"@, 1);
        },
    }
}

} // verus!
