use holdem_server::cards::Card;
use holdem_server::messages::{decode_message, encode_message, DecodeError, Json, PlayerChoice, RawMessage};

/// Turns the library's JSON model into a serde value.
fn json_to_value(j: &Json) -> serde_json::Value {
    match j {
        Json::Null => serde_json::Value::Null,
        Json::Bool(b) => serde_json::Value::Bool(*b),
        Json::UInt(n) => serde_json::Value::from(*n),
        Json::Int(n) => serde_json::Value::from(*n),
        Json::Str(s) => serde_json::Value::String(s.clone()),
        Json::Arr(v) => serde_json::Value::Array(v.iter().map(json_to_value).collect()),
        Json::Obj(pairs) => {
            let mut m = serde_json::Map::new();
            for (k, v) in pairs {
                m.insert(k.clone(), json_to_value(v));
            }
            serde_json::Value::Object(m)
        }
    }
}

/// Turns a serde value into the library's JSON model.
fn value_to_json(v: &serde_json::Value) -> Json {
    match v {
        serde_json::Value::Null => Json::Null,
        serde_json::Value::Bool(b) => Json::Bool(*b),
        serde_json::Value::Number(n) => {
            if let Some(u) = n.as_u64() {
                Json::UInt(u)
            } else if let Some(i) = n.as_i64() {
                Json::Int(i)
            } else {
                panic!("non-integer number on the wire: {}", n)
            }
        }
        serde_json::Value::String(s) => Json::Str(s.clone()),
        serde_json::Value::Array(a) => Json::Arr(a.iter().map(value_to_json).collect()),
        serde_json::Value::Object(m) => {
            Json::Obj(m.iter().map(|(k, v)| (k.clone(), value_to_json(v))).collect())
        }
    }
}

fn card(tok: &str) -> Card {
    Card::try_from(tok).unwrap()
}

fn sample_messages() -> Vec<(RawMessage, &'static str)> {
    vec![
        (
            RawMessage::SetDisplayName("TestUsername1$".to_string()),
            r#"{"type":"set_display_name", "player_name": "TestUsername1$"}"#,
        ),
        (RawMessage::IsReady, r#"{"type":"is_ready"}"#),
        (RawMessage::Heartbeat, r#"{"type":"heartbeat"}"#),
        (
            RawMessage::PlayerChoice(PlayerChoice::RaiseTo(3)),
            r#"{"type": "response", "action" : "raise_to", "amount" : 3}"#,
        ),
        (
            RawMessage::PlayerChoice(PlayerChoice::Fold),
            r#"{"type": "response", "action" : "fold"}"#,
        ),
        (
            RawMessage::PlayerChoice(PlayerChoice::Pass),
            r#"{"type": "response", "action" : "pass"}"#,
        ),
        (
            RawMessage::ConnectionEnded,
            r#"{"type": "connection_ended"}"#,
        ),
        (RawMessage::AwaitingPlayer, r#"{"type": "awaiting_player"}"#),
        (
            RawMessage::GameStatus {
                personal_cards: (card("CA"), card("D4")),
                personal_id: 1234,
                middle_cards: vec![card("A0"), card("B1"), card("A3")],
                player_names: vec![
                    "user1".to_string(),
                    "User2".to_string(),
                    "User3$".to_string(),
                ],
                player_cards: vec![Some((card("BB"), card("DB"))), None, None],
                player_betting_amount: vec![2, 3, 4],
                player_money: vec![100, 100, 200],
                player_has_folded: vec![true, false, true],
                player_is_out: vec![true, true, false],
                round_number: 2,
                is_started: true,
                hand_winner: -1,
                is_showdown: false,
            },
            r#"{
            "type": "game_state",
            "personal_cards": [36, 43],
            "personal_id": 1234,
            "middle_cards": [0, 14, 3],
            "player_names": ["user1", "User2", "User3$"],
            "player_cards": [[24,50], null, null],
            "player_betting_amount": [2, 3, 4],
            "player_money": [100, 100, 200],
            "player_has_folded": [true, false, true],
            "player_is_out": [true, true, false],
            "round_number": 2,
            "is_started": true,
            "hand_winner": -1,
            "is_showdown": false
         }"#,
        ),
        (
            RawMessage::GameEnd(Some(1)),
            r#"{"type": "game_end", "winner": 1}"#,
        ),
    ]
}

/// Testing RawMessage to JSON string conversion and vice versa.
#[test]
fn test_raw_message_conversion() {
    for (raw_message, json_message) in sample_messages() {
        let json: serde_json::Value = json_to_value(&encode_message(&raw_message));
        let validation_json: serde_json::Value = serde_json::from_str(json_message).unwrap();
        assert_eq!(
            json, validation_json,
            "Failed: {:?}. Expected {}, got {}",
            raw_message, json_message, json
        );
        let converted_to_raw_message = decode_message(&value_to_json(&json)).unwrap();
        assert_eq!(
            converted_to_raw_message, raw_message,
            "Failed: {}. Expected {:?}, got {:?}",
            json, raw_message, converted_to_raw_message
        );
    }
}

/// Encoding then decoding inside the library gives every message back.
#[test]
fn test_codec_round_trip_in_library() {
    for (raw_message, _) in sample_messages() {
        let encoded = encode_message(&raw_message);
        let decoded = decode_message(&encoded).unwrap();
        assert_eq!(decoded, raw_message);
    }
}

/// Malformed values are rejected.
#[test]
fn test_decode_malformed() {
    assert_eq!(decode_message(&Json::Null), Err(DecodeError::Malformed));
    assert_eq!(
        decode_message(&Json::Str("is_ready".to_string())),
        Err(DecodeError::Malformed)
    );
    // no type key
    assert_eq!(
        decode_message(&Json::Obj(vec![])),
        Err(DecodeError::Malformed)
    );
    // unknown type
    let unknown = Json::Obj(vec![("type".to_string(), Json::Str("poke".to_string()))]);
    assert_eq!(decode_message(&unknown), Err(DecodeError::Malformed));
    // response with an unknown action
    let bad_action = Json::Obj(vec![
        ("type".to_string(), Json::Str("response".to_string())),
        ("action".to_string(), Json::Str("shove".to_string())),
    ]);
    assert_eq!(decode_message(&bad_action), Err(DecodeError::Malformed));
    // raise without an amount
    let no_amount = Json::Obj(vec![
        ("type".to_string(), Json::Str("response".to_string())),
        ("action".to_string(), Json::Str("raise_to".to_string())),
    ]);
    assert_eq!(decode_message(&no_amount), Err(DecodeError::Malformed));
}

/// A null or missing winner means no winner.
#[test]
fn test_decode_game_end_winner_forms() {
    let null_winner = Json::Obj(vec![
        ("type".to_string(), Json::Str("game_end".to_string())),
        ("winner".to_string(), Json::Null),
    ]);
    assert_eq!(decode_message(&null_winner), Ok(RawMessage::GameEnd(None)));
    let missing_winner = Json::Obj(vec![("type".to_string(), Json::Str("game_end".to_string()))]);
    assert_eq!(decode_message(&missing_winner), Ok(RawMessage::GameEnd(None)));
}

/// A negative raise amount is rejected.
#[test]
fn test_decode_negative_amount_rejected() {
    let bad = Json::Obj(vec![
        ("type".to_string(), Json::Str("response".to_string())),
        ("action".to_string(), Json::Str("raise_to".to_string())),
        ("amount".to_string(), Json::Int(-1)),
    ]);
    assert_eq!(decode_message(&bad), Err(DecodeError::Malformed));
}

/// Key order on the wire does not matter.
#[test]
fn test_decode_any_key_order() {
    let v: serde_json::Value =
        serde_json::from_str(r#"{"amount": 7, "action": "raise_to", "type": "response"}"#).unwrap();
    let m = decode_message(&value_to_json(&v)).unwrap();
    assert_eq!(m, RawMessage::PlayerChoice(PlayerChoice::RaiseTo(7)));
}
