use holdem_server::framing::{encode_frame, parse_all_frames, parse_frame};

/// A frame is the decimal length, a colon, and the payload.
#[test]
fn test_frame_shape() {
    let payload: Vec<u8> = br#"{"type":"is_ready"}"#.to_vec();
    let framed = encode_frame(&payload);
    let mut expected: Vec<u8> = b"19:".to_vec();
    expected.extend_from_slice(&payload);
    assert_eq!(framed, expected);
}

/// Parsing a framed payload gives the payload back and stops at its end.
#[test]
fn test_frame_round_trip() {
    let payload: Vec<u8> = vec![1, 2, 3, 58, 255, 0, 7];
    let framed = encode_frame(&payload);
    let (parsed, next) = parse_frame(&framed, 0).unwrap();
    assert_eq!(parsed, payload);
    assert_eq!(next, framed.len());
}

/// Several frames appended to one buffer come back out in order.
#[test]
fn test_multiple_frames_in_order() {
    let messages: Vec<Vec<u8>> = vec![
        br#"{"type":"is_ready"}"#.to_vec(),
        br#"{"type":"heartbeat"}"#.to_vec(),
        Vec::new(),
        br#"{"type": "response", "action" : "pass"}"#.to_vec(),
    ];
    let mut buffer: Vec<u8> = Vec::new();
    for m in &messages {
        buffer.extend_from_slice(&encode_frame(m));
    }
    let mut at: usize = 0;
    let mut read_back: Vec<Vec<u8>> = Vec::new();
    while at < buffer.len() {
        let (payload, next) = parse_frame(&buffer, at).unwrap();
        read_back.push(payload);
        at = next;
    }
    assert_eq!(read_back, messages);
    assert_eq!(parse_all_frames(&buffer), Some(messages));
}

/// Broken frames are rejected: a missing length, a stray byte in the
/// length, a truncated payload.
#[test]
fn test_frame_errors() {
    assert!(parse_frame(&b":abc".to_vec(), 0).is_none());
    assert!(parse_frame(&b"1x:abc".to_vec(), 0).is_none());
    assert!(parse_frame(&b"5:abc".to_vec(), 0).is_none());
    assert!(parse_frame(&b"12".to_vec(), 0).is_none());
}
