use guess_server::codec::{
    decode, decode_text, encode, get_be32, put_be32, put_bytes, ErrorCode, Message, ProtocolError,
};
use guess_server::text::{char_is_whitespace, trimmed};

fn round_trip(m: Message) {
    let frame = encode(&m);
    assert_eq!(decode(&frame), Ok(m));
}

#[test]
fn encode_fixed_messages() {
    assert_eq!(encode(&Message::Init), vec![0x01]);
    assert_eq!(encode(&Message::InitReply { status: 0 }), vec![0x01, 0x00]);
    assert_eq!(encode(&Message::RequestOpponents), vec![0x04]);
    assert_eq!(encode(&Message::MatchConfirm), vec![0x07]);
    assert_eq!(encode(&Message::ProgressUpdate { correct: true }), vec![0x0a, 1]);
    assert_eq!(encode(&Message::ProgressUpdate { correct: false }), vec![0x0a, 0]);
    assert_eq!(encode(&Message::Error { code: ErrorCode::BadPassword }), vec![0xff, 0x01]);
    assert_eq!(encode(&Message::Error { code: ErrorCode::OpponentNotFound }), vec![0xff, 0x02]);
}

#[test]
fn encode_assign_id_is_big_endian() {
    assert_eq!(encode(&Message::AssignId { id: 1 }), vec![0x03, 0, 0, 0, 1]);
    assert_eq!(
        encode(&Message::AssignId { id: 0x0102_0304 }),
        vec![0x03, 0x01, 0x02, 0x03, 0x04]
    );
    assert_eq!(
        encode(&Message::AssignId { id: u32::MAX }),
        vec![0x03, 0xff, 0xff, 0xff, 0xff]
    );
}

#[test]
fn encode_opponents_response() {
    assert_eq!(
        encode(&Message::OpponentsResponse { ids: vec![2, 258] }),
        vec![0x05, 0, 0, 0, 2, 0, 0, 0, 2, 0, 0, 1, 2]
    );
    assert_eq!(encode(&Message::OpponentsResponse { ids: vec![] }), vec![0x05, 0, 0, 0, 0]);
}

#[test]
fn encode_request_match() {
    assert_eq!(
        encode(&Message::RequestMatch { opponent_id: 2, word: "apple".to_string() }),
        vec![0x06, 0, 0, 0, 2, 0, 0, 0, 5, b'a', b'p', b'p', b'l', b'e']
    );
}

#[test]
fn encode_text_messages() {
    assert_eq!(
        encode(&Message::PasswordResponse { password: "secret".to_string() }),
        vec![0x02, b's', b'e', b'c', b'r', b'e', b't']
    );
    assert_eq!(encode(&Message::GuessWord { guess: "hi".to_string() }), vec![0x08, b'h', b'i']);
    assert_eq!(encode(&Message::Hint { hint: "é".to_string() }), vec![0x09, 0xc3, 0xa9]);
    assert_eq!(encode(&Message::Text { text: String::new() }), vec![0x0b]);
}

#[test]
fn decode_gives_back_what_was_encoded() {
    round_trip(Message::Init);
    round_trip(Message::InitReply { status: 7 });
    round_trip(Message::PasswordResponse { password: " secret \n".to_string() });
    round_trip(Message::AssignId { id: 4_000_000_000 });
    round_trip(Message::RequestOpponents);
    round_trip(Message::OpponentsResponse { ids: vec![1, 2, 3, 70_000, u32::MAX] });
    round_trip(Message::OpponentsResponse { ids: vec![] });
    round_trip(Message::RequestMatch { opponent_id: 9, word: "naïve".to_string() });
    round_trip(Message::RequestMatch { opponent_id: 0, word: String::new() });
    round_trip(Message::MatchConfirm);
    round_trip(Message::GuessWord { guess: "banana".to_string() });
    round_trip(Message::Hint { hint: "a fruit 🍎".to_string() });
    round_trip(Message::ProgressUpdate { correct: true });
    round_trip(Message::ProgressUpdate { correct: false });
    round_trip(Message::Text { text: "hello".to_string() });
    round_trip(Message::Error { code: ErrorCode::BadPassword });
    round_trip(Message::Error { code: ErrorCode::OpponentNotFound });
}

#[test]
fn decode_text_is_the_decoded_utf8() {
    assert_eq!(
        decode(&[0x09, 0xc3, 0xa9, b'!']),
        Ok(Message::Hint { hint: "é!".to_string() })
    );
    assert_eq!(
        decode(&[0x08, b'a', b'b']),
        Ok(Message::GuessWord { guess: "ab".to_string() })
    );
}

#[test]
fn decode_empty_frame() {
    assert_eq!(decode(&[]), Err(ProtocolError::Empty));
}

#[test]
fn decode_unknown_tag() {
    assert_eq!(decode(&[0x00]), Err(ProtocolError::UnknownTag { tag: 0x00 }));
    assert_eq!(decode(&[0x0c, 1, 2]), Err(ProtocolError::UnknownTag { tag: 0x0c }));
    assert_eq!(decode(&[0xfe]), Err(ProtocolError::UnknownTag { tag: 0xfe }));
}

#[test]
fn decode_truncated() {
    assert_eq!(decode(&[0x03, 0, 0, 1]), Err(ProtocolError::Truncated));
    assert_eq!(decode(&[0x05, 0, 0]), Err(ProtocolError::Truncated));
    assert_eq!(decode(&[0x05, 0, 0, 0, 2, 0, 0, 0, 1]), Err(ProtocolError::Truncated));
    assert_eq!(decode(&[0x05, 0xff, 0xff, 0xff, 0xff]), Err(ProtocolError::Truncated));
    assert_eq!(decode(&[0x06, 0, 0, 0, 2, 0, 0]), Err(ProtocolError::Truncated));
    assert_eq!(decode(&[0x06, 0, 0, 0, 2, 0, 0, 0, 5, b'a']), Err(ProtocolError::Truncated));
    assert_eq!(
        decode(&[0x06, 0, 0, 0, 2, 0xff, 0xff, 0xff, 0xff, b'a']),
        Err(ProtocolError::Truncated)
    );
    assert_eq!(decode(&[0x0a]), Err(ProtocolError::Truncated));
    assert_eq!(decode(&[0xff]), Err(ProtocolError::Truncated));
}

#[test]
fn decode_trailing_bytes() {
    assert_eq!(decode(&[0x01, 0, 0]), Err(ProtocolError::TrailingBytes));
    assert_eq!(decode(&[0x03, 0, 0, 0, 1, 9]), Err(ProtocolError::TrailingBytes));
    assert_eq!(decode(&[0x04, 0]), Err(ProtocolError::TrailingBytes));
    assert_eq!(decode(&[0x05, 0, 0, 0, 0, 1]), Err(ProtocolError::TrailingBytes));
    assert_eq!(
        decode(&[0x06, 0, 0, 0, 2, 0, 0, 0, 1, b'a', b'b']),
        Err(ProtocolError::TrailingBytes)
    );
    assert_eq!(decode(&[0x07, 0]), Err(ProtocolError::TrailingBytes));
    assert_eq!(decode(&[0x0a, 1, 1]), Err(ProtocolError::TrailingBytes));
    assert_eq!(decode(&[0xff, 1, 1]), Err(ProtocolError::TrailingBytes));
}

#[test]
fn decode_invalid_utf8() {
    assert_eq!(decode(&[0x02, 0xff, 0xfe]), Err(ProtocolError::InvalidUtf8));
    assert_eq!(decode(&[0x08, 0xc3]), Err(ProtocolError::InvalidUtf8));
    assert_eq!(decode(&[0x09, 0xed, 0xa0, 0x80]), Err(ProtocolError::InvalidUtf8));
    assert_eq!(decode(&[0x0b, 0x80]), Err(ProtocolError::InvalidUtf8));
    assert_eq!(
        decode(&[0x06, 0, 0, 0, 2, 0, 0, 0, 2, 0xc0, 0x80]),
        Err(ProtocolError::InvalidUtf8)
    );
}

#[test]
fn decode_invalid_value() {
    assert_eq!(decode(&[0x0a, 2]), Err(ProtocolError::InvalidValue));
    assert_eq!(decode(&[0xff, 0]), Err(ProtocolError::InvalidValue));
    assert_eq!(decode(&[0xff, 3]), Err(ProtocolError::InvalidValue));
}

#[test]
fn decode_init_by_length() {
    assert_eq!(decode(&[0x01]), Ok(Message::Init));
    assert_eq!(decode(&[0x01, 0x00]), Ok(Message::InitReply { status: 0 }));
}

#[test]
fn error_code_bytes() {
    assert_eq!(ErrorCode::BadPassword.byte(), 0x01);
    assert_eq!(ErrorCode::OpponentNotFound.byte(), 0x02);
}

#[test]
fn trimmed_strips_both_ends_only() {
    assert_eq!(trimmed("  secret\r\n"), "secret");
    assert_eq!(trimmed("secret"), "secret");
    assert_eq!(trimmed(" two words "), "two words");
    assert_eq!(trimmed(""), "");
    assert_eq!(trimmed(" \t\n"), "");
    assert_eq!(trimmed("\u{a0}\u{3000}é\u{2003}"), "é");
}

#[test]
fn trimmed_agrees_with_std() {
    let samples = [
        "", " ", "a", " a", "a ", "\ta\tb\t", "\u{85}x\u{1680}", "\u{2028}\u{2029}y\u{202f}\u{205f}",
        "\u{200b}z\u{200b}", "\u{feff}w", "\u{0b}\u{0c}v\u{1c}",
    ];
    for s in samples {
        assert_eq!(trimmed(s), s.trim());
    }
}

#[test]
fn whitespace_agrees_with_std() {
    let mut c: u32 = 0;
    while c <= 0x3100 {
        if let Some(ch) = char::from_u32(c) {
            assert_eq!(char_is_whitespace(ch), ch.is_whitespace());
        }
        c += 1;
    }
    assert!(!char_is_whitespace('\u{feff}'));
    assert!(!char_is_whitespace('\u{10ffff}'));
}

#[test]
fn be32_reads_what_it_wrote() {
    let mut out = vec![9u8];
    put_be32(&mut out, 0x0a0b_0c0d);
    put_be32(&mut out, 65_536);
    assert_eq!(out, vec![9, 0x0a, 0x0b, 0x0c, 0x0d, 0, 1, 0, 0]);
    assert_eq!(get_be32(&out, 1), 0x0a0b_0c0d);
    assert_eq!(get_be32(&out, 5), 65_536);
    assert_eq!(get_be32(&out, 0), 0x090a_0b0c);
}

#[test]
fn put_bytes_appends() {
    let mut out = vec![1u8, 2];
    put_bytes(&mut out, &[3, 4, 5]);
    put_bytes(&mut out, &[]);
    assert_eq!(out, vec![1, 2, 3, 4, 5]);
}

#[test]
fn decode_text_checks_utf8() {
    assert_eq!(decode_text(b"apple"), Ok("apple".to_string()));
    assert_eq!(decode_text(&[]), Ok(String::new()));
    assert_eq!(decode_text(&[0xf0, 0x9f, 0x8d, 0x8e]), Ok("🍎".to_string()));
    assert_eq!(decode_text(&[0xf0, 0x9f, 0x8d]), Err(ProtocolError::InvalidUtf8));
    assert_eq!(decode_text(&[0xf5, 0x80, 0x80, 0x80]), Err(ProtocolError::InvalidUtf8));
}
