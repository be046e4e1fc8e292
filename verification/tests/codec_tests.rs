use udp_chat::codec::{decode, encode, TAG_CHAT, TAG_LOGIN, TAG_NOTIFY, TAG_PING};
use udp_chat::protocol::{
    ChatError, ChatNotifyPacket, ChatReqPacket, LoginReqPacket, Packets, MAX_PACKET_SIZE,
};

fn round_trip(p: Packets) -> Packets {
    let bytes = encode(&p).expect("encoding should fit");
    assert!(bytes.len() < MAX_PACKET_SIZE);
    decode(&bytes).expect("decoding an encoding should succeed")
}

#[test]
fn round_trip_login() {
    let p = Packets::LoginReq(LoginReqPacket { name: "alice".to_string() });
    match round_trip(p) {
        Packets::LoginReq(l) => assert_eq!(l.name, "alice"),
        _ => panic!("wrong variant"),
    }
}

#[test]
fn round_trip_chat() {
    let p = Packets::ChatReq(ChatReqPacket { contents: "hello, world".to_string() });
    match round_trip(p) {
        Packets::ChatReq(c) => assert_eq!(c.contents, "hello, world"),
        _ => panic!("wrong variant"),
    }
}

#[test]
fn round_trip_notify() {
    let p = Packets::ChatNotify(ChatNotifyPacket {
        name: "bob".to_string(),
        contents: "hi there".to_string(),
    });
    match round_trip(p) {
        Packets::ChatNotify(n) => {
            assert_eq!(n.name, "bob");
            assert_eq!(n.contents, "hi there");
        }
        _ => panic!("wrong variant"),
    }
}

#[test]
fn round_trip_ping() {
    match round_trip(Packets::Ping) {
        Packets::Ping => {}
        _ => panic!("wrong variant"),
    }
}

#[test]
fn round_trip_empty_strings() {
    let p = Packets::ChatNotify(ChatNotifyPacket {
        name: String::new(),
        contents: String::new(),
    });
    match round_trip(p) {
        Packets::ChatNotify(n) => {
            assert_eq!(n.name, "");
            assert_eq!(n.contents, "");
        }
        _ => panic!("wrong variant"),
    }
    let p = Packets::LoginReq(LoginReqPacket { name: String::new() });
    match round_trip(p) {
        Packets::LoginReq(l) => assert_eq!(l.name, ""),
        _ => panic!("wrong variant"),
    }
}

#[test]
fn round_trip_multibyte_characters() {
    let p = Packets::ChatReq(ChatReqPacket { contents: "héllo ✓ 你好".to_string() });
    match round_trip(p) {
        Packets::ChatReq(c) => assert_eq!(c.contents, "héllo ✓ 你好"),
        _ => panic!("wrong variant"),
    }
}

#[test]
fn encoded_layout_is_length_prefixed() {
    let p = Packets::LoginReq(LoginReqPacket { name: "ab".to_string() });
    let bytes = encode(&p).unwrap();
    assert_eq!(bytes, vec![TAG_LOGIN, 2, 0, 0, 0, b'a', b'b']);
    assert_eq!(encode(&Packets::Ping).unwrap(), vec![TAG_PING]);
}

#[test]
fn oversized_chat_is_refused() {
    // Tag byte plus 4-byte length prefix plus 2044 bytes of contents:
    // exactly 2049 encoded bytes, past the 2048 ceiling.
    let contents = "a".repeat(2044);
    let p = Packets::ChatReq(ChatReqPacket { contents });
    assert_eq!(encode(&p), Err(ChatError::OversizedMessage));

    // One byte shorter fits.
    let contents = "a".repeat(2042);
    let p = Packets::ChatReq(ChatReqPacket { contents });
    let bytes = encode(&p).unwrap();
    assert_eq!(bytes.len(), 2047);
}

#[test]
fn oversized_boundary_is_strict() {
    // An encoding of exactly MAX_PACKET_SIZE bytes must already be refused.
    let contents = "a".repeat(MAX_PACKET_SIZE - 5);
    let p = Packets::ChatReq(ChatReqPacket { contents });
    assert_eq!(encode(&p), Err(ChatError::OversizedMessage));
}

#[test]
fn oversized_notify_is_refused() {
    let p = Packets::ChatNotify(ChatNotifyPacket {
        name: "x".repeat(1500),
        contents: "y".repeat(1500),
    });
    assert_eq!(encode(&p), Err(ChatError::OversizedMessage));
}

#[test]
fn decode_refuses_malformed() {
    // Empty datagram.
    assert_eq!(decode(&[]), Err(ChatError::MalformedMessage));
    // Unknown tag.
    assert_eq!(decode(&[99]), Err(ChatError::MalformedMessage));
    // Truncated length prefix.
    assert_eq!(decode(&[TAG_LOGIN, 2, 0]), Err(ChatError::MalformedMessage));
    // Length prefix pointing past the end.
    assert_eq!(
        decode(&[TAG_LOGIN, 5, 0, 0, 0, b'a']),
        Err(ChatError::MalformedMessage)
    );
    // Trailing bytes after a complete message.
    assert_eq!(
        decode(&[TAG_PING, 0]),
        Err(ChatError::MalformedMessage)
    );
    assert_eq!(
        decode(&[TAG_LOGIN, 1, 0, 0, 0, b'a', b'b']),
        Err(ChatError::MalformedMessage)
    );
    // Invalid UTF-8 in a string field.
    assert_eq!(
        decode(&[TAG_CHAT, 2, 0, 0, 0, 0xff, 0xfe]),
        Err(ChatError::MalformedMessage)
    );
}

#[test]
fn decode_accepts_every_variant() {
    // The server role ignores ChatNotify, but decoding stays total over all
    // four kinds so unknown-to-the-role traffic is not a decode error.
    let bytes = encode(&Packets::ChatNotify(ChatNotifyPacket {
        name: "n".to_string(),
        contents: "c".to_string(),
    }))
    .unwrap();
    assert_eq!(bytes[0], TAG_NOTIFY);
    assert!(matches!(decode(&bytes), Ok(Packets::ChatNotify(_))));
}

