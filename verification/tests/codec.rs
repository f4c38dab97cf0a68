use chatproto::messages::{
    AuthMessage, ClientError, ClientId, ClientMessage, ClientPollReply, ClientQuery, ClientReply,
    DelayedError, FullyQualifiedMessage, Sequence, ServerId, ServerMessage,
};
use chatproto::netproto::{decode, encode};

fn varint_bytes(m: u128) -> Vec<u8> {
    let mut out = Vec::new();
    encode::u128(&mut out, m);
    out
}

#[test]
fn varint_literal_tier() {
    assert_eq!(varint_bytes(0), vec![0]);
    assert_eq!(varint_bytes(1), vec![1]);
    assert_eq!(varint_bytes(250), vec![250]);
}

#[test]
fn varint_u16_tier() {
    assert_eq!(varint_bytes(251), vec![251, 251, 0]);
    assert_eq!(varint_bytes(0x1234), vec![251, 0x34, 0x12]);
    assert_eq!(varint_bytes(0xFFFF), vec![251, 0xFF, 0xFF]);
}

#[test]
fn varint_u32_tier() {
    assert_eq!(varint_bytes(0x1_0000), vec![252, 0, 0, 1, 0]);
    assert_eq!(varint_bytes(0xFFFF_FFFF), vec![252, 0xFF, 0xFF, 0xFF, 0xFF]);
}

#[test]
fn varint_u64_tier() {
    assert_eq!(varint_bytes(0x1_0000_0000), vec![253, 0, 0, 0, 0, 1, 0, 0, 0]);
    assert_eq!(
        varint_bytes(u64::MAX as u128),
        vec![253, 0xFF, 0xFF, 0xFF, 0xFF, 0xFF, 0xFF, 0xFF, 0xFF]
    );
}

#[test]
fn varint_u128_tier() {
    let mut expected = vec![254];
    expected.extend_from_slice(&[0, 0, 0, 0, 0, 0, 0, 0, 1, 0, 0, 0, 0, 0, 0, 0]);
    assert_eq!(varint_bytes(0x1_0000_0000_0000_0000), expected);
    assert_eq!(varint_bytes(u128::MAX), {
        let mut v = vec![254];
        v.extend_from_slice(&[0xFF; 16]);
        v
    });
}

#[test]
fn varint_minimal_length() {
    // The tier table's minimum lengths, value by value.
    for (m, len) in [
        (0u128, 1usize),
        (250, 1),
        (251, 3),
        (0xFFFF, 3),
        (0x1_0000, 5),
        (0xFFFF_FFFF, 5),
        (0x1_0000_0000, 9),
        (u64::MAX as u128, 9),
        (0x1_0000_0000_0000_0000, 17),
        (u128::MAX, 17),
    ] {
        assert_eq!(varint_bytes(m).len(), len);
    }
}

#[test]
fn varint_round_trip() {
    for m in [
        0u128,
        1,
        250,
        251,
        65535,
        65536,
        0xDEAD_BEEF,
        0xFFFF_FFFF,
        0x1_0000_0000,
        u64::MAX as u128,
        0x1_0000_0000_0000_0000,
        u128::MAX,
    ] {
        let out = varint_bytes(m);
        let (v, end) = decode::u128(&out, 0).expect("decodes");
        assert_eq!(v, m);
        assert_eq!(end, out.len());
    }
}

#[test]
fn varint_rejects_unknown_tag() {
    assert_eq!(decode::u128(&[255, 0, 0], 0), None);
}

#[test]
fn varint_rejects_non_canonical() {
    // 5 fits in the literal tier; a 16-bit form of it is refused.
    assert_eq!(decode::u128(&[251, 5, 0], 0), None);
    // 300 fits in the 16-bit tier; a 32-bit form of it is refused.
    assert_eq!(decode::u128(&[252, 44, 1, 0, 0], 0), None);
}

#[test]
fn varint_rejects_short_read() {
    assert_eq!(decode::u128(&[251, 1], 0), None);
    assert_eq!(decode::u128(&[], 0), None);
}

#[test]
fn clientid_wire_form() {
    let id = ClientId(0x0102);
    let mut out = Vec::new();
    encode::clientid(&mut out, &id);
    let mut expected = vec![16, 0x02, 0x01];
    expected.extend_from_slice(&[0; 14]);
    assert_eq!(out, expected);
    let (back, end) = decode::clientid(&out, 0).expect("decodes");
    assert_eq!(back, id);
    assert_eq!(end, 17);
}

#[test]
fn serverid_round_trip() {
    let id = ServerId(u128::MAX - 77);
    let mut out = Vec::new();
    encode::serverid(&mut out, &id);
    let (back, _) = decode::serverid(&out, 0).expect("decodes");
    assert_eq!(back, id);
}

#[test]
fn id_rejects_wrong_length() {
    // An identifier must be framed as exactly 16 bytes.
    let mut bad = vec![4, 1, 2, 3, 4];
    bad.extend_from_slice(&[0; 20]);
    assert_eq!(decode::clientid(&bad, 0), None);
}

#[test]
fn string_round_trip() {
    for s in ["", "hello", "héllo wörld", "日本語"] {
        let mut out = Vec::new();
        encode::string(&mut out, s);
        let (back, end) = decode::string(&out, 0).expect("decodes");
        assert_eq!(back, s);
        assert_eq!(end, out.len());
    }
}

#[test]
fn string_wire_form() {
    let mut out = Vec::new();
    encode::string(&mut out, "hi");
    assert_eq!(out, vec![2, b'h', b'i']);
}

#[test]
fn string_rejects_invalid_utf8() {
    assert_eq!(decode::string(&[2, 0xFF, 0xFE], 0), None);
}

#[test]
fn auth_round_trip() {
    let cases = [
        AuthMessage::Hello { user: ClientId(7), nonce: 0x0102030405060708 },
        AuthMessage::Nonce { server: ServerId(9), nonce: 42 },
        AuthMessage::Auth { response: u128::MAX / 3 },
    ];
    for m in cases {
        let mut out = Vec::new();
        encode::auth(&mut out, &m);
        let (back, end) = decode::auth(&out, 0).expect("decodes");
        assert_eq!(back, m);
        assert_eq!(end, out.len());
    }
}

#[test]
fn auth_wire_form() {
    let mut out = Vec::new();
    encode::auth(&mut out, &AuthMessage::Hello { user: ClientId(1), nonce: 2 });
    let mut expected = vec![0, 16, 1];
    expected.extend_from_slice(&[0; 15]);
    expected.extend_from_slice(&[2, 0, 0, 0, 0, 0, 0, 0]);
    assert_eq!(out, expected);
}

#[test]
fn client_message_round_trip() {
    let cases = [
        ClientMessage::Text { dest: ClientId(3), content: "hello".to_string() },
        ClientMessage::MText {
            dest: vec![ClientId(4), ClientId(5), ClientId(6)],
            content: "all".to_string(),
        },
        ClientMessage::MText { dest: vec![], content: "".to_string() },
    ];
    for m in cases {
        let mut out = Vec::new();
        encode::client(&mut out, &m);
        let (back, end) = decode::client(&out, 0).expect("decodes");
        assert_eq!(back, m);
        assert_eq!(end, out.len());
    }
}

#[test]
fn server_message_round_trip() {
    let announce = ServerMessage::Announce {
        route: vec![ServerId(1), ServerId(2), ServerId(3)],
        clients: vec![(ClientId(10), "alice".to_string()), (ClientId(11), "bob".to_string())],
    };
    let message = ServerMessage::Message(FullyQualifiedMessage {
        src: ClientId(1),
        srcsrv: ServerId(2),
        dsts: vec![(ClientId(3), ServerId(4)), (ClientId(5), ServerId(6))],
        content: "through".to_string(),
    });
    for m in [announce, message] {
        let mut out = Vec::new();
        encode::server(&mut out, &m);
        let (back, end) = decode::server(&out, 0).expect("decodes");
        assert_eq!(back, m);
        assert_eq!(end, out.len());
    }
}

#[test]
fn client_replies_round_trip() {
    let replies = vec![
        ClientReply::Delivered,
        ClientReply::Error(ClientError::WorkProofError),
        ClientReply::Error(ClientError::UnknownClient),
        ClientReply::Error(ClientError::SequenceError),
        ClientReply::Error(ClientError::BoxFull(ClientId(12))),
        ClientReply::Error(ClientError::InternalError),
        ClientReply::Delayed,
        ClientReply::Transfer(
            ServerId(20),
            ServerMessage::Message(FullyQualifiedMessage {
                src: ClientId(1),
                srcsrv: ServerId(2),
                dsts: vec![(ClientId(3), ServerId(4))],
                content: "fwd".to_string(),
            }),
        ),
    ];
    let mut out = Vec::new();
    encode::client_replies(&mut out, &replies);
    let (back, end) = decode::client_replies(&out, 0).expect("decodes");
    assert_eq!(back, replies);
    assert_eq!(end, out.len());
}

#[test]
fn client_poll_reply_round_trip() {
    let cases = [
        ClientPollReply::Message { src: ClientId(1), content: "m".to_string() },
        ClientPollReply::DelayedError(DelayedError::UnknownRecipient(ClientId(2))),
        ClientPollReply::Nothing,
    ];
    for m in cases {
        let mut out = Vec::new();
        encode::client_poll_reply(&mut out, &m);
        let (back, end) = decode::client_poll_reply(&out, 0).expect("decodes");
        assert_eq!(back, m);
        assert_eq!(end, out.len());
    }
}

#[test]
fn userlist_round_trip() {
    let list = vec![
        (ClientId(1), "alice".to_string()),
        (ClientId(2), "bob".to_string()),
        (ClientId(3), "".to_string()),
    ];
    let mut out = Vec::new();
    encode::userlist(&mut out, &list);
    let (back, end) = decode::userlist(&out, 0).expect("decodes");
    assert_eq!(back, list);
    assert_eq!(end, out.len());
}

#[test]
fn client_query_round_trip() {
    let cases = [
        ClientQuery::Register("carol".to_string()),
        ClientQuery::Message(ClientMessage::Text {
            dest: ClientId(8),
            content: "hey".to_string(),
        }),
        ClientQuery::ListUsers,
        ClientQuery::Poll,
    ];
    for m in cases {
        let mut out = Vec::new();
        encode::client_query(&mut out, &m);
        let (back, end) = decode::client_query(&out, 0).expect("decodes");
        assert_eq!(back, m);
        assert_eq!(end, out.len());
    }
}

#[test]
fn sequence_round_trip() {
    let seq = Sequence {
        seqid: 300,
        src: ClientId(0xABCD),
        workproof: 0x1122334455667788,
        content: ClientQuery::Poll,
    };
    let mut out = Vec::new();
    encode::sequence(&mut out, &seq);
    let (back, end) = decode::sequence(&out, 0).expect("decodes");
    assert_eq!(back, seq);
    assert_eq!(end, out.len());
}

#[test]
fn decode_ignores_trailing_bytes() {
    let mut out = Vec::new();
    encode::string(&mut out, "ok");
    out.extend_from_slice(&[9, 9, 9]);
    let (back, end) = decode::string(&out, 0).expect("decodes");
    assert_eq!(back, "ok");
    assert_eq!(end, 3);
}

#[test]
fn decode_at_offset() {
    let mut out = vec![7, 7];
    encode::u128(&mut out, 400);
    let (v, end) = decode::u128(&out, 2).expect("decodes");
    assert_eq!(v, 400);
    assert_eq!(end, out.len());
}
