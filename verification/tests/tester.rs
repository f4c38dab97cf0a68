//! The whole server exercised end to end: correct and replayed sequences,
//! bad work proofs, single and multi-destination delivery, and a transfer to
//! a federated user.
use chatproto::client::Client;
use chatproto::messages::{
    ClientError, ClientId, ClientMessage, ClientPollReply, ClientReply, FullyQualifiedMessage,
    Sequence, ServerId, ServerMessage, ServerReply,
};
use chatproto::server::Server;
use chatproto::workproof::verify_workproof;
use chatproto::WORKPROOF_STRENGTH;

fn sequence_correct() {
    let mut server = Server::new(ServerId::default());
    let c1 = server.register_local_client("user1".to_string());
    let c2 = server.register_local_client("user2".to_string());
    let mut client1 = Client::new(c1);
    let mut client2 = Client::new(c2);
    for i in 0..100 {
        let message = if i & 1 == 0 { client1.sequence(()) } else { client2.sequence(()) };
        assert_eq!(server.handle_sequenced_message(message), Ok(()));
    }
}

fn sequence_bad() {
    let mut server = Server::new(ServerId::default());
    let c1 = server.register_local_client("user 1".to_string());
    let mut client1 = Client::new(c1);
    let seq1 = client1.sequence(());
    let mut seq2 = client1.sequence(());
    seq2.seqid = seq1.seqid;
    assert_eq!(server.handle_sequenced_message(seq1), Ok(()));
    assert_eq!(server.handle_sequenced_message(seq2), Err(ClientError::SequenceError));
}

fn workproof_bad() {
    let mut server = Server::new(ServerId::default());
    // Register until the zero witness fails the check, so that the bad
    // submission below is refused for its work proof and nothing else.
    let mut c1 = server.register_local_client("user 1".to_string());
    let mut tries = 0;
    while verify_workproof(c1.0, 0, WORKPROOF_STRENGTH) && tries < 50 {
        c1 = server.register_local_client("user 1".to_string());
        tries += 1;
    }
    let r = server.handle_sequenced_message(Sequence {
        seqid: 1,
        src: c1,
        workproof: 0,
        content: (),
    });
    assert_eq!(r, Err(ClientError::WorkProofError));
}

fn simple_client_test() {
    let mut server = Server::new(ServerId::default());
    let c1 = server.register_local_client("user 1".to_string());
    let c2 = server.register_local_client("user 2".to_string());
    let r = server.handle_client_message(
        c1,
        ClientMessage::Text { dest: c2, content: "hello".to_string() },
    );
    assert_eq!(r, vec![ClientReply::Delivered]);
    let reply = server.client_poll(c2);
    assert_eq!(reply, ClientPollReply::Message { src: c1, content: "hello".to_string() });
}

fn multiple_client_messages_test() {
    let mut server = Server::new(ServerId::default());
    let c1 = server.register_local_client("user 1".to_string());
    let c2 = server.register_local_client("user 2".to_string());
    let c3 = server.register_local_client("user 3".to_string());
    for i in 0..100 {
        let r = server.handle_client_message(
            c1,
            ClientMessage::Text { dest: c2, content: format!("{}", i) },
        );
        assert_eq!(r, vec![ClientReply::Delivered], "message {}", i);
    }
    for i in 0..100 {
        let r = server.handle_client_message(
            c1,
            ClientMessage::MText { dest: vec![c2, c3], content: format!("{}", i + 100) },
        );
        assert_eq!(r, vec![ClientReply::Delivered, ClientReply::Delivered], "message {}", i);
    }
    for i in 0..200 {
        let reply = server.client_poll(c2);
        assert_eq!(reply, ClientPollReply::Message { src: c1, content: format!("{}", i) });
    }
    for i in 100..200 {
        let reply = server.client_poll(c3);
        assert_eq!(reply, ClientPollReply::Message { src: c1, content: format!("{}", i) });
    }
    assert_eq!(server.client_poll(c2), ClientPollReply::Nothing);
    assert_eq!(server.client_poll(c3), ClientPollReply::Nothing);
}

fn message_to_outer_user() {
    let sid = ServerId::default();
    let mut server = Server::new(sid);
    let c1 = server.register_local_client("user 1".to_string());
    let s1 = ServerId::default();
    let s2 = ServerId::default();
    let s3 = ServerId::default();
    let euuid = ClientId::default();
    let r = server.handle_server_message(ServerMessage::Announce {
        route: vec![s1, s2, s3],
        clients: vec![(euuid, "external user".to_string())],
    });
    assert_eq!(r, ServerReply::Outgoing(Vec::new()));
    let r = server.handle_client_message(
        c1,
        ClientMessage::Text { dest: euuid, content: "Hello".to_string() },
    );
    let expected = vec![ClientReply::Transfer(
        s3,
        ServerMessage::Message(FullyQualifiedMessage {
            src: c1,
            srcsrv: sid,
            dsts: vec![(euuid, s1)],
            content: "Hello".to_string(),
        }),
    )];
    assert_eq!(r, expected);
}

fn all_tests() {
    sequence_correct();
    sequence_bad();
    workproof_bad();
    simple_client_test();
    multiple_client_messages_test();
    message_to_outer_user();
}

#[test]
fn erasmus_tester() {
    all_tests();
}

#[test]
fn sample_tester() {
    all_tests();
}
