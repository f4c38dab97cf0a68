use chatproto::messages::{
    ClientError, ClientId, ClientMessage, ClientPollReply, ClientReply, DelayedError,
    FullyQualifiedMessage, Sequence, ServerId, ServerMessage, ServerReply,
};
use chatproto::server::Server;
use chatproto::workproof::{gen_workproof, verify_workproof};
use chatproto::{MAILBOX_SIZE, WORKPROOF_STRENGTH};

fn proof_for(c: ClientId) -> u64 {
    gen_workproof(c.0, WORKPROOF_STRENGTH, u64::MAX).expect("a witness exists")
}

/// A freshly registered client whose zero witness does not pass the work
/// check, so that a bad-workproof submission is refused deterministically.
fn register_with_bad_zero(server: &mut Server, name: &str) -> ClientId {
    for _ in 0..50 {
        let c = server.register_local_client(name.to_string());
        if !verify_workproof(c.0, 0, WORKPROOF_STRENGTH) {
            return c;
        }
    }
    panic!("every candidate had a passing zero witness");
}

#[test]
fn sequence_replay_rejected() {
    let mut server = Server::new(ServerId(0));
    let c1 = server.register_local_client("user1".to_string());
    let seq = Sequence { seqid: 1, src: c1, workproof: proof_for(c1), content: () };
    assert_eq!(server.handle_sequenced_message(seq.clone()), Ok(()));
    // The exact same frame again: refused, nothing advanced.
    assert_eq!(server.handle_sequenced_message(seq), Err(ClientError::SequenceError));
}

#[test]
fn bad_workproof_rejected() {
    let mut server = Server::new(ServerId(0));
    let c1 = register_with_bad_zero(&mut server, "user1");
    let seq = Sequence { seqid: 1, src: c1, workproof: 0, content: () };
    assert_eq!(server.handle_sequenced_message(seq), Err(ClientError::WorkProofError));
    // State unchanged: the same sequence number still goes through.
    let good = Sequence { seqid: 1, src: c1, workproof: proof_for(c1), content: () };
    assert_eq!(server.handle_sequenced_message(good), Ok(()));
}

#[test]
fn lower_and_equal_seqids_rejected() {
    let mut server = Server::new(ServerId(0));
    let c1 = server.register_local_client("user1".to_string());
    let w = proof_for(c1);
    let s5 = Sequence { seqid: 5, src: c1, workproof: w, content: () };
    assert_eq!(server.handle_sequenced_message(s5), Ok(()));
    let s4 = Sequence { seqid: 4, src: c1, workproof: w, content: () };
    assert_eq!(server.handle_sequenced_message(s4), Err(ClientError::SequenceError));
    let s6 = Sequence { seqid: 6, src: c1, workproof: w, content: () };
    assert_eq!(server.handle_sequenced_message(s6), Ok(()));
}

#[test]
fn unknown_client_rejected() {
    let mut server = Server::new(ServerId(0));
    let stranger = ClientId(424242);
    let seq = Sequence { seqid: 1, src: stranger, workproof: proof_for(stranger), content: () };
    assert_eq!(server.handle_sequenced_message(seq), Err(ClientError::UnknownClient));
}

#[test]
fn simple_deliver() {
    let mut server = Server::new(ServerId(0));
    let c1 = server.register_local_client("user 1".to_string());
    let c2 = server.register_local_client("user 2".to_string());
    let r = server.handle_client_message(
        c1,
        ClientMessage::Text { dest: c2, content: "hello".to_string() },
    );
    assert_eq!(r, vec![ClientReply::Delivered]);
    assert_eq!(
        server.client_poll(c2),
        ClientPollReply::Message { src: c1, content: "hello".to_string() }
    );
    assert_eq!(server.client_poll(c2), ClientPollReply::Nothing);
}

#[test]
fn multi_destination() {
    let mut server = Server::new(ServerId(0));
    let c1 = server.register_local_client("a".to_string());
    let c2 = server.register_local_client("b".to_string());
    let c3 = server.register_local_client("c".to_string());
    let r = server.handle_client_message(
        c1,
        ClientMessage::MText { dest: vec![c2, c3], content: "x".to_string() },
    );
    assert_eq!(r, vec![ClientReply::Delivered, ClientReply::Delivered]);
    for c in [c2, c3] {
        assert_eq!(
            server.client_poll(c),
            ClientPollReply::Message { src: c1, content: "x".to_string() }
        );
        assert_eq!(server.client_poll(c), ClientPollReply::Nothing);
    }
}

#[test]
fn mailbox_full() {
    let mut server = Server::new(ServerId(0));
    let c1 = server.register_local_client("a".to_string());
    let c2 = server.register_local_client("b".to_string());
    for i in 0..MAILBOX_SIZE {
        let r = server.handle_client_message(
            c1,
            ClientMessage::Text { dest: c2, content: format!("{}", i) },
        );
        assert_eq!(r, vec![ClientReply::Delivered]);
    }
    let r = server.handle_client_message(
        c1,
        ClientMessage::Text { dest: c2, content: "one too many".to_string() },
    );
    assert_eq!(r, vec![ClientReply::Error(ClientError::BoxFull(c2))]);
    // Draining one makes room for exactly one more.
    assert_eq!(
        server.client_poll(c2),
        ClientPollReply::Message { src: c1, content: "0".to_string() }
    );
    let r = server.handle_client_message(
        c1,
        ClientMessage::Text { dest: c2, content: "fits again".to_string() },
    );
    assert_eq!(r, vec![ClientReply::Delivered]);
}

#[test]
fn poll_unknown_client() {
    let mut server = Server::new(ServerId(0));
    let stranger = ClientId(7);
    assert_eq!(
        server.client_poll(stranger),
        ClientPollReply::DelayedError(DelayedError::UnknownRecipient(stranger))
    );
}

#[test]
fn list_users_shows_locals_only() {
    let mut server = Server::new(ServerId(0));
    let c1 = server.register_local_client("alice".to_string());
    let c2 = server.register_local_client("bob".to_string());
    let e = ClientId(99);
    let r = server.handle_server_message(ServerMessage::Announce {
        route: vec![ServerId(1)],
        clients: vec![(e, "ext".to_string())],
    });
    assert_eq!(r, ServerReply::Outgoing(vec![]));
    let mut users = server.list_users();
    users.sort_by_key(|p| p.1.clone());
    assert_eq!(users, vec![(c1, "alice".to_string()), (c2, "bob".to_string())]);
}

#[test]
fn federation_transfer() {
    let sid = ServerId(0);
    let mut server = Server::new(sid);
    let c1 = server.register_local_client("user 1".to_string());
    let (s1, s2, s3) = (ServerId(101), ServerId(102), ServerId(103));
    let e = ClientId(0xE0E0);
    let r = server.handle_server_message(ServerMessage::Announce {
        route: vec![s1, s2, s3],
        clients: vec![(e, "ext".to_string())],
    });
    assert_eq!(r, ServerReply::Outgoing(vec![]));
    let r = server.handle_client_message(
        c1,
        ClientMessage::Text { dest: e, content: "Hi".to_string() },
    );
    assert_eq!(
        r,
        vec![ClientReply::Transfer(
            s3,
            ServerMessage::Message(FullyQualifiedMessage {
                src: c1,
                srcsrv: sid,
                dsts: vec![(e, s1)],
                content: "Hi".to_string(),
            }),
        )]
    );
}

#[test]
fn empty_route_refused() {
    let mut server = Server::new(ServerId(0));
    let r = server.handle_server_message(ServerMessage::Announce {
        route: vec![],
        clients: vec![(ClientId(1), "x".to_string())],
    });
    assert_eq!(r, ServerReply::EmptyRoute);
}

#[test]
fn route_to_follows_announce() {
    let mut server = Server::new(ServerId(0));
    let (s1, s2, s3) = (ServerId(1), ServerId(2), ServerId(3));
    server.handle_server_message(ServerMessage::Announce {
        route: vec![s1, s2, s3],
        clients: vec![],
    });
    // Stored reversed: next hop first, announcer last.
    assert_eq!(server.route_to(s1), Some(vec![s3, s2, s1]));
    // Only the announcer is a key.
    assert_eq!(server.route_to(s2), None);
}

#[test]
fn shorter_route_wins() {
    let mut server = Server::new(ServerId(0));
    let (s1, s2, s3, s4) = (ServerId(1), ServerId(2), ServerId(3), ServerId(4));
    server.handle_server_message(ServerMessage::Announce {
        route: vec![s1, s2, s3],
        clients: vec![],
    });
    server.handle_server_message(ServerMessage::Announce { route: vec![s1, s4], clients: vec![] });
    assert_eq!(server.route_to(s1), Some(vec![s4, s1]));
    // A route as long as the stored one wins only with a smaller next hop.
    server.handle_server_message(ServerMessage::Announce { route: vec![s1, s2], clients: vec![] });
    assert_eq!(server.route_to(s1), Some(vec![s2, s1]));
    server.handle_server_message(ServerMessage::Announce { route: vec![s1, s3], clients: vec![] });
    assert_eq!(server.route_to(s1), Some(vec![s2, s1]));
}

#[test]
fn delayed_message_drained_by_announce() {
    let sid = ServerId(0);
    let mut server = Server::new(sid);
    let c1 = server.register_local_client("user 1".to_string());
    let u = ClientId(555);
    let r = server.handle_client_message(
        c1,
        ClientMessage::Text { dest: u, content: "early".to_string() },
    );
    assert_eq!(r, vec![ClientReply::Delayed]);
    let (s1, s2, s3) = (ServerId(11), ServerId(12), ServerId(13));
    let r = server.handle_server_message(ServerMessage::Announce {
        route: vec![s1, s2, s3],
        clients: vec![(u, "u".to_string())],
    });
    assert_eq!(
        r,
        ServerReply::Outgoing(vec![chatproto::messages::Outgoing {
            nexthop: s3,
            message: FullyQualifiedMessage {
                src: c1,
                srcsrv: sid,
                dsts: vec![(u, s1)],
                content: "early".to_string(),
            },
        }])
    );
    // Announcing the same thing again changes nothing and drains nothing.
    let r = server.handle_server_message(ServerMessage::Announce {
        route: vec![s1, s2, s3],
        clients: vec![(u, "u".to_string())],
    });
    assert_eq!(r, ServerReply::Outgoing(vec![]));
}

#[test]
fn transit_message_delivered_locally() {
    let sid = ServerId(42);
    let mut server = Server::new(sid);
    let c2 = server.register_local_client("b".to_string());
    let far = ClientId(900);
    let r = server.handle_server_message(ServerMessage::Message(FullyQualifiedMessage {
        src: far,
        srcsrv: ServerId(7),
        dsts: vec![(c2, sid)],
        content: "from afar".to_string(),
    }));
    assert_eq!(r, ServerReply::Outgoing(vec![]));
    assert_eq!(
        server.client_poll(c2),
        ClientPollReply::Message { src: far, content: "from afar".to_string() }
    );
}

#[test]
fn transit_message_forwarded_or_dropped() {
    let sid = ServerId(42);
    let mut server = Server::new(sid);
    let (s1, s2) = (ServerId(1), ServerId(2));
    server.handle_server_message(ServerMessage::Announce { route: vec![s1, s2], clients: vec![] });
    let dc = ClientId(5);
    // A destination server with a known route: forwarded toward its next hop.
    let r = server.handle_server_message(ServerMessage::Message(FullyQualifiedMessage {
        src: ClientId(1),
        srcsrv: ServerId(7),
        dsts: vec![(dc, s1), (dc, ServerId(88))],
        content: "pass on".to_string(),
    }));
    assert_eq!(
        r,
        ServerReply::Outgoing(vec![chatproto::messages::Outgoing {
            nexthop: s2,
            message: FullyQualifiedMessage {
                src: ClientId(1),
                srcsrv: ServerId(7),
                dsts: vec![(dc, s1)],
                content: "pass on".to_string(),
            },
        }])
    );
}

#[test]
fn remote_client_cannot_submit_sequences() {
    let mut server = Server::new(ServerId(0));
    let e = ClientId(333);
    server.handle_server_message(ServerMessage::Announce {
        route: vec![ServerId(1)],
        clients: vec![(e, "ext".to_string())],
    });
    let seq = Sequence { seqid: 1, src: e, workproof: proof_for(e), content: () };
    assert_eq!(server.handle_sequenced_message(seq), Err(ClientError::UnknownClient));
}

#[test]
fn local_never_downgraded_by_announce() {
    let mut server = Server::new(ServerId(0));
    let c1 = server.register_local_client("alice".to_string());
    server.handle_server_message(ServerMessage::Announce {
        route: vec![ServerId(1)],
        clients: vec![(c1, "impostor".to_string())],
    });
    // Still listed as a Local user under the registered name.
    assert_eq!(server.list_users(), vec![(c1, "alice".to_string())]);
    // And still able to submit sequences, as only a Local client can.
    let seq = Sequence { seqid: 1, src: c1, workproof: proof_for(c1), content: () };
    assert_eq!(server.handle_sequenced_message(seq), Ok(()));
}

#[test]
fn fifo_order_kept() {
    let mut server = Server::new(ServerId(0));
    let c1 = server.register_local_client("a".to_string());
    let c2 = server.register_local_client("b".to_string());
    for i in 0..10 {
        server.handle_client_message(
            c1,
            ClientMessage::Text { dest: c2, content: format!("{}", i) },
        );
    }
    for i in 0..10 {
        assert_eq!(
            server.client_poll(c2),
            ClientPollReply::Message { src: c1, content: format!("{}", i) }
        );
    }
}
