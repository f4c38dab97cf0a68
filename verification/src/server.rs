//! The per-server state machine: the table of known clients with their
//! bounded mailboxes, the per-client sequence counters guarded by proof of
//! work, and the routing table learned from announcements. Every handler's
//! effect is stated against a functional model of the state.
use crate::assoc::{keys_distinct, lemma_pairs_to_map_contains, lemma_pairs_to_map_index,
    lemma_pairs_to_map_push, lemma_pairs_to_map_update, pairs_to_map};
use crate::messages::{name_pairs_view, outgoing_view, replies_view, ClientError, ClientId,
    ClientMessage, ClientMessageV, ClientPollReply, ClientPollReplyV, ClientReply, ClientReplyV,
    DelayedError, FullyQualifiedMessage, FullyQualifiedMessageV, Outgoing, OutgoingV, ServerId,
    ServerMessage, ServerMessageV, ServerReply, ServerReplyV};
use crate::workproof::{verify_workproof, workproof_valid};
use crate::{MAILBOX_SIZE, WORKPROOF_STRENGTH};
use vstd::prelude::*;

verus! {

/// What the server knows of one client: registered here, or reachable through
/// a peer server, or not yet resolvable at all.
pub enum ClientKind {
    Local { name: String, last_sequence: u128 },
    Remote { via: Option<ServerId> },
}

/// Mathematical view of [`ClientKind`].
pub ghost enum ClientKindV {
    Local { name: Seq<char>, last_sequence: u128 },
    Remote { via: Option<ServerId> },
}

impl View for ClientKind {
    type V = ClientKindV;

    open spec fn view(&self) -> ClientKindV {
        match self {
            ClientKind::Local { name, last_sequence } => ClientKindV::Local {
                name: name@,
                last_sequence: *last_sequence,
            },
            ClientKind::Remote { via } => ClientKindV::Remote { via: *via },
        }
    }
}

/// One client's record: its kind and its mailbox, a bounded queue of
/// `(sender, text)` entries, oldest first.
pub struct ClientRec {
    pub kind: ClientKind,
    pub mailbox: Vec<(ClientId, String)>,
}

/// Mathematical view of [`ClientRec`].
pub ghost struct ClientRecV {
    pub kind: ClientKindV,
    pub mailbox: Seq<(ClientId, Seq<char>)>,
}

impl View for ClientRec {
    type V = ClientRecV;

    open spec fn view(&self) -> ClientRecV {
        ClientRecV { kind: self.kind@, mailbox: name_pairs_view(self.mailbox@) }
    }
}

/// Mathematical view of [`Server`]: the identifier and the two finite maps.
pub ghost struct ServerV {
    pub id: ServerId,
    pub clients: Map<ClientId, ClientRecV>,
    pub routes: Map<ServerId, Seq<ServerId>>,
}

impl ServerV {
    /// The state invariant: every mailbox respects the bound; every stored
    /// route is nonempty and ends at the server it is keyed under; every
    /// resolved remote client's relay is a known route key.
    pub open spec fn wf(self) -> bool {
        &&& forall|c: ClientId| #[trigger]
            self.clients.contains_key(c) ==> self.clients[c].mailbox.len() <= MAILBOX_SIZE
        &&& forall|d: ServerId| #[trigger]
            self.routes.contains_key(d) ==> self.routes[d].len() > 0 && self.routes[d].last() == d
        &&& forall|c: ClientId| #[trigger]
            self.clients.contains_key(c) ==> match self.clients[c].kind {
                ClientKindV::Remote { via: Some(v) } => self.routes.contains_key(v),
                _ => true,
            }
    }
}

/// A server: its own identifier, the clients it knows, and the routes it has
/// learned. The tables are association lists with pairwise-distinct keys.
pub struct Server {
    id: ServerId,
    clients: Vec<(ClientId, ClientRec)>,
    routes: Vec<(ServerId, Vec<ServerId>)>,
}

/// The view of the client table as a sequence of viewed pairs.
pub open spec fn client_pairs_view(s: Seq<(ClientId, ClientRec)>) -> Seq<(ClientId, ClientRecV)> {
    s.map_values(|p: (ClientId, ClientRec)| (p.0, p.1@))
}

/// The view of the route table as a sequence of viewed pairs.
pub open spec fn route_pairs_view(s: Seq<(ServerId, Vec<ServerId>)>) -> Seq<
    (ServerId, Seq<ServerId>),
> {
    s.map_values(|p: (ServerId, Vec<ServerId>)| (p.0, p.1@))
}

impl View for Server {
    type V = ServerV;

    closed spec fn view(&self) -> ServerV {
        ServerV {
            id: self.id,
            clients: pairs_to_map(client_pairs_view(self.clients@)),
            routes: pairs_to_map(route_pairs_view(self.routes@)),
        }
    }
}

impl Server {
    /// The representation invariant: distinct keys in both tables, and the
    /// state invariant of the view.
    pub closed spec fn wf(self) -> bool {
        &&& keys_distinct(self.clients@)
        &&& keys_distinct(self.routes@)
        &&& self@.wf()
    }

    /// A fresh server with no clients and no routes.
    pub fn new(id: ServerId) -> (r: Server)
        ensures
            r.wf(),
            r@ == (ServerV { id, clients: Map::<ClientId, ClientRecV>::empty(), routes: Map::<
                ServerId,
                Seq<ServerId>,
            >::empty() }),
    {
        let r = Server { id, clients: Vec::new(), routes: Vec::new() };
        proof {
            assert(client_pairs_view(r.clients@) =~= Seq::empty());
            assert(route_pairs_view(r.routes@) =~= Seq::empty());
        }
        r
    }

    /// The position of a client in the table, when it is known.
    fn find_client(&self, id: ClientId) -> (r: Option<usize>)
        ensures
            r matches Some(i) ==> i < self.clients@.len() && self.clients@[i as int].0 == id,
            r is None ==> forall|j: int| 0 <= j < self.clients@.len() ==> self.clients@[j].0 != id,
    {
        let mut i: usize = 0;
        while i < self.clients.len()
            invariant
                i <= self.clients@.len(),
                forall|j: int| 0 <= j < i ==> self.clients@[j].0 != id,
            decreases self.clients@.len() - i,
        {
            if self.clients[i].0 == id {
                return Some(i);
            }
            i = i + 1;
        }
        None
    }

}

/// Relies on `uuid::Uuid::new_v4` for a uniformly random 128-bit identifier;
/// nothing is assumed of the value that comes back.
#[verifier::external_body]
fn random_id_bits() -> u128 {
    uuid::Uuid::new_v4().as_u128()
}

/// Some pair of the table carries the identifier with value `y`.
pub open spec fn has_id(s: Seq<(ClientId, ClientRecV)>, y: u128) -> bool {
    exists|j: int| 0 <= j < s.len() && s[j].0 == ClientId(y)
}

/// If every identifier value up to `x` occurs as a key of a table with
/// pairwise-distinct keys, the table has more than `x` entries.
proof fn lemma_client_id_pigeonhole(s: Seq<(ClientId, ClientRecV)>, x: u128)
    requires
        keys_distinct(s),
        forall|y: u128| y <= x ==> #[trigger] has_id(s, y),
    ensures
        x < s.len(),
    decreases x,
{
    assert(has_id(s, x));
    let jx = choose|j: int| 0 <= j < s.len() && s[j].0 == ClientId(x);
    if x == 0 {
    } else {
        let t = s.subrange(0, jx) + s.subrange(jx + 1, s.len() as int);
        assert(t.len() == s.len() - 1);
        assert forall|k: int| 0 <= k < t.len() implies t[k] == (if k < jx {
            s[k]
        } else {
            s[k + 1]
        }) by {}
        assert(keys_distinct(t)) by {
            assert forall|a: int, b: int| 0 <= a < b < t.len() implies t[a].0 != t[b].0 by {}
        }
        assert forall|y: u128| y <= x - 1 implies #[trigger] has_id(t, y) by {
            assert(has_id(s, y));
            let jy = choose|j: int| 0 <= j < s.len() && s[j].0 == ClientId(y);
            assert(jy != jx);
            if jy < jx {
                assert(t[jy].0 == ClientId(y));
            } else {
                assert(t[jy - 1].0 == ClientId(y));
            }
        }
        lemma_client_id_pigeonhole(t, (x - 1) as u128);
    }
}

impl Server {
    /// An identifier no current client carries. Normally the first random
    /// candidate serves; after a collision the least unused value is taken.
    fn fresh_client_id(&self) -> (r: ClientId)
        requires
            self.wf(),
        ensures
            !self@.clients.contains_key(r),
    {
        let cand = ClientId(random_id_bits());
        if self.find_client(cand).is_none() {
            proof {
                lemma_pairs_to_map_contains(client_pairs_view(self.clients@), cand);
                assert forall|j: int| 0 <= j < client_pairs_view(self.clients@).len() implies
                    client_pairs_view(self.clients@)[j].0 != cand by {
                    assert(self.clients@[j].0 != cand);
                }
            }
            return cand;
        }
        let cap = self.clients.len();
        let mut x: u128 = 0;
        loop
            invariant
                self.wf(),
                self.clients@.len() == cap,
                x <= cap,
                forall|y: u128| y < x ==> #[trigger] has_id(client_pairs_view(self.clients@), y),
            decreases cap - x,
        {
            match self.find_client(ClientId(x)) {
                None => {
                    proof {
                        lemma_pairs_to_map_contains(client_pairs_view(self.clients@), ClientId(x));
                        assert forall|j: int| 0 <= j < client_pairs_view(self.clients@).len()
                            implies client_pairs_view(self.clients@)[j].0 != ClientId(x) by {
                            assert(self.clients@[j].0 != ClientId(x));
                        }
                    }
                    return ClientId(x);
                },
                Some(i) => {
                    proof {
                        assert(client_pairs_view(self.clients@)[i as int].0 == ClientId(x));
                        assert(has_id(client_pairs_view(self.clients@), x));
                        assert forall|y: u128| y <= x implies #[trigger] has_id(
                            client_pairs_view(self.clients@),
                            y,
                        ) by {}
                        assert(keys_distinct(client_pairs_view(self.clients@))) by {
                            assert forall|a: int, b: int|
                                0 <= a < b < client_pairs_view(self.clients@).len() implies
                                client_pairs_view(self.clients@)[a].0 != client_pairs_view(
                                self.clients@,
                            )[b].0 by {
                                assert(self.clients@[a].0 != self.clients@[b].0);
                            }
                        }
                        lemma_client_id_pigeonhole(client_pairs_view(self.clients@), x);
                    }
                    x = x + 1;
                },
            }
        }
    }

    /// Mints a fresh identifier and records a new Local client under it with
    /// the given name, a sequence counter at zero and an empty mailbox.
    pub fn register_local_client(&mut self, name: String) -> (r: ClientId)
        requires
            old(self).wf(),
        ensures
            final(self).wf(),
            !old(self)@.clients.contains_key(r),
            final(self)@ == (ServerV {
                clients: old(self)@.clients.insert(
                    r,
                    ClientRecV {
                        kind: ClientKindV::Local { name: name@, last_sequence: 0 },
                        mailbox: Seq::empty(),
                    },
                ),
                ..old(self)@
            }),
    {
        let id = self.fresh_client_id();
        let rec = ClientRec {
            kind: ClientKind::Local { name, last_sequence: 0 },
            mailbox: Vec::new(),
        };
        let ghost recv = rec@;
        let ghost prev = client_pairs_view(old(self).clients@);
        proof {
            assert(recv.mailbox =~= Seq::<(ClientId, Seq<char>)>::empty());
            lemma_pairs_to_map_contains(prev, id);
            assert forall|i: int| 0 <= i < old(self).clients@.len() implies
                old(self).clients@[i].0 != id by {
                if old(self).clients@[i].0 == id {
                    assert(prev[i].0 == id);
                }
            }
        }
        self.clients.push((id, rec));
        proof {
            assert(client_pairs_view(self.clients@) =~= prev.push((id, recv)));
            lemma_pairs_to_map_push(prev, id, recv);
            assert(keys_distinct(self.clients@)) by {
                assert forall|a: int, b: int| 0 <= a < b < self.clients@.len() implies
                    self.clients@[a].0 != self.clients@[b].0 by {
                    if b < self.clients@.len() - 1 {
                        assert(self.clients@[a] == old(self).clients@[a]);
                        assert(self.clients@[b] == old(self).clients@[b]);
                    } else {
                        assert(self.clients@[a] == old(self).clients@[a]);
                        assert(self.clients@[b].0 == id);
                    }
                }
            }
            assert(self@.clients == old(self)@.clients.insert(id, recv));
            assert(self@.routes == old(self)@.routes);
            assert(recv.mailbox.len() == 0);
            assert forall|c: ClientId| #[trigger] self@.clients.contains_key(c) implies
                self@.clients[c].mailbox.len() <= MAILBOX_SIZE by {
                if c != id {
                    assert(old(self)@.clients.contains_key(c));
                }
            }
            assert forall|c: ClientId| #[trigger] self@.clients.contains_key(c) implies match self@
                .clients[c].kind {
                ClientKindV::Remote { via: Some(v) } => self@.routes.contains_key(v),
                _ => true,
            } by {
                if c != id {
                    assert(old(self)@.clients.contains_key(c));
                }
            }
            assert(self@.wf());
        }
        id
    }
}

/// The admission decision for a sequenced message: the state after it and the
/// error refused with, if any. An accepted message moves the client's counter
/// to the new sequence number and changes nothing else.
pub open spec fn admission(s: ServerV, src: ClientId, seqid: u128, witness: u64) -> (
    ServerV,
    Option<ClientError>,
) {
    if !workproof_valid(src.0, witness, WORKPROOF_STRENGTH) {
        (s, Some(ClientError::WorkProofError))
    } else if !s.clients.contains_key(src) {
        (s, Some(ClientError::UnknownClient))
    } else {
        match s.clients[src].kind {
            ClientKindV::Local { name, last_sequence } => {
                if last_sequence >= seqid {
                    (s, Some(ClientError::SequenceError))
                } else {
                    (
                        ServerV {
                            clients: s.clients.insert(
                                src,
                                ClientRecV {
                                    kind: ClientKindV::Local { name, last_sequence: seqid },
                                    mailbox: s.clients[src].mailbox,
                                },
                            ),
                            ..s
                        },
                        None,
                    )
                }
            },
            ClientKindV::Remote { .. } => (s, Some(ClientError::UnknownClient)),
        }
    }
}

impl Server {
    /// Admits or refuses one sequenced message: the work proof is checked
    /// first, then the submitter must be a Local client, then the sequence
    /// number must strictly exceed the last accepted one; only acceptance
    /// mutates, and only the counter.
    pub fn handle_sequenced_message<T>(&mut self, seq: crate::messages::Sequence<T>) -> (r: Result<
        T,
        ClientError,
    >)
        requires
            old(self).wf(),
        ensures
            final(self).wf(),
            final(self)@ == admission(old(self)@, seq.src, seq.seqid, seq.workproof).0,
            match admission(old(self)@, seq.src, seq.seqid, seq.workproof).1 {
                Some(e) => r == Err::<T, ClientError>(e),
                None => r == Ok::<T, ClientError>(seq.content),
            },
    {
        if !verify_workproof(seq.src.nonce(), seq.workproof, WORKPROOF_STRENGTH) {
            return Err(ClientError::WorkProofError);
        }
        let i = match self.find_client(seq.src) {
            None => {
                proof {
                    lemma_pairs_to_map_contains(client_pairs_view(self.clients@), seq.src);
                    assert forall|j: int| 0 <= j < client_pairs_view(self.clients@).len() implies
                        client_pairs_view(self.clients@)[j].0 != seq.src by {
                        assert(self.clients@[j].0 != seq.src);
                    }
                }
                return Err(ClientError::UnknownClient);
            },
            Some(i) => i,
        };
        proof {
            assert(keys_distinct(client_pairs_view(self.clients@))) by {
                assert forall|a: int, b: int|
                    0 <= a < b < client_pairs_view(self.clients@).len() implies client_pairs_view(
                    self.clients@,
                )[a].0 != client_pairs_view(self.clients@)[b].0 by {
                    assert(self.clients@[a].0 != self.clients@[b].0);
                }
            }
            lemma_pairs_to_map_index(client_pairs_view(self.clients@), i as int);
            assert(client_pairs_view(self.clients@)[i as int].1 == self.clients@[i as int].1@);
        }
        let rec = self.clients.remove(i).1;
        match rec.kind {
            ClientKind::Remote { via } => {
                let back = ClientRec { kind: ClientKind::Remote { via }, mailbox: rec.mailbox };
                self.clients.insert(i, (seq.src, back));
                proof {
                    assert(self.clients@ =~= old(self).clients@);
                    assert(client_pairs_view(self.clients@) =~= client_pairs_view(
                        old(self).clients@,
                    ));
                }
                Err(ClientError::UnknownClient)
            },
            ClientKind::Local { name, last_sequence } => {
                if last_sequence >= seq.seqid {
                    let back = ClientRec {
                        kind: ClientKind::Local { name, last_sequence },
                        mailbox: rec.mailbox,
                    };
                    self.clients.insert(i, (seq.src, back));
                    proof {
                        assert(self.clients@ =~= old(self).clients@);
                        assert(client_pairs_view(self.clients@) =~= client_pairs_view(
                            old(self).clients@,
                        ));
                    }
                    Err(ClientError::SequenceError)
                } else {
                    let ghost name_v = name@;
                    let back = ClientRec {
                        kind: ClientKind::Local { name, last_sequence: seq.seqid },
                        mailbox: rec.mailbox,
                    };
                    self.clients.insert(i, (seq.src, back));
                    proof {
                        let prev = client_pairs_view(old(self).clients@);
                        let newrec = ClientRecV {
                            kind: ClientKindV::Local { name: name_v, last_sequence: seq.seqid },
                            mailbox: prev[i as int].1.mailbox,
                        };
                        assert(self.clients@ =~= old(self).clients@.update(
                            i as int,
                            (seq.src, back),
                        ));
                        assert(client_pairs_view(self.clients@) =~= prev.update(
                            i as int,
                            (seq.src, newrec),
                        ));
                        lemma_pairs_to_map_update(prev, i as int, newrec);
                        assert(keys_distinct(self.clients@));
                        assert(self@.wf());
                    }
                    Ok(seq.content)
                }
            },
        }
    }
}

/// Distinct raw keys give distinct keys in the viewed client table.
proof fn lemma_cpv_distinct(s: Seq<(ClientId, ClientRec)>)
    requires
        keys_distinct(s),
    ensures
        keys_distinct(client_pairs_view(s)),
{
    assert forall|a: int, b: int| 0 <= a < b < client_pairs_view(s).len() implies
        client_pairs_view(s)[a].0 != client_pairs_view(s)[b].0 by {
        assert(s[a].0 != s[b].0);
    }
}

/// The viewed client table at an index gives the denoted map's entry there.
proof fn lemma_cpv_at(s: Seq<(ClientId, ClientRec)>, i: int)
    requires
        keys_distinct(s),
        0 <= i < s.len(),
    ensures
        pairs_to_map(client_pairs_view(s)).contains_key(s[i].0),
        pairs_to_map(client_pairs_view(s))[s[i].0] == s[i].1@,
{
    lemma_cpv_distinct(s);
    lemma_pairs_to_map_index(client_pairs_view(s), i);
}

/// A key no pair of the client table carries is not in the denoted map.
proof fn lemma_cpv_absent(s: Seq<(ClientId, ClientRec)>, id: ClientId)
    requires
        forall|j: int| 0 <= j < s.len() ==> s[j].0 != id,
    ensures
        !pairs_to_map(client_pairs_view(s)).contains_key(id),
{
    lemma_pairs_to_map_contains(client_pairs_view(s), id);
    assert forall|j: int| 0 <= j < client_pairs_view(s).len() implies client_pairs_view(s)[j].0
        != id by {
        assert(s[j].0 != id);
    }
}

/// Distinct raw keys give distinct keys in the viewed route table.
proof fn lemma_rpv_distinct(s: Seq<(ServerId, Vec<ServerId>)>)
    requires
        keys_distinct(s),
    ensures
        keys_distinct(route_pairs_view(s)),
{
    assert forall|a: int, b: int| 0 <= a < b < route_pairs_view(s).len() implies
        route_pairs_view(s)[a].0 != route_pairs_view(s)[b].0 by {
        assert(s[a].0 != s[b].0);
    }
}

/// The viewed route table at an index gives the denoted map's entry there.
proof fn lemma_rpv_at(s: Seq<(ServerId, Vec<ServerId>)>, i: int)
    requires
        keys_distinct(s),
        0 <= i < s.len(),
    ensures
        pairs_to_map(route_pairs_view(s)).contains_key(s[i].0),
        pairs_to_map(route_pairs_view(s))[s[i].0] == s[i].1@,
{
    lemma_rpv_distinct(s);
    lemma_pairs_to_map_index(route_pairs_view(s), i);
}

/// A key no pair of the route table carries is not in the denoted map.
proof fn lemma_rpv_absent(s: Seq<(ServerId, Vec<ServerId>)>, id: ServerId)
    requires
        forall|j: int| 0 <= j < s.len() ==> s[j].0 != id,
    ensures
        !pairs_to_map(route_pairs_view(s)).contains_key(id),
{
    lemma_pairs_to_map_contains(route_pairs_view(s), id);
    assert forall|j: int| 0 <= j < route_pairs_view(s).len() implies route_pairs_view(s)[j].0
        != id by {
        assert(s[j].0 != id);
    }
}

/// Replacing or adding one client record keeps the state invariant, as long
/// as the new record respects the mailbox bound and names a known relay.
proof fn lemma_wf_after_client_update(pre: ServerV, post: ServerV, c: ClientId, rec: ClientRecV)
    requires
        pre.wf(),
        post == (ServerV { clients: pre.clients.insert(c, rec), ..pre }),
        rec.mailbox.len() <= MAILBOX_SIZE,
        match rec.kind {
            ClientKindV::Remote { via: Some(v) } => pre.routes.contains_key(v),
            _ => true,
        },
    ensures
        post.wf(),
{
    assert forall|k: ClientId| #[trigger] post.clients.contains_key(k) implies post.clients[
        k].mailbox.len() <= MAILBOX_SIZE by {
        if k != c {
            assert(pre.clients.contains_key(k));
        }
    }
    assert forall|k: ClientId| #[trigger] post.clients.contains_key(k) implies match post.clients[
        k].kind {
        ClientKindV::Remote { via: Some(v) } => post.routes.contains_key(v),
        _ => true,
    } by {
        if k != c {
            assert(pre.clients.contains_key(k));
        }
    }
}

/// The decision for one message to one destination: deliver into a Local
/// mailbox with room, refuse a full mailbox, buffer for an unknown or
/// unresolved destination, or hand a resolved remote destination on toward
/// its relay's next hop.
pub open spec fn dispatch_one(s: ServerV, src: ClientId, dest: ClientId, content: Seq<char>) -> (
    ServerV,
    ClientReplyV,
) {
    if s.clients.contains_key(dest) {
        let rec = s.clients[dest];
        match rec.kind {
            ClientKindV::Local { .. } => {
                if rec.mailbox.len() >= MAILBOX_SIZE {
                    (s, ClientReplyV::Error(ClientError::BoxFull(dest)))
                } else {
                    (
                        ServerV {
                            clients: s.clients.insert(
                                dest,
                                ClientRecV {
                                    kind: rec.kind,
                                    mailbox: rec.mailbox.push((src, content)),
                                },
                            ),
                            ..s
                        },
                        ClientReplyV::Delivered,
                    )
                }
            },
            ClientKindV::Remote { via: None } => {
                if rec.mailbox.len() >= MAILBOX_SIZE {
                    (s, ClientReplyV::Error(ClientError::BoxFull(dest)))
                } else {
                    (
                        ServerV {
                            clients: s.clients.insert(
                                dest,
                                ClientRecV {
                                    kind: rec.kind,
                                    mailbox: rec.mailbox.push((src, content)),
                                },
                            ),
                            ..s
                        },
                        ClientReplyV::Delayed,
                    )
                }
            },
            ClientKindV::Remote { via: Some(v) } => (
                s,
                ClientReplyV::Transfer(
                    s.routes[v][0],
                    ServerMessageV::Message(
                        FullyQualifiedMessageV {
                            src,
                            srcsrv: s.id,
                            dsts: seq![(dest, v)],
                            content,
                        },
                    ),
                ),
            ),
        }
    } else {
        (
            ServerV {
                clients: s.clients.insert(
                    dest,
                    ClientRecV {
                        kind: ClientKindV::Remote { via: None },
                        mailbox: seq![(src, content)],
                    },
                ),
                ..s
            },
            ClientReplyV::Delayed,
        )
    }
}

/// The decisions for one message to each destination in turn, earlier
/// destinations' effects seen by later ones.
pub open spec fn dispatch_list(
    s: ServerV,
    src: ClientId,
    dests: Seq<ClientId>,
    content: Seq<char>,
) -> (ServerV, Seq<ClientReplyV>)
    decreases dests.len(),
{
    if dests.len() == 0 {
        (s, Seq::empty())
    } else {
        let first = dispatch_one(s, src, dests[0], content);
        let rest = dispatch_list(first.0, src, dests.drop_first(), content);
        (rest.0, seq![first.1] + rest.1)
    }
}

/// One dispatch keeps the state invariant.
pub proof fn lemma_dispatch_one_wf(s: ServerV, src: ClientId, dest: ClientId, content: Seq<char>)
    requires
        s.wf(),
    ensures
        dispatch_one(s, src, dest, content).0.wf(),
{
    let post = dispatch_one(s, src, dest, content).0;
    if s.clients.contains_key(dest) {
        let rec = s.clients[dest];
        match rec.kind {
            ClientKindV::Local { .. } => {
                if rec.mailbox.len() < MAILBOX_SIZE {
                    lemma_wf_after_client_update(
                        s,
                        post,
                        dest,
                        ClientRecV { kind: rec.kind, mailbox: rec.mailbox.push((src, content)) },
                    );
                }
            },
            ClientKindV::Remote { via: None } => {
                if rec.mailbox.len() < MAILBOX_SIZE {
                    lemma_wf_after_client_update(
                        s,
                        post,
                        dest,
                        ClientRecV { kind: rec.kind, mailbox: rec.mailbox.push((src, content)) },
                    );
                }
            },
            ClientKindV::Remote { via: Some(_) } => {},
        }
    } else {
        lemma_wf_after_client_update(
            s,
            post,
            dest,
            ClientRecV {
                kind: ClientKindV::Remote { via: None },
                mailbox: seq![(src, content)],
            },
        );
    }
}

/// A chain of dispatches keeps the state invariant.
pub proof fn lemma_dispatch_list_wf(
    s: ServerV,
    src: ClientId,
    dests: Seq<ClientId>,
    content: Seq<char>,
)
    requires
        s.wf(),
    ensures
        dispatch_list(s, src, dests, content).0.wf(),
    decreases dests.len(),
{
    if dests.len() > 0 {
        lemma_dispatch_one_wf(s, src, dests[0], content);
        lemma_dispatch_list_wf(
            dispatch_one(s, src, dests[0], content).0,
            src,
            dests.drop_first(),
            content,
        );
    }
}

impl Server {
    /// The position of a destination server in the route table, when known.
    fn find_route(&self, id: ServerId) -> (r: Option<usize>)
        ensures
            r matches Some(i) ==> i < self.routes@.len() && self.routes@[i as int].0 == id,
            r is None ==> forall|j: int| 0 <= j < self.routes@.len() ==> self.routes@[j].0 != id,
    {
        let mut i: usize = 0;
        while i < self.routes.len()
            invariant
                i <= self.routes@.len(),
                forall|j: int| 0 <= j < i ==> self.routes@[j].0 != id,
            decreases self.routes@.len() - i,
        {
            if self.routes[i].0 == id {
                return Some(i);
            }
            i = i + 1;
        }
        None
    }

    /// The next hop toward a server a route is known for: the first entry of
    /// the stored route.
    fn route_first(&self, v: ServerId) -> (r: ServerId)
        requires
            self.wf(),
            self@.routes.contains_key(v),
        ensures
            r == self@.routes[v][0],
    {
        match self.find_route(v) {
            Some(j) => {
                proof {
                    lemma_rpv_at(self.routes@, j as int);
                    assert(self@.routes[v].len() > 0);
                }
                self.routes[j].1[0]
            },
            None => {
                proof {
                    lemma_rpv_absent(self.routes@, v);
                }
                v
            },
        }
    }

    /// Decides one message to one destination, as [`dispatch_one`] says.
    pub fn handle_single_message(
        &mut self,
        src: ClientId,
        dest: ClientId,
        content: String,
    ) -> (r: ClientReply)
        requires
            old(self).wf(),
        ensures
            final(self).wf(),
            final(self)@ == dispatch_one(old(self)@, src, dest, content@).0,
            r@ == dispatch_one(old(self)@, src, dest, content@).1,
    {
        let ghost content_v = content@;
        let ghost prev = client_pairs_view(old(self).clients@);
        proof {
            lemma_dispatch_one_wf(old(self)@, src, dest, content_v);
        }
        let i = match self.find_client(dest) {
            None => {
                proof {
                    lemma_cpv_absent(self.clients@, dest);
                }
                let rec = ClientRec {
                    kind: ClientKind::Remote { via: None },
                    mailbox: vec![(src, content)],
                };
                let ghost recv = rec@;
                self.clients.push((dest, rec));
                proof {
                    assert(recv.mailbox =~= seq![(src, content_v)]);
                    assert(client_pairs_view(self.clients@) =~= prev.push((dest, recv)));
                    lemma_pairs_to_map_push(prev, dest, recv);
                    assert(keys_distinct(self.clients@)) by {
                        assert forall|a: int, b: int| 0 <= a < b < self.clients@.len() implies
                            self.clients@[a].0 != self.clients@[b].0 by {
                            if b == self.clients@.len() - 1 {
                                lemma_pairs_to_map_contains(prev, dest);
                                if old(self).clients@[a].0 == dest {
                                    assert(prev[a].0 == dest);
                                }
                            }
                        }
                    }
                }
                return ClientReply::Delayed;
            },
            Some(i) => i,
        };
        proof {
            lemma_cpv_at(self.clients@, i as int);
        }
        let rec = self.clients.remove(i).1;
        let ghost recv = prev[i as int].1;
        match rec.kind {
            ClientKind::Local { name, last_sequence } => {
                if rec.mailbox.len() >= MAILBOX_SIZE {
                    let back = ClientRec {
                        kind: ClientKind::Local { name, last_sequence },
                        mailbox: rec.mailbox,
                    };
                    self.clients.insert(i, (dest, back));
                    proof {
                        assert(self.clients@ =~= old(self).clients@);
                        assert(client_pairs_view(self.clients@) =~= prev);
                    }
                    ClientReply::Error(ClientError::BoxFull(dest))
                } else {
                    let mut mb = rec.mailbox;
                    mb.push((src, content));
                    let back = ClientRec {
                        kind: ClientKind::Local { name, last_sequence },
                        mailbox: mb,
                    };
                    let ghost backv = ClientRecV {
                        kind: recv.kind,
                        mailbox: recv.mailbox.push((src, content_v)),
                    };
                    self.clients.insert(i, (dest, back));
                    proof {
                        assert(name_pairs_view(back.mailbox@) =~= recv.mailbox.push(
                            (src, content_v),
                        ));
                        assert(self.clients@ =~= old(self).clients@.update(i as int, (dest, back)));
                        assert(client_pairs_view(self.clients@) =~= prev.update(
                            i as int,
                            (dest, backv),
                        ));
                        lemma_cpv_distinct(old(self).clients@);
                        lemma_pairs_to_map_update(prev, i as int, backv);
                        assert(keys_distinct(self.clients@));
                    }
                    ClientReply::Delivered
                }
            },
            ClientKind::Remote { via: None } => {
                if rec.mailbox.len() >= MAILBOX_SIZE {
                    let back = ClientRec {
                        kind: ClientKind::Remote { via: None },
                        mailbox: rec.mailbox,
                    };
                    self.clients.insert(i, (dest, back));
                    proof {
                        assert(self.clients@ =~= old(self).clients@);
                        assert(client_pairs_view(self.clients@) =~= prev);
                    }
                    ClientReply::Error(ClientError::BoxFull(dest))
                } else {
                    let mut mb = rec.mailbox;
                    mb.push((src, content));
                    let back = ClientRec {
                        kind: ClientKind::Remote { via: None },
                        mailbox: mb,
                    };
                    let ghost backv = ClientRecV {
                        kind: recv.kind,
                        mailbox: recv.mailbox.push((src, content_v)),
                    };
                    self.clients.insert(i, (dest, back));
                    proof {
                        assert(name_pairs_view(back.mailbox@) =~= recv.mailbox.push(
                            (src, content_v),
                        ));
                        assert(self.clients@ =~= old(self).clients@.update(i as int, (dest, back)));
                        assert(client_pairs_view(self.clients@) =~= prev.update(
                            i as int,
                            (dest, backv),
                        ));
                        lemma_cpv_distinct(old(self).clients@);
                        lemma_pairs_to_map_update(prev, i as int, backv);
                        assert(keys_distinct(self.clients@));
                    }
                    ClientReply::Delayed
                }
            },
            ClientKind::Remote { via: Some(v) } => {
                let back = ClientRec { kind: ClientKind::Remote { via: Some(v) }, mailbox: rec.mailbox };
                self.clients.insert(i, (dest, back));
                proof {
                    assert(self.clients@ =~= old(self).clients@);
                    assert(client_pairs_view(self.clients@) =~= prev);
                }
                let nexthop = self.route_first(v);
                let mut dvec: Vec<(ClientId, ServerId)> = Vec::new();
                dvec.push((dest, v));
                proof {
                    assert(dvec@ =~= seq![(dest, v)]);
                }
                let reply = ClientReply::Transfer(
                    nexthop,
                    ServerMessage::Message(
                        FullyQualifiedMessage {
                            src,
                            srcsrv: self.id,
                            dsts: dvec,
                            content,
                        },
                    ),
                );
                reply
            },
        }
    }

    /// Decides a client's message: one reply for its single destination, or
    /// one reply per destination in order for a multi-destination message.
    pub fn handle_client_message(&mut self, src: ClientId, msg: ClientMessage) -> (r: Vec<
        ClientReply,
    >)
        requires
            old(self).wf(),
        ensures
            final(self).wf(),
            final(self)@ == dispatch_list(
                old(self)@,
                src,
                msg_dests(msg@),
                msg_content(msg@),
            ).0,
            replies_view(r@) == dispatch_list(old(self)@, src, msg_dests(msg@), msg_content(msg@)).1,
    {
        match msg {
            ClientMessage::Text { dest, content } => {
                let ghost content_v = content@;
                let rep = self.handle_single_message(src, dest, content);
                let mut out: Vec<ClientReply> = Vec::new();
                out.push(rep);
                proof {
                    let dests = seq![dest];
                    let first = dispatch_one(old(self)@, src, dest, content_v);
                    assert(dests[0] == dest);
                    assert(dests.drop_first().len() == 0);
                    assert(dispatch_list(first.0, src, dests.drop_first(), content_v) == (
                        first.0,
                        Seq::<ClientReplyV>::empty(),
                    ));
                    assert(dispatch_list(old(self)@, src, dests, content_v).0 == first.0);
                    assert(dispatch_list(old(self)@, src, dests, content_v).1 =~= seq![first.1]);
                    assert(replies_view(out@) =~= seq![rep@]);
                }
                out
            },
            ClientMessage::MText { dest, content } => {
                let ghost dests = dest@;
                let ghost content_v = content@;
                let mut out: Vec<ClientReply> = Vec::new();
                let mut k: usize = 0;
                proof {
                    assert(dests.skip(0) =~= dests);
                    assert(replies_view(out@) =~= Seq::<ClientReplyV>::empty());
                }
                while k < dest.len()
                    invariant
                        k <= dests.len(),
                        dest@ == dests,
                        content@ == content_v,
                        self.wf(),
                        dispatch_list(old(self)@, src, dests, content_v).0 == dispatch_list(
                            self@,
                            src,
                            dests.skip(k as int),
                            content_v,
                        ).0,
                        dispatch_list(old(self)@, src, dests, content_v).1 == replies_view(out@)
                            + dispatch_list(self@, src, dests.skip(k as int), content_v).1,
                    decreases dests.len() - k,
                {
                    let ghost pre = self@;
                    let ghost out_pre = out@;
                    let d = dest[k];
                    let rep = self.handle_single_message(src, d, content.clone());
                    out.push(rep);
                    proof {
                        assert(dests.skip(k as int)[0] == d);
                        assert(dests.skip(k as int).drop_first() =~= dests.skip(k as int + 1));
                        assert(replies_view(out@) =~= replies_view(out_pre).push(rep@));
                        assert(replies_view(out_pre) + dispatch_list(
                            pre,
                            src,
                            dests.skip(k as int),
                            content_v,
                        ).1 =~= replies_view(out@) + dispatch_list(
                            self@,
                            src,
                            dests.skip(k as int + 1),
                            content_v,
                        ).1);
                    }
                    k = k + 1;
                }
                proof {
                    assert(dests.skip(dests.len() as int) =~= Seq::<ClientId>::empty());
                    assert(replies_view(out@) + Seq::<ClientReplyV>::empty() =~= replies_view(
                        out@,
                    ));
                }
                out
            },
        }
    }
}

/// The decision for a poll: an error for an unknown client, nothing for an
/// empty mailbox, else the oldest entry leaves the mailbox and comes back.
pub open spec fn poll_spec(s: ServerV, client: ClientId) -> (ServerV, ClientPollReplyV) {
    if !s.clients.contains_key(client) {
        (s, ClientPollReplyV::DelayedError(DelayedError::UnknownRecipient(client)))
    } else {
        let rec = s.clients[client];
        if rec.mailbox.len() == 0 {
            (s, ClientPollReplyV::Nothing)
        } else {
            (
                ServerV {
                    clients: s.clients.insert(
                        client,
                        ClientRecV { kind: rec.kind, mailbox: rec.mailbox.drop_first() },
                    ),
                    ..s
                },
                ClientPollReplyV::Message { src: rec.mailbox[0].0, content: rec.mailbox[0].1 },
            )
        }
    }
}

impl Server {
    /// Hands a client the oldest entry of its mailbox, as [`poll_spec`] says.
    pub fn client_poll(&mut self, client: ClientId) -> (r: ClientPollReply)
        requires
            old(self).wf(),
        ensures
            final(self).wf(),
            final(self)@ == poll_spec(old(self)@, client).0,
            r@ == poll_spec(old(self)@, client).1,
    {
        let ghost prev = client_pairs_view(old(self).clients@);
        let i = match self.find_client(client) {
            None => {
                proof {
                    lemma_cpv_absent(self.clients@, client);
                }
                return ClientPollReply::DelayedError(DelayedError::UnknownRecipient(client));
            },
            Some(i) => i,
        };
        proof {
            lemma_cpv_at(self.clients@, i as int);
        }
        let rec = self.clients.remove(i).1;
        let ghost recv = prev[i as int].1;
        let ClientRec { kind, mailbox } = rec;
        if mailbox.len() == 0 {
            self.clients.insert(i, (client, ClientRec { kind, mailbox }));
            proof {
                assert(self.clients@ =~= old(self).clients@);
                assert(client_pairs_view(self.clients@) =~= prev);
                assert(recv.mailbox.len() == 0);
            }
            ClientPollReply::Nothing
        } else {
            let mut mb = mailbox;
            let entry = mb.remove(0);
            let back = ClientRec { kind, mailbox: mb };
            let ghost backv = ClientRecV { kind: recv.kind, mailbox: recv.mailbox.drop_first() };
            self.clients.insert(i, (client, back));
            proof {
                assert(name_pairs_view(back.mailbox@) =~= recv.mailbox.drop_first());
                assert(self.clients@ =~= old(self).clients@.update(i as int, (client, back)));
                assert(client_pairs_view(self.clients@) =~= prev.update(i as int, (client, backv)));
                lemma_cpv_distinct(old(self).clients@);
                lemma_pairs_to_map_update(prev, i as int, backv);
                assert(keys_distinct(self.clients@));
                lemma_wf_after_client_update(old(self)@, self@, client, backv);
                assert(recv.mailbox[0] == (entry.0, entry.1@));
            }
            ClientPollReply::Message { src: entry.0, content: entry.1 }
        }
    }
}

/// The sequence of `(identifier, name)` pairs of the Local clients of a
/// table, in table order.
pub open spec fn locals_of(s: Seq<(ClientId, ClientRecV)>) -> Seq<(ClientId, Seq<char>)>
    decreases s.len(),
{
    if s.len() == 0 {
        Seq::empty()
    } else {
        let rest = locals_of(s.drop_last());
        match s.last().1.kind {
            ClientKindV::Local { name, .. } => rest.push((s.last().0, name)),
            ClientKindV::Remote { .. } => rest,
        }
    }
}

/// The names of the Local clients of a state, as a finite map.
pub open spec fn local_names(v: ServerV) -> Map<ClientId, Seq<char>> {
    Map::new(
        |c: ClientId| v.clients.contains_key(c) && v.clients[c].kind matches ClientKindV::Local {
            ..
        },
        |c: ClientId|
            match v.clients[c].kind {
                ClientKindV::Local { name, .. } => name,
                ClientKindV::Remote { .. } => Seq::empty(),
            },
    )
}

/// The Local pairs of a distinct-keyed table have distinct keys drawn from
/// the table, and denote exactly the map of Local names.
proof fn lemma_locals_of(s: Seq<(ClientId, ClientRecV)>)
    requires
        keys_distinct(s),
    ensures
        keys_distinct(locals_of(s)),
        forall|j: int| 0 <= j < locals_of(s).len() ==> #[trigger] pairs_to_map(s).contains_key(
            locals_of(s)[j].0,
        ),
        pairs_to_map(locals_of(s)) =~= Map::new(
            |c: ClientId| pairs_to_map(s).contains_key(c) && pairs_to_map(s)[c].kind matches
                ClientKindV::Local { .. },
            |c: ClientId|
                match pairs_to_map(s)[c].kind {
                    ClientKindV::Local { name, .. } => name,
                    ClientKindV::Remote { .. } => Seq::empty(),
                },
        ),
    decreases s.len(),
{
    let goal = Map::new(
        |c: ClientId| pairs_to_map(s).contains_key(c) && pairs_to_map(s)[c].kind matches
            ClientKindV::Local { .. },
        |c: ClientId|
            match pairs_to_map(s)[c].kind {
                ClientKindV::Local { name, .. } => name,
                ClientKindV::Remote { .. } => Seq::empty(),
            },
    );
    if s.len() == 0 {
        assert(pairs_to_map(locals_of(s)) =~= goal);
    } else {
        let d = s.drop_last();
        assert(keys_distinct(d));
        lemma_locals_of(d);
        lemma_pairs_to_map_contains(d, s.last().0);
        assert(!pairs_to_map(d).contains_key(s.last().0)) by {
            if exists|i: int| 0 <= i < d.len() && d[i].0 == s.last().0 {
                let i = choose|i: int| 0 <= i < d.len() && d[i].0 == s.last().0;
                assert(s[i].0 == s[s.len() - 1].0);
            }
        }
        match s.last().1.kind {
            ClientKindV::Local { name, .. } => {
                let rest = locals_of(d);
                assert(locals_of(s) == rest.push((s.last().0, name)));
                assert forall|j: int| 0 <= j < locals_of(s).len() implies #[trigger] pairs_to_map(
                    s,
                ).contains_key(locals_of(s)[j].0) by {
                    if j < rest.len() {
                        assert(pairs_to_map(d).contains_key(rest[j].0));
                    }
                }
                assert(keys_distinct(locals_of(s))) by {
                    assert forall|a: int, b: int| 0 <= a < b < locals_of(s).len() implies
                        locals_of(s)[a].0 != locals_of(s)[b].0 by {
                        if b == locals_of(s).len() - 1 {
                            assert(pairs_to_map(d).contains_key(rest[a].0));
                        }
                    }
                }
                lemma_pairs_to_map_push(rest, s.last().0, name);
                assert(pairs_to_map(locals_of(s)) =~= goal);
            },
            ClientKindV::Remote { .. } => {
                assert(locals_of(s) == locals_of(d));
                assert forall|j: int| 0 <= j < locals_of(s).len() implies #[trigger] pairs_to_map(
                    s,
                ).contains_key(locals_of(s)[j].0) by {
                    assert(pairs_to_map(d).contains_key(locals_of(d)[j].0));
                }
                assert(pairs_to_map(locals_of(s)) =~= goal);
            },
        }
    }
}

impl Server {
    /// The names of all Local clients; Remote clients do not appear. The
    /// order of the pairs carries no meaning.
    pub fn list_users(&self) -> (r: Vec<(ClientId, String)>)
        requires
            self.wf(),
        ensures
            keys_distinct(name_pairs_view(r@)),
            pairs_to_map(name_pairs_view(r@)) == local_names(self@),
    {
        let ghost cpv = client_pairs_view(self.clients@);
        let mut out: Vec<(ClientId, String)> = Vec::new();
        let mut i: usize = 0;
        proof {
            assert(cpv.take(0) =~= Seq::empty());
            assert(name_pairs_view(out@) =~= Seq::empty());
        }
        while i < self.clients.len()
            invariant
                i <= self.clients@.len(),
                cpv == client_pairs_view(self.clients@),
                name_pairs_view(out@) == locals_of(cpv.take(i as int)),
            decreases self.clients@.len() - i,
        {
            let ghost out_pre = out@;
            let pair = &self.clients[i];
            match &pair.1.kind {
                ClientKind::Local { name, .. } => {
                    out.push((pair.0, name.clone()));
                },
                ClientKind::Remote { .. } => {},
            }
            proof {
                let t = cpv.take(i as int + 1);
                assert(t.drop_last() =~= cpv.take(i as int));
                assert(t.last() == cpv[i as int]);
                match self.clients@[i as int].1.kind@ {
                    ClientKindV::Local { name: nm, .. } => {
                        assert(name_pairs_view(out@) =~= name_pairs_view(out_pre).push(
                            (self.clients@[i as int].0, nm),
                        ));
                    },
                    ClientKindV::Remote { .. } => {
                        assert(name_pairs_view(out@) =~= name_pairs_view(out_pre));
                    },
                }
            }
            i = i + 1;
        }
        proof {
            assert(cpv.take(self.clients@.len() as int) =~= cpv);
            lemma_cpv_distinct(self.clients@);
            lemma_locals_of(cpv);
            assert(pairs_to_map(name_pairs_view(out@)) =~= local_names(self@));
        }
        out
    }

    /// The stored route toward a destination, when one is known: it begins
    /// with the next hop from here and ends with the destination itself.
    pub fn route_to(&self, destination: ServerId) -> (r: Option<Vec<ServerId>>)
        requires
            self.wf(),
        ensures
            r is Some <==> self@.routes.contains_key(destination),
            r matches Some(v) ==> {
                &&& v@ == self@.routes[destination]
                &&& v@.len() > 0
                &&& v@.last() == destination
            },
    {
        match self.find_route(destination) {
            None => {
                proof {
                    lemma_rpv_absent(self.routes@, destination);
                }
                None
            },
            Some(j) => {
                proof {
                    lemma_rpv_at(self.routes@, j as int);
                }
                let stored = &self.routes[j].1;
                let mut out: Vec<ServerId> = Vec::new();
                let mut k: usize = 0;
                proof {
                    assert(out@ =~= stored@.take(0));
                }
                while k < stored.len()
                    invariant
                        k <= stored@.len(),
                        out@ == stored@.take(k as int),
                    decreases stored@.len() - k,
                {
                    out.push(stored[k]);
                    proof {
                        assert(stored@.take(k as int + 1) =~= stored@.take(k as int).push(
                            stored@[k as int],
                        ));
                    }
                    k = k + 1;
                }
                proof {
                    assert(stored@.take(stored@.len() as int) =~= stored@);
                    assert(out@ =~= self@.routes[destination]);
                }
                Some(out)
            },
        }
    }
}

/// Whether a newly learned route wins over a stored one: strictly fewer hops,
/// or as many hops through a smaller next-hop identifier.
pub open spec fn better_route(new: Seq<ServerId>, old: Seq<ServerId>) -> bool {
    ||| new.len() < old.len()
    ||| (new.len() == old.len() && new[0].0 < old[0].0)
}

/// The routing table after an announcement whose wire route is `route`,
/// ordered from the announcing server to the neighbor who forwarded it: the
/// reversed route is stored under the announcer, unless a route at least as
/// good is already held.
pub open spec fn announce_routes(s: ServerV, route: Seq<ServerId>) -> Map<ServerId, Seq<ServerId>>
    recommends
        route.len() > 0,
{
    let dst = route[0];
    let stored = route.reverse();
    if !s.routes.contains_key(dst) || better_route(stored, s.routes[dst]) {
        s.routes.insert(dst, stored)
    } else {
        s.routes
    }
}

/// One announced client: a Local record is never touched; any other record
/// is created or re-pointed at the announcer, and whatever its mailbox had
/// buffered leaves as outgoing frames toward the neighbor, in mailbox order.
pub open spec fn announce_client(
    s: ServerV,
    dst: ServerId,
    nexthop: ServerId,
    c: ClientId,
) -> (ServerV, Seq<OutgoingV>) {
    if s.clients.contains_key(c) && s.clients[c].kind matches ClientKindV::Local { .. } {
        (s, Seq::empty())
    } else {
        let old_mb: Seq<(ClientId, Seq<char>)> = if s.clients.contains_key(c) {
            s.clients[c].mailbox
        } else {
            Seq::empty()
        };
        let outs = old_mb.map_values(
            |m: (ClientId, Seq<char>)| OutgoingV {
                nexthop,
                message: FullyQualifiedMessageV {
                    src: m.0,
                    srcsrv: s.id,
                    dsts: seq![(c, dst)],
                    content: m.1,
                },
            },
        );
        (
            ServerV {
                clients: s.clients.insert(
                    c,
                    ClientRecV {
                        kind: ClientKindV::Remote { via: Some(dst) },
                        mailbox: Seq::empty(),
                    },
                ),
                ..s
            },
            outs,
        )
    }
}

/// Every announced client in turn, outgoing frames concatenated in order.
pub open spec fn announce_clients(
    s: ServerV,
    dst: ServerId,
    nexthop: ServerId,
    cs: Seq<(ClientId, Seq<char>)>,
) -> (ServerV, Seq<OutgoingV>)
    decreases cs.len(),
{
    if cs.len() == 0 {
        (s, Seq::empty())
    } else {
        let first = announce_client(s, dst, nexthop, cs[0].0);
        let rest = announce_clients(first.0, dst, nexthop, cs.drop_first());
        (rest.0, first.1 + rest.1)
    }
}

/// A whole announcement: an empty route is refused; otherwise the route is
/// learned and every announced client resolved.
pub open spec fn announce_spec(
    s: ServerV,
    route: Seq<ServerId>,
    cs: Seq<(ClientId, Seq<char>)>,
) -> (ServerV, ServerReplyV) {
    if route.len() == 0 {
        (s, ServerReplyV::EmptyRoute)
    } else {
        let s1 = ServerV { routes: announce_routes(s, route), ..s };
        let r = announce_clients(s1, route[0], route.last(), cs);
        (r.0, ServerReplyV::Outgoing(r.1))
    }
}

/// One destination of a message in transit: delivered into the mailbox of a
/// Local client addressed at this server, when there is room; otherwise
/// forwarded toward its server when a route is known; dropped when not, and
/// likewise dropped, rather than overflowing, into a full mailbox.
pub open spec fn forward_one(
    s: ServerV,
    src: ClientId,
    srcsrv: ServerId,
    content: Seq<char>,
    dc: ClientId,
    ds: ServerId,
) -> (ServerV, Seq<OutgoingV>) {
    if ds == s.id && s.clients.contains_key(dc) && s.clients[dc].kind matches ClientKindV::Local {
        ..
    } {
        let rec = s.clients[dc];
        if rec.mailbox.len() >= MAILBOX_SIZE {
            (s, Seq::empty())
        } else {
            (
                ServerV {
                    clients: s.clients.insert(
                        dc,
                        ClientRecV { kind: rec.kind, mailbox: rec.mailbox.push((src, content)) },
                    ),
                    ..s
                },
                Seq::empty(),
            )
        }
    } else if s.routes.contains_key(ds) {
        (
            s,
            seq![
                OutgoingV {
                    nexthop: s.routes[ds][0],
                    message: FullyQualifiedMessageV {
                        src,
                        srcsrv,
                        dsts: seq![(dc, ds)],
                        content,
                    },
                },
            ],
        )
    } else {
        (s, Seq::empty())
    }
}

/// Every destination of a message in transit, in order.
pub open spec fn forward_list(
    s: ServerV,
    src: ClientId,
    srcsrv: ServerId,
    content: Seq<char>,
    dsts: Seq<(ClientId, ServerId)>,
) -> (ServerV, Seq<OutgoingV>)
    decreases dsts.len(),
{
    if dsts.len() == 0 {
        (s, Seq::empty())
    } else {
        let first = forward_one(s, src, srcsrv, content, dsts[0].0, dsts[0].1);
        let rest = forward_list(first.0, src, srcsrv, content, dsts.drop_first());
        (rest.0, first.1 + rest.1)
    }
}

/// What one server-to-server frame does to the state, and what comes back.
pub open spec fn server_msg_spec(s: ServerV, m: ServerMessageV) -> (ServerV, ServerReplyV) {
    match m {
        ServerMessageV::Announce { route, clients } => announce_spec(s, route, clients),
        ServerMessageV::Message(f) => {
            let r = forward_list(s, f.src, f.srcsrv, f.content, f.dsts);
            (r.0, ServerReplyV::Outgoing(r.1))
        },
    }
}

/// Learning an announced route keeps the state invariant.
proof fn lemma_announce_routes_wf(s: ServerV, route: Seq<ServerId>)
    requires
        s.wf(),
        route.len() > 0,
    ensures
        (ServerV { routes: announce_routes(s, route), ..s }).wf(),
{
    let post = ServerV { routes: announce_routes(s, route), ..s };
    let stored = route.reverse();
    assert(stored.len() == route.len());
    assert(stored.last() == route[0]);
    assert forall|d: ServerId| #[trigger] post.routes.contains_key(d) implies post.routes[d].len()
        > 0 && post.routes[d].last() == d by {
        if d != route[0] || !announce_routes(s, route).contains_key(route[0]) {
            assert(s.routes.contains_key(d) ==> s.routes[d].len() > 0 && s.routes[d].last() == d);
        }
    }
    assert forall|c: ClientId| #[trigger] post.clients.contains_key(c) implies match post.clients[
        c].kind {
        ClientKindV::Remote { via: Some(v) } => post.routes.contains_key(v),
        _ => true,
    } by {
        assert(s.clients.contains_key(c));
        match s.clients[c].kind {
            ClientKindV::Remote { via: Some(v) } => {
                assert(s.routes.contains_key(v));
            },
            _ => {},
        }
    }
}

/// Resolving one announced client keeps the state invariant, when the
/// announcer's route is held.
proof fn lemma_announce_client_wf(s: ServerV, dst: ServerId, nexthop: ServerId, c: ClientId)
    requires
        s.wf(),
        s.routes.contains_key(dst),
    ensures
        announce_client(s, dst, nexthop, c).0.wf(),
{
    let post = announce_client(s, dst, nexthop, c).0;
    if s.clients.contains_key(c) && s.clients[c].kind matches ClientKindV::Local { .. } {
    } else {
        lemma_wf_after_client_update(
            s,
            post,
            c,
            ClientRecV { kind: ClientKindV::Remote { via: Some(dst) }, mailbox: Seq::empty() },
        );
    }
}

/// Resolving a list of announced clients keeps the state invariant, when the
/// announcer's route is held.
proof fn lemma_announce_clients_wf(
    s: ServerV,
    dst: ServerId,
    nexthop: ServerId,
    cs: Seq<(ClientId, Seq<char>)>,
)
    requires
        s.wf(),
        s.routes.contains_key(dst),
    ensures
        announce_clients(s, dst, nexthop, cs).0.wf(),
        announce_clients(s, dst, nexthop, cs).0.routes == s.routes,
        announce_clients(s, dst, nexthop, cs).0.id == s.id,
    decreases cs.len(),
{
    if cs.len() > 0 {
        lemma_announce_client_wf(s, dst, nexthop, cs[0].0);
        lemma_announce_clients_wf(
            announce_client(s, dst, nexthop, cs[0].0).0,
            dst,
            nexthop,
            cs.drop_first(),
        );
    }
}

/// A whole announcement keeps the state invariant.
pub proof fn lemma_announce_wf(s: ServerV, route: Seq<ServerId>, cs: Seq<(ClientId, Seq<char>)>)
    requires
        s.wf(),
    ensures
        announce_spec(s, route, cs).0.wf(),
{
    if route.len() > 0 {
        lemma_announce_routes_wf(s, route);
        let s1 = ServerV { routes: announce_routes(s, route), ..s };
        assert(s1.routes.contains_key(route[0])) by {
            if s.routes.contains_key(route[0]) {
            }
        }
        lemma_announce_clients_wf(s1, route[0], route.last(), cs);
    }
}

/// One delivery or forwarding step keeps the state invariant.
proof fn lemma_forward_one_wf(
    s: ServerV,
    src: ClientId,
    srcsrv: ServerId,
    content: Seq<char>,
    dc: ClientId,
    ds: ServerId,
)
    requires
        s.wf(),
    ensures
        forward_one(s, src, srcsrv, content, dc, ds).0.wf(),
        forward_one(s, src, srcsrv, content, dc, ds).0.routes == s.routes,
        forward_one(s, src, srcsrv, content, dc, ds).0.id == s.id,
{
    let post = forward_one(s, src, srcsrv, content, dc, ds).0;
    if ds == s.id && s.clients.contains_key(dc) && s.clients[dc].kind
        matches ClientKindV::Local { .. } {
        let rec = s.clients[dc];
        if rec.mailbox.len() < MAILBOX_SIZE {
            lemma_wf_after_client_update(
                s,
                post,
                dc,
                ClientRecV { kind: rec.kind, mailbox: rec.mailbox.push((src, content)) },
            );
        }
    }
}

/// A whole transit message keeps the state invariant.
pub proof fn lemma_forward_list_wf(
    s: ServerV,
    src: ClientId,
    srcsrv: ServerId,
    content: Seq<char>,
    dsts: Seq<(ClientId, ServerId)>,
)
    requires
        s.wf(),
    ensures
        forward_list(s, src, srcsrv, content, dsts).0.wf(),
    decreases dsts.len(),
{
    if dsts.len() > 0 {
        lemma_forward_one_wf(s, src, srcsrv, content, dsts[0].0, dsts[0].1);
        lemma_forward_list_wf(
            forward_one(s, src, srcsrv, content, dsts[0].0, dsts[0].1).0,
            src,
            srcsrv,
            content,
            dsts.drop_first(),
        );
    }
}

impl Server {
    /// Learns an announced route when it is new or better than the stored one.
    fn learn_route(&mut self, route: &Vec<ServerId>)
        requires
            old(self).wf(),
            route@.len() > 0,
        ensures
            final(self).wf(),
            final(self)@ == (ServerV { routes: announce_routes(old(self)@, route@), ..old(
                self,
            )@ }),
    {
        proof {
            lemma_announce_routes_wf(old(self)@, route@);
        }
        let dst = route[0];
        let mut stored: Vec<ServerId> = Vec::new();
        let mut k: usize = 0;
        proof {
            assert(stored@ =~= route@.reverse().take(0));
        }
        while k < route.len()
            invariant
                k <= route@.len(),
                stored@ == route@.reverse().take(k as int),
            decreases route@.len() - k,
        {
            stored.push(route[route.len() - 1 - k]);
            proof {
                assert(route@.reverse()[k as int] == route@[route@.len() - 1 - k]);
                assert(route@.reverse().take(k as int + 1) =~= route@.reverse().take(
                    k as int,
                ).push(route@.reverse()[k as int]));
            }
            k = k + 1;
        }
        proof {
            assert(stored@ =~= route@.reverse());
        }
        let ghost storedv = stored@;
        let ghost prev = route_pairs_view(old(self).routes@);
        match self.find_route(dst) {
            None => {
                proof {
                    lemma_rpv_absent(self.routes@, dst);
                    assert forall|i: int| 0 <= i < old(self).routes@.len() implies
                        old(self).routes@[i].0 != dst by {
                        if old(self).routes@[i].0 == dst {
                            assert(prev[i].0 == dst);
                            lemma_pairs_to_map_contains(prev, dst);
                        }
                    }
                }
                self.routes.push((dst, stored));
                proof {
                    assert(route_pairs_view(self.routes@) =~= prev.push((dst, storedv)));
                    lemma_pairs_to_map_push(prev, dst, storedv);
                    assert(keys_distinct(self.routes@)) by {
                        assert forall|a: int, b: int| 0 <= a < b < self.routes@.len() implies
                            self.routes@[a].0 != self.routes@[b].0 by {
                            if b == self.routes@.len() - 1 {
                                assert(old(self).routes@[a].0 != dst);
                            }
                        }
                    }
                }
            },
            Some(j) => {
                proof {
                    lemma_rpv_at(self.routes@, j as int);
                    assert(self@.routes[dst].len() > 0);
                }
                let better = stored.len() < self.routes[j].1.len() || (stored.len()
                    == self.routes[j].1.len() && stored[0].0 < self.routes[j].1[0].0);
                if better {
                    let _old_entry = self.routes.remove(j);
                    self.routes.insert(j, (dst, stored));
                    proof {
                        assert(self.routes@ =~= old(self).routes@.update(
                            j as int,
                            (dst, _old_entry.1),
                        ).update(j as int, self.routes@[j as int]));
                        assert(self.routes@ =~= old(self).routes@.update(
                            j as int,
                            self.routes@[j as int],
                        ));
                        assert(self.routes@[j as int].1@ == storedv);
                        assert(route_pairs_view(self.routes@) =~= prev.update(
                            j as int,
                            (dst, storedv),
                        ));
                        lemma_rpv_distinct(old(self).routes@);
                        lemma_pairs_to_map_update(prev, j as int, storedv);
                        assert(keys_distinct(self.routes@));
                        assert(self@.routes =~= announce_routes(old(self)@, route@));
                    }
                } else {
                    proof {
                        assert(self@.routes =~= announce_routes(old(self)@, route@));
                    }
                }
            },
        }
    }

    /// Resolves one announced client and drains what its mailbox buffered.
    fn resolve_announced_client(&mut self, dst: ServerId, nexthop: ServerId, c: ClientId) -> (r:
        Vec<Outgoing>)
        requires
            old(self).wf(),
            old(self)@.routes.contains_key(dst),
        ensures
            final(self).wf(),
            final(self)@ == announce_client(old(self)@, dst, nexthop, c).0,
            outgoing_view(r@) == announce_client(old(self)@, dst, nexthop, c).1,
    {
        let ghost prev = client_pairs_view(old(self).clients@);
        proof {
            lemma_announce_client_wf(old(self)@, dst, nexthop, c);
        }
        match self.find_client(c) {
            None => {
                proof {
                    lemma_cpv_absent(self.clients@, c);
                }
                let rec = ClientRec {
                    kind: ClientKind::Remote { via: Some(dst) },
                    mailbox: Vec::new(),
                };
                let ghost recv = rec@;
                self.clients.push((c, rec));
                let out: Vec<Outgoing> = Vec::new();
                proof {
                    assert(recv.mailbox =~= Seq::<(ClientId, Seq<char>)>::empty());
                    assert(client_pairs_view(self.clients@) =~= prev.push((c, recv)));
                    lemma_pairs_to_map_push(prev, c, recv);
                    assert(keys_distinct(self.clients@)) by {
                        assert forall|a: int, b: int| 0 <= a < b < self.clients@.len() implies
                            self.clients@[a].0 != self.clients@[b].0 by {
                            if b == self.clients@.len() - 1 {
                                lemma_pairs_to_map_contains(prev, c);
                                if old(self).clients@[a].0 == c {
                                    assert(prev[a].0 == c);
                                }
                            }
                        }
                    }
                    assert(outgoing_view(out@) =~= Seq::<OutgoingV>::empty());
                    assert(announce_client(old(self)@, dst, nexthop, c).1 =~= Seq::<
                        OutgoingV,
                    >::empty());
                }
                out
            },
            Some(i) => {
                proof {
                    lemma_cpv_at(self.clients@, i as int);
                }
                let rec = self.clients.remove(i).1;
                let ghost recv = prev[i as int].1;
                match rec.kind {
                    ClientKind::Local { name, last_sequence } => {
                        let back = ClientRec {
                            kind: ClientKind::Local { name, last_sequence },
                            mailbox: rec.mailbox,
                        };
                        self.clients.insert(i, (c, back));
                        let out: Vec<Outgoing> = Vec::new();
                        proof {
                            assert(self.clients@ =~= old(self).clients@);
                            assert(client_pairs_view(self.clients@) =~= prev);
                            assert(outgoing_view(out@) =~= Seq::<OutgoingV>::empty());
                        }
                        out
                    },
                    ClientKind::Remote { via: _ } => {
                        let mb = rec.mailbox;
                        let back = ClientRec {
                            kind: ClientKind::Remote { via: Some(dst) },
                            mailbox: Vec::new(),
                        };
                        let ghost backv = ClientRecV {
                            kind: ClientKindV::Remote { via: Some(dst) },
                            mailbox: Seq::empty(),
                        };
                        self.clients.insert(i, (c, back));
                        proof {
                            assert(name_pairs_view(back.mailbox@) =~= Seq::<
                                (ClientId, Seq<char>),
                            >::empty());
                            assert(self.clients@ =~= old(self).clients@.update(i as int, (c, back)));
                            assert(client_pairs_view(self.clients@) =~= prev.update(
                                i as int,
                                (c, backv),
                            ));
                            lemma_cpv_distinct(old(self).clients@);
                            lemma_pairs_to_map_update(prev, i as int, backv);
                            assert(keys_distinct(self.clients@));
                        }
                        let ghost spec_outs = announce_client(old(self)@, dst, nexthop, c).1;
                        let mut out: Vec<Outgoing> = Vec::new();
                        let mut k: usize = 0;
                        proof {
                            assert(spec_outs.len() == recv.mailbox.len());
                            assert(recv.mailbox.len() == mb@.len());
                            assert(outgoing_view(out@) =~= spec_outs.take(0));
                        }
                        while k < mb.len()
                            invariant
                                k <= mb@.len(),
                                spec_outs.len() == mb@.len(),
                                outgoing_view(out@) == spec_outs.take(k as int),
                                spec_outs == announce_client(old(self)@, dst, nexthop, c).1,
                                recv.mailbox == name_pairs_view(mb@),
                                spec_outs == recv.mailbox.map_values(
                                    |m: (ClientId, Seq<char>)| OutgoingV {
                                        nexthop,
                                        message: FullyQualifiedMessageV {
                                            src: m.0,
                                            srcsrv: old(self)@.id,
                                            dsts: seq![(c, dst)],
                                            content: m.1,
                                        },
                                    },
                                ),
                                self@.id == old(self)@.id,
                            decreases mb@.len() - k,
                        {
                            let ghost out_pre = out@;
                            let entry = &mb[k];
                            let mut dv: Vec<(ClientId, ServerId)> = Vec::new();
                            dv.push((c, dst));
                            proof {
                                assert(dv@ =~= seq![(c, dst)]);
                            }
                            let og = Outgoing {
                                nexthop,
                                message: FullyQualifiedMessage {
                                    src: entry.0,
                                    srcsrv: self.id,
                                    dsts: dv,
                                    content: entry.1.clone(),
                                },
                            };
                            let ghost ogv = og@;
                            out.push(og);
                            proof {
                                assert(recv.mailbox[k as int] == (mb@[k as int].0, mb@[
                                k as int].1@));
                                assert(spec_outs[k as int] == ogv);
                                assert(outgoing_view(out@) =~= outgoing_view(out_pre).push(ogv));
                                assert(spec_outs.take(k as int + 1) =~= spec_outs.take(
                                    k as int,
                                ).push(spec_outs[k as int]));
                            }
                            k = k + 1;
                        }
                        proof {
                            assert(spec_outs.take(mb@.len() as int) =~= spec_outs);
                        }
                        out
                    },
                }
            },
        }
    }

    /// Delivers or forwards one destination of a message in transit.
    fn forward_single(
        &mut self,
        src: ClientId,
        srcsrv: ServerId,
        content: String,
        dc: ClientId,
        ds: ServerId,
    ) -> (r: Option<Outgoing>)
        requires
            old(self).wf(),
        ensures
            final(self).wf(),
            final(self)@ == forward_one(old(self)@, src, srcsrv, content@, dc, ds).0,
            (match r {
                Some(o) => seq![o@],
                None => Seq::<OutgoingV>::empty(),
            }) == forward_one(old(self)@, src, srcsrv, content@, dc, ds).1,
    {
        let ghost content_v = content@;
        let ghost prev = client_pairs_view(old(self).clients@);
        proof {
            lemma_forward_one_wf(old(self)@, src, srcsrv, content_v, dc, ds);
        }
        let mut local_at: Option<usize> = None;
        if ds == self.id {
            match self.find_client(dc) {
                Some(i) => {
                    proof {
                        lemma_cpv_at(self.clients@, i as int);
                    }
                    let pair = &self.clients[i];
                    match &pair.1.kind {
                        ClientKind::Local { .. } => {
                            local_at = Some(i);
                        },
                        ClientKind::Remote { .. } => {},
                    }
                },
                None => {
                    proof {
                        lemma_cpv_absent(self.clients@, dc);
                    }
                },
            }
        }
        match local_at {
            Some(i) => {
                let rec = self.clients.remove(i).1;
                let ghost recv = prev[i as int].1;
                match rec.kind {
                    ClientKind::Local { name, last_sequence } => {
                        if rec.mailbox.len() >= MAILBOX_SIZE {
                            let back = ClientRec {
                                kind: ClientKind::Local { name, last_sequence },
                                mailbox: rec.mailbox,
                            };
                            self.clients.insert(i, (dc, back));
                            proof {
                                assert(self.clients@ =~= old(self).clients@);
                                assert(client_pairs_view(self.clients@) =~= prev);
                            }
                            None
                        } else {
                            let mut mb = rec.mailbox;
                            mb.push((src, content));
                            let back = ClientRec {
                                kind: ClientKind::Local { name, last_sequence },
                                mailbox: mb,
                            };
                            let ghost backv = ClientRecV {
                                kind: recv.kind,
                                mailbox: recv.mailbox.push((src, content_v)),
                            };
                            self.clients.insert(i, (dc, back));
                            proof {
                                assert(name_pairs_view(back.mailbox@) =~= recv.mailbox.push(
                                    (src, content_v),
                                ));
                                assert(self.clients@ =~= old(self).clients@.update(
                                    i as int,
                                    (dc, back),
                                ));
                                assert(client_pairs_view(self.clients@) =~= prev.update(
                                    i as int,
                                    (dc, backv),
                                ));
                                lemma_cpv_distinct(old(self).clients@);
                                lemma_pairs_to_map_update(prev, i as int, backv);
                                assert(keys_distinct(self.clients@));
                            }
                            None
                        }
                    },
                    ClientKind::Remote { via } => {
                        // The guard above admits only Local records here.
                        proof {
                            assert(false);
                        }
                        let back = ClientRec {
                            kind: ClientKind::Remote { via },
                            mailbox: rec.mailbox,
                        };
                        self.clients.insert(i, (dc, back));
                        None
                    },
                }
            },
            None => {
                match self.find_route(ds) {
                    Some(j) => {
                        proof {
                            lemma_rpv_at(self.routes@, j as int);
                            assert(self@.routes[ds].len() > 0);
                        }
                        let nexthop = self.routes[j].1[0];
                        let mut dv: Vec<(ClientId, ServerId)> = Vec::new();
                        dv.push((dc, ds));
                        proof {
                            assert(dv@ =~= seq![(dc, ds)]);
                        }
                        Some(
                            Outgoing {
                                nexthop,
                                message: FullyQualifiedMessage { src, srcsrv, dsts: dv, content },
                            },
                        )
                    },
                    None => {
                        proof {
                            lemma_rpv_absent(self.routes@, ds);
                        }
                        None
                    },
                }
            },
        }
    }

    /// Handles one server-to-server frame: learns an announcement and drains
    /// newly resolvable mail, or delivers and forwards a message in transit.
    pub fn handle_server_message(&mut self, msg: ServerMessage) -> (r: ServerReply)
        requires
            old(self).wf(),
        ensures
            final(self).wf(),
            final(self)@ == server_msg_spec(old(self)@, msg@).0,
            r@ == server_msg_spec(old(self)@, msg@).1,
    {
        match msg {
            ServerMessage::Announce { route, clients } => {
                if route.len() == 0 {
                    return ServerReply::EmptyRoute;
                }
                let dst = route[0];
                let nexthop = route[route.len() - 1];
                proof {
                    assert(route@.last() == nexthop);
                }
                self.learn_route(&route);
                let ghost s1 = self@;
                let ghost cs = name_pairs_view(clients@);
                proof {
                    assert(s1.routes.contains_key(dst)) by {
                        if old(self)@.routes.contains_key(dst) {
                        }
                    }
                    assert(cs.skip(0) =~= cs);
                }
                let mut outs: Vec<Outgoing> = Vec::new();
                let mut k: usize = 0;
                proof {
                    assert(outgoing_view(outs@) =~= Seq::<OutgoingV>::empty());
                    assert(Seq::<OutgoingV>::empty() + announce_clients(self@, dst, nexthop, cs).1
                        =~= announce_clients(self@, dst, nexthop, cs).1);
                }
                while k < clients.len()
                    invariant
                        k <= cs.len(),
                        cs == name_pairs_view(clients@),
                        cs.len() == clients@.len(),
                        self.wf(),
                        self@.routes.contains_key(dst),
                        announce_clients(s1, dst, nexthop, cs).0 == announce_clients(
                            self@,
                            dst,
                            nexthop,
                            cs.skip(k as int),
                        ).0,
                        announce_clients(s1, dst, nexthop, cs).1 == outgoing_view(outs@)
                            + announce_clients(self@, dst, nexthop, cs.skip(k as int)).1,
                    decreases cs.len() - k,
                {
                    let ghost pre = self@;
                    let ghost outs_pre = outs@;
                    let c = clients[k].0;
                    let mut drained = self.resolve_announced_client(dst, nexthop, c);
                    let ghost dv = drained@;
                    outs.append(&mut drained);
                    proof {
                        assert(cs.skip(k as int)[0].0 == c);
                        assert(cs.skip(k as int).drop_first() =~= cs.skip(k as int + 1));
                        assert(outgoing_view(outs@) =~= outgoing_view(outs_pre) + outgoing_view(
                            dv,
                        ));
                        assert(outgoing_view(outs_pre) + (announce_client(pre, dst, nexthop, c).1
                            + announce_clients(self@, dst, nexthop, cs.skip(k as int + 1)).1) =~= (
                        outgoing_view(outs_pre) + announce_client(pre, dst, nexthop, c).1)
                            + announce_clients(self@, dst, nexthop, cs.skip(k as int + 1)).1);
                    }
                    k = k + 1;
                }
                proof {
                    assert(cs.skip(cs.len() as int) =~= Seq::<(ClientId, Seq<char>)>::empty());
                    assert(outgoing_view(outs@) + Seq::<OutgoingV>::empty() =~= outgoing_view(
                        outs@,
                    ));
                }
                ServerReply::Outgoing(outs)
            },
            ServerMessage::Message(fqm) => {
                let FullyQualifiedMessage { src, srcsrv, dsts, content } = fqm;
                let ghost ds_all = dsts@;
                let ghost content_v = content@;
                let mut outs: Vec<Outgoing> = Vec::new();
                let mut k: usize = 0;
                proof {
                    assert(ds_all.skip(0) =~= ds_all);
                    assert(outgoing_view(outs@) =~= Seq::<OutgoingV>::empty());
                    assert(Seq::<OutgoingV>::empty() + forward_list(
                        self@,
                        src,
                        srcsrv,
                        content_v,
                        ds_all,
                    ).1 =~= forward_list(self@, src, srcsrv, content_v, ds_all).1);
                }
                while k < dsts.len()
                    invariant
                        k <= ds_all.len(),
                        dsts@ == ds_all,
                        content@ == content_v,
                        self.wf(),
                        forward_list(old(self)@, src, srcsrv, content_v, ds_all).0 == forward_list(
                            self@,
                            src,
                            srcsrv,
                            content_v,
                            ds_all.skip(k as int),
                        ).0,
                        forward_list(old(self)@, src, srcsrv, content_v, ds_all).1
                            == outgoing_view(outs@) + forward_list(
                            self@,
                            src,
                            srcsrv,
                            content_v,
                            ds_all.skip(k as int),
                        ).1,
                    decreases ds_all.len() - k,
                {
                    let ghost pre = self@;
                    let ghost outs_pre = outs@;
                    let (dc, ds) = dsts[k];
                    let one = self.forward_single(src, srcsrv, content.clone(), dc, ds);
                    proof {
                        assert(ds_all.skip(k as int)[0] == (dc, ds));
                        assert(ds_all.skip(k as int).drop_first() =~= ds_all.skip(k as int + 1));
                    }
                    match one {
                        Some(o) => {
                            let ghost ov = o@;
                            outs.push(o);
                            proof {
                                assert(outgoing_view(outs@) =~= outgoing_view(outs_pre).push(ov));
                                assert(outgoing_view(outs_pre).push(ov) =~= outgoing_view(outs_pre)
                                    + seq![ov]);
                                assert(outgoing_view(outs_pre) + (seq![ov] + forward_list(
                                    self@,
                                    src,
                                    srcsrv,
                                    content_v,
                                    ds_all.skip(k as int + 1),
                                ).1) =~= (outgoing_view(outs_pre) + seq![ov]) + forward_list(
                                    self@,
                                    src,
                                    srcsrv,
                                    content_v,
                                    ds_all.skip(k as int + 1),
                                ).1);
                            }
                        },
                        None => {
                            proof {
                                assert(outgoing_view(outs_pre) + (Seq::<OutgoingV>::empty()
                                    + forward_list(
                                    self@,
                                    src,
                                    srcsrv,
                                    content_v,
                                    ds_all.skip(k as int + 1),
                                ).1) =~= outgoing_view(outs_pre) + forward_list(
                                    self@,
                                    src,
                                    srcsrv,
                                    content_v,
                                    ds_all.skip(k as int + 1),
                                ).1);
                            }
                        },
                    }
                    k = k + 1;
                }
                proof {
                    assert(ds_all.skip(ds_all.len() as int) =~= Seq::<(ClientId, ServerId)>::empty());
                    assert(outgoing_view(outs@) + Seq::<OutgoingV>::empty() =~= outgoing_view(
                        outs@,
                    ));
                }
                ServerReply::Outgoing(outs)
            },
        }
    }
}

/// Every mailbox respects the bound, in every well-formed state; no handler
/// leaves well-formedness, so the bound holds at every step.
pub proof fn lemma_mailbox_bound(s: ServerV, c: ClientId)
    requires
        s.wf(),
        s.clients.contains_key(c),
    ensures
        s.clients[c].mailbox.len() <= MAILBOX_SIZE,
{
}

/// Sequence monotonicity: of two sequenced messages accepted one after the
/// other from the same client, the second carries the strictly larger
/// sequence number.
pub proof fn lemma_admission_monotone(
    s: ServerV,
    src: ClientId,
    q1: u128,
    w1: u64,
    q2: u128,
    w2: u64,
)
    requires
        admission(s, src, q1, w1).1 is None,
        admission(admission(s, src, q1, w1).0, src, q2, w2).1 is None,
    ensures
        q1 < q2,
{
    let s1 = admission(s, src, q1, w1).0;
    assert(s1.clients[src].kind matches ClientKindV::Local { last_sequence: q1, .. });
}

/// Replaying an accepted sequenced message is refused as a sequence error
/// and does not change the state.
pub proof fn lemma_admission_replay(s: ServerV, src: ClientId, q: u128, w: u64)
    requires
        admission(s, src, q, w).1 is None,
    ensures
        admission(admission(s, src, q, w).0, src, q, w) == (
            admission(s, src, q, w).0,
            Some(ClientError::SequenceError),
        ),
{
    let s1 = admission(s, src, q, w).0;
    assert(s1.clients[src].kind matches ClientKindV::Local { last_sequence: q, .. });
}

/// Once Local, always Local: no announcement touches a Local record.
pub proof fn lemma_announce_clients_preserves_local(
    s: ServerV,
    dst: ServerId,
    nexthop: ServerId,
    cs: Seq<(ClientId, Seq<char>)>,
    c: ClientId,
)
    requires
        s.clients.contains_key(c),
        s.clients[c].kind matches ClientKindV::Local { .. },
    ensures
        announce_clients(s, dst, nexthop, cs).0.clients.contains_key(c),
        announce_clients(s, dst, nexthop, cs).0.clients[c] == s.clients[c],
    decreases cs.len(),
{
    if cs.len() > 0 {
        let s1 = announce_client(s, dst, nexthop, cs[0].0).0;
        assert(s1.clients.contains_key(c) && s1.clients[c] == s.clients[c]);
        lemma_announce_clients_preserves_local(s1, dst, nexthop, cs.drop_first(), c);
    }
}

/// Once Local, always Local: a whole announcement leaves every Local record
/// exactly as it was.
pub proof fn lemma_announce_preserves_local(
    s: ServerV,
    route: Seq<ServerId>,
    cs: Seq<(ClientId, Seq<char>)>,
    c: ClientId,
)
    requires
        s.clients.contains_key(c),
        s.clients[c].kind matches ClientKindV::Local { .. },
    ensures
        announce_spec(s, route, cs).0.clients.contains_key(c),
        announce_spec(s, route, cs).0.clients[c] == s.clients[c],
{
    if route.len() > 0 {
        let s1 = ServerV { routes: announce_routes(s, route), ..s };
        lemma_announce_clients_preserves_local(s1, route[0], route.last(), cs, c);
    }
}

/// Announcements are the only source of routes: resolving clients never
/// touches the routing table or the server's identity.
proof fn lemma_announce_clients_routes(
    s: ServerV,
    dst: ServerId,
    nexthop: ServerId,
    cs: Seq<(ClientId, Seq<char>)>,
)
    ensures
        announce_clients(s, dst, nexthop, cs).0.routes == s.routes,
        announce_clients(s, dst, nexthop, cs).0.id == s.id,
    decreases cs.len(),
{
    if cs.len() > 0 {
        lemma_announce_clients_routes(
            announce_client(s, dst, nexthop, cs[0].0).0,
            dst,
            nexthop,
            cs.drop_first(),
        );
    }
}

/// Route validity: after an announcement, every stored route either was
/// already stored, or is the announced route reversed, keyed under the
/// announcing server; so every route a server ever holds came whole from
/// some announcement, begins with the neighbor who forwarded it, and ends
/// with its announcer.
pub proof fn lemma_route_provenance(
    s: ServerV,
    route: Seq<ServerId>,
    cs: Seq<(ClientId, Seq<char>)>,
    d: ServerId,
)
    requires
        route.len() > 0,
        announce_spec(s, route, cs).0.routes.contains_key(d),
    ensures
        (s.routes.contains_key(d) && announce_spec(s, route, cs).0.routes[d] == s.routes[d]) || (d
            == route[0] && announce_spec(s, route, cs).0.routes[d] == route.reverse()),
{
    let s1 = ServerV { routes: announce_routes(s, route), ..s };
    lemma_announce_clients_routes(s1, route[0], route.last(), cs);
}

/// Whether a client's record marks it resolved toward `dst` with nothing
/// buffered, or Local.
pub open spec fn resolved_or_local(s: ServerV, dst: ServerId, c: ClientId) -> bool {
    &&& s.clients.contains_key(c)
    &&& (s.clients[c].kind matches ClientKindV::Local { .. } || s.clients[c] == (ClientRecV {
        kind: ClientKindV::Remote { via: Some(dst) },
        mailbox: Seq::<(ClientId, Seq<char>)>::empty(),
    }))
}

/// Resolving one client establishes its resolved state and preserves any
/// other client's.
proof fn lemma_announce_client_resolves(
    s: ServerV,
    dst: ServerId,
    nexthop: ServerId,
    c: ClientId,
    c2: ClientId,
)
    requires
        c2 == c || resolved_or_local(s, dst, c2),
    ensures
        resolved_or_local(announce_client(s, dst, nexthop, c).0, dst, c2),
{
}

/// After a list of clients is resolved, every one of them is resolved.
proof fn lemma_announce_clients_resolve(
    s: ServerV,
    dst: ServerId,
    nexthop: ServerId,
    cs: Seq<(ClientId, Seq<char>)>,
    i: int,
)
    requires
        0 <= i < cs.len(),
    ensures
        resolved_or_local(announce_clients(s, dst, nexthop, cs).0, dst, cs[i].0),
    decreases cs.len(),
{
    let s1 = announce_client(s, dst, nexthop, cs[0].0).0;
    if i == 0 {
        lemma_announce_client_resolves(s, dst, nexthop, cs[0].0, cs[0].0);
        lemma_announce_clients_still_resolved(s1, dst, nexthop, cs.drop_first(), cs[0].0);
    } else {
        assert(cs.drop_first()[i - 1] == cs[i]);
        lemma_announce_clients_resolve(s1, dst, nexthop, cs.drop_first(), i - 1);
    }
}

/// Resolving more clients keeps an already resolved client resolved.
proof fn lemma_announce_clients_still_resolved(
    s: ServerV,
    dst: ServerId,
    nexthop: ServerId,
    cs: Seq<(ClientId, Seq<char>)>,
    c: ClientId,
)
    requires
        resolved_or_local(s, dst, c),
    ensures
        resolved_or_local(announce_clients(s, dst, nexthop, cs).0, dst, c),
    decreases cs.len(),
{
    if cs.len() > 0 {
        lemma_announce_client_resolves(s, dst, nexthop, cs[0].0, c);
        lemma_announce_clients_still_resolved(
            announce_client(s, dst, nexthop, cs[0].0).0,
            dst,
            nexthop,
            cs.drop_first(),
            c,
        );
    }
}

/// Resolving clients that are all already resolved changes nothing and
/// drains nothing.
proof fn lemma_announce_clients_idem(
    s: ServerV,
    dst: ServerId,
    nexthop: ServerId,
    cs: Seq<(ClientId, Seq<char>)>,
)
    requires
        forall|i: int| 0 <= i < cs.len() ==> #[trigger] resolved_or_local(s, dst, cs[i].0),
    ensures
        announce_clients(s, dst, nexthop, cs) == (s, Seq::<OutgoingV>::empty()),
    decreases cs.len(),
{
    if cs.len() > 0 {
        assert(resolved_or_local(s, dst, cs[0].0));
        let first = announce_client(s, dst, nexthop, cs[0].0);
        if s.clients[cs[0].0].kind matches ClientKindV::Local { .. } {
        } else {
            assert(s.clients[cs[0].0].mailbox =~= Seq::<(ClientId, Seq<char>)>::empty());
            assert(s.clients[cs[0].0].mailbox.map_values(
                |m: (ClientId, Seq<char>)| OutgoingV {
                    nexthop,
                    message: FullyQualifiedMessageV {
                        src: m.0,
                        srcsrv: s.id,
                        dsts: seq![(cs[0].0, dst)],
                        content: m.1,
                    },
                },
            ) =~= Seq::<OutgoingV>::empty());
            assert(s.clients.insert(
                cs[0].0,
                ClientRecV {
                    kind: ClientKindV::Remote { via: Some(dst) },
                    mailbox: Seq::empty(),
                },
            ) =~= s.clients);
            assert(first.0 =~~= s) by {
                assert(first.0.clients =~= s.clients);
            }
        }
        assert(first.0 == s && first.1 =~= Seq::<OutgoingV>::empty());
        assert forall|i: int| 0 <= i < cs.drop_first().len() implies #[trigger] resolved_or_local(
            first.0,
            dst,
            cs.drop_first()[i].0,
        ) by {
            assert(cs.drop_first()[i] == cs[i + 1]);
            assert(resolved_or_local(s, dst, cs[i + 1].0));
        }
        lemma_announce_clients_idem(first.0, dst, nexthop, cs.drop_first());
        assert(Seq::<OutgoingV>::empty() + Seq::<OutgoingV>::empty() =~= Seq::<
            OutgoingV,
        >::empty());
    }
}

/// Announcing the same route and clients twice: the second announcement
/// leaves the state exactly as the first left it, and drains nothing.
pub proof fn lemma_announce_idempotent(
    s: ServerV,
    route: Seq<ServerId>,
    cs: Seq<(ClientId, Seq<char>)>,
)
    requires
        route.len() > 0,
    ensures
        announce_spec(announce_spec(s, route, cs).0, route, cs) == (
            announce_spec(s, route, cs).0,
            ServerReplyV::Outgoing(Seq::<OutgoingV>::empty()),
        ),
{
    let dst = route[0];
    let nexthop = route.last();
    let stored = route.reverse();
    let s1 = ServerV { routes: announce_routes(s, route), ..s };
    let s2 = announce_clients(s1, dst, nexthop, cs).0;
    lemma_announce_clients_routes(s1, dst, nexthop, cs);
    assert(s2.routes == announce_routes(s, route));
    assert(stored.len() == route.len()) by {
        assert(route.reverse().len() == route.len());
    }
    assert(announce_routes(s2, route) == s2.routes) by {
        assert(s2.routes.contains_key(dst)) by {
            if !s.routes.contains_key(dst) || better_route(stored, s.routes[dst]) {
            }
        }
        assert(!better_route(stored, s2.routes[dst])) by {
            if !s.routes.contains_key(dst) || better_route(stored, s.routes[dst]) {
                assert(s2.routes[dst] == stored);
            } else {
                assert(s2.routes[dst] == s.routes[dst]);
            }
        }
    }
    let s1b = ServerV { routes: announce_routes(s2, route), ..s2 };
    assert(s1b =~~= s2) by {
        assert(s1b.routes == s2.routes);
    }
    assert forall|i: int| 0 <= i < cs.len() implies #[trigger] resolved_or_local(
        s2,
        dst,
        cs[i].0,
    ) by {
        lemma_announce_clients_resolve(s1, dst, nexthop, cs, i);
    }
    lemma_announce_clients_idem(s2, dst, nexthop, cs);
}

/// First-in-first-out delivery: two messages delivered to the same Local
/// recipient join its mailbox in order, and when the mailbox was empty
/// before, the next two polls hand them out in the same order.
pub proof fn lemma_mailbox_fifo(
    s: ServerV,
    src: ClientId,
    dest: ClientId,
    m1: Seq<char>,
    m2: Seq<char>,
)
    requires
        s.clients.contains_key(dest),
        s.clients[dest].kind matches ClientKindV::Local { .. },
        s.clients[dest].mailbox.len() + 2 <= MAILBOX_SIZE,
    ensures
        dispatch_one(s, src, dest, m1).1 == ClientReplyV::Delivered,
        ({
            let s1 = dispatch_one(s, src, dest, m1).0;
            &&& dispatch_one(s1, src, dest, m2).1 == ClientReplyV::Delivered
            &&& dispatch_one(s1, src, dest, m2).0.clients[dest].mailbox == s.clients[dest].mailbox
                + seq![(src, m1), (src, m2)]
        }),
        s.clients[dest].mailbox.len() == 0 ==> ({
            let s2 = dispatch_one(dispatch_one(s, src, dest, m1).0, src, dest, m2).0;
            let first_poll = poll_spec(s2, dest);
            let second_poll = poll_spec(first_poll.0, dest);
            &&& first_poll.1 == (ClientPollReplyV::Message { src, content: m1 })
            &&& second_poll.1 == (ClientPollReplyV::Message { src, content: m2 })
        }),
{
    let s1 = dispatch_one(s, src, dest, m1).0;
    let s2 = dispatch_one(s1, src, dest, m2).0;
    assert(s1.clients[dest].mailbox == s.clients[dest].mailbox.push((src, m1)));
    assert(s2.clients[dest].mailbox =~= s.clients[dest].mailbox + seq![(src, m1), (src, m2)]);
    if s.clients[dest].mailbox.len() == 0 {
        let mb2 = s2.clients[dest].mailbox;
        assert(mb2 =~= seq![(src, m1), (src, m2)]);
        assert(mb2[0] == (src, m1));
        let first_poll = poll_spec(s2, dest);
        assert(first_poll.0.clients[dest].mailbox =~= seq![(src, m2)]);
    }
}

/// The destinations a client message names, in order.
pub open spec fn msg_dests(m: ClientMessageV) -> Seq<ClientId> {
    match m {
        ClientMessageV::Text { dest, .. } => seq![dest],
        ClientMessageV::MText { dest, .. } => dest,
    }
}

/// The text a client message carries.
pub open spec fn msg_content(m: ClientMessageV) -> Seq<char> {
    match m {
        ClientMessageV::Text { content, .. } => content,
        ClientMessageV::MText { content, .. } => content,
    }
}

} // verus!
