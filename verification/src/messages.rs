//! The protocol's message types, and the mathematical views the contracts
//! speak of. Identifiers are opaque 128-bit values; every other type is a
//! plain product or sum of identifiers, integers and text.
use vstd::prelude::*;

verus! {

/// Identifies a client, uniquely across the whole federation.
#[derive(Clone, Copy, PartialEq, Eq, Structural, Hash, Debug)]
pub struct ClientId(pub u128);

/// Identifies a server, uniquely across the whole federation.
#[derive(Clone, Copy, PartialEq, Eq, Structural, Hash, Debug)]
pub struct ServerId(pub u128);

impl ClientId {
    /// The 128-bit integer form of the identifier, used as the proof-of-work
    /// nonce for sequences submitted by this client.
    pub fn nonce(&self) -> (r: u128)
        ensures
            r == self.0,
    {
        self.0
    }
}

impl Default for ClientId {
    fn default() -> (r: Self)
        ensures
            r == (ClientId(0)),
    {
        ClientId(0)
    }
}

impl Default for ServerId {
    fn default() -> (r: Self)
        ensures
            r == (ServerId(0)),
    {
        ServerId(0)
    }
}

/// Handshake frames. The nonce and response groups are fixed-width integers,
/// carried on the wire as raw little-endian bytes without a length prefix.
#[derive(Clone, Copy, PartialEq, Eq, Structural, Debug)]
pub enum AuthMessage {
    Hello { user: ClientId, nonce: u64 },
    Nonce { server: ServerId, nonce: u64 },
    Auth { response: u128 },
}

/// Errors returned inline to a client, never raised out of band.
#[derive(Clone, Copy, PartialEq, Eq, Structural, Debug)]
pub enum ClientError {
    WorkProofError,
    UnknownClient,
    SequenceError,
    BoxFull(ClientId),
    InternalError,
}

/// Errors that a poll may surface for a recipient that is not known here.
#[derive(Clone, Copy, PartialEq, Eq, Structural, Debug)]
pub enum DelayedError {
    UnknownRecipient(ClientId),
}

/// A message a client submits for delivery: to one destination, or to many.
#[derive(Clone, PartialEq, Eq, Debug)]
pub enum ClientMessage {
    Text { dest: ClientId, content: String },
    MText { dest: Vec<ClientId>, content: String },
}

/// Mathematical view of [`ClientMessage`].
pub ghost enum ClientMessageV {
    Text { dest: ClientId, content: Seq<char> },
    MText { dest: Seq<ClientId>, content: Seq<char> },
}

impl View for ClientMessage {
    type V = ClientMessageV;

    open spec fn view(&self) -> ClientMessageV {
        match self {
            ClientMessage::Text { dest, content } => ClientMessageV::Text {
                dest: *dest,
                content: content@,
            },
            ClientMessage::MText { dest, content } => ClientMessageV::MText {
                dest: dest@,
                content: content@,
            },
        }
    }
}

/// A message travelling between servers, fully addressed: the originating
/// client and server, the destinations, and the text carried.
#[derive(Clone, PartialEq, Eq, Debug)]
pub struct FullyQualifiedMessage {
    pub src: ClientId,
    pub srcsrv: ServerId,
    pub dsts: Vec<(ClientId, ServerId)>,
    pub content: String,
}

/// Mathematical view of [`FullyQualifiedMessage`].
pub ghost struct FullyQualifiedMessageV {
    pub src: ClientId,
    pub srcsrv: ServerId,
    pub dsts: Seq<(ClientId, ServerId)>,
    pub content: Seq<char>,
}

impl View for FullyQualifiedMessage {
    type V = FullyQualifiedMessageV;

    open spec fn view(&self) -> FullyQualifiedMessageV {
        FullyQualifiedMessageV {
            src: self.src,
            srcsrv: self.srcsrv,
            dsts: self.dsts@,
            content: self.content@,
        }
    }
}

/// A frame exchanged between servers: either an announcement of a route back
/// to the sender together with its local clients, or a message in transit.
#[derive(Clone, PartialEq, Eq, Debug)]
pub enum ServerMessage {
    Announce { route: Vec<ServerId>, clients: Vec<(ClientId, String)> },
    Message(FullyQualifiedMessage),
}

/// Mathematical view of [`ServerMessage`].
pub ghost enum ServerMessageV {
    Announce { route: Seq<ServerId>, clients: Seq<(ClientId, Seq<char>)> },
    Message(FullyQualifiedMessageV),
}

/// The view of a sequence of `(ClientId, String)` pairs.
pub open spec fn name_pairs_view(s: Seq<(ClientId, String)>) -> Seq<(ClientId, Seq<char>)> {
    s.map_values(|p: (ClientId, String)| (p.0, p.1@))
}

impl View for ServerMessage {
    type V = ServerMessageV;

    open spec fn view(&self) -> ServerMessageV {
        match self {
            ServerMessage::Announce { route, clients } => ServerMessageV::Announce {
                route: route@,
                clients: name_pairs_view(clients@),
            },
            ServerMessage::Message(m) => ServerMessageV::Message(m@),
        }
    }
}

/// The reply a client receives for each destination of a submitted message.
#[derive(Clone, PartialEq, Eq, Debug)]
pub enum ClientReply {
    Delivered,
    Error(ClientError),
    Delayed,
    Transfer(ServerId, ServerMessage),
}

/// Mathematical view of [`ClientReply`].
pub ghost enum ClientReplyV {
    Delivered,
    Error(ClientError),
    Delayed,
    Transfer(ServerId, ServerMessageV),
}

impl View for ClientReply {
    type V = ClientReplyV;

    open spec fn view(&self) -> ClientReplyV {
        match self {
            ClientReply::Delivered => ClientReplyV::Delivered,
            ClientReply::Error(e) => ClientReplyV::Error(*e),
            ClientReply::Delayed => ClientReplyV::Delayed,
            ClientReply::Transfer(s, m) => ClientReplyV::Transfer(*s, m@),
        }
    }
}

/// The view of a vector of client replies.
pub open spec fn replies_view(s: Seq<ClientReply>) -> Seq<ClientReplyV> {
    s.map_values(|r: ClientReply| r@)
}

/// What a poll returns: the front of the mailbox, an error, or nothing.
#[derive(Clone, PartialEq, Eq, Debug)]
pub enum ClientPollReply {
    Message { src: ClientId, content: String },
    DelayedError(DelayedError),
    Nothing,
}

/// Mathematical view of [`ClientPollReply`].
pub ghost enum ClientPollReplyV {
    Message { src: ClientId, content: Seq<char> },
    DelayedError(DelayedError),
    Nothing,
}

impl View for ClientPollReply {
    type V = ClientPollReplyV;

    open spec fn view(&self) -> ClientPollReplyV {
        match self {
            ClientPollReply::Message { src, content } => ClientPollReplyV::Message {
                src: *src,
                content: content@,
            },
            ClientPollReply::DelayedError(e) => ClientPollReplyV::DelayedError(*e),
            ClientPollReply::Nothing => ClientPollReplyV::Nothing,
        }
    }
}

/// A query a client submits to its home server, inside a [`Sequence`].
#[derive(Clone, PartialEq, Eq, Debug)]
pub enum ClientQuery {
    Register(String),
    Message(ClientMessage),
    ListUsers,
    Poll,
}

/// Mathematical view of [`ClientQuery`].
pub ghost enum ClientQueryV {
    Register(Seq<char>),
    Message(ClientMessageV),
    ListUsers,
    Poll,
}

impl View for ClientQuery {
    type V = ClientQueryV;

    open spec fn view(&self) -> ClientQueryV {
        match self {
            ClientQuery::Register(n) => ClientQueryV::Register(n@),
            ClientQuery::Message(m) => ClientQueryV::Message(m@),
            ClientQuery::ListUsers => ClientQueryV::ListUsers,
            ClientQuery::Poll => ClientQueryV::Poll,
        }
    }
}

/// The wrapper that makes a client query admissible exactly once: a strictly
/// increasing per-client sequence number, the submitting client, and a proof
/// of work over the client's nonce.
#[derive(Clone, PartialEq, Eq, Debug)]
pub struct Sequence<T> {
    pub seqid: u128,
    pub src: ClientId,
    pub workproof: u64,
    pub content: T,
}

/// A frame this server asks its caller to forward to a neighbor server.
#[derive(Clone, PartialEq, Eq, Debug)]
pub struct Outgoing {
    pub nexthop: ServerId,
    pub message: FullyQualifiedMessage,
}

/// Mathematical view of [`Outgoing`].
pub ghost struct OutgoingV {
    pub nexthop: ServerId,
    pub message: FullyQualifiedMessageV,
}

impl View for Outgoing {
    type V = OutgoingV;

    open spec fn view(&self) -> OutgoingV {
        OutgoingV { nexthop: self.nexthop, message: self.message@ }
    }
}

/// The view of a vector of outgoing frames.
pub open spec fn outgoing_view(s: Seq<Outgoing>) -> Seq<OutgoingV> {
    s.map_values(|o: Outgoing| o@)
}

/// What handling a server frame produces: frames to forward, or a complaint
/// about an announcement that carried no route.
#[derive(Clone, PartialEq, Eq, Debug)]
pub enum ServerReply {
    Outgoing(Vec<Outgoing>),
    EmptyRoute,
}

/// Mathematical view of [`ServerReply`].
pub ghost enum ServerReplyV {
    Outgoing(Seq<OutgoingV>),
    EmptyRoute,
}

impl View for ServerReply {
    type V = ServerReplyV;

    open spec fn view(&self) -> ServerReplyV {
        match self {
            ServerReply::Outgoing(v) => ServerReplyV::Outgoing(outgoing_view(v@)),
            ServerReply::EmptyRoute => ServerReplyV::EmptyRoute,
        }
    }
}

} // verus!
