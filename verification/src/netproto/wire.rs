//! The mathematical description of the wire format: what sequence of bytes
//! each protocol value is carried as. Integers travel little-endian; sizes
//! travel in a tagged variable-length form whose shortest tier is mandatory;
//! text travels as UTF-8 framed by its byte length.
use crate::messages::{AuthMessage, ClientError, ClientId, ClientMessageV, ClientPollReplyV,
    ClientQueryV, ClientReplyV, DelayedError, FullyQualifiedMessageV, ServerId, ServerMessageV};
use vstd::prelude::*;
use vstd::utf8::encode_utf8;

verus! {

/// 256 to the power `n`: the number of values `n` bytes can carry.
pub open spec fn pow256(n: nat) -> nat
    decreases n,
{
    if n == 0 {
        1
    } else {
        256 * pow256((n - 1) as nat)
    }
}

/// The `n` little-endian bytes of `m`, least significant first.
pub open spec fn le_bytes(m: nat, n: nat) -> Seq<u8>
    decreases n,
{
    if n == 0 {
        Seq::empty()
    } else {
        seq![(m % 256) as u8] + le_bytes(m / 256, (n - 1) as nat)
    }
}

pub proof fn lemma_le_bytes_len(m: nat, n: nat)
    ensures
        le_bytes(m, n).len() == n,
    decreases n,
{
    if n > 0 {
        lemma_le_bytes_len(m / 256, (n - 1) as nat);
    }
}

/// Two values below `256^n` with the same `n` little-endian bytes are equal.
pub proof fn lemma_le_bytes_inj(a: nat, b: nat, n: nat)
    requires
        a < pow256(n),
        b < pow256(n),
        le_bytes(a, n) == le_bytes(b, n),
    ensures
        a == b,
    decreases n,
{
    if n == 0 {
        assert(a == 0 && b == 0);
    } else {
        assert(le_bytes(a, n)[0] == (a % 256) as u8);
        assert(le_bytes(b, n)[0] == (b % 256) as u8);
        assert(a % 256 < 256 && b % 256 < 256);
        assert(a % 256 == ((a % 256) as u8) as nat);
        assert(b % 256 == ((b % 256) as u8) as nat);
        assert(a % 256 == b % 256);
        assert(le_bytes(a, n).drop_first() =~= le_bytes(a / 256, (n - 1) as nat)) by {
            lemma_le_bytes_len(a / 256, (n - 1) as nat);
        }
        assert(le_bytes(b, n).drop_first() =~= le_bytes(b / 256, (n - 1) as nat)) by {
            lemma_le_bytes_len(b / 256, (n - 1) as nat);
        }
        assert(a / 256 < pow256((n - 1) as nat) && b / 256 < pow256((n - 1) as nat)) by (
        nonlinear_arith)
            requires
                a < 256 * pow256((n - 1) as nat),
                b < 256 * pow256((n - 1) as nat),
        ;
        lemma_le_bytes_inj(a / 256, b / 256, (n - 1) as nat);
        assert(a == 256 * (a / 256) + a % 256) by (nonlinear_arith);
        assert(b == 256 * (b / 256) + b % 256) by (nonlinear_arith);
    }
}

pub proof fn lemma_pow256_le(a: nat, b: nat)
    requires
        a <= b,
    ensures
        pow256(a) <= pow256(b),
    decreases b,
{
    if a < b {
        lemma_pow256_le(a, (b - 1) as nat);
        assert(pow256(b) == 256 * pow256((b - 1) as nat));
    }
}

pub proof fn lemma_pow256_values()
    ensures
        pow256(2) == 0x1_0000,
        pow256(4) == 0x1_0000_0000,
        pow256(8) == 0x1_0000_0000_0000_0000,
        pow256(16) == 0x1_0000_0000_0000_0000_0000_0000_0000_0000,
{
    reveal_with_fuel(pow256, 17);
}

/// True when `enc` lies in `bytes` beginning at `pos`.
pub open spec fn starts_with(bytes: Seq<u8>, pos: int, enc: Seq<u8>) -> bool {
    &&& 0 <= pos
    &&& pos + enc.len() <= bytes.len()
    &&& bytes.subrange(pos, pos + enc.len()) == enc
}

/// A concatenation lies at `pos` exactly when its first part lies at `pos`
/// and its second part right after it.
pub proof fn lemma_starts_with_concat(bytes: Seq<u8>, pos: int, a: Seq<u8>, b: Seq<u8>)
    ensures
        starts_with(bytes, pos, a + b) <==> (starts_with(bytes, pos, a) && starts_with(
            bytes,
            pos + a.len(),
            b,
        )),
{
    if starts_with(bytes, pos, a + b) {
        let whole = bytes.subrange(pos, pos + (a + b).len());
        assert forall|i: int| 0 <= i < a.len() implies bytes[pos + i] == a[i] by {
            assert(whole[i] == (a + b)[i]);
        }
        assert forall|i: int| 0 <= i < b.len() implies bytes[pos + a.len() + i] == b[i] by {
            assert(whole[a.len() + i] == (a + b)[a.len() + i]);
        }
        assert(bytes.subrange(pos, pos + a.len()) =~= a);
        assert(bytes.subrange(pos + a.len(), pos + a.len() + b.len()) =~= b);
    }
    if starts_with(bytes, pos, a) && starts_with(bytes, pos + a.len(), b) {
        assert(bytes.subrange(pos, pos + a.len() + b.len()) =~= a + b);
    }
}

/// As [`lemma_starts_with_concat`], for three parts.
pub proof fn lemma_starts_with_concat3(bytes: Seq<u8>, pos: int, a: Seq<u8>, b: Seq<u8>, c: Seq<u8>)
    ensures
        starts_with(bytes, pos, a + b + c) <==> (starts_with(bytes, pos, a) && starts_with(
            bytes,
            pos + a.len(),
            b,
        ) && starts_with(bytes, pos + a.len() + b.len(), c)),
{
    lemma_starts_with_concat(bytes, pos, a + b, c);
    lemma_starts_with_concat(bytes, pos, a, b);
}

/// A single byte lies at `pos` exactly when it is the byte there.
pub proof fn lemma_starts_with_byte(bytes: Seq<u8>, pos: int, b: u8)
    requires
        0 <= pos,
    ensures
        starts_with(bytes, pos, seq![b]) <==> (pos < bytes.len() && bytes[pos] == b),
{
    if starts_with(bytes, pos, seq![b]) {
        assert(bytes.subrange(pos, pos + 1)[0] == b);
    }
    if pos < bytes.len() && bytes[pos] == b {
        assert(bytes.subrange(pos, pos + 1) =~= seq![b]);
    }
}

/// The length of an identifier on the wire.
pub proof fn lemma_enc_id_len(x: u128)
    ensures
        enc_id(x).len() == 17,
        enc_id(x) == seq![16u8] + le_bytes(x as nat, 16),
{
    lemma_le_bytes_len(x as nat, 16);
    assert(enc_varint(16) =~= seq![16u8]);
}

/// The variable-length form of an unsigned 128-bit value: a literal byte for
/// values up to 250, otherwise a tag byte naming the smallest of the 16-, 32-,
/// 64- or 128-bit tiers that fits, followed by that many little-endian bytes.
pub open spec fn enc_varint(m: u128) -> Seq<u8> {
    if m <= 250 {
        seq![m as u8]
    } else if m <= 0xFFFF {
        seq![251u8] + le_bytes(m as nat, 2)
    } else if m <= 0xFFFF_FFFF {
        seq![252u8] + le_bytes(m as nat, 4)
    } else if m <= 0xFFFF_FFFF_FFFF_FFFF {
        seq![253u8] + le_bytes(m as nat, 8)
    } else {
        seq![254u8] + le_bytes(m as nat, 16)
    }
}

/// How many bytes the tier table permits at the least for `m`: one byte for
/// the literal tier, otherwise the tag and the smallest fitting width.
pub open spec fn varint_min_len(m: u128) -> nat {
    if m <= 250 {
        1
    } else if m <= 0xFFFF {
        3
    } else if m <= 0xFFFF_FFFF {
        5
    } else if m <= 0xFFFF_FFFF_FFFF_FFFF {
        9
    } else {
        17
    }
}

/// The encoding of a value is canonical: its length is the minimum the tier
/// table permits for that value.
pub proof fn lemma_varint_minimal(m: u128)
    ensures
        enc_varint(m).len() == varint_min_len(m),
{
    if m <= 250 {
    } else if m <= 0xFFFF {
        lemma_le_bytes_len(m as nat, 2);
    } else if m <= 0xFFFF_FFFF {
        lemma_le_bytes_len(m as nat, 4);
    } else if m <= 0xFFFF_FFFF_FFFF_FFFF {
        lemma_le_bytes_len(m as nat, 8);
    } else {
        lemma_le_bytes_len(m as nat, 16);
    }
}

/// A byte array on the wire: its length in variable-length form, then the
/// bytes themselves.
pub open spec fn enc_bytes(b: Seq<u8>) -> Seq<u8> {
    enc_varint(b.len() as u128) + b
}

/// An identifier on the wire: its 16 little-endian bytes, framed as a byte
/// array.
pub open spec fn enc_id(x: u128) -> Seq<u8> {
    enc_bytes(le_bytes(x as nat, 16))
}

/// A text string on the wire: its UTF-8 bytes, framed as a byte array.
pub open spec fn enc_str(s: Seq<char>) -> Seq<u8> {
    enc_bytes(encode_utf8(s))
}

/// A handshake frame: a variant byte, then the fields in declared order; the
/// nonce and response groups are raw little-endian bytes without a prefix.
pub open spec fn enc_auth(m: AuthMessage) -> Seq<u8> {
    match m {
        AuthMessage::Hello { user, nonce } => seq![0u8] + enc_id(user.0) + le_bytes(
            nonce as nat,
            8,
        ),
        AuthMessage::Nonce { server, nonce } => seq![1u8] + enc_id(server.0) + le_bytes(
            nonce as nat,
            8,
        ),
        AuthMessage::Auth { response } => seq![2u8] + le_bytes(response as nat, 16),
    }
}

/// A client error: a variant byte, then the refused client for a full box.
pub open spec fn enc_client_err(e: ClientError) -> Seq<u8> {
    match e {
        ClientError::WorkProofError => seq![0u8],
        ClientError::UnknownClient => seq![1u8],
        ClientError::SequenceError => seq![2u8],
        ClientError::BoxFull(c) => seq![3u8] + enc_id(c.0),
        ClientError::InternalError => seq![4u8],
    }
}

/// A delayed error: a variant byte, then the unknown recipient.
pub open spec fn enc_delayed_err(e: DelayedError) -> Seq<u8> {
    match e {
        DelayedError::UnknownRecipient(c) => seq![0u8] + enc_id(c.0),
    }
}

/// A list of client identifiers, in order, without a length prefix.
pub open spec fn enc_id_list(s: Seq<ClientId>) -> Seq<u8>
    decreases s.len(),
{
    if s.len() == 0 {
        Seq::empty()
    } else {
        enc_id(s[0].0) + enc_id_list(s.drop_first())
    }
}

/// A list of `(client, server)` destination pairs, without a length prefix.
pub open spec fn enc_dst_list(s: Seq<(ClientId, ServerId)>) -> Seq<u8>
    decreases s.len(),
{
    if s.len() == 0 {
        Seq::empty()
    } else {
        enc_id(s[0].0.0) + enc_id(s[0].1.0) + enc_dst_list(s.drop_first())
    }
}

/// A list of server identifiers, without a length prefix.
pub open spec fn enc_sid_list(s: Seq<ServerId>) -> Seq<u8>
    decreases s.len(),
{
    if s.len() == 0 {
        Seq::empty()
    } else {
        enc_id(s[0].0) + enc_sid_list(s.drop_first())
    }
}

/// A list of `(client, name)` pairs, without a length prefix.
pub open spec fn enc_name_list(s: Seq<(ClientId, Seq<char>)>) -> Seq<u8>
    decreases s.len(),
{
    if s.len() == 0 {
        Seq::empty()
    } else {
        enc_id(s[0].0.0) + enc_str(s[0].1) + enc_name_list(s.drop_first())
    }
}

/// A client message: a variant byte; a single destination then the text, or a
/// counted destination list then the text.
pub open spec fn enc_client_msg(m: ClientMessageV) -> Seq<u8> {
    match m {
        ClientMessageV::Text { dest, content } => seq![0u8] + enc_id(dest.0) + enc_str(content),
        ClientMessageV::MText { dest, content } => seq![1u8] + enc_varint(dest.len() as u128)
            + enc_id_list(dest) + enc_str(content),
    }
}

/// A fully-qualified message: source client and server, the counted
/// destination list, then the text.
pub open spec fn enc_fqm(f: FullyQualifiedMessageV) -> Seq<u8> {
    enc_id(f.src.0) + enc_id(f.srcsrv.0) + enc_varint(f.dsts.len() as u128) + enc_dst_list(f.dsts)
        + enc_str(f.content)
}

/// A server frame: an announcement with its counted route and counted client
/// list, or a message in transit.
pub open spec fn enc_server_msg(m: ServerMessageV) -> Seq<u8> {
    match m {
        ServerMessageV::Announce { route, clients } => seq![0u8] + enc_varint(route.len() as u128)
            + enc_sid_list(route) + enc_varint(clients.len() as u128) + enc_name_list(clients),
        ServerMessageV::Message(f) => seq![1u8] + enc_fqm(f),
    }
}

/// One reply to a client: a variant byte, then the error or transfer carried.
pub open spec fn enc_reply(r: ClientReplyV) -> Seq<u8> {
    match r {
        ClientReplyV::Delivered => seq![0u8],
        ClientReplyV::Error(e) => seq![1u8] + enc_client_err(e),
        ClientReplyV::Delayed => seq![2u8],
        ClientReplyV::Transfer(s, m) => seq![3u8] + enc_id(s.0) + enc_server_msg(m),
    }
}

/// A list of replies, without a length prefix.
pub open spec fn enc_reply_list(s: Seq<ClientReplyV>) -> Seq<u8>
    decreases s.len(),
{
    if s.len() == 0 {
        Seq::empty()
    } else {
        enc_reply(s[0]) + enc_reply_list(s.drop_first())
    }
}

/// The replies to a client message: a counted list of replies.
pub open spec fn enc_replies(s: Seq<ClientReplyV>) -> Seq<u8> {
    enc_varint(s.len() as u128) + enc_reply_list(s)
}

/// A poll reply: a variant byte, then the message or the error carried.
pub open spec fn enc_poll_reply(r: ClientPollReplyV) -> Seq<u8> {
    match r {
        ClientPollReplyV::Message { src, content } => seq![0u8] + enc_id(src.0) + enc_str(content),
        ClientPollReplyV::DelayedError(e) => seq![1u8] + enc_delayed_err(e),
        ClientPollReplyV::Nothing => seq![2u8],
    }
}

/// A user list: a counted list of `(client, name)` pairs.
pub open spec fn enc_userlist(s: Seq<(ClientId, Seq<char>)>) -> Seq<u8> {
    enc_varint(s.len() as u128) + enc_name_list(s)
}

/// A client query: a variant byte, then the name or message carried.
pub open spec fn enc_query(q: ClientQueryV) -> Seq<u8> {
    match q {
        ClientQueryV::Register(n) => seq![0u8] + enc_str(n),
        ClientQueryV::Message(m) => seq![1u8] + enc_client_msg(m),
        ClientQueryV::ListUsers => seq![2u8],
        ClientQueryV::Poll => seq![3u8],
    }
}

/// A sequenced query: the sequence number, the submitting client, the raw
/// 8-byte work proof, then the query.
pub open spec fn enc_sequence(seqid: u128, src: ClientId, workproof: u64, q: ClientQueryV) -> Seq<
    u8,
> {
    enc_varint(seqid) + enc_id(src.0) + le_bytes(workproof as nat, 8) + enc_query(q)
}

/// Each identifier of a list takes 17 bytes on the wire.
pub proof fn lemma_enc_id_list_len(s: Seq<ClientId>)
    ensures
        enc_id_list(s).len() == 17 * s.len(),
    decreases s.len(),
{
    if s.len() > 0 {
        lemma_enc_id_len(s[0].0);
        lemma_enc_id_list_len(s.drop_first());
    }
}

/// Encoding a list element by element splits at any index.
pub proof fn lemma_enc_id_list_split(s: Seq<ClientId>, k: int)
    requires
        0 <= k <= s.len(),
    ensures
        enc_id_list(s) == enc_id_list(s.take(k)) + enc_id_list(s.skip(k)),
    decreases k,
{
    if k == 0 {
        assert(s.take(0) =~= Seq::empty());
        assert(s.skip(0) =~= s);
        assert(enc_id_list(s.take(0)) + enc_id_list(s.skip(0)) =~= enc_id_list(s));
    } else {
        assert(s.len() > 0);
        assert(s.take(k)[0] == s[0]);
        assert(s.take(k).drop_first() =~= s.drop_first().take(k - 1));
        assert(s.skip(k) =~= s.drop_first().skip(k - 1));
        lemma_enc_id_list_split(s.drop_first(), k - 1);
        assert(enc_id_list(s.take(k)) + enc_id_list(s.skip(k)) =~= enc_id(s[0].0) + (enc_id_list(
            s.drop_first().take(k - 1),
        ) + enc_id_list(s.drop_first().skip(k - 1))));
    }
}

/// Appending one identifier appends its encoding.
pub proof fn lemma_enc_id_list_push(s: Seq<ClientId>, x: ClientId)
    ensures
        enc_id_list(s.push(x)) == enc_id_list(s) + enc_id(x.0),
{
    lemma_enc_id_list_split(s.push(x), s.len() as int);
    assert(s.push(x).take(s.len() as int) =~= s);
    let tail = s.push(x).skip(s.len() as int);
    assert(tail.len() == 1 && tail[0] == x);
    assert(tail.drop_first() =~= Seq::empty());
    assert(enc_id_list(tail.drop_first()) =~= Seq::<u8>::empty());
    assert(enc_id_list(tail) =~= enc_id(x.0));
}

/// Each server identifier of a route takes 17 bytes on the wire.
pub proof fn lemma_enc_sid_list_len(s: Seq<ServerId>)
    ensures
        enc_sid_list(s).len() == 17 * s.len(),
    decreases s.len(),
{
    if s.len() > 0 {
        lemma_enc_id_len(s[0].0);
        lemma_enc_sid_list_len(s.drop_first());
    }
}

/// Each destination pair takes 34 bytes on the wire.
pub proof fn lemma_enc_dst_list_len(s: Seq<(ClientId, ServerId)>)
    ensures
        enc_dst_list(s).len() == 34 * s.len(),
    decreases s.len(),
{
    if s.len() > 0 {
        lemma_enc_id_len(s[0].0.0);
        lemma_enc_id_len(s[0].1.0);
        lemma_enc_dst_list_len(s.drop_first());
    }
}

/// Each name pair takes at least one byte on the wire.
pub proof fn lemma_enc_name_list_min(s: Seq<(ClientId, Seq<char>)>)
    ensures
        enc_name_list(s).len() >= s.len(),
    decreases s.len(),
{
    if s.len() > 0 {
        lemma_enc_id_len(s[0].0.0);
        lemma_enc_name_list_min(s.drop_first());
    }
}

/// Each reply takes at least one byte on the wire.
pub proof fn lemma_enc_reply_list_min(s: Seq<ClientReplyV>)
    ensures
        enc_reply_list(s).len() >= s.len(),
    decreases s.len(),
{
    if s.len() > 0 {
        lemma_enc_reply_list_min(s.drop_first());
    }
}

/// Encoding a destination list splits at any index.
pub proof fn lemma_enc_dst_list_split(s: Seq<(ClientId, ServerId)>, k: int)
    requires
        0 <= k <= s.len(),
    ensures
        enc_dst_list(s) == enc_dst_list(s.take(k)) + enc_dst_list(s.skip(k)),
    decreases k,
{
    if k == 0 {
        assert(s.take(0) =~= Seq::empty());
        assert(s.skip(0) =~= s);
        assert(enc_dst_list(s.take(0)) + enc_dst_list(s.skip(0)) =~= enc_dst_list(s));
    } else {
        assert(s.len() > 0);
        assert(s.take(k)[0] == s[0]);
        assert(s.take(k).drop_first() =~= s.drop_first().take(k - 1));
        assert(s.skip(k) =~= s.drop_first().skip(k - 1));
        lemma_enc_dst_list_split(s.drop_first(), k - 1);
        assert(enc_dst_list(s.take(k)) + enc_dst_list(s.skip(k)) =~= (enc_id(s[0].0.0) + enc_id(
            s[0].1.0,
        )) + (enc_dst_list(s.drop_first().take(k - 1)) + enc_dst_list(s.drop_first().skip(k - 1))));
    }
}

/// Appending one destination pair appends its encoding.
pub proof fn lemma_enc_dst_list_push(s: Seq<(ClientId, ServerId)>, x: (ClientId, ServerId))
    ensures
        enc_dst_list(s.push(x)) == enc_dst_list(s) + (enc_id(x.0.0) + enc_id(x.1.0)),
{
    lemma_enc_dst_list_split(s.push(x), s.len() as int);
    assert(s.push(x).take(s.len() as int) =~= s);
    let tail = s.push(x).skip(s.len() as int);
    assert(tail.len() == 1 && tail[0] == x);
    assert(tail.drop_first() =~= Seq::empty());
    assert(enc_dst_list(tail.drop_first()) =~= Seq::<u8>::empty());
    assert(enc_dst_list(tail) =~= (enc_id(x.0.0) + enc_id(x.1.0)) + Seq::<u8>::empty());
    assert(enc_dst_list(tail) =~= enc_id(x.0.0) + enc_id(x.1.0));
}

/// Encoding a route splits at any index.
pub proof fn lemma_enc_sid_list_split(s: Seq<ServerId>, k: int)
    requires
        0 <= k <= s.len(),
    ensures
        enc_sid_list(s) == enc_sid_list(s.take(k)) + enc_sid_list(s.skip(k)),
    decreases k,
{
    if k == 0 {
        assert(s.take(0) =~= Seq::empty());
        assert(s.skip(0) =~= s);
        assert(enc_sid_list(s.take(0)) + enc_sid_list(s.skip(0)) =~= enc_sid_list(s));
    } else {
        assert(s.len() > 0);
        assert(s.take(k)[0] == s[0]);
        assert(s.take(k).drop_first() =~= s.drop_first().take(k - 1));
        assert(s.skip(k) =~= s.drop_first().skip(k - 1));
        lemma_enc_sid_list_split(s.drop_first(), k - 1);
        assert(enc_sid_list(s.take(k)) + enc_sid_list(s.skip(k)) =~= enc_id(s[0].0) + (
        enc_sid_list(s.drop_first().take(k - 1)) + enc_sid_list(s.drop_first().skip(k - 1))));
    }
}

/// Appending one server identifier appends its encoding.
pub proof fn lemma_enc_sid_list_push(s: Seq<ServerId>, x: ServerId)
    ensures
        enc_sid_list(s.push(x)) == enc_sid_list(s) + enc_id(x.0),
{
    lemma_enc_sid_list_split(s.push(x), s.len() as int);
    assert(s.push(x).take(s.len() as int) =~= s);
    let tail = s.push(x).skip(s.len() as int);
    assert(tail.len() == 1 && tail[0] == x);
    assert(tail.drop_first() =~= Seq::empty());
    assert(enc_sid_list(tail.drop_first()) =~= Seq::<u8>::empty());
    assert(enc_sid_list(tail) =~= enc_id(x.0));
}

/// Encoding a name list splits at any index.
pub proof fn lemma_enc_name_list_split(s: Seq<(ClientId, Seq<char>)>, k: int)
    requires
        0 <= k <= s.len(),
    ensures
        enc_name_list(s) == enc_name_list(s.take(k)) + enc_name_list(s.skip(k)),
    decreases k,
{
    if k == 0 {
        assert(s.take(0) =~= Seq::empty());
        assert(s.skip(0) =~= s);
        assert(enc_name_list(s.take(0)) + enc_name_list(s.skip(0)) =~= enc_name_list(s));
    } else {
        assert(s.len() > 0);
        assert(s.take(k)[0] == s[0]);
        assert(s.take(k).drop_first() =~= s.drop_first().take(k - 1));
        assert(s.skip(k) =~= s.drop_first().skip(k - 1));
        lemma_enc_name_list_split(s.drop_first(), k - 1);
        assert(enc_name_list(s.take(k)) + enc_name_list(s.skip(k)) =~= (enc_id(s[0].0.0) + enc_str(
            s[0].1,
        )) + (enc_name_list(s.drop_first().take(k - 1)) + enc_name_list(
            s.drop_first().skip(k - 1),
        )));
    }
}

/// Appending one name pair appends its encoding.
pub proof fn lemma_enc_name_list_push(s: Seq<(ClientId, Seq<char>)>, x: (ClientId, Seq<char>))
    ensures
        enc_name_list(s.push(x)) == enc_name_list(s) + (enc_id(x.0.0) + enc_str(x.1)),
{
    lemma_enc_name_list_split(s.push(x), s.len() as int);
    assert(s.push(x).take(s.len() as int) =~= s);
    let tail = s.push(x).skip(s.len() as int);
    assert(tail.len() == 1 && tail[0] == x);
    assert(tail.drop_first() =~= Seq::empty());
    assert(enc_name_list(tail.drop_first()) =~= Seq::<u8>::empty());
    assert(enc_name_list(tail) =~= (enc_id(x.0.0) + enc_str(x.1)) + Seq::<u8>::empty());
    assert(enc_name_list(tail) =~= enc_id(x.0.0) + enc_str(x.1));
}

/// Encoding a reply list splits at any index.
pub proof fn lemma_enc_reply_list_split(s: Seq<ClientReplyV>, k: int)
    requires
        0 <= k <= s.len(),
    ensures
        enc_reply_list(s) == enc_reply_list(s.take(k)) + enc_reply_list(s.skip(k)),
    decreases k,
{
    if k == 0 {
        assert(s.take(0) =~= Seq::empty());
        assert(s.skip(0) =~= s);
        assert(enc_reply_list(s.take(0)) + enc_reply_list(s.skip(0)) =~= enc_reply_list(s));
    } else {
        assert(s.len() > 0);
        assert(s.take(k)[0] == s[0]);
        assert(s.take(k).drop_first() =~= s.drop_first().take(k - 1));
        assert(s.skip(k) =~= s.drop_first().skip(k - 1));
        lemma_enc_reply_list_split(s.drop_first(), k - 1);
        assert(enc_reply_list(s.take(k)) + enc_reply_list(s.skip(k)) =~= enc_reply(s[0]) + (
        enc_reply_list(s.drop_first().take(k - 1)) + enc_reply_list(s.drop_first().skip(k - 1))));
    }
}

/// Appending one reply appends its encoding.
pub proof fn lemma_enc_reply_list_push(s: Seq<ClientReplyV>, x: ClientReplyV)
    ensures
        enc_reply_list(s.push(x)) == enc_reply_list(s) + enc_reply(x),
{
    lemma_enc_reply_list_split(s.push(x), s.len() as int);
    assert(s.push(x).take(s.len() as int) =~= s);
    let tail = s.push(x).skip(s.len() as int);
    assert(tail.len() == 1 && tail[0] == x);
    assert(tail.drop_first() =~= Seq::empty());
    assert(enc_reply_list(tail.drop_first()) =~= Seq::<u8>::empty());
    assert(enc_reply_list(tail) =~= enc_reply(x));
}

} // verus!
