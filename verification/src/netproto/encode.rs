//! Serializers. Each one appends to the output exactly the byte sequence that
//! `wire` prescribes for its argument, and nothing else.
use crate::messages::{name_pairs_view, replies_view, AuthMessage, ClientId, ClientMessage,
    ClientPollReply, ClientQuery, ClientReply, DelayedError, FullyQualifiedMessage, Sequence,
    ServerId, ServerMessage};
use crate::netproto::wire::{enc_auth, enc_client_err, enc_client_msg, enc_delayed_err, enc_dst_list,
    enc_fqm, enc_id, enc_id_list, enc_name_list, enc_poll_reply, enc_query, enc_replies, enc_reply,
    enc_reply_list, enc_sequence, enc_server_msg, enc_sid_list, enc_str, enc_varint, le_bytes,
    lemma_enc_dst_list_push, lemma_enc_id_list_push, lemma_enc_name_list_push,
    lemma_enc_reply_list_push, lemma_enc_sid_list_push, lemma_le_bytes_len};
use vstd::prelude::*;

verus! {

/// Appends the `n` little-endian bytes of `m`, least significant first.
pub(crate) fn le(out: &mut Vec<u8>, m: u128, n: usize)
    requires
        n <= 16,
    ensures
        final(out)@ == old(out)@ + le_bytes(m as nat, n as nat),
{
    let mut v: u128 = m;
    let mut i: usize = 0;
    while i < n
        invariant
            i <= n,
            old(out)@ + le_bytes(m as nat, n as nat) == out@ + le_bytes(v as nat, (n - i) as nat),
        decreases n - i,
    {
        let b: u8 = (v % 256) as u8;
        out.push(b);
        assert(le_bytes(v as nat, (n - i) as nat) == seq![b] + le_bytes(
            v as nat / 256,
            (n - i - 1) as nat,
        ));
        v = v / 256;
        i = i + 1;
        assert(out@ + le_bytes(v as nat, (n - i) as nat) =~= old(out)@ + le_bytes(
            m as nat,
            n as nat,
        ));
    }
    assert(out@ =~= old(out)@ + le_bytes(m as nat, n as nat));
}

/// Appends the canonical variable-length form of `m`: the shortest tier of
/// the table that fits.
pub fn u128(out: &mut Vec<u8>, m: u128)
    ensures
        final(out)@ == old(out)@ + enc_varint(m),
{
    if m <= 250 {
        out.push(m as u8);
        assert(out@ =~= old(out)@ + enc_varint(m));
    } else if m <= 0xFFFF {
        out.push(251);
        le(out, m, 2);
        assert(out@ =~= old(out)@ + enc_varint(m));
    } else if m <= 0xFFFF_FFFF {
        out.push(252);
        le(out, m, 4);
        assert(out@ =~= old(out)@ + enc_varint(m));
    } else if m <= 0xFFFF_FFFF_FFFF_FFFF {
        out.push(253);
        le(out, m, 8);
        assert(out@ =~= old(out)@ + enc_varint(m));
    } else {
        out.push(254);
        le(out, m, 16);
        assert(out@ =~= old(out)@ + enc_varint(m));
    }
}

/// Appends an identifier: its 16 little-endian bytes framed as a byte array.
fn id_bits(out: &mut Vec<u8>, x: u128)
    ensures
        final(out)@ == old(out)@ + enc_id(x),
{
    u128(out, 16);
    le(out, x, 16);
    proof {
        lemma_le_bytes_len(x as nat, 16);
        assert(out@ =~= old(out)@ + enc_id(x));
    }
}

/// Appends a client identifier.
pub fn clientid(out: &mut Vec<u8>, m: &ClientId)
    ensures
        final(out)@ == old(out)@ + enc_id(m.0),
{
    id_bits(out, m.0);
}

/// Appends a server identifier.
pub fn serverid(out: &mut Vec<u8>, m: &ServerId)
    ensures
        final(out)@ == old(out)@ + enc_id(m.0),
{
    id_bits(out, m.0);
}

/// Appends a text string: its UTF-8 bytes framed as a byte array.
pub fn string(out: &mut Vec<u8>, m: &str)
    ensures
        final(out)@ == old(out)@ + enc_str(m@),
{
    let bs: &[u8] = m.as_bytes();
    u128(out, bs.len() as u128);
    out.extend_from_slice(bs);
    proof {
        assert(out@ =~= old(out)@ + enc_str(m@));
    }
}

/// Appends a handshake frame.
pub fn auth(out: &mut Vec<u8>, m: &AuthMessage)
    ensures
        final(out)@ == old(out)@ + enc_auth(*m),
{
    match m {
        AuthMessage::Hello { user, nonce } => {
            out.push(0);
            clientid(out, user);
            le(out, *nonce as u128, 8);
        },
        AuthMessage::Nonce { server, nonce } => {
            out.push(1);
            serverid(out, server);
            le(out, *nonce as u128, 8);
        },
        AuthMessage::Auth { response } => {
            out.push(2);
            le(out, *response, 16);
        },
    }
    proof {
        assert(out@ =~= old(out)@ + enc_auth(*m));
    }
}

/// Appends a list of client identifiers, element by element.
fn put_id_list(out: &mut Vec<u8>, items: &Vec<ClientId>)
    ensures
        final(out)@ == old(out)@ + enc_id_list(items@),
{
    let mut k: usize = 0;
    proof {
        assert(enc_id_list(items@.take(0)) =~= Seq::<u8>::empty());
        assert(out@ =~= out@ + enc_id_list(items@.take(0)));
    }
    while k < items.len()
        invariant
            k <= items@.len(),
            out@ == old(out)@ + enc_id_list(items@.take(k as int)),
        decreases items@.len() - k,
    {
        clientid(out, &items[k]);
        proof {
            lemma_enc_id_list_push(items@.take(k as int), items@[k as int]);
            assert(items@.take(k as int + 1) =~= items@.take(k as int).push(items@[k as int]));
            assert(out@ =~= old(out)@ + enc_id_list(items@.take(k as int + 1)));
        }
        k = k + 1;
    }
    proof {
        assert(items@.take(items@.len() as int) =~= items@);
    }
}

/// Appends a client message.
pub fn client(out: &mut Vec<u8>, m: &ClientMessage)
    ensures
        final(out)@ == old(out)@ + enc_client_msg(m@),
{
    match m {
        ClientMessage::Text { dest, content } => {
            out.push(0);
            clientid(out, dest);
            string(out, content.as_str());
        },
        ClientMessage::MText { dest, content } => {
            out.push(1);
            u128(out, dest.len() as u128);
            put_id_list(out, dest);
            string(out, content.as_str());
        },
    }
    proof {
        assert(out@ =~= old(out)@ + enc_client_msg(m@));
    }
}

/// Appends a list of destination pairs, element by element.
fn put_dst_list(out: &mut Vec<u8>, items: &Vec<(ClientId, ServerId)>)
    ensures
        final(out)@ == old(out)@ + enc_dst_list(items@),
{
    let mut k: usize = 0;
    proof {
        assert(enc_dst_list(items@.take(0)) =~= Seq::<u8>::empty());
        assert(out@ =~= out@ + enc_dst_list(items@.take(0)));
    }
    while k < items.len()
        invariant
            k <= items@.len(),
            out@ == old(out)@ + enc_dst_list(items@.take(k as int)),
        decreases items@.len() - k,
    {
        clientid(out, &items[k].0);
        serverid(out, &items[k].1);
        proof {
            lemma_enc_dst_list_push(items@.take(k as int), items@[k as int]);
            assert(items@.take(k as int + 1) =~= items@.take(k as int).push(items@[k as int]));
            assert(out@ =~= old(out)@ + enc_dst_list(items@.take(k as int + 1)));
        }
        k = k + 1;
    }
    proof {
        assert(items@.take(items@.len() as int) =~= items@);
    }
}

/// Appends a fully-qualified message.
fn put_fqm(out: &mut Vec<u8>, f: &FullyQualifiedMessage)
    ensures
        final(out)@ == old(out)@ + enc_fqm(f@),
{
    clientid(out, &f.src);
    serverid(out, &f.srcsrv);
    u128(out, f.dsts.len() as u128);
    put_dst_list(out, &f.dsts);
    string(out, f.content.as_str());
    proof {
        assert(out@ =~= old(out)@ + enc_fqm(f@));
    }
}

/// Appends a list of `(client, name)` pairs, element by element.
fn put_name_list(out: &mut Vec<u8>, items: &Vec<(ClientId, String)>)
    ensures
        final(out)@ == old(out)@ + enc_name_list(name_pairs_view(items@)),
{
    let ghost view = name_pairs_view(items@);
    let mut k: usize = 0;
    proof {
        assert(enc_name_list(view.take(0)) =~= Seq::<u8>::empty());
        assert(out@ =~= out@ + enc_name_list(view.take(0)));
    }
    while k < items.len()
        invariant
            k <= view.len(),
            view == name_pairs_view(items@),
            view.len() == items@.len(),
            out@ == old(out)@ + enc_name_list(view.take(k as int)),
        decreases view.len() - k,
    {
        clientid(out, &items[k].0);
        string(out, items[k].1.as_str());
        proof {
            lemma_enc_name_list_push(view.take(k as int), view[k as int]);
            assert(view.take(k as int + 1) =~= view.take(k as int).push(view[k as int]));
            assert(out@ =~= old(out)@ + enc_name_list(view.take(k as int + 1)));
        }
        k = k + 1;
    }
    proof {
        assert(view.take(view.len() as int) =~= view);
    }
}

/// Appends a server frame.
pub fn server(out: &mut Vec<u8>, m: &ServerMessage)
    ensures
        final(out)@ == old(out)@ + enc_server_msg(m@),
{
    match m {
        ServerMessage::Announce { route, clients } => {
            out.push(0);
            u128(out, route.len() as u128);
            put_sid_list(out, route);
            u128(out, clients.len() as u128);
            put_name_list(out, clients);
        },
        ServerMessage::Message(f) => {
            out.push(1);
            put_fqm(out, f);
        },
    }
    proof {
        assert(out@ =~= old(out)@ + enc_server_msg(m@));
    }
}

/// Appends a list of server identifiers, element by element.
fn put_sid_list(out: &mut Vec<u8>, items: &Vec<ServerId>)
    ensures
        final(out)@ == old(out)@ + enc_sid_list(items@),
{
    let mut k: usize = 0;
    proof {
        assert(enc_sid_list(items@.take(0)) =~= Seq::<u8>::empty());
        assert(out@ =~= out@ + enc_sid_list(items@.take(0)));
    }
    while k < items.len()
        invariant
            k <= items@.len(),
            out@ == old(out)@ + enc_sid_list(items@.take(k as int)),
        decreases items@.len() - k,
    {
        serverid(out, &items[k]);
        proof {
            lemma_enc_sid_list_push(items@.take(k as int), items@[k as int]);
            assert(items@.take(k as int + 1) =~= items@.take(k as int).push(items@[k as int]));
            assert(out@ =~= old(out)@ + enc_sid_list(items@.take(k as int + 1)));
        }
        k = k + 1;
    }
    proof {
        assert(items@.take(items@.len() as int) =~= items@);
    }
}

/// Appends one reply to a client.
fn put_reply(out: &mut Vec<u8>, m: &ClientReply)
    ensures
        final(out)@ == old(out)@ + enc_reply(m@),
{
    match m {
        ClientReply::Delivered => {
            out.push(0);
        },
        ClientReply::Error(e) => {
            out.push(1);
            match e {
                crate::messages::ClientError::WorkProofError => {
                    out.push(0);
                },
                crate::messages::ClientError::UnknownClient => {
                    out.push(1);
                },
                crate::messages::ClientError::SequenceError => {
                    out.push(2);
                },
                crate::messages::ClientError::BoxFull(c) => {
                    out.push(3);
                    clientid(out, c);
                },
                crate::messages::ClientError::InternalError => {
                    out.push(4);
                },
            }
        },
        ClientReply::Delayed => {
            out.push(2);
        },
        ClientReply::Transfer(s, m2) => {
            out.push(3);
            serverid(out, s);
            server(out, m2);
        },
    }
    proof {
        assert(out@ =~= old(out)@ + enc_reply(m@));
    }
}

/// Appends the counted list of replies to a client message.
pub fn client_replies(out: &mut Vec<u8>, m: &Vec<ClientReply>)
    ensures
        final(out)@ == old(out)@ + enc_replies(replies_view(m@)),
{
    let ghost view = replies_view(m@);
    u128(out, m.len() as u128);
    let ghost mid = out@;
    let mut k: usize = 0;
    proof {
        assert(enc_reply_list(view.take(0)) =~= Seq::<u8>::empty());
        assert(out@ =~= mid + enc_reply_list(view.take(0)));
    }
    while k < m.len()
        invariant
            k <= view.len(),
            view == replies_view(m@),
            view.len() == m@.len(),
            out@ == mid + enc_reply_list(view.take(k as int)),
        decreases view.len() - k,
    {
        put_reply(out, &m[k]);
        proof {
            lemma_enc_reply_list_push(view.take(k as int), view[k as int]);
            assert(view.take(k as int + 1) =~= view.take(k as int).push(view[k as int]));
            assert(out@ =~= mid + enc_reply_list(view.take(k as int + 1)));
        }
        k = k + 1;
    }
    proof {
        assert(view.take(view.len() as int) =~= view);
        assert(out@ =~= old(out)@ + enc_replies(view));
    }
}

/// Appends a poll reply.
pub fn client_poll_reply(out: &mut Vec<u8>, m: &ClientPollReply)
    ensures
        final(out)@ == old(out)@ + enc_poll_reply(m@),
{
    match m {
        ClientPollReply::Message { src, content } => {
            out.push(0);
            clientid(out, src);
            string(out, content.as_str());
        },
        ClientPollReply::DelayedError(e) => {
            out.push(1);
            match e {
                DelayedError::UnknownRecipient(c) => {
                    out.push(0);
                    clientid(out, c);
                },
            }
        },
        ClientPollReply::Nothing => {
            out.push(2);
        },
    }
    proof {
        assert(out@ =~= old(out)@ + enc_poll_reply(m@));
    }
}

/// Appends a user list: the count, then each identifier and name.
pub fn userlist(out: &mut Vec<u8>, m: &Vec<(ClientId, String)>)
    ensures
        final(out)@ == old(out)@ + crate::netproto::wire::enc_userlist(name_pairs_view(m@)),
{
    u128(out, m.len() as u128);
    put_name_list(out, m);
    proof {
        assert(out@ =~= old(out)@ + crate::netproto::wire::enc_userlist(name_pairs_view(m@)));
    }
}

/// Appends a client query.
pub fn client_query(out: &mut Vec<u8>, m: &ClientQuery)
    ensures
        final(out)@ == old(out)@ + enc_query(m@),
{
    match m {
        ClientQuery::Register(n) => {
            out.push(0);
            string(out, n.as_str());
        },
        ClientQuery::Message(cm) => {
            out.push(1);
            client(out, cm);
        },
        ClientQuery::ListUsers => {
            out.push(2);
        },
        ClientQuery::Poll => {
            out.push(3);
        },
    }
    proof {
        assert(out@ =~= old(out)@ + enc_query(m@));
    }
}

/// Appends a sequenced client query.
pub fn sequence(out: &mut Vec<u8>, m: &Sequence<ClientQuery>)
    ensures
        final(out)@ == old(out)@ + enc_sequence(m.seqid, m.src, m.workproof, m.content@),
{
    u128(out, m.seqid);
    clientid(out, &m.src);
    le(out, m.workproof as u128, 8);
    client_query(out, &m.content);
    proof {
        assert(out@ =~= old(out)@ + enc_sequence(m.seqid, m.src, m.workproof, m.content@));
    }
}

} // verus!
