//! Parsers. Each one either consumes, starting at `pos`, exactly the byte
//! sequence that `wire` prescribes for the value it returns, or fails and
//! leaves nothing decided. Each parser is also complete: whenever a value's
//! encoding lies at `pos`, that value and the position after it come back.
use crate::messages::{name_pairs_view, replies_view, AuthMessage, ClientError, ClientId,
    ClientMessage, ClientMessageV, ClientPollReply, ClientPollReplyV, ClientQuery, ClientQueryV,
    ClientReply, ClientReplyV, DelayedError, FullyQualifiedMessage, FullyQualifiedMessageV,
    Sequence, ServerId, ServerMessage, ServerMessageV};
use crate::netproto::wire::{enc_auth, enc_client_err, enc_client_msg, enc_delayed_err,
    enc_dst_list, enc_fqm, enc_id, enc_id_list, enc_name_list, enc_poll_reply, enc_query,
    enc_replies, enc_reply, enc_reply_list, enc_sequence, enc_server_msg, enc_sid_list, enc_str,
    enc_userlist, enc_varint, le_bytes, lemma_enc_id_len, lemma_enc_id_list_len,
    lemma_enc_id_list_push, lemma_enc_id_list_split, lemma_le_bytes_inj, lemma_le_bytes_len,
    lemma_pow256_le, lemma_pow256_values, lemma_starts_with_byte, lemma_starts_with_concat,
    lemma_starts_with_concat3, lemma_varint_minimal, pow256, starts_with};
use vstd::prelude::*;
use vstd::slice::{slice_subrange, slice_to_vec};
use vstd::utf8::{encode_utf8, encode_utf8_decode_utf8, encode_utf8_valid_utf8, valid_utf8};

verus! {

/// Reads `n` little-endian bytes as an unsigned value. Fails exactly when
/// fewer than `n` bytes remain.
fn le(bytes: &[u8], pos: usize, n: usize) -> (r: Option<(u128, usize)>)
    requires
        n <= 16,
    ensures
        r is Some <==> pos + n <= bytes@.len(),
        r matches Some(p) ==> {
            &&& p.1 == pos + n
            &&& (p.0 as nat) < pow256(n as nat)
            &&& bytes@.subrange(pos as int, pos + n) == le_bytes(p.0 as nat, n as nat)
        },
{
    if pos > bytes.len() || n > bytes.len() - pos {
        return None;
    }
    let ghost end: int = pos + n;
    let mut acc: u128 = 0;
    let mut i: usize = n;
    proof {
        lemma_pow256_values();
        assert(le_bytes(0nat, 0nat) =~= bytes@.subrange(end, end));
    }
    while i > 0
        invariant
            i <= n,
            n <= 16,
            pos + n <= bytes@.len(),
            bytes@.len() <= usize::MAX,
            end == pos + n,
            (acc as nat) < pow256((n - i) as nat),
            le_bytes(acc as nat, (n - i) as nat) == bytes@.subrange(pos + i, end),
            pow256(16) == 0x1_0000_0000_0000_0000_0000_0000_0000_0000,
        decreases i,
    {
        i = i - 1;
        let b: u8 = bytes[pos + i];
        proof {
            lemma_pow256_le((n - i) as nat, 16);
            assert(acc * 256 + b < 256 * pow256((n - i - 1) as nat)) by (nonlinear_arith)
                requires
                    (acc as nat) < pow256((n - i - 1) as nat),
                    b < 256,
            ;
            assert(pow256((n - i) as nat) == 256 * pow256((n - i - 1) as nat));
        }
        let next: u128 = acc * 256 + (b as u128);
        proof {
            assert(next % 256 == b && next / 256 == acc) by (nonlinear_arith)
                requires
                    next == acc * 256 + b,
                    b < 256,
            ;
            assert(le_bytes(next as nat, (n - i) as nat) =~= bytes@.subrange(pos + i, end)) by {
                assert(le_bytes(next as nat, (n - i) as nat) == seq![b] + le_bytes(
                    acc as nat,
                    (n - i - 1) as nat,
                ));
                lemma_le_bytes_len(acc as nat, (n - i - 1) as nat);
            }
        }
        acc = next;
    }
    Some((acc, pos + n))
}

/// Reads a value in the variable-length form, rejecting tags past the table
/// and the wider-than-needed forms a canonical encoder never produces.
pub fn u128(bytes: &[u8], pos: usize) -> (r: Option<(u128, usize)>)
    ensures
        r matches Some(p) ==> {
            &&& starts_with(bytes@, pos as int, enc_varint(p.0))
            &&& p.1 == pos + enc_varint(p.0).len()
        },
        forall|m: u128| #![trigger enc_varint(m)]
            starts_with(bytes@, pos as int, enc_varint(m)) ==> r == Some(
                (m, (pos + enc_varint(m).len()) as usize),
            ),
{
    proof {
        lemma_pow256_values();
    }
    if pos >= bytes.len() {
        assert forall|m: u128| #![trigger enc_varint(m)]
            !starts_with(bytes@, pos as int, enc_varint(m)) by {
            lemma_varint_minimal(m);
        }
        return None;
    }
    let tag: u8 = bytes[pos];
    if tag <= 250 {
        assert(bytes@.subrange(pos as int, pos + 1) =~= enc_varint(tag as u128));
        let r = Some((tag as u128, pos + 1));
        assert forall|m: u128| #![trigger enc_varint(m)]
            starts_with(bytes@, pos as int, enc_varint(m)) implies r == Some(
            (m, (pos + enc_varint(m).len()) as usize),
        ) by {
            lemma_varint_minimal(m);
            assert(enc_varint(m)[0] == bytes@[pos as int]);
            if m <= 250 {
                assert(enc_varint(m) =~= seq![m as u8]);
            }
        }
        return r;
    }
    if tag == 255 {
        assert forall|m: u128| #![trigger enc_varint(m)]
            !starts_with(bytes@, pos as int, enc_varint(m)) by {
            lemma_varint_minimal(m);
            if starts_with(bytes@, pos as int, enc_varint(m)) {
                assert(enc_varint(m)[0] == bytes@[pos as int]);
            }
        }
        return None;
    }
    let width: usize = if tag == 251 {
        2
    } else if tag == 252 {
        4
    } else if tag == 253 {
        8
    } else {
        16
    };
    let min_v: u128 = if tag == 251 {
        251
    } else if tag == 252 {
        0x1_0000
    } else if tag == 253 {
        0x1_0000_0000
    } else {
        0x1_0000_0000_0000_0000
    };
    // Any value whose encoding lies here is in the tier this tag names.
    proof {
        assert forall|m: u128| #![trigger enc_varint(m)]
            starts_with(bytes@, pos as int, enc_varint(m)) implies {
            &&& min_v <= m
            &&& (m as nat) < pow256(width as nat)
            &&& enc_varint(m) == seq![tag] + le_bytes(m as nat, width as nat)
            &&& starts_with(bytes@, pos + 1, le_bytes(m as nat, width as nat))
        } by {
            lemma_varint_minimal(m);
            assert(enc_varint(m)[0] == bytes@[pos as int]);
            assert(enc_varint(m) == seq![tag] + le_bytes(m as nat, width as nat));
            lemma_starts_with_concat(bytes@, pos as int, seq![tag], le_bytes(
                m as nat,
                width as nat,
            ));
            lemma_le_bytes_len(m as nat, width as nat);
        }
    }
    let parsed = le(bytes, pos + 1, width);
    match parsed {
        None => {
            assert forall|m: u128| #![trigger enc_varint(m)]
                !starts_with(bytes@, pos as int, enc_varint(m)) by {
                lemma_le_bytes_len(m as nat, width as nat);
            }
            None
        },
        Some((v, end)) => {
            if v < min_v {
                // A canonical encoder would have used a narrower tier.
                assert forall|m: u128| #![trigger enc_varint(m)]
                    !starts_with(bytes@, pos as int, enc_varint(m)) by {
                    if starts_with(bytes@, pos as int, enc_varint(m)) {
                        lemma_le_bytes_len(m as nat, width as nat);
                        lemma_le_bytes_inj(v as nat, m as nat, width as nat);
                    }
                }
                None
            } else {
                proof {
                    assert(enc_varint(v) == seq![tag] + le_bytes(v as nat, width as nat));
                    lemma_le_bytes_len(v as nat, width as nat);
                    assert(bytes@.subrange(pos as int, pos + 1 + width) =~= enc_varint(v));
                }
                let r = Some((v, end));
                assert forall|m: u128| #![trigger enc_varint(m)]
                    starts_with(bytes@, pos as int, enc_varint(m)) implies r == Some(
                    (m, (pos + enc_varint(m).len()) as usize),
                ) by {
                    lemma_le_bytes_len(m as nat, width as nat);
                    lemma_le_bytes_inj(v as nat, m as nat, width as nat);
                }
                r
            }
        },
    }
}

/// Reads the 128 bits of an identifier: a byte array whose length must be 16.
fn id_bits(bytes: &[u8], pos: usize) -> (r: Option<(u128, usize)>)
    ensures
        r matches Some(p) ==> {
            &&& starts_with(bytes@, pos as int, enc_id(p.0))
            &&& p.1 == pos + enc_id(p.0).len()
        },
        forall|x: u128| #![trigger enc_id(x)]
            starts_with(bytes@, pos as int, enc_id(x)) ==> r == Some(
                (x, (pos + enc_id(x).len()) as usize),
            ),
{
    proof {
        lemma_pow256_values();
        assert forall|x: u128| #![trigger enc_id(x)]
            enc_id(x) == seq![16u8] + le_bytes(x as nat, 16) && enc_id(x).len() == 17 by {
            lemma_le_bytes_len(x as nat, 16);
            assert(enc_varint(16) =~= seq![16u8]);
        }
        assert forall|x: u128| #![trigger enc_id(x)]
            starts_with(bytes@, pos as int, enc_id(x)) implies {
            &&& starts_with(bytes@, pos as int, enc_varint(16))
            &&& starts_with(bytes@, pos + 1, le_bytes(x as nat, 16))
        } by {
            lemma_starts_with_concat(bytes@, pos as int, seq![16u8], le_bytes(x as nat, 16));
            lemma_le_bytes_len(x as nat, 16);
        }
    }
    let len = match u128(bytes, pos) {
        None => {
            assert forall|x: u128| #![trigger enc_id(x)]
                !starts_with(bytes@, pos as int, enc_id(x)) by {
                if starts_with(bytes@, pos as int, enc_id(x)) {
                    assert(starts_with(bytes@, pos as int, enc_varint(16)));
                }
            }
            return None;
        },
        Some(p) => p,
    };
    if len.0 != 16 {
        // Identifiers are always carried as exactly 16 bytes.
        assert forall|x: u128| #![trigger enc_id(x)]
            !starts_with(bytes@, pos as int, enc_id(x)) by {
            if starts_with(bytes@, pos as int, enc_id(x)) {
                assert(starts_with(bytes@, pos as int, enc_varint(16)));
            }
        }
        return None;
    }
    match le(bytes, len.1, 16) {
        None => {
            assert forall|x: u128| #![trigger enc_id(x)]
                !starts_with(bytes@, pos as int, enc_id(x)) by {
                if starts_with(bytes@, pos as int, enc_id(x)) {
                    assert(starts_with(bytes@, pos as int, enc_varint(16)));
                    assert(len.1 == pos + 1);
                }
            }
            None
        },
        Some((v, end)) => {
            proof {
                lemma_le_bytes_len(v as nat, 16);
                assert(bytes@.subrange(pos as int, end as int) =~= enc_id(v));
                assert forall|x: u128| #![trigger enc_id(x)]
                    starts_with(bytes@, pos as int, enc_id(x)) implies x == v by {
                    assert(starts_with(bytes@, pos as int, enc_varint(16)));
                    assert(len.1 == pos + 1);
                    lemma_le_bytes_inj(v as nat, x as nat, 16);
                }
            }
            Some((v, end))
        },
    }
}

/// Reads a client identifier.
pub fn clientid(bytes: &[u8], pos: usize) -> (r: Option<(ClientId, usize)>)
    ensures
        r matches Some(p) ==> {
            &&& starts_with(bytes@, pos as int, enc_id(p.0.0))
            &&& p.1 == pos + enc_id(p.0.0).len()
        },
        forall|x: u128| #![trigger enc_id(x)]
            starts_with(bytes@, pos as int, enc_id(x)) ==> r == Some(
                (ClientId(x), (pos + enc_id(x).len()) as usize),
            ),
{
    match id_bits(bytes, pos) {
        None => None,
        Some((v, end)) => Some((ClientId(v), end)),
    }
}

/// Reads a server identifier.
pub fn serverid(bytes: &[u8], pos: usize) -> (r: Option<(ServerId, usize)>)
    ensures
        r matches Some(p) ==> {
            &&& starts_with(bytes@, pos as int, enc_id(p.0.0))
            &&& p.1 == pos + enc_id(p.0.0).len()
        },
        forall|x: u128| #![trigger enc_id(x)]
            starts_with(bytes@, pos as int, enc_id(x)) ==> r == Some(
                (ServerId(x), (pos + enc_id(x).len()) as usize),
            ),
{
    match id_bits(bytes, pos) {
        None => None,
        Some((v, end)) => Some((ServerId(v), end)),
    }
}

/// Relies on `String::from_utf8`: it succeeds exactly on valid UTF-8 input
/// and returns the string those bytes spell, taking the bytes unchanged.
#[verifier::external_body]
fn bytes_to_string(v: Vec<u8>) -> (r: Option<String>)
    ensures
        r matches Some(s) ==> encode_utf8(s@) == v@,
        valid_utf8(v@) ==> r is Some,
{
    match String::from_utf8(v) {
        Ok(s) => Some(s),
        Err(_) => None,
    }
}

/// Reads a text string: a byte array that must spell valid UTF-8.
pub fn string(bytes: &[u8], pos: usize) -> (r: Option<(String, usize)>)
    ensures
        r matches Some(p) ==> {
            &&& starts_with(bytes@, pos as int, enc_str(p.0@))
            &&& p.1 == pos + enc_str(p.0@).len()
        },
        forall|s: Seq<char>| #![trigger enc_str(s)]
            starts_with(bytes@, pos as int, enc_str(s)) ==> (r matches Some(p) && p.0@ == s && p.1
                == pos + enc_str(s).len()),
{
    proof {
        assert forall|s: Seq<char>| #![trigger enc_str(s)]
            starts_with(bytes@, pos as int, enc_str(s)) implies {
            &&& starts_with(bytes@, pos as int, enc_varint(encode_utf8(s).len() as u128))
            &&& starts_with(
                bytes@,
                pos + enc_varint(encode_utf8(s).len() as u128).len(),
                encode_utf8(s),
            )
        } by {
            lemma_starts_with_concat(
                bytes@,
                pos as int,
                enc_varint(encode_utf8(s).len() as u128),
                encode_utf8(s),
            );
        }
    }
    let len = match u128(bytes, pos) {
        None => {
            return None;
        },
        Some(p) => p,
    };
    let start = len.1;
    if start > bytes.len() || (len.0 > (bytes.len() - start) as u128) {
        assert forall|s: Seq<char>| #![trigger enc_str(s)]
            !starts_with(bytes@, pos as int, enc_str(s)) by {
            if starts_with(bytes@, pos as int, enc_str(s)) {
                assert(starts_with(bytes@, pos as int, enc_varint(encode_utf8(s).len() as u128)));
            }
        }
        return None;
    }
    let n = len.0 as usize;
    let raw = slice_to_vec(slice_subrange(bytes, start, start + n));
    let ghost consumed: Seq<u8> = bytes@.subrange(pos as int, start + n);
    proof {
        assert(consumed =~= enc_varint(len.0) + raw@);
    }
    match bytes_to_string(raw) {
        None => {
            assert forall|s: Seq<char>| #![trigger enc_str(s)]
                !starts_with(bytes@, pos as int, enc_str(s)) by {
            if starts_with(bytes@, pos as int, enc_str(s)) {
                    assert(starts_with(bytes@, pos as int, enc_varint(
                        encode_utf8(s).len() as u128,
                    )));
                    assert(encode_utf8(s) =~= raw@);
                    encode_utf8_valid_utf8(s);
                }
            }
            None
        },
        Some(st) => {
            proof {
                assert(bytes@.subrange(pos as int, start + n) =~= enc_str(st@));
                assert forall|s: Seq<char>| #![trigger enc_str(s)]
                    starts_with(bytes@, pos as int, enc_str(s)) implies st@ == s && pos + enc_str(
                    s,
                ).len() == start + n by {
                    assert(starts_with(bytes@, pos as int, enc_varint(
                        encode_utf8(s).len() as u128,
                    )));
                    assert(encode_utf8(s) =~= raw@);
                    encode_utf8_decode_utf8(s);
                    encode_utf8_decode_utf8(st@);
                }
            }
            Some((st, start + n))
        },
    }
}

/// Reads a handshake frame.
pub fn auth(bytes: &[u8], pos: usize) -> (r: Option<(AuthMessage, usize)>)
    ensures
        r matches Some(p) ==> {
            &&& starts_with(bytes@, pos as int, enc_auth(p.0))
            &&& p.1 == pos + enc_auth(p.0).len()
        },
        forall|v: AuthMessage| #![trigger enc_auth(v)]
            starts_with(bytes@, pos as int, enc_auth(v)) ==> (r matches Some(p) && p.0 == v && p.1
                == pos + enc_auth(v).len()),
{
    proof {
        lemma_pow256_values();
        assert forall|v: AuthMessage| #![trigger enc_auth(v)]
            starts_with(bytes@, pos as int, enc_auth(v)) implies {
            &&& pos < bytes@.len()
            &&& match v {
                AuthMessage::Hello { user, nonce } => bytes@[pos as int] == 0 && starts_with(
                    bytes@,
                    pos + 1,
                    enc_id(user.0),
                ) && starts_with(bytes@, pos + 18, le_bytes(nonce as nat, 8)) && enc_auth(v).len()
                    == 26,
                AuthMessage::Nonce { server, nonce } => bytes@[pos as int] == 1 && starts_with(
                    bytes@,
                    pos + 1,
                    enc_id(server.0),
                ) && starts_with(bytes@, pos + 18, le_bytes(nonce as nat, 8)) && enc_auth(v).len()
                    == 26,
                AuthMessage::Auth { response } => bytes@[pos as int] == 2 && starts_with(
                    bytes@,
                    pos + 1,
                    le_bytes(response as nat, 16),
                ) && enc_auth(v).len() == 17,
            }
        } by {
            match v {
                AuthMessage::Hello { user, nonce } => {
                    lemma_enc_id_len(user.0);
                    lemma_le_bytes_len(nonce as nat, 8);
                    lemma_starts_with_concat3(
                        bytes@,
                        pos as int,
                        seq![0u8],
                        enc_id(user.0),
                        le_bytes(nonce as nat, 8),
                    );
                    lemma_starts_with_byte(bytes@, pos as int, 0);
                },
                AuthMessage::Nonce { server, nonce } => {
                    lemma_enc_id_len(server.0);
                    lemma_le_bytes_len(nonce as nat, 8);
                    lemma_starts_with_concat3(
                        bytes@,
                        pos as int,
                        seq![1u8],
                        enc_id(server.0),
                        le_bytes(nonce as nat, 8),
                    );
                    lemma_starts_with_byte(bytes@, pos as int, 1);
                },
                AuthMessage::Auth { response } => {
                    lemma_le_bytes_len(response as nat, 16);
                    lemma_starts_with_concat(
                        bytes@,
                        pos as int,
                        seq![2u8],
                        le_bytes(response as nat, 16),
                    );
                    lemma_starts_with_byte(bytes@, pos as int, 2);
                },
            }
        }
    }
    if pos >= bytes.len() {
        return None;
    }
    let tag = bytes[pos];
    if tag == 0 {
        let parsed_id = clientid(bytes, pos + 1);
        let (user, p1) = match parsed_id {
            None => {
                return None;
            },
            Some(q) => q,
        };
        proof {
            lemma_enc_id_len(user.0);
        }
        let parsed_nonce = le(bytes, p1, 8);
        let (nv, p2) = match parsed_nonce {
            None => {
                assert forall|v: AuthMessage| #![trigger enc_auth(v)]
                    !starts_with(bytes@, pos as int, enc_auth(v)) by {
                    if starts_with(bytes@, pos as int, enc_auth(v)) {
                        if let AuthMessage::Hello { user: u0, nonce: n0 } = v {
                            lemma_le_bytes_len(n0 as nat, 8);
                        }
                    }
                }
                return None;
            },
            Some(q) => q,
        };
        let nonce = nv as u64;
        let result = AuthMessage::Hello { user, nonce };
        proof {
            lemma_le_bytes_len(nv as nat, 8);
            assert(starts_with(bytes@, pos as int, seq![0u8])) by {
                assert(bytes@.subrange(pos as int, pos + 1) =~= seq![0u8]);
            }
            assert(starts_with(bytes@, p1 as int, le_bytes(nv as nat, 8))) by {
                assert(bytes@.subrange(p1 as int, p1 + 8) == le_bytes(nv as nat, 8));
            }
            lemma_starts_with_concat3(
                bytes@,
                pos as int,
                seq![0u8],
                enc_id(user.0),
                le_bytes(nonce as nat, 8),
            );
            assert(starts_with(bytes@, pos as int, enc_auth(result)));
            assert forall|v: AuthMessage| #![trigger enc_auth(v)]
                starts_with(bytes@, pos as int, enc_auth(v)) implies v == result && pos + enc_auth(
                v,
            ).len() == p2 by {
                if let AuthMessage::Hello { user: u0, nonce: n0 } = v {
                    assert(le_bytes(nv as nat, 8) == bytes@.subrange(p1 as int, p1 + 8));
                    assert(le_bytes(n0 as nat, 8) == bytes@.subrange(p1 as int, p1 + 8));
                    lemma_le_bytes_inj(nv as nat, n0 as nat, 8);
                }
            }
        }
        Some((result, p2))
    } else if tag == 1 {
        let parsed_id = serverid(bytes, pos + 1);
        let (server, p1) = match parsed_id {
            None => {
                return None;
            },
            Some(q) => q,
        };
        proof {
            lemma_enc_id_len(server.0);
        }
        let parsed_nonce = le(bytes, p1, 8);
        let (nv, p2) = match parsed_nonce {
            None => {
                assert forall|v: AuthMessage| #![trigger enc_auth(v)]
                    !starts_with(bytes@, pos as int, enc_auth(v)) by {
                    if starts_with(bytes@, pos as int, enc_auth(v)) {
                        if let AuthMessage::Nonce { server: s0, nonce: n0 } = v {
                            lemma_le_bytes_len(n0 as nat, 8);
                        }
                    }
                }
                return None;
            },
            Some(q) => q,
        };
        let nonce = nv as u64;
        let result = AuthMessage::Nonce { server, nonce };
        proof {
            lemma_le_bytes_len(nv as nat, 8);
            assert(starts_with(bytes@, pos as int, seq![1u8])) by {
                assert(bytes@.subrange(pos as int, pos + 1) =~= seq![1u8]);
            }
            assert(starts_with(bytes@, p1 as int, le_bytes(nv as nat, 8))) by {
                assert(bytes@.subrange(p1 as int, p1 + 8) == le_bytes(nv as nat, 8));
            }
            lemma_starts_with_concat3(
                bytes@,
                pos as int,
                seq![1u8],
                enc_id(server.0),
                le_bytes(nonce as nat, 8),
            );
            assert(starts_with(bytes@, pos as int, enc_auth(result)));
            assert forall|v: AuthMessage| #![trigger enc_auth(v)]
                starts_with(bytes@, pos as int, enc_auth(v)) implies v == result && pos + enc_auth(
                v,
            ).len() == p2 by {
                if let AuthMessage::Nonce { server: s0, nonce: n0 } = v {
                    assert(le_bytes(nv as nat, 8) == bytes@.subrange(p1 as int, p1 + 8));
                    assert(le_bytes(n0 as nat, 8) == bytes@.subrange(p1 as int, p1 + 8));
                    lemma_le_bytes_inj(nv as nat, n0 as nat, 8);
                }
            }
        }
        Some((result, p2))
    } else if tag == 2 {
        let parsed_resp = le(bytes, pos + 1, 16);
        let (nv, p2) = match parsed_resp {
            None => {
                assert forall|v: AuthMessage| #![trigger enc_auth(v)]
                    !starts_with(bytes@, pos as int, enc_auth(v)) by {
                    if starts_with(bytes@, pos as int, enc_auth(v)) {
                        if let AuthMessage::Auth { response: r0 } = v {
                            lemma_le_bytes_len(r0 as nat, 16);
                        }
                    }
                }
                return None;
            },
            Some(q) => q,
        };
        let result = AuthMessage::Auth { response: nv };
        proof {
            lemma_le_bytes_len(nv as nat, 16);
            assert(starts_with(bytes@, pos as int, seq![2u8])) by {
                assert(bytes@.subrange(pos as int, pos + 1) =~= seq![2u8]);
            }
            assert(starts_with(bytes@, pos + 1, le_bytes(nv as nat, 16))) by {
                assert(bytes@.subrange(pos + 1, pos + 17) == le_bytes(nv as nat, 16));
            }
            lemma_starts_with_concat(bytes@, pos as int, seq![2u8], le_bytes(nv as nat, 16));
            assert(starts_with(bytes@, pos as int, enc_auth(result)));
            assert forall|v: AuthMessage| #![trigger enc_auth(v)]
                starts_with(bytes@, pos as int, enc_auth(v)) implies v == result && pos + enc_auth(
                v,
            ).len() == p2 by {
                if let AuthMessage::Auth { response: r0 } = v {
                    assert(le_bytes(nv as nat, 16) == bytes@.subrange(pos + 1, pos + 17));
                    assert(le_bytes(r0 as nat, 16) == bytes@.subrange(pos + 1, pos + 17));
                    lemma_le_bytes_inj(nv as nat, r0 as nat, 16);
                }
            }
        }
        Some((result, p2))
    } else {
        None
    }
}

/// Reads `n` client identifiers, one after the other.
fn id_list(bytes: &[u8], pos: usize, n: usize) -> (r: Option<(Vec<ClientId>, usize)>)
    requires
        pos <= bytes@.len(),
    ensures
        r matches Some(p) ==> {
            &&& p.0@.len() == n
            &&& starts_with(bytes@, pos as int, enc_id_list(p.0@))
            &&& p.1 == pos + enc_id_list(p.0@).len()
        },
        forall|l: Seq<ClientId>| #![trigger enc_id_list(l)]
            l.len() == n && starts_with(bytes@, pos as int, enc_id_list(l)) ==> (r matches Some(p)
                && p.0@ == l && p.1 == pos + enc_id_list(l).len()),
{
    let mut out: Vec<ClientId> = Vec::new();
    let mut p = pos;
    let mut k: usize = 0;
    proof {
        assert(enc_id_list(out@) =~= Seq::<u8>::empty());
        assert(bytes@.subrange(pos as int, pos as int) =~= Seq::<u8>::empty());
    }
    while k < n
        invariant
            k <= n,
            out@.len() == k,
            starts_with(bytes@, pos as int, enc_id_list(out@)),
            p == pos + enc_id_list(out@).len(),
            forall|l: Seq<ClientId>| #![trigger enc_id_list(l)]
                l.len() == n && starts_with(bytes@, pos as int, enc_id_list(l)) ==> out@ == l.take(
                    k as int,
                ),
        decreases n - k,
    {
        let ghost out_pre = out@;
        proof {
            assert forall|l: Seq<ClientId>| #![trigger enc_id_list(l)]
                l.len() == n && starts_with(bytes@, pos as int, enc_id_list(l)) implies starts_with(
                bytes@,
                p as int,
                enc_id(l[k as int].0),
            ) by {
                lemma_enc_id_list_split(l, k as int);
                lemma_starts_with_concat(
                    bytes@,
                    pos as int,
                    enc_id_list(l.take(k as int)),
                    enc_id_list(l.skip(k as int)),
                );
                assert(enc_id_list(l.take(k as int)) == enc_id_list(out_pre));
                assert(l.skip(k as int)[0] == l[k as int]);
                assert(l.skip(k as int).drop_first() =~= l.skip(k as int + 1));
                assert(enc_id_list(l.skip(k as int)) == enc_id(l[k as int].0) + enc_id_list(
                    l.skip(k as int + 1),
                ));
                lemma_starts_with_concat(
                    bytes@,
                    p as int,
                    enc_id(l[k as int].0),
                    enc_id_list(l.skip(k as int + 1)),
                );
            }
        }
        let parsed = clientid(bytes, p);
        match parsed {
            None => {
                return None;
            },
            Some((c, p2)) => {
                out.push(c);
                proof {
                    lemma_enc_id_list_push(out_pre, c);
                    assert(out@ =~= out_pre.push(c));
                    lemma_starts_with_concat(bytes@, pos as int, enc_id_list(out_pre), enc_id(c.0));
                    assert forall|l: Seq<ClientId>| #![trigger enc_id_list(l)]
                        l.len() == n && starts_with(bytes@, pos as int, enc_id_list(l)) implies
                        out@ == l.take(k as int + 1) by {
                        assert(l.take(k as int + 1) =~= l.take(k as int).push(l[k as int]));
                    }
                }
                p = p2;
            },
        }
        k = k + 1;
    }
    proof {
        assert forall|l: Seq<ClientId>| #![trigger enc_id_list(l)]
            l.len() == n && starts_with(bytes@, pos as int, enc_id_list(l)) implies out@ == l by {
            assert(l.take(n as int) =~= l);
        }
    }
    Some((out, p))
}

/// Reads a client message.
#[verifier::rlimit(60)]
pub fn client(bytes: &[u8], pos: usize) -> (r: Option<(ClientMessage, usize)>)
    ensures
        r matches Some(p) ==> {
            &&& starts_with(bytes@, pos as int, enc_client_msg(p.0@))
            &&& p.1 == pos + enc_client_msg(p.0@).len()
        },
        forall|v: ClientMessageV| #![trigger enc_client_msg(v)]
            starts_with(bytes@, pos as int, enc_client_msg(v)) ==> (r matches Some(p) && p.0@ == v
                && p.1 == pos + enc_client_msg(v).len()),
{
    proof {
        assert forall|v: ClientMessageV| #![trigger enc_client_msg(v)]
            starts_with(bytes@, pos as int, enc_client_msg(v)) implies {
            &&& pos < bytes@.len()
            &&& match v {
                ClientMessageV::Text { dest, content } => bytes@[pos as int] == 0 && starts_with(
                    bytes@,
                    pos + 1,
                    enc_id(dest.0),
                ) && starts_with(bytes@, pos + 18, enc_str(content)) && enc_client_msg(v).len()
                    == 18 + enc_str(content).len(),
                ClientMessageV::MText { dest, content } => bytes@[pos as int] == 1 && starts_with(
                    bytes@,
                    pos + 1,
                    enc_varint(dest.len() as u128),
                ) && starts_with(
                    bytes@,
                    pos + 1 + enc_varint(dest.len() as u128).len(),
                    enc_id_list(dest),
                ) && starts_with(
                    bytes@,
                    pos + 1 + enc_varint(dest.len() as u128).len() + enc_id_list(dest).len(),
                    enc_str(content),
                ) && enc_client_msg(v).len() == 1 + enc_varint(dest.len() as u128).len()
                    + enc_id_list(dest).len() + enc_str(content).len(),
            }
        } by {
            match v {
                ClientMessageV::Text { dest, content } => {
                    lemma_enc_id_len(dest.0);
                    lemma_starts_with_concat3(
                        bytes@,
                        pos as int,
                        seq![0u8],
                        enc_id(dest.0),
                        enc_str(content),
                    );
                    lemma_starts_with_byte(bytes@, pos as int, 0);
                },
                ClientMessageV::MText { dest, content } => {
                    lemma_starts_with_concat(
                        bytes@,
                        pos as int,
                        seq![1u8] + enc_varint(dest.len() as u128) + enc_id_list(dest),
                        enc_str(content),
                    );
                    lemma_starts_with_concat3(
                        bytes@,
                        pos as int,
                        seq![1u8],
                        enc_varint(dest.len() as u128),
                        enc_id_list(dest),
                    );
                    lemma_starts_with_byte(bytes@, pos as int, 1);
                },
            }
        }
    }
    if pos >= bytes.len() {
        return None;
    }
    let tag = bytes[pos];
    if tag == 0 {
        let (dest, p1) = match clientid(bytes, pos + 1) {
            None => {
                return None;
            },
            Some(q) => q,
        };
        let (content, p2) = match string(bytes, p1) {
            None => {
                proof {
                    lemma_enc_id_len(dest.0);
                }
                return None;
            },
            Some(q) => q,
        };
        let ghost content_v = content@;
        let result = ClientMessage::Text { dest, content };
        proof {
            lemma_enc_id_len(dest.0);
            assert(starts_with(bytes@, pos as int, seq![0u8])) by {
                assert(bytes@.subrange(pos as int, pos + 1) =~= seq![0u8]);
            }
            lemma_starts_with_concat3(
                bytes@,
                pos as int,
                seq![0u8],
                enc_id(dest.0),
                enc_str(content_v),
            );
            assert(starts_with(bytes@, pos as int, enc_client_msg(result@)));
        }
        Some((result, p2))
    } else if tag == 1 {
        let (cnt, p1) = match u128(bytes, pos + 1) {
            None => {
                return None;
            },
            Some(q) => q,
        };
        if cnt > usize::MAX as u128 {
            assert forall|v: ClientMessageV| #![trigger enc_client_msg(v)]
                !starts_with(bytes@, pos as int, enc_client_msg(v)) by {
                if starts_with(bytes@, pos as int, enc_client_msg(v)) {
                    if let ClientMessageV::MText { dest, content } = v {
                        assert(starts_with(bytes@, pos + 1, enc_varint(dest.len() as u128)));
                        lemma_enc_id_list_len(dest);
                    }
                }
            }
            return None;
        }
        let n = cnt as usize;
        let (dest, p2) = match id_list(bytes, p1, n) {
            None => {
                assert forall|v: ClientMessageV| #![trigger enc_client_msg(v)]
                    !starts_with(bytes@, pos as int, enc_client_msg(v)) by {
                    if starts_with(bytes@, pos as int, enc_client_msg(v)) {
                        if let ClientMessageV::MText { dest, content } = v {
                            assert(starts_with(bytes@, pos + 1, enc_varint(dest.len() as u128)));
                            lemma_enc_id_list_len(dest);
                        }
                    }
                }
                return None;
            },
            Some(q) => q,
        };
        let (content, p3) = match string(bytes, p2) {
            None => {
                assert forall|v: ClientMessageV| #![trigger enc_client_msg(v)]
                    !starts_with(bytes@, pos as int, enc_client_msg(v)) by {
                    if starts_with(bytes@, pos as int, enc_client_msg(v)) {
                        if let ClientMessageV::MText { dest: d0, content: c0 } = v {
                            assert(starts_with(bytes@, pos + 1, enc_varint(d0.len() as u128)));
                            lemma_enc_id_list_len(d0);
                        }
                    }
                }
                return None;
            },
            Some(q) => q,
        };
        let ghost content_v = content@;
        let ghost dest_v = dest@;
        let result = ClientMessage::MText { dest, content };
        proof {
            assert(starts_with(bytes@, pos as int, seq![1u8])) by {
                assert(bytes@.subrange(pos as int, pos + 1) =~= seq![1u8]);
            }
            assert(dest_v.len() == cnt);
            lemma_starts_with_concat(
                bytes@,
                pos as int,
                seq![1u8] + enc_varint(dest_v.len() as u128) + enc_id_list(dest_v),
                enc_str(content_v),
            );
            lemma_starts_with_concat3(
                bytes@,
                pos as int,
                seq![1u8],
                enc_varint(dest_v.len() as u128),
                enc_id_list(dest_v),
            );
            assert(starts_with(bytes@, pos as int, enc_client_msg(result@)));
            assert forall|v: ClientMessageV| #![trigger enc_client_msg(v)]
                starts_with(bytes@, pos as int, enc_client_msg(v)) implies v == result@ && pos
                + enc_client_msg(v).len() == p3 by {
                if let ClientMessageV::MText { dest: d0, content: c0 } = v {
                    lemma_enc_id_list_len(d0);
                    assert(d0.len() == cnt);
                    assert(d0.len() == n);
                }
            }
        }
        Some((result, p3))
    } else {
        None
    }
}

/// Reads `n` server identifiers, one after the other.
fn sid_list(bytes: &[u8], pos: usize, n: usize) -> (r: Option<(Vec<ServerId>, usize)>)
    requires
        pos <= bytes@.len(),
    ensures
        r matches Some(p) ==> {
            &&& p.0@.len() == n
            &&& starts_with(bytes@, pos as int, enc_sid_list(p.0@))
            &&& p.1 == pos + enc_sid_list(p.0@).len()
        },
        forall|l: Seq<ServerId>| #![trigger enc_sid_list(l)]
            l.len() == n && starts_with(bytes@, pos as int, enc_sid_list(l)) ==> (r matches Some(p)
                && p.0@ == l && p.1 == pos + enc_sid_list(l).len()),
{
    let mut out: Vec<ServerId> = Vec::new();
    let mut p = pos;
    let mut k: usize = 0;
    proof {
        assert(enc_sid_list(out@) =~= Seq::<u8>::empty());
        assert(bytes@.subrange(pos as int, pos as int) =~= Seq::<u8>::empty());
    }
    while k < n
        invariant
            k <= n,
            out@.len() == k,
            starts_with(bytes@, pos as int, enc_sid_list(out@)),
            p == pos + enc_sid_list(out@).len(),
            forall|l: Seq<ServerId>| #![trigger enc_sid_list(l)]
                l.len() == n && starts_with(bytes@, pos as int, enc_sid_list(l)) ==> out@ == l.take(
                    k as int,
                ),
        decreases n - k,
    {
        let ghost out_pre = out@;
        proof {
            assert forall|l: Seq<ServerId>| #![trigger enc_sid_list(l)]
                l.len() == n && starts_with(bytes@, pos as int, enc_sid_list(l)) implies
                starts_with(bytes@, p as int, enc_id(l[k as int].0)) by {
                crate::netproto::wire::lemma_enc_sid_list_split(l, k as int);
                lemma_starts_with_concat(
                    bytes@,
                    pos as int,
                    enc_sid_list(l.take(k as int)),
                    enc_sid_list(l.skip(k as int)),
                );
                assert(enc_sid_list(l.take(k as int)) == enc_sid_list(out_pre));
                assert(l.skip(k as int)[0] == l[k as int]);
                assert(l.skip(k as int).drop_first() =~= l.skip(k as int + 1));
                assert(enc_sid_list(l.skip(k as int)) == enc_id(l[k as int].0) + enc_sid_list(
                    l.skip(k as int + 1),
                ));
                lemma_starts_with_concat(
                    bytes@,
                    p as int,
                    enc_id(l[k as int].0),
                    enc_sid_list(l.skip(k as int + 1)),
                );
            }
        }
        let parsed = serverid(bytes, p);
        match parsed {
            None => {
                return None;
            },
            Some((c, p2)) => {
                out.push(c);
                proof {
                    crate::netproto::wire::lemma_enc_sid_list_push(out_pre, c);
                    assert(out@ =~= out_pre.push(c));
                    lemma_starts_with_concat(
                        bytes@,
                        pos as int,
                        enc_sid_list(out_pre),
                        enc_id(c.0),
                    );
                    assert forall|l: Seq<ServerId>| #![trigger enc_sid_list(l)]
                        l.len() == n && starts_with(bytes@, pos as int, enc_sid_list(l)) implies
                        out@ == l.take(k as int + 1) by {
                        assert(l.take(k as int + 1) =~= l.take(k as int).push(l[k as int]));
                    }
                }
                p = p2;
            },
        }
        k = k + 1;
    }
    proof {
        assert forall|l: Seq<ServerId>| #![trigger enc_sid_list(l)]
            l.len() == n && starts_with(bytes@, pos as int, enc_sid_list(l)) implies out@ == l by {
            assert(l.take(n as int) =~= l);
        }
    }
    Some((out, p))
}

/// Reads `n` destination pairs, one after the other.
fn dst_list(bytes: &[u8], pos: usize, n: usize) -> (r: Option<(Vec<(ClientId, ServerId)>, usize)>)
    requires
        pos <= bytes@.len(),
    ensures
        r matches Some(p) ==> {
            &&& p.0@.len() == n
            &&& starts_with(bytes@, pos as int, enc_dst_list(p.0@))
            &&& p.1 == pos + enc_dst_list(p.0@).len()
        },
        forall|l: Seq<(ClientId, ServerId)>| #![trigger enc_dst_list(l)]
            l.len() == n && starts_with(bytes@, pos as int, enc_dst_list(l)) ==> (r matches Some(p)
                && p.0@ == l && p.1 == pos + enc_dst_list(l).len()),
{
    let mut out: Vec<(ClientId, ServerId)> = Vec::new();
    let mut p = pos;
    let mut k: usize = 0;
    proof {
        assert(enc_dst_list(out@) =~= Seq::<u8>::empty());
        assert(bytes@.subrange(pos as int, pos as int) =~= Seq::<u8>::empty());
    }
    while k < n
        invariant
            k <= n,
            out@.len() == k,
            starts_with(bytes@, pos as int, enc_dst_list(out@)),
            p == pos + enc_dst_list(out@).len(),
            forall|l: Seq<(ClientId, ServerId)>| #![trigger enc_dst_list(l)]
                l.len() == n && starts_with(bytes@, pos as int, enc_dst_list(l)) ==> out@ == l.take(
                    k as int,
                ),
        decreases n - k,
    {
        let ghost out_pre = out@;
        proof {
            assert forall|l: Seq<(ClientId, ServerId)>| #![trigger enc_dst_list(l)]
                l.len() == n && starts_with(bytes@, pos as int, enc_dst_list(l)) implies {
                &&& starts_with(bytes@, p as int, enc_id(l[k as int].0.0))
                &&& starts_with(bytes@, p + 17, enc_id(l[k as int].1.0))
            } by {
                crate::netproto::wire::lemma_enc_dst_list_split(l, k as int);
                lemma_starts_with_concat(
                    bytes@,
                    pos as int,
                    enc_dst_list(l.take(k as int)),
                    enc_dst_list(l.skip(k as int)),
                );
                assert(enc_dst_list(l.take(k as int)) == enc_dst_list(out_pre));
                assert(l.skip(k as int)[0] == l[k as int]);
                assert(l.skip(k as int).drop_first() =~= l.skip(k as int + 1));
                assert(enc_dst_list(l.skip(k as int)) == (enc_id(l[k as int].0.0) + enc_id(
                    l[k as int].1.0,
                )) + enc_dst_list(l.skip(k as int + 1)));
                lemma_starts_with_concat(
                    bytes@,
                    p as int,
                    enc_id(l[k as int].0.0) + enc_id(l[k as int].1.0),
                    enc_dst_list(l.skip(k as int + 1)),
                );
                lemma_starts_with_concat(
                    bytes@,
                    p as int,
                    enc_id(l[k as int].0.0),
                    enc_id(l[k as int].1.0),
                );
                lemma_enc_id_len(l[k as int].0.0);
            }
        }
        let (a, q1) = match clientid(bytes, p) {
            None => {
                return None;
            },
            Some(q) => q,
        };
        proof {
            lemma_enc_id_len(a.0);
        }
        let (b, p2) = match serverid(bytes, q1) {
            None => {
                return None;
            },
            Some(q) => q,
        };
        out.push((a, b));
        proof {
            lemma_enc_id_len(b.0);
            crate::netproto::wire::lemma_enc_dst_list_push(out_pre, (a, b));
            assert(out@ =~= out_pre.push((a, b)));
            lemma_starts_with_concat(bytes@, p as int, enc_id(a.0), enc_id(b.0));
            lemma_starts_with_concat(
                bytes@,
                pos as int,
                enc_dst_list(out_pre),
                enc_id(a.0) + enc_id(b.0),
            );
            assert forall|l: Seq<(ClientId, ServerId)>| #![trigger enc_dst_list(l)]
                l.len() == n && starts_with(bytes@, pos as int, enc_dst_list(l)) implies out@
                == l.take(k as int + 1) by {
                assert(l.take(k as int + 1) =~= l.take(k as int).push(l[k as int]));
            }
        }
        p = p2;
        k = k + 1;
    }
    proof {
        assert forall|l: Seq<(ClientId, ServerId)>| #![trigger enc_dst_list(l)]
            l.len() == n && starts_with(bytes@, pos as int, enc_dst_list(l)) implies out@ == l by {
            assert(l.take(n as int) =~= l);
        }
    }
    Some((out, p))
}

/// Reads `n` `(client, name)` pairs, one after the other.
fn name_list(bytes: &[u8], pos: usize, n: usize) -> (r: Option<(Vec<(ClientId, String)>, usize)>)
    requires
        pos <= bytes@.len(),
    ensures
        r matches Some(p) ==> {
            &&& p.0@.len() == n
            &&& starts_with(bytes@, pos as int, enc_name_list(name_pairs_view(p.0@)))
            &&& p.1 == pos + enc_name_list(name_pairs_view(p.0@)).len()
        },
        forall|l: Seq<(ClientId, Seq<char>)>| #![trigger enc_name_list(l)]
            l.len() == n && starts_with(bytes@, pos as int, enc_name_list(l)) ==> (r matches Some(
                p,
            ) && name_pairs_view(p.0@) == l && p.1 == pos + enc_name_list(l).len()),
{
    let mut out: Vec<(ClientId, String)> = Vec::new();
    let mut p = pos;
    let mut k: usize = 0;
    proof {
        assert(name_pairs_view(out@) =~= Seq::<(ClientId, Seq<char>)>::empty());
        assert(enc_name_list(name_pairs_view(out@)) =~= Seq::<u8>::empty());
        assert(bytes@.subrange(pos as int, pos as int) =~= Seq::<u8>::empty());
    }
    while k < n
        invariant
            k <= n,
            out@.len() == k,
            name_pairs_view(out@).len() == k,
            starts_with(bytes@, pos as int, enc_name_list(name_pairs_view(out@))),
            p == pos + enc_name_list(name_pairs_view(out@)).len(),
            forall|l: Seq<(ClientId, Seq<char>)>| #![trigger enc_name_list(l)]
                l.len() == n && starts_with(bytes@, pos as int, enc_name_list(l)) ==>
                    name_pairs_view(out@) == l.take(k as int),
        decreases n - k,
    {
        let ghost out_pre = name_pairs_view(out@);
        proof {
            assert forall|l: Seq<(ClientId, Seq<char>)>| #![trigger enc_name_list(l)]
                l.len() == n && starts_with(bytes@, pos as int, enc_name_list(l)) implies {
                &&& starts_with(bytes@, p as int, enc_id(l[k as int].0.0))
                &&& starts_with(bytes@, p + 17, enc_str(l[k as int].1))
            } by {
                crate::netproto::wire::lemma_enc_name_list_split(l, k as int);
                lemma_starts_with_concat(
                    bytes@,
                    pos as int,
                    enc_name_list(l.take(k as int)),
                    enc_name_list(l.skip(k as int)),
                );
                assert(enc_name_list(l.take(k as int)) == enc_name_list(out_pre));
                assert(l.skip(k as int)[0] == l[k as int]);
                assert(l.skip(k as int).drop_first() =~= l.skip(k as int + 1));
                assert(enc_name_list(l.skip(k as int)) == (enc_id(l[k as int].0.0) + enc_str(
                    l[k as int].1,
                )) + enc_name_list(l.skip(k as int + 1)));
                lemma_starts_with_concat(
                    bytes@,
                    p as int,
                    enc_id(l[k as int].0.0) + enc_str(l[k as int].1),
                    enc_name_list(l.skip(k as int + 1)),
                );
                lemma_starts_with_concat(
                    bytes@,
                    p as int,
                    enc_id(l[k as int].0.0),
                    enc_str(l[k as int].1),
                );
                lemma_enc_id_len(l[k as int].0.0);
            }
        }
        let (a, q1) = match clientid(bytes, p) {
            None => {
                return None;
            },
            Some(q) => q,
        };
        proof {
            lemma_enc_id_len(a.0);
        }
        let (nm, p2) = match string(bytes, q1) {
            None => {
                return None;
            },
            Some(q) => q,
        };
        let ghost nm_v = nm@;
        out.push((a, nm));
        proof {
            crate::netproto::wire::lemma_enc_name_list_push(out_pre, (a, nm_v));
            assert(name_pairs_view(out@) =~= out_pre.push((a, nm_v)));
            lemma_starts_with_concat(bytes@, p as int, enc_id(a.0), enc_str(nm_v));
            lemma_starts_with_concat(
                bytes@,
                pos as int,
                enc_name_list(out_pre),
                enc_id(a.0) + enc_str(nm_v),
            );
            assert forall|l: Seq<(ClientId, Seq<char>)>| #![trigger enc_name_list(l)]
                l.len() == n && starts_with(bytes@, pos as int, enc_name_list(l)) implies
                name_pairs_view(out@) == l.take(k as int + 1) by {
                assert(l.take(k as int + 1) =~= l.take(k as int).push(l[k as int]));
            }
        }
        p = p2;
        k = k + 1;
    }
    proof {
        assert forall|l: Seq<(ClientId, Seq<char>)>| #![trigger enc_name_list(l)]
            l.len() == n && starts_with(bytes@, pos as int, enc_name_list(l)) implies
            name_pairs_view(out@) == l by {
            assert(l.take(n as int) =~= l);
        }
    }
    Some((out, p))
}

/// Reads a fully-qualified message.
fn fqm(bytes: &[u8], pos: usize) -> (r: Option<(FullyQualifiedMessage, usize)>)
    ensures
        r matches Some(p) ==> {
            &&& starts_with(bytes@, pos as int, enc_fqm(p.0@))
            &&& p.1 == pos + enc_fqm(p.0@).len()
        },
        forall|v: FullyQualifiedMessageV| #![trigger enc_fqm(v)]
            starts_with(bytes@, pos as int, enc_fqm(v)) ==> (r matches Some(p) && p.0@ == v && p.1
                == pos + enc_fqm(v).len()),
{
    proof {
        assert forall|v: FullyQualifiedMessageV| #![trigger enc_fqm(v)]
            starts_with(bytes@, pos as int, enc_fqm(v)) implies {
            &&& starts_with(bytes@, pos as int, enc_id(v.src.0))
            &&& starts_with(bytes@, pos + 17, enc_id(v.srcsrv.0))
            &&& starts_with(bytes@, pos + 34, enc_varint(v.dsts.len() as u128))
            &&& starts_with(
                bytes@,
                pos + 34 + enc_varint(v.dsts.len() as u128).len(),
                enc_dst_list(v.dsts),
            )
            &&& starts_with(
                bytes@,
                pos + 34 + enc_varint(v.dsts.len() as u128).len() + enc_dst_list(v.dsts).len(),
                enc_str(v.content),
            )
            &&& enc_fqm(v).len() == 34 + enc_varint(v.dsts.len() as u128).len() + enc_dst_list(
                v.dsts,
            ).len() + enc_str(v.content).len()
            &&& v.dsts.len() <= bytes@.len()
        } by {
            lemma_enc_id_len(v.src.0);
            lemma_enc_id_len(v.srcsrv.0);
            crate::netproto::wire::lemma_enc_dst_list_len(v.dsts);
            lemma_starts_with_concat(
                bytes@,
                pos as int,
                enc_id(v.src.0) + enc_id(v.srcsrv.0) + enc_varint(v.dsts.len() as u128)
                    + enc_dst_list(v.dsts),
                enc_str(v.content),
            );
            lemma_starts_with_concat(
                bytes@,
                pos as int,
                enc_id(v.src.0) + enc_id(v.srcsrv.0) + enc_varint(v.dsts.len() as u128),
                enc_dst_list(v.dsts),
            );
            lemma_starts_with_concat3(
                bytes@,
                pos as int,
                enc_id(v.src.0),
                enc_id(v.srcsrv.0),
                enc_varint(v.dsts.len() as u128),
            );
        }
    }
    let (src, p1) = match clientid(bytes, pos) {
        None => {
            return None;
        },
        Some(q) => q,
    };
    proof {
        lemma_enc_id_len(src.0);
    }
    let (srcsrv, p2) = match serverid(bytes, p1) {
        None => {
            return None;
        },
        Some(q) => q,
    };
    proof {
        lemma_enc_id_len(srcsrv.0);
    }
    let (cnt, p3) = match u128(bytes, p2) {
        None => {
            return None;
        },
        Some(q) => q,
    };
    if cnt > bytes.len() as u128 {
        return None;
    }
    let n = cnt as usize;
    let (dsts, p4) = match dst_list(bytes, p3, n) {
        None => {
            return None;
        },
        Some(q) => q,
    };
    let (content, p5) = match string(bytes, p4) {
        None => {
            return None;
        },
        Some(q) => q,
    };
    let ghost content_v = content@;
    let ghost dsts_v = dsts@;
    let result = FullyQualifiedMessage { src, srcsrv, dsts, content };
    proof {
        lemma_starts_with_concat3(
            bytes@,
            pos as int,
            enc_id(src.0),
            enc_id(srcsrv.0),
            enc_varint(dsts_v.len() as u128),
        );
        lemma_starts_with_concat(
            bytes@,
            pos as int,
            enc_id(src.0) + enc_id(srcsrv.0) + enc_varint(dsts_v.len() as u128),
            enc_dst_list(dsts_v),
        );
        lemma_starts_with_concat(
            bytes@,
            pos as int,
            enc_id(src.0) + enc_id(srcsrv.0) + enc_varint(dsts_v.len() as u128) + enc_dst_list(
                dsts_v,
            ),
            enc_str(content_v),
        );
        assert(starts_with(bytes@, pos as int, enc_fqm(result@)));
    }
    Some((result, p5))
}

/// Reads a server frame.
#[verifier::rlimit(60)]
pub fn server(bytes: &[u8], pos: usize) -> (r: Option<(ServerMessage, usize)>)
    ensures
        r matches Some(p) ==> {
            &&& starts_with(bytes@, pos as int, enc_server_msg(p.0@))
            &&& p.1 == pos + enc_server_msg(p.0@).len()
        },
        forall|v: ServerMessageV| #![trigger enc_server_msg(v)]
            starts_with(bytes@, pos as int, enc_server_msg(v)) ==> (r matches Some(p) && p.0@ == v
                && p.1 == pos + enc_server_msg(v).len()),
{
    proof {
        assert forall|v: ServerMessageV| #![trigger enc_server_msg(v)]
            starts_with(bytes@, pos as int, enc_server_msg(v)) implies {
            &&& pos < bytes@.len()
            &&& match v {
                ServerMessageV::Announce { route, clients } => {
                    &&& bytes@[pos as int] == 0
                    &&& starts_with(bytes@, pos + 1, enc_varint(route.len() as u128))
                    &&& starts_with(
                        bytes@,
                        pos + 1 + enc_varint(route.len() as u128).len(),
                        enc_sid_list(route),
                    )
                    &&& starts_with(
                        bytes@,
                        pos + 1 + enc_varint(route.len() as u128).len() + enc_sid_list(
                            route,
                        ).len(),
                        enc_varint(clients.len() as u128),
                    )
                    &&& starts_with(
                        bytes@,
                        pos + 1 + enc_varint(route.len() as u128).len() + enc_sid_list(route).len()
                            + enc_varint(clients.len() as u128).len(),
                        enc_name_list(clients),
                    )
                    &&& enc_server_msg(v).len() == 1 + enc_varint(route.len() as u128).len()
                        + enc_sid_list(route).len() + enc_varint(clients.len() as u128).len()
                        + enc_name_list(clients).len()
                    &&& route.len() <= bytes@.len()
                    &&& clients.len() <= bytes@.len()
                },
                ServerMessageV::Message(f) => bytes@[pos as int] == 1 && starts_with(
                    bytes@,
                    pos + 1,
                    enc_fqm(f),
                ) && enc_server_msg(v).len() == 1 + enc_fqm(f).len(),
            }
        } by {
            match v {
                ServerMessageV::Announce { route, clients } => {
                    crate::netproto::wire::lemma_enc_sid_list_len(route);
                    crate::netproto::wire::lemma_enc_name_list_min(clients);
                    lemma_starts_with_concat(
                        bytes@,
                        pos as int,
                        seq![0u8] + enc_varint(route.len() as u128) + enc_sid_list(route)
                            + enc_varint(clients.len() as u128),
                        enc_name_list(clients),
                    );
                    lemma_starts_with_concat(
                        bytes@,
                        pos as int,
                        seq![0u8] + enc_varint(route.len() as u128) + enc_sid_list(route),
                        enc_varint(clients.len() as u128),
                    );
                    lemma_starts_with_concat3(
                        bytes@,
                        pos as int,
                        seq![0u8],
                        enc_varint(route.len() as u128),
                        enc_sid_list(route),
                    );
                    lemma_starts_with_byte(bytes@, pos as int, 0);
                },
                ServerMessageV::Message(f) => {
                    lemma_starts_with_concat(bytes@, pos as int, seq![1u8], enc_fqm(f));
                    lemma_starts_with_byte(bytes@, pos as int, 1);
                },
            }
        }
    }
    if pos >= bytes.len() {
        return None;
    }
    let tag = bytes[pos];
    if tag == 0 {
        let (rcnt, p1) = match u128(bytes, pos + 1) {
            None => {
                return None;
            },
            Some(q) => q,
        };
        if rcnt > bytes.len() as u128 {
            return None;
        }
        let (route, p2) = match sid_list(bytes, p1, rcnt as usize) {
            None => {
                return None;
            },
            Some(q) => q,
        };
        let (ccnt, p3) = match u128(bytes, p2) {
            None => {
                return None;
            },
            Some(q) => q,
        };
        if ccnt > bytes.len() as u128 {
            return None;
        }
        let (clients, p4) = match name_list(bytes, p3, ccnt as usize) {
            None => {
                return None;
            },
            Some(q) => q,
        };
        let ghost route_v = route@;
        let ghost clients_v = name_pairs_view(clients@);
        let result = ServerMessage::Announce { route, clients };
        proof {
            assert(starts_with(bytes@, pos as int, seq![0u8])) by {
                assert(bytes@.subrange(pos as int, pos + 1) =~= seq![0u8]);
            }
            lemma_starts_with_concat3(
                bytes@,
                pos as int,
                seq![0u8],
                enc_varint(route_v.len() as u128),
                enc_sid_list(route_v),
            );
            lemma_starts_with_concat(
                bytes@,
                pos as int,
                seq![0u8] + enc_varint(route_v.len() as u128) + enc_sid_list(route_v),
                enc_varint(clients_v.len() as u128),
            );
            lemma_starts_with_concat(
                bytes@,
                pos as int,
                seq![0u8] + enc_varint(route_v.len() as u128) + enc_sid_list(route_v) + enc_varint(
                    clients_v.len() as u128,
                ),
                enc_name_list(clients_v),
            );
            assert(starts_with(bytes@, pos as int, enc_server_msg(result@)));
        }
        Some((result, p4))
    } else if tag == 1 {
        let (f, p1) = match fqm(bytes, pos + 1) {
            None => {
                return None;
            },
            Some(q) => q,
        };
        let ghost f_v = f@;
        let result = ServerMessage::Message(f);
        proof {
            assert(starts_with(bytes@, pos as int, seq![1u8])) by {
                assert(bytes@.subrange(pos as int, pos + 1) =~= seq![1u8]);
            }
            lemma_starts_with_concat(bytes@, pos as int, seq![1u8], enc_fqm(f_v));
            assert(starts_with(bytes@, pos as int, enc_server_msg(result@)));
        }
        Some((result, p1))
    } else {
        None
    }
}

/// Reads a client error.
fn client_err(bytes: &[u8], pos: usize) -> (r: Option<(ClientError, usize)>)
    ensures
        r matches Some(p) ==> {
            &&& starts_with(bytes@, pos as int, enc_client_err(p.0))
            &&& p.1 == pos + enc_client_err(p.0).len()
        },
        forall|v: ClientError| #![trigger enc_client_err(v)]
            starts_with(bytes@, pos as int, enc_client_err(v)) ==> (r matches Some(p) && p.0 == v
                && p.1 == pos + enc_client_err(v).len()),
{
    proof {
        assert forall|v: ClientError| #![trigger enc_client_err(v)]
            starts_with(bytes@, pos as int, enc_client_err(v)) implies {
            &&& pos < bytes@.len()
            &&& match v {
                ClientError::WorkProofError => bytes@[pos as int] == 0,
                ClientError::UnknownClient => bytes@[pos as int] == 1,
                ClientError::SequenceError => bytes@[pos as int] == 2,
                ClientError::BoxFull(c) => bytes@[pos as int] == 3 && starts_with(
                    bytes@,
                    pos + 1,
                    enc_id(c.0),
                ) && enc_client_err(v).len() == 18,
                ClientError::InternalError => bytes@[pos as int] == 4,
            }
        } by {
            match v {
                ClientError::BoxFull(c) => {
                    lemma_enc_id_len(c.0);
                    lemma_starts_with_concat(bytes@, pos as int, seq![3u8], enc_id(c.0));
                    lemma_starts_with_byte(bytes@, pos as int, 3);
                },
                ClientError::WorkProofError => {
                    assert(enc_client_err(v) =~= seq![0u8]);
                    lemma_starts_with_byte(bytes@, pos as int, 0);
                },
                ClientError::UnknownClient => {
                    assert(enc_client_err(v) =~= seq![1u8]);
                    lemma_starts_with_byte(bytes@, pos as int, 1);
                },
                ClientError::SequenceError => {
                    assert(enc_client_err(v) =~= seq![2u8]);
                    lemma_starts_with_byte(bytes@, pos as int, 2);
                },
                ClientError::InternalError => {
                    assert(enc_client_err(v) =~= seq![4u8]);
                    lemma_starts_with_byte(bytes@, pos as int, 4);
                },
            }
        }
    }
    if pos >= bytes.len() {
        return None;
    }
    let tag = bytes[pos];
    if tag == 0 {
        proof {
            assert(bytes@.subrange(pos as int, pos + 1) =~= seq![0u8]);
        }
        Some((ClientError::WorkProofError, pos + 1))
    } else if tag == 1 {
        proof {
            assert(bytes@.subrange(pos as int, pos + 1) =~= seq![1u8]);
        }
        Some((ClientError::UnknownClient, pos + 1))
    } else if tag == 2 {
        proof {
            assert(bytes@.subrange(pos as int, pos + 1) =~= seq![2u8]);
        }
        Some((ClientError::SequenceError, pos + 1))
    } else if tag == 3 {
        let (c, p1) = match clientid(bytes, pos + 1) {
            None => {
                return None;
            },
            Some(q) => q,
        };
        proof {
            lemma_enc_id_len(c.0);
            assert(starts_with(bytes@, pos as int, seq![3u8])) by {
                assert(bytes@.subrange(pos as int, pos + 1) =~= seq![3u8]);
            }
            lemma_starts_with_concat(bytes@, pos as int, seq![3u8], enc_id(c.0));
            assert(starts_with(bytes@, pos as int, enc_client_err(ClientError::BoxFull(c))));
        }
        Some((ClientError::BoxFull(c), p1))
    } else if tag == 4 {
        proof {
            assert(bytes@.subrange(pos as int, pos + 1) =~= seq![4u8]);
        }
        Some((ClientError::InternalError, pos + 1))
    } else {
        None
    }
}

/// Reads one reply to a client.
fn reply(bytes: &[u8], pos: usize) -> (r: Option<(ClientReply, usize)>)
    ensures
        r matches Some(p) ==> {
            &&& starts_with(bytes@, pos as int, enc_reply(p.0@))
            &&& p.1 == pos + enc_reply(p.0@).len()
        },
        forall|v: ClientReplyV| #![trigger enc_reply(v)]
            starts_with(bytes@, pos as int, enc_reply(v)) ==> (r matches Some(p) && p.0@ == v
                && p.1 == pos + enc_reply(v).len()),
{
    proof {
        assert forall|v: ClientReplyV| #![trigger enc_reply(v)]
            starts_with(bytes@, pos as int, enc_reply(v)) implies {
            &&& pos < bytes@.len()
            &&& match v {
                ClientReplyV::Delivered => bytes@[pos as int] == 0,
                ClientReplyV::Error(e) => bytes@[pos as int] == 1 && starts_with(
                    bytes@,
                    pos + 1,
                    enc_client_err(e),
                ) && enc_reply(v).len() == 1 + enc_client_err(e).len(),
                ClientReplyV::Delayed => bytes@[pos as int] == 2,
                ClientReplyV::Transfer(s, m) => bytes@[pos as int] == 3 && starts_with(
                    bytes@,
                    pos + 1,
                    enc_id(s.0),
                ) && starts_with(bytes@, pos + 18, enc_server_msg(m)) && enc_reply(v).len() == 18
                    + enc_server_msg(m).len(),
            }
        } by {
            match v {
                ClientReplyV::Delivered => {
                    assert(enc_reply(v) =~= seq![0u8]);
                    lemma_starts_with_byte(bytes@, pos as int, 0);
                },
                ClientReplyV::Error(e) => {
                    lemma_starts_with_concat(bytes@, pos as int, seq![1u8], enc_client_err(e));
                    lemma_starts_with_byte(bytes@, pos as int, 1);
                },
                ClientReplyV::Delayed => {
                    assert(enc_reply(v) =~= seq![2u8]);
                    lemma_starts_with_byte(bytes@, pos as int, 2);
                },
                ClientReplyV::Transfer(s, m) => {
                    lemma_enc_id_len(s.0);
                    lemma_starts_with_concat3(
                        bytes@,
                        pos as int,
                        seq![3u8],
                        enc_id(s.0),
                        enc_server_msg(m),
                    );
                    lemma_starts_with_byte(bytes@, pos as int, 3);
                },
            }
        }
    }
    if pos >= bytes.len() {
        return None;
    }
    let tag = bytes[pos];
    if tag == 0 {
        proof {
            assert(bytes@.subrange(pos as int, pos + 1) =~= seq![0u8]);
        }
        Some((ClientReply::Delivered, pos + 1))
    } else if tag == 1 {
        let (e, p1) = match client_err(bytes, pos + 1) {
            None => {
                return None;
            },
            Some(q) => q,
        };
        let result = ClientReply::Error(e);
        proof {
            assert(starts_with(bytes@, pos as int, seq![1u8])) by {
                assert(bytes@.subrange(pos as int, pos + 1) =~= seq![1u8]);
            }
            lemma_starts_with_concat(bytes@, pos as int, seq![1u8], enc_client_err(e));
            assert(starts_with(bytes@, pos as int, enc_reply(result@)));
        }
        Some((result, p1))
    } else if tag == 2 {
        proof {
            assert(bytes@.subrange(pos as int, pos + 1) =~= seq![2u8]);
        }
        Some((ClientReply::Delayed, pos + 1))
    } else if tag == 3 {
        let (s, p1) = match serverid(bytes, pos + 1) {
            None => {
                return None;
            },
            Some(q) => q,
        };
        proof {
            lemma_enc_id_len(s.0);
        }
        let (m, p2) = match server(bytes, p1) {
            None => {
                return None;
            },
            Some(q) => q,
        };
        let ghost m_v = m@;
        let result = ClientReply::Transfer(s, m);
        proof {
            assert(starts_with(bytes@, pos as int, seq![3u8])) by {
                assert(bytes@.subrange(pos as int, pos + 1) =~= seq![3u8]);
            }
            lemma_starts_with_concat3(bytes@, pos as int, seq![3u8], enc_id(s.0), enc_server_msg(
                m_v,
            ));
            assert(starts_with(bytes@, pos as int, enc_reply(result@)));
        }
        Some((result, p2))
    } else {
        None
    }
}

/// Reads the counted list of replies to a client message.
pub fn client_replies(bytes: &[u8], pos: usize) -> (r: Option<(Vec<ClientReply>, usize)>)
    ensures
        r matches Some(p) ==> {
            &&& starts_with(bytes@, pos as int, enc_replies(replies_view(p.0@)))
            &&& p.1 == pos + enc_replies(replies_view(p.0@)).len()
        },
        forall|l: Seq<ClientReplyV>| #![trigger enc_replies(l)]
            starts_with(bytes@, pos as int, enc_replies(l)) ==> (r matches Some(p) && replies_view(
                p.0@,
            ) == l && p.1 == pos + enc_replies(l).len()),
{
    proof {
        assert forall|l: Seq<ClientReplyV>| #![trigger enc_replies(l)]
            starts_with(bytes@, pos as int, enc_replies(l)) implies {
            &&& starts_with(bytes@, pos as int, enc_varint(l.len() as u128))
            &&& starts_with(
                bytes@,
                pos + enc_varint(l.len() as u128).len(),
                enc_reply_list(l),
            )
            &&& l.len() <= bytes@.len()
        } by {
            crate::netproto::wire::lemma_enc_reply_list_min(l);
            lemma_starts_with_concat(
                bytes@,
                pos as int,
                enc_varint(l.len() as u128),
                enc_reply_list(l),
            );
        }
    }
    let (cnt, p1) = match u128(bytes, pos) {
        None => {
            return None;
        },
        Some(q) => q,
    };
    if cnt > bytes.len() as u128 {
        proof {
            assert forall|l: Seq<ClientReplyV>| #![trigger enc_replies(l)]
                !starts_with(bytes@, pos as int, enc_replies(l)) by {
                if starts_with(bytes@, pos as int, enc_replies(l)) {
                    assert(l.len() <= bytes@.len());
                    assert((l.len() as u128) <= bytes@.len() as u128);
                }
            }
        }
        return None;
    }
    let n = cnt as usize;
    let parsed = reply_list(bytes, p1, n);
    match parsed {
        None => None,
        Some((out, p)) => {
            proof {
                lemma_starts_with_concat(
                    bytes@,
                    pos as int,
                    enc_varint(cnt),
                    enc_reply_list(replies_view(out@)),
                );
            }
            Some((out, p))
        },
    }
}

/// Reads `n` replies, one after the other.
#[verifier::rlimit(100)]
fn reply_list(bytes: &[u8], pos: usize, n: usize) -> (r: Option<(Vec<ClientReply>, usize)>)
    requires
        pos <= bytes@.len(),
    ensures
        r matches Some(p) ==> {
            &&& p.0@.len() == n
            &&& starts_with(bytes@, pos as int, enc_reply_list(replies_view(p.0@)))
            &&& p.1 == pos + enc_reply_list(replies_view(p.0@)).len()
        },
        forall|l: Seq<ClientReplyV>| #![trigger enc_reply_list(l)]
            l.len() == n && starts_with(bytes@, pos as int, enc_reply_list(l)) ==> (r matches Some(
                p,
            ) && replies_view(p.0@) == l && p.1 == pos + enc_reply_list(l).len()),
{
    let mut out: Vec<ClientReply> = Vec::new();
    let mut p = pos;
    let mut k: usize = 0;
    proof {
        assert(replies_view(out@) =~= Seq::<ClientReplyV>::empty());
        assert(enc_reply_list(replies_view(out@)) =~= Seq::<u8>::empty());
        assert(bytes@.subrange(pos as int, pos as int) =~= Seq::<u8>::empty());
    }
    while k < n
        invariant
            k <= n,
            out@.len() == k,
            replies_view(out@).len() == k,
            starts_with(bytes@, pos as int, enc_reply_list(replies_view(out@))),
            p == pos + enc_reply_list(replies_view(out@)).len(),
            forall|l: Seq<ClientReplyV>| #![trigger enc_reply_list(l)]
                l.len() == n && starts_with(bytes@, pos as int, enc_reply_list(l)) ==> replies_view(
                    out@,
                ) == l.take(k as int),
        decreases n - k,
    {
        let ghost out_pre = replies_view(out@);
        proof {
            assert forall|l: Seq<ClientReplyV>| #![trigger enc_reply_list(l)]
                l.len() == n && starts_with(bytes@, pos as int, enc_reply_list(l)) implies
                starts_with(bytes@, p as int, enc_reply(l[k as int])) by {
                crate::netproto::wire::lemma_enc_reply_list_split(l, k as int);
                lemma_starts_with_concat(
                    bytes@,
                    pos as int,
                    enc_reply_list(l.take(k as int)),
                    enc_reply_list(l.skip(k as int)),
                );
                assert(enc_reply_list(l.take(k as int)) == enc_reply_list(out_pre));
                assert(l.skip(k as int)[0] == l[k as int]);
                assert(l.skip(k as int).drop_first() =~= l.skip(k as int + 1));
                assert(enc_reply_list(l.skip(k as int)) == enc_reply(l[k as int]) + enc_reply_list(
                    l.skip(k as int + 1),
                ));
                lemma_starts_with_concat(
                    bytes@,
                    p as int,
                    enc_reply(l[k as int]),
                    enc_reply_list(l.skip(k as int + 1)),
                );
            }
        }
        let parsed = reply(bytes, p);
        match parsed {
            None => {
                proof {
                    assert(parsed is None);
                    assert forall|l: Seq<ClientReplyV>| #![trigger enc_reply_list(l)]
                        !(l.len() == n && starts_with(bytes@, pos as int, enc_reply_list(l))) by {
                        if l.len() == n && starts_with(bytes@, pos as int, enc_reply_list(l)) {
                            assert(starts_with(bytes@, p as int, enc_reply(l[k as int])));
                            assert(parsed is Some);
                        }
                    }
                }
                return None;
            },
            Some((c, p2)) => {
                let ghost c_v = c@;
                out.push(c);
                proof {
                    crate::netproto::wire::lemma_enc_reply_list_push(out_pre, c_v);
                    assert(replies_view(out@) =~= out_pre.push(c_v));
                    lemma_starts_with_concat(
                        bytes@,
                        pos as int,
                        enc_reply_list(out_pre),
                        enc_reply(c_v),
                    );
                    assert forall|l: Seq<ClientReplyV>| #![trigger enc_reply_list(l)]
                        l.len() == n && starts_with(bytes@, pos as int, enc_reply_list(l)) implies
                        replies_view(out@) == l.take(k as int + 1) by {
                        assert(l.take(k as int + 1) =~= l.take(k as int).push(l[k as int]));
                    }
                }
                p = p2;
            },
        }
        k = k + 1;
    }
    proof {
        assert forall|l: Seq<ClientReplyV>| #![trigger enc_reply_list(l)]
            l.len() == n && starts_with(bytes@, pos as int, enc_reply_list(l)) implies replies_view(
            out@,
        ) == l by {
            assert(l.take(n as int) =~= l);
        }
    }
    Some((out, p))
}

/// Reads a poll reply.
pub fn client_poll_reply(bytes: &[u8], pos: usize) -> (r: Option<(ClientPollReply, usize)>)
    ensures
        r matches Some(p) ==> {
            &&& starts_with(bytes@, pos as int, enc_poll_reply(p.0@))
            &&& p.1 == pos + enc_poll_reply(p.0@).len()
        },
        forall|v: ClientPollReplyV| #![trigger enc_poll_reply(v)]
            starts_with(bytes@, pos as int, enc_poll_reply(v)) ==> (r matches Some(p) && p.0@ == v
                && p.1 == pos + enc_poll_reply(v).len()),
{
    proof {
        assert forall|v: ClientPollReplyV| #![trigger enc_poll_reply(v)]
            starts_with(bytes@, pos as int, enc_poll_reply(v)) implies {
            &&& pos < bytes@.len()
            &&& match v {
                ClientPollReplyV::Message { src, content } => bytes@[pos as int] == 0
                    && starts_with(bytes@, pos + 1, enc_id(src.0)) && starts_with(
                    bytes@,
                    pos + 18,
                    enc_str(content),
                ) && enc_poll_reply(v).len() == 18 + enc_str(content).len(),
                ClientPollReplyV::DelayedError(e) => bytes@[pos as int] == 1 && starts_with(
                    bytes@,
                    pos + 1,
                    enc_delayed_err(e),
                ) && enc_poll_reply(v).len() == 1 + enc_delayed_err(e).len(),
                ClientPollReplyV::Nothing => bytes@[pos as int] == 2,
            }
        } by {
            match v {
                ClientPollReplyV::Message { src, content } => {
                    lemma_enc_id_len(src.0);
                    lemma_starts_with_concat3(
                        bytes@,
                        pos as int,
                        seq![0u8],
                        enc_id(src.0),
                        enc_str(content),
                    );
                    lemma_starts_with_byte(bytes@, pos as int, 0);
                },
                ClientPollReplyV::DelayedError(e) => {
                    lemma_starts_with_concat(bytes@, pos as int, seq![1u8], enc_delayed_err(e));
                    lemma_starts_with_byte(bytes@, pos as int, 1);
                },
                ClientPollReplyV::Nothing => {
                    assert(enc_poll_reply(v) =~= seq![2u8]);
                    lemma_starts_with_byte(bytes@, pos as int, 2);
                },
            }
        }
    }
    if pos >= bytes.len() {
        return None;
    }
    let tag = bytes[pos];
    if tag == 0 {
        let (src, p1) = match clientid(bytes, pos + 1) {
            None => {
                return None;
            },
            Some(q) => q,
        };
        let (content, p2) = match string(bytes, p1) {
            None => {
                proof {
                    lemma_enc_id_len(src.0);
                }
                return None;
            },
            Some(q) => q,
        };
        let ghost content_v = content@;
        let result = ClientPollReply::Message { src, content };
        proof {
            lemma_enc_id_len(src.0);
            assert(starts_with(bytes@, pos as int, seq![0u8])) by {
                assert(bytes@.subrange(pos as int, pos + 1) =~= seq![0u8]);
            }
            lemma_starts_with_concat3(bytes@, pos as int, seq![0u8], enc_id(src.0), enc_str(
                content_v,
            ));
            assert(starts_with(bytes@, pos as int, enc_poll_reply(result@)));
        }
        Some((result, p2))
    } else if tag == 1 {
        // The only delayed error is an unknown recipient, under its own tag.
        proof {
            assert forall|v: ClientPollReplyV| #![trigger enc_poll_reply(v)]
                starts_with(bytes@, pos as int, enc_poll_reply(v)) implies match v {
                ClientPollReplyV::DelayedError(e) => match e {
                    DelayedError::UnknownRecipient(c) => bytes@[pos + 1] == 0 && starts_with(
                        bytes@,
                        pos + 2,
                        enc_id(c.0),
                    ) && pos + 1 < bytes@.len(),
                },
                _ => true,
            } by {
                if let ClientPollReplyV::DelayedError(e) = v {
                    let DelayedError::UnknownRecipient(c) = e;
                    lemma_starts_with_concat(bytes@, pos + 1, seq![0u8], enc_id(c.0));
                    lemma_starts_with_byte(bytes@, pos + 1, 0);
                }
            }
        }
        if pos + 1 >= bytes.len() {
            return None;
        }
        let tag2 = bytes[pos + 1];
        if tag2 != 0 {
            return None;
        }
        let (c, p1) = match clientid(bytes, pos + 2) {
            None => {
                return None;
            },
            Some(q) => q,
        };
        let result = ClientPollReply::DelayedError(DelayedError::UnknownRecipient(c));
        proof {
            lemma_enc_id_len(c.0);
            assert(starts_with(bytes@, pos + 1, seq![0u8])) by {
                assert(bytes@.subrange(pos + 1, pos + 2) =~= seq![0u8]);
            }
            lemma_starts_with_concat(bytes@, pos + 1, seq![0u8], enc_id(c.0));
            assert(starts_with(bytes@, pos as int, seq![1u8])) by {
                assert(bytes@.subrange(pos as int, pos + 1) =~= seq![1u8]);
            }
            lemma_starts_with_concat(
                bytes@,
                pos as int,
                seq![1u8],
                enc_delayed_err(DelayedError::UnknownRecipient(c)),
            );
            assert(starts_with(bytes@, pos as int, enc_poll_reply(result@)));
        }
        Some((result, p1))
    } else if tag == 2 {
        proof {
            assert(bytes@.subrange(pos as int, pos + 1) =~= seq![2u8]);
        }
        Some((ClientPollReply::Nothing, pos + 1))
    } else {
        None
    }
}

/// Reads a user list.
pub fn userlist(bytes: &[u8], pos: usize) -> (r: Option<(Vec<(ClientId, String)>, usize)>)
    ensures
        r matches Some(p) ==> {
            &&& starts_with(bytes@, pos as int, enc_userlist(name_pairs_view(p.0@)))
            &&& p.1 == pos + enc_userlist(name_pairs_view(p.0@)).len()
        },
        forall|l: Seq<(ClientId, Seq<char>)>| #![trigger enc_userlist(l)]
            starts_with(bytes@, pos as int, enc_userlist(l)) ==> (r matches Some(p)
                && name_pairs_view(p.0@) == l && p.1 == pos + enc_userlist(l).len()),
{
    proof {
        assert forall|l: Seq<(ClientId, Seq<char>)>| #![trigger enc_userlist(l)]
            starts_with(bytes@, pos as int, enc_userlist(l)) implies {
            &&& starts_with(bytes@, pos as int, enc_varint(l.len() as u128))
            &&& starts_with(
                bytes@,
                pos + enc_varint(l.len() as u128).len(),
                enc_name_list(l),
            )
            &&& l.len() <= bytes@.len()
        } by {
            crate::netproto::wire::lemma_enc_name_list_min(l);
            lemma_starts_with_concat(
                bytes@,
                pos as int,
                enc_varint(l.len() as u128),
                enc_name_list(l),
            );
        }
    }
    let (cnt, p1) = match u128(bytes, pos) {
        None => {
            return None;
        },
        Some(q) => q,
    };
    if cnt > bytes.len() as u128 {
        return None;
    }
    let (items, p2) = match name_list(bytes, p1, cnt as usize) {
        None => {
            return None;
        },
        Some(q) => q,
    };
    proof {
        lemma_starts_with_concat(
            bytes@,
            pos as int,
            enc_varint(cnt),
            enc_name_list(name_pairs_view(items@)),
        );
    }
    Some((items, p2))
}

/// Reads a client query.
pub fn client_query(bytes: &[u8], pos: usize) -> (r: Option<(ClientQuery, usize)>)
    ensures
        r matches Some(p) ==> {
            &&& starts_with(bytes@, pos as int, enc_query(p.0@))
            &&& p.1 == pos + enc_query(p.0@).len()
        },
        forall|v: ClientQueryV| #![trigger enc_query(v)]
            starts_with(bytes@, pos as int, enc_query(v)) ==> (r matches Some(p) && p.0@ == v
                && p.1 == pos + enc_query(v).len()),
{
    proof {
        assert forall|v: ClientQueryV| #![trigger enc_query(v)]
            starts_with(bytes@, pos as int, enc_query(v)) implies {
            &&& pos < bytes@.len()
            &&& match v {
                ClientQueryV::Register(n) => bytes@[pos as int] == 0 && starts_with(
                    bytes@,
                    pos + 1,
                    enc_str(n),
                ) && enc_query(v).len() == 1 + enc_str(n).len(),
                ClientQueryV::Message(m) => bytes@[pos as int] == 1 && starts_with(
                    bytes@,
                    pos + 1,
                    enc_client_msg(m),
                ) && enc_query(v).len() == 1 + enc_client_msg(m).len(),
                ClientQueryV::ListUsers => bytes@[pos as int] == 2 && enc_query(v).len() == 1,
                ClientQueryV::Poll => bytes@[pos as int] == 3 && enc_query(v).len() == 1,
            }
        } by {
            match v {
                ClientQueryV::Register(n) => {
                    lemma_starts_with_concat(bytes@, pos as int, seq![0u8], enc_str(n));
                    lemma_starts_with_byte(bytes@, pos as int, 0);
                },
                ClientQueryV::Message(m) => {
                    lemma_starts_with_concat(bytes@, pos as int, seq![1u8], enc_client_msg(m));
                    lemma_starts_with_byte(bytes@, pos as int, 1);
                },
                ClientQueryV::ListUsers => {
                    assert(enc_query(v) =~= seq![2u8]);
                    lemma_starts_with_byte(bytes@, pos as int, 2);
                },
                ClientQueryV::Poll => {
                    assert(enc_query(v) =~= seq![3u8]);
                    lemma_starts_with_byte(bytes@, pos as int, 3);
                },
            }
        }
    }
    if pos >= bytes.len() {
        return None;
    }
    let tag = bytes[pos];
    if tag == 0 {
        let (n, p1) = match string(bytes, pos + 1) {
            None => {
                return None;
            },
            Some(q) => q,
        };
        let ghost n_v = n@;
        let result = ClientQuery::Register(n);
        proof {
            assert(starts_with(bytes@, pos as int, seq![0u8])) by {
                assert(bytes@.subrange(pos as int, pos + 1) =~= seq![0u8]);
            }
            lemma_starts_with_concat(bytes@, pos as int, seq![0u8], enc_str(n_v));
            assert(starts_with(bytes@, pos as int, enc_query(result@)));
        }
        Some((result, p1))
    } else if tag == 1 {
        let (m, p1) = match client(bytes, pos + 1) {
            None => {
                return None;
            },
            Some(q) => q,
        };
        let ghost m_v = m@;
        let result = ClientQuery::Message(m);
        proof {
            assert(starts_with(bytes@, pos as int, seq![1u8])) by {
                assert(bytes@.subrange(pos as int, pos + 1) =~= seq![1u8]);
            }
            lemma_starts_with_concat(bytes@, pos as int, seq![1u8], enc_client_msg(m_v));
            assert(starts_with(bytes@, pos as int, enc_query(result@)));
        }
        Some((result, p1))
    } else if tag == 2 {
        proof {
            assert(bytes@.subrange(pos as int, pos + 1) =~= seq![2u8]);
            assert(starts_with(bytes@, pos as int, enc_query(ClientQueryV::ListUsers)));
        }
        Some((ClientQuery::ListUsers, pos + 1))
    } else if tag == 3 {
        proof {
            assert(bytes@.subrange(pos as int, pos + 1) =~= seq![3u8]);
            assert(starts_with(bytes@, pos as int, enc_query(ClientQueryV::Poll)));
        }
        Some((ClientQuery::Poll, pos + 1))
    } else {
        None
    }
}

/// Reads a sequenced client query.
#[verifier::rlimit(60)]
pub fn sequence(bytes: &[u8], pos: usize) -> (r: Option<(Sequence<ClientQuery>, usize)>)
    ensures
        r matches Some(p) ==> {
            &&& starts_with(
                bytes@,
                pos as int,
                enc_sequence(p.0.seqid, p.0.src, p.0.workproof, p.0.content@),
            )
            &&& p.1 == pos + enc_sequence(p.0.seqid, p.0.src, p.0.workproof, p.0.content@).len()
        },
        forall|sq: u128, sc: ClientId, w: u64, q: ClientQueryV|
            #![trigger enc_sequence(sq, sc, w, q)]
            starts_with(bytes@, pos as int, enc_sequence(sq, sc, w, q)) ==> (r matches Some(p)
                && p.0.seqid == sq && p.0.src == sc && p.0.workproof == w && p.0.content@ == q
                && p.1 == pos + enc_sequence(sq, sc, w, q).len()),
{
    proof {
        lemma_pow256_values();
        assert forall|sq: u128, sc: ClientId, w: u64, q: ClientQueryV|
            #![trigger enc_sequence(sq, sc, w, q)]
            starts_with(bytes@, pos as int, enc_sequence(sq, sc, w, q)) implies {
            &&& starts_with(bytes@, pos as int, enc_varint(sq))
            &&& starts_with(bytes@, pos + enc_varint(sq).len(), enc_id(sc.0))
            &&& starts_with(
                bytes@,
                pos + enc_varint(sq).len() + 17,
                le_bytes(w as nat, 8),
            )
            &&& starts_with(
                bytes@,
                pos + enc_varint(sq).len() + 25,
                enc_query(q),
            )
            &&& enc_sequence(sq, sc, w, q).len() == enc_varint(sq).len() + 25 + enc_query(q).len()
        } by {
            lemma_enc_id_len(sc.0);
            lemma_le_bytes_len(w as nat, 8);
            lemma_starts_with_concat(
                bytes@,
                pos as int,
                enc_varint(sq) + enc_id(sc.0) + le_bytes(w as nat, 8),
                enc_query(q),
            );
            lemma_starts_with_concat3(
                bytes@,
                pos as int,
                enc_varint(sq),
                enc_id(sc.0),
                le_bytes(w as nat, 8),
            );
        }
    }
    let (seqid, p1) = match u128(bytes, pos) {
        None => {
            return None;
        },
        Some(q) => q,
    };
    let (src, p2) = match clientid(bytes, p1) {
        None => {
            return None;
        },
        Some(q) => q,
    };
    proof {
        lemma_enc_id_len(src.0);
    }
    let (wv, p3) = match le(bytes, p2, 8) {
        None => {
            assert forall|sq: u128, sc: ClientId, w: u64, q: ClientQueryV|
                #![trigger enc_sequence(sq, sc, w, q)]
                !starts_with(bytes@, pos as int, enc_sequence(sq, sc, w, q)) by {
                if starts_with(bytes@, pos as int, enc_sequence(sq, sc, w, q)) {
                    lemma_le_bytes_len(w as nat, 8);
                }
            }
            return None;
        },
        Some(q) => q,
    };
    let workproof = wv as u64;
    let (content, p4) = match client_query(bytes, p3) {
        None => {
            assert forall|sq: u128, sc: ClientId, w: u64, q: ClientQueryV|
                #![trigger enc_sequence(sq, sc, w, q)]
                !starts_with(bytes@, pos as int, enc_sequence(sq, sc, w, q)) by {
                if starts_with(bytes@, pos as int, enc_sequence(sq, sc, w, q)) {
                    assert(le_bytes(wv as nat, 8) == bytes@.subrange(p2 as int, p2 + 8));
                    assert(le_bytes(w as nat, 8) == bytes@.subrange(p2 as int, p2 + 8));
                    lemma_le_bytes_inj(wv as nat, w as nat, 8);
                }
            }
            return None;
        },
        Some(q) => q,
    };
    let result = Sequence { seqid, src, workproof, content };
    proof {
        lemma_le_bytes_len(wv as nat, 8);
        assert(starts_with(bytes@, p2 as int, le_bytes(workproof as nat, 8))) by {
            assert(bytes@.subrange(p2 as int, p2 + 8) == le_bytes(wv as nat, 8));
        }
        lemma_starts_with_concat3(
            bytes@,
            pos as int,
            enc_varint(seqid),
            enc_id(src.0),
            le_bytes(workproof as nat, 8),
        );
        lemma_starts_with_concat(
            bytes@,
            pos as int,
            enc_varint(seqid) + enc_id(src.0) + le_bytes(workproof as nat, 8),
            enc_query(result.content@),
        );
        assert(starts_with(
            bytes@,
            pos as int,
            enc_sequence(result.seqid, result.src, result.workproof, result.content@),
        ));
        assert forall|sq: u128, sc: ClientId, w: u64, q: ClientQueryV|
            #![trigger enc_sequence(sq, sc, w, q)]
            starts_with(bytes@, pos as int, enc_sequence(sq, sc, w, q)) implies (sq == seqid && sc
            == src && w == workproof && q == content@ && pos + enc_sequence(sq, sc, w, q).len()
            == p4) by {
            assert(le_bytes(wv as nat, 8) == bytes@.subrange(p2 as int, p2 + 8));
            assert(le_bytes(w as nat, 8) == bytes@.subrange(p2 as int, p2 + 8));
            lemma_le_bytes_inj(wv as nat, w as nat, 8);
        }
    }
    Some((result, p4))
}

} // verus!
