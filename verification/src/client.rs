//! The client side of the sequence protocol: a counter that rises by one for
//! every query submitted, and the search for the proof of work the home
//! server demands.
use crate::messages::{ClientId, Sequence};
use crate::workproof::{gen_workproof, workproof_valid};
use crate::WORKPROOF_STRENGTH;
use vstd::prelude::*;

verus! {

/// A client's sending state: its identifier and the last sequence number it
/// used.
pub struct Client {
    id: ClientId,
    seqid: u128,
}

impl Client {
    /// A client that has not sent anything yet.
    pub fn new(id: ClientId) -> (r: Client)
        ensures
            r.id() == id,
            r.seqid() == 0,
    {
        Client { id, seqid: 0 }
    }

    /// The client's identifier.
    pub closed spec fn id(self) -> ClientId {
        self.id
    }

    /// The last sequence number used.
    pub closed spec fn seqid(self) -> u128 {
        self.seqid
    }

    /// The last sequence number used, for callers outside the proofs.
    pub fn last_seqid(&self) -> (r: u128)
        ensures
            r == self.seqid(),
    {
        self.seqid
    }

    /// Wraps a query for submission: the next sequence number, this client as
    /// the source, and a freshly searched proof of work, valid whenever any
    /// witness at all exists for this client's nonce.
    pub fn sequence<T>(&mut self, content: T) -> (r: Sequence<T>)
        requires
            old(self).seqid() < u128::MAX,
        ensures
            final(self).id() == old(self).id(),
            final(self).seqid() == old(self).seqid() + 1,
            r.seqid == final(self).seqid(),
            r.src == old(self).id(),
            r.content == content,
            (exists|w: u64| workproof_valid(old(self).id().0, w, WORKPROOF_STRENGTH))
                ==> workproof_valid(r.src.0, r.workproof, WORKPROOF_STRENGTH),
    {
        self.seqid = self.seqid + 1;
        let workproof = match gen_workproof(self.id.nonce(), WORKPROOF_STRENGTH, u64::MAX) {
            Some(w) => w,
            None => 0,
        };
        Sequence { seqid: self.seqid, src: self.id, workproof, content }
    }
}

} // verus!
