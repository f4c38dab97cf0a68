//! A federated store-and-forward chat service: a bit-exact wire codec for the
//! protocol's messages, a proof-of-work admission check, and the per-server
//! state machine that registers clients, delivers mail into bounded mailboxes,
//! and routes messages across multi-hop server federations.
pub mod assoc;
pub mod client;
pub mod server;
pub mod messages;
pub mod netproto;
pub mod workproof;

use vstd::prelude::*;

verus! {

/// Bound on the number of messages a single client mailbox may hold.
pub const MAILBOX_SIZE: usize = 256;

/// Difficulty of the proof of work demanded on client-submitted sequences,
/// as a number of leading zero bits of the 64-bit work hash.
pub const WORKPROOF_STRENGTH: u32 = 8;

} // verus!
