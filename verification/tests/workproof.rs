use chatproto::client::Client;
use chatproto::messages::ClientId;
use chatproto::workproof::{compute_hash, gen_workproof, verify_workproof};
use chatproto::WORKPROOF_STRENGTH;

#[test]
fn generated_witness_verifies() {
    for nonce in [0u128, 1, 0xDEAD_BEEF, u128::MAX] {
        let w = gen_workproof(nonce, WORKPROOF_STRENGTH, u64::MAX).expect("a witness exists");
        assert!(verify_workproof(nonce, w, WORKPROOF_STRENGTH));
    }
}

#[test]
fn smaller_candidates_fail() {
    let nonce = 0x1234u128;
    let w = gen_workproof(nonce, WORKPROOF_STRENGTH, u64::MAX).expect("a witness exists");
    for smaller in 0..w {
        assert!(!verify_workproof(nonce, smaller, WORKPROOF_STRENGTH));
    }
}

#[test]
fn zero_strength_accepts_anything() {
    assert!(verify_workproof(7, 0, 0));
    assert!(verify_workproof(7, u64::MAX, 0));
}

#[test]
fn over_strength_accepts_nothing() {
    assert!(!verify_workproof(7, 0, 65));
}

#[test]
fn hash_is_deterministic() {
    assert_eq!(compute_hash(42, 7), compute_hash(42, 7));
    // Distinct inputs that, for this pair, hash apart.
    assert_ne!(compute_hash(42, 7), compute_hash(42, 8));
}

#[test]
fn bounded_search_can_fail() {
    let nonce = 0x5555u128;
    // With a zero bound, only the zero witness is tried.
    let only_zero = gen_workproof(nonce, WORKPROOF_STRENGTH, 0);
    match only_zero {
        Some(w) => assert_eq!(w, 0),
        None => assert!(!verify_workproof(nonce, 0, WORKPROOF_STRENGTH)),
    }
}

#[test]
fn client_sequences_count_up() {
    let mut client = Client::new(ClientId(77));
    let s1 = client.sequence(());
    let s2 = client.sequence(());
    assert_eq!(s1.seqid, 1);
    assert_eq!(s2.seqid, 2);
    assert_eq!(s1.src, ClientId(77));
    assert!(verify_workproof(77, s1.workproof, WORKPROOF_STRENGTH));
}
