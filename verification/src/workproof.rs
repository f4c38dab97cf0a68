//! The proof of work demanded on client sequences. The 16 little-endian bytes
//! of the client's nonce and the 8 of the candidate witness are folded through
//! a 64-bit multiply-and-xor hash; the work counts as done when the hash falls
//! below the power of two that leaves `strength` leading zero bits.
use crate::netproto::wire::le_bytes;
use vstd::arithmetic::power2::{lemma2_to64, lemma2_to64_rest, pow2};
use vstd::bits::{lemma_u64_pow2_no_overflow, lemma_u64_shl_is_mul};
use vstd::prelude::*;

verus! {

/// The multiplier of the hash's folding step.
pub const WP_PRIME: u64 = 0x100000001b3;

/// The state the fold starts from.
pub const WP_OFFSET: u64 = 0xcbf29ce484222325;

/// One folding step: mix a byte into the state, keeping the low 64 bits.
pub open spec fn wp_step(h: u64, b: u8) -> u64 {
    ((((h ^ (b as u64)) as nat) * (WP_PRIME as nat)) % 0x1_0000_0000_0000_0000) as u64
}

/// Folds a byte sequence into the state, front first.
pub open spec fn wp_fold(h: u64, s: Seq<u8>) -> u64
    decreases s.len(),
{
    if s.len() == 0 {
        h
    } else {
        wp_fold(wp_step(h, s[0]), s.drop_first())
    }
}

/// The work hash of a nonce and a candidate witness.
pub open spec fn wp_hash(nonce: u128, witness: u64) -> u64 {
    wp_fold(WP_OFFSET, le_bytes(nonce as nat, 16) + le_bytes(witness as nat, 8))
}

/// The work counts as done when the hash has at least `strength` leading zero
/// bits, that is, falls below two to the `64 - strength`.
pub open spec fn workproof_valid(nonce: u128, witness: u64, strength: u32) -> bool {
    strength <= 64 && (wp_hash(nonce, witness) as nat) < pow2((64 - strength) as nat)
}

/// One folding step, executed.
fn step(h: u64, b: u8) -> (r: u64)
    ensures
        r == wp_step(h, b),
{
    let x: u128 = (h ^ (b as u64)) as u128;
    proof {
        assert(x * (WP_PRIME as u128) <= 0xFFFF_FFFF_FFFF_FFFF * 0x100000001b3) by (
        nonlinear_arith)
            requires
                x <= 0xFFFF_FFFF_FFFF_FFFF,
        ;
    }
    let y: u128 = x * (WP_PRIME as u128);
    #[verifier::truncate]
    let r = y as u64;
    proof {
        assert(y as u64 == (y % 0x1_0000_0000_0000_0000) as u64) by (bit_vector);
        assert((y as nat) == (x as nat) * (WP_PRIME as nat));
        assert(r == (((x as nat) * (WP_PRIME as nat)) % 0x1_0000_0000_0000_0000) as u64);
    }
    r
}

/// Computes the work hash of a nonce and a candidate witness.
pub fn compute_hash(nonce: u128, witness: u64) -> (h: u64)
    ensures
        h == wp_hash(nonce, witness),
{
    let mut buf: Vec<u8> = Vec::new();
    crate::netproto::encode::le(&mut buf, nonce, 16);
    crate::netproto::encode::le(&mut buf, witness as u128, 8);
    proof {
        assert(buf@ =~= le_bytes(nonce as nat, 16) + le_bytes(witness as nat, 8));
    }
    let mut h: u64 = WP_OFFSET;
    let mut i: usize = 0;
    proof {
        assert(buf@.skip(0) =~= buf@);
    }
    while i < buf.len()
        invariant
            i <= buf@.len(),
            wp_hash(nonce, witness) == wp_fold(h, buf@.skip(i as int)),
            buf@ == le_bytes(nonce as nat, 16) + le_bytes(witness as nat, 8),
        decreases buf@.len() - i,
    {
        let b = buf[i];
        proof {
            assert(buf@.skip(i as int)[0] == b);
            assert(buf@.skip(i as int).drop_first() =~= buf@.skip(i + 1));
        }
        h = step(h, b);
        i = i + 1;
    }
    proof {
        assert(buf@.skip(i as int) =~= Seq::<u8>::empty());
    }
    h
}

/// Decides whether `witness` does the demanded amount of work for `nonce`.
pub fn verify_workproof(nonce: u128, witness: u64, strength: u32) -> (r: bool)
    ensures
        r == workproof_valid(nonce, witness, strength),
{
    if strength > 64 {
        return false;
    }
    let h = compute_hash(nonce, witness);
    if strength == 0 {
        proof {
            lemma2_to64();
            lemma2_to64_rest();
        }
        true
    } else {
        let shift: u64 = (64 - strength) as u64;
        proof {
            lemma_u64_pow2_no_overflow(shift as nat);
            lemma_u64_shl_is_mul(1u64, shift);
        }
        let threshold: u64 = 1u64 << shift;
        h < threshold
    }
}

/// Searches for the least witness up to `bound` that does the demanded work,
/// if there is one. The server never generates work; this is the client side.
pub fn gen_workproof(nonce: u128, strength: u32, bound: u64) -> (r: Option<u64>)
    ensures
        r matches Some(w) ==> {
            &&& w <= bound
            &&& workproof_valid(nonce, w, strength)
            &&& forall|w2: u64| w2 < w ==> !workproof_valid(nonce, w2, strength)
        },
        r is None ==> forall|w: u64| w <= bound ==> !workproof_valid(nonce, w, strength),
{
    let mut w: u64 = 0;
    while w < bound
        invariant
            w <= bound,
            forall|w2: u64| w2 < w ==> !workproof_valid(nonce, w2, strength),
        decreases bound - w,
    {
        if verify_workproof(nonce, w, strength) {
            return Some(w);
        }
        w = w + 1;
    }
    if verify_workproof(nonce, bound, strength) {
        Some(bound)
    } else {
        None
    }
}

} // verus!
