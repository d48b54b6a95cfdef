//! Fiat-Shamir transcript: an append-only byte log.
//!
//! Prover and verifier each drive their own transcript, absorbing the same
//! byte sequences in the same order; challenges are derived purely from the
//! absorbed log, so both sides recompute identical challenges without
//! interaction. After a challenge is derived, its digest is absorbed back
//! into the log, so two consecutive derivations never see the same log.

use sha3::{Digest, Keccak256};
use vstd::prelude::*;

use crate::field::{be_val, fe_ok, q, FieldElement};

verus! {

/// The Keccak-256 digest of a byte string. A fixed function of its input
/// alone: the same bytes give the same digest in every process.
pub uninterp spec fn digest_of(bytes: Seq<u8>) -> Seq<u8>;

/// The challenge derived from a transcript log: the digest of the log, read
/// as a big-endian integer and reduced modulo the field prime.
pub open spec fn chal(log: Seq<u8>) -> int {
    be_val(digest_of(log)) % q()
}

/// Relies on sha3's `Keccak256`: the 32-byte Keccak-256 digest of the
/// input, a deterministic function of the bytes alone.
#[verifier::external_body]
fn keccak256(bytes: &Vec<u8>) -> (r: Vec<u8>)
    ensures
        r@ == digest_of(bytes@),
        r@.len() == 32,
{
    Keccak256::digest(bytes.as_slice()).to_vec()
}

/// An append-only transcript of absorbed bytes.
pub struct Transcript {
    log: Vec<u8>,
}

impl Transcript {
    /// Everything absorbed so far, in order.
    pub closed spec fn log_view(self) -> Seq<u8> {
        self.log@
    }

    /// An empty transcript.
    pub fn new() -> (r: Transcript)
        ensures
            r.log_view() == Seq::<u8>::empty(),
    {
        let t = Transcript { log: Vec::new() };
        proof {
            assert(t.log_view() =~= Seq::<u8>::empty());
        }
        t
    }

    /// Absorbs bytes into the log.
    pub fn append(&mut self, bytes: &Vec<u8>)
        ensures
            final(self).log_view() == old(self).log_view() + bytes@,
    {
        crate::multilinear::extend_bytes(&mut self.log, bytes);
    }

    /// Derives a field element deterministically from everything absorbed
    /// so far, then absorbs the digest it was derived from, so that the
    /// next derivation sees a fresh log.
    pub fn random_challenge_as_field_element(&mut self) -> (r: FieldElement)
        ensures
            r.val() == chal(old(self).log_view()),
            fe_ok(r),
            final(self).log_view() == old(self).log_view() + digest_of(old(self).log_view()),
    {
        let digest = keccak256(&self.log);
        let challenge = FieldElement::from_be_bytes_mod_order(&digest);
        self.append(&digest);
        challenge
    }
}

} // verus!
