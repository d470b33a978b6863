//! The signing identity: an Ed25519 key that signs the canonical bytes of a record.

use vstd::prelude::*;
use ed25519_dalek::{Signature, Signer, SigningKey, Verifier, VerifyingKey};
use rand::rngs::OsRng;
use crate::error::LedgerError;
use crate::evidence::{Evidence, canonical_bytes, encodable, encode};

verus! {

/// The Ed25519 public key that belongs to a 32-byte secret seed.
pub uninterp spec fn ed25519_public_key(seed: Seq<u8>) -> Seq<u8>;

/// The Ed25519 signature of a message under a 32-byte secret seed.
pub uninterp spec fn ed25519_signature(seed: Seq<u8>, message: Seq<u8>) -> Seq<u8>;

/// Whether a 64-byte signature of a message verifies under a 32-byte public key.
pub uninterp spec fn ed25519_verifies(public_key: Seq<u8>, message: Seq<u8>, signature: Seq<u8>) -> bool;

/// Builds the `SigningKey` of the seed and calls `verifying_key` on it. Trusted: the
/// result is the encoded public key of that seed.
#[verifier::external_body]
pub(crate) fn public_key_of(seed: &[u8; 32]) -> (key: [u8; 32])
    ensures
        key@ == ed25519_public_key(seed@),
{
    SigningKey::from_bytes(seed).verifying_key().to_bytes()
}

/// Builds the `SigningKey` of the seed and calls `Signer::sign` on it. Trusted: the
/// 64 bytes are the signature of `message`, and depend on the seed and the message
/// alone.
#[verifier::external_body]
pub(crate) fn sign_with(seed: &[u8; 32], message: &[u8]) -> (signature: [u8; 64])
    ensures
        signature@ == ed25519_signature(seed@, message@),
{
    SigningKey::from_bytes(seed).sign(message).to_bytes()
}

/// Decodes the public key and calls `Verifier::verify` on it. Trusted: the result says
/// whether the key decodes and the signature verifies for `message`, and depends on
/// the three arguments alone.
#[verifier::external_body]
pub(crate) fn verify_with(public_key: &[u8; 32], message: &[u8], signature: &[u8; 64]) -> (ok: bool)
    ensures
        ok == ed25519_verifies(public_key@, message@, signature@),
{
    match VerifyingKey::from_bytes(public_key) {
        Ok(key) => key.verify(message, &Signature::from_bytes(signature)).is_ok(),
        Err(_) => false,
    }
}

/// Calls `SigningKey::generate` with the operating system's random source and takes
/// the seed of the new key. Nothing is known of the seed but its length.
#[verifier::external_body]
pub(crate) fn fresh_seed() -> (seed: [u8; 32]) {
    SigningKey::generate(&mut OsRng).to_bytes()
}

/// Why an identity could not be taken up.
#[derive(Clone, Copy, Debug, PartialEq, Eq, Structural)]
pub enum SignerError {
    /// The stored identity is not 32 bytes long.
    CorruptIdentity,
}

/// The signing identity of the service.
pub struct EvidenceSigner {
    seed: [u8; 32],
}

impl EvidenceSigner {
    /// The secret seed of the identity.
    pub closed spec fn seed_bytes(&self) -> Seq<u8> {
        self.seed@
    }

    /// The identity of a stored seed. Fails exactly when the seed is not 32 bytes long.
    pub fn from_seed(stored: &[u8]) -> (r: Result<EvidenceSigner, SignerError>)
        ensures
            match r {
                Ok(signer) => stored@.len() == 32 && signer.seed_bytes() == stored@,
                Err(e) => stored@.len() != 32 && e == SignerError::CorruptIdentity,
            },
    {
        if stored.len() != 32 {
            return Err(SignerError::CorruptIdentity);
        }
        let mut seed: [u8; 32] = [0u8; 32];
        let mut i: usize = 0;
        while i < 32
            invariant
                i <= 32,
                stored@.len() == 32,
                forall|j: int| 0 <= j < i ==> seed@[j] == stored@[j],
            decreases 32 - i,
        {
            seed[i] = stored[i];
            i = i + 1;
        }
        assert(seed@ =~= stored@);
        Ok(EvidenceSigner { seed })
    }

    /// Takes up the stored identity, or makes a new one where none is stored. The flag
    /// says whether the identity is new and its seed is still to be stored.
    pub fn load_or_generate(stored: Option<Vec<u8>>) -> (r: Result<(EvidenceSigner, bool), SignerError>)
        ensures
            match r {
                Ok((signer, is_new)) => match stored {
                    Some(bytes) => !is_new && bytes@.len() == 32 && signer.seed_bytes() == bytes@,
                    None => is_new,
                },
                Err(e) => e == SignerError::CorruptIdentity && stored is Some
                    && stored.unwrap()@.len() != 32,
            },
    {
        match stored {
            Some(bytes) => match EvidenceSigner::from_seed(bytes.as_slice()) {
                Ok(signer) => Ok((signer, false)),
                Err(e) => Err(e),
            },
            None => Ok((EvidenceSigner { seed: fresh_seed() }, true)),
        }
    }

    /// The secret seed, to be stored where only the service can read it.
    pub fn seed(&self) -> (seed: [u8; 32])
        ensures
            seed@ == self.seed_bytes(),
    {
        self.seed
    }

    /// The public key of the identity.
    pub fn public_key(&self) -> (key: [u8; 32])
        ensures
            key@ == ed25519_public_key(self.seed_bytes()),
    {
        public_key_of(&self.seed)
    }

    /// Signs the canonical bytes of a record. Fails with `EncodingError` exactly when
    /// the record is not encodable.
    pub fn sign(&self, evidence: &Evidence) -> (r: Result<[u8; 64], LedgerError>)
        ensures
            match r {
                Ok(signature) => encodable(evidence@) && signature@ == ed25519_signature(
                    self.seed_bytes(),
                    canonical_bytes(evidence@),
                ),
                Err(e) => e == LedgerError::EncodingError && !encodable(evidence@),
            },
    {
        match encode(evidence) {
            Err(e) => Err(e),
            Ok(payload) => Ok(sign_with(&self.seed, payload.as_slice())),
        }
    }

    /// Whether `signature` is a signature of the canonical bytes of the record under
    /// `verification_key`. A signature that does not verify is `Ok(false)`, not an
    /// error; the only error is a record that is not encodable.
    pub fn verify(verification_key: &[u8; 32], evidence: &Evidence, signature: &[u8; 64]) -> (r:
        Result<bool, LedgerError>)
        ensures
            match r {
                Ok(valid) => encodable(evidence@) && valid == ed25519_verifies(
                    verification_key@,
                    canonical_bytes(evidence@),
                    signature@,
                ),
                Err(e) => e == LedgerError::EncodingError && !encodable(evidence@),
            },
    {
        match encode(evidence) {
            Err(e) => Err(e),
            Ok(payload) => Ok(verify_with(verification_key, payload.as_slice(), signature)),
        }
    }
}

} // verus!
