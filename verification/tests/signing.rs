use ed25519_dalek::{Signature, Signer, SigningKey, Verifier, VerifyingKey};
use yuanjing_core::error::LedgerError;
use yuanjing_core::evidence::{encode, Evidence};
use yuanjing_core::signer::{EvidenceSigner, SignerError};

fn record() -> Evidence {
    Evidence {
        image_phash: "mock_phash".to_string(),
        image_sha256: "0123456789abcdef".repeat(4),
        verdict: true,
        confidence: "0.99".to_string(),
        activated_prompts: vec![1, 2, 3],
        prompt_pool_hash: "mock_pool_hash_abc123".to_string(),
        external_knowledge_hash: "mock_ext".to_string(),
        timestamp: 1234567890,
    }
}

fn seed() -> [u8; 32] {
    let mut s = [0u8; 32];
    for (i, b) in s.iter_mut().enumerate() {
        *b = (i as u8).wrapping_mul(11).wrapping_add(3);
    }
    s
}

#[test]
fn identity_from_a_seed_of_32_bytes() {
    let signer = EvidenceSigner::from_seed(&seed()).ok().unwrap();
    assert_eq!(signer.seed(), seed());
}

#[test]
fn identity_of_another_length_is_corrupt() {
    assert_eq!(EvidenceSigner::from_seed(&[1u8; 31]).err(), Some(SignerError::CorruptIdentity));
    assert_eq!(EvidenceSigner::from_seed(&[1u8; 33]).err(), Some(SignerError::CorruptIdentity));
    assert_eq!(EvidenceSigner::from_seed(&[]).err(), Some(SignerError::CorruptIdentity));
    assert_eq!(
        EvidenceSigner::load_or_generate(Some(vec![0u8; 64])).err(),
        Some(SignerError::CorruptIdentity)
    );
}

#[test]
fn stored_identity_is_taken_up_unchanged() {
    let (signer, is_new) = EvidenceSigner::load_or_generate(Some(seed().to_vec())).ok().unwrap();
    assert!(!is_new);
    assert_eq!(signer.seed(), seed());
    assert_eq!(signer.public_key(), SigningKey::from_bytes(&seed()).verifying_key().to_bytes());
}

#[test]
fn missing_identity_is_made_anew() {
    let (first, first_new) = EvidenceSigner::load_or_generate(None).ok().unwrap();
    let (second, second_new) = EvidenceSigner::load_or_generate(None).ok().unwrap();
    assert!(first_new && second_new);
    assert_ne!(first.seed(), second.seed());
    let (again, is_new) =
        EvidenceSigner::load_or_generate(Some(first.seed().to_vec())).ok().unwrap();
    assert!(!is_new);
    assert_eq!(again.public_key(), first.public_key());
}

#[test]
fn public_key_is_that_of_the_seed() {
    let signer = EvidenceSigner::from_seed(&seed()).ok().unwrap();
    let key = SigningKey::from_bytes(&seed());
    assert_eq!(signer.public_key(), key.verifying_key().to_bytes());
    assert_ne!(signer.public_key(), seed());
}

#[test]
fn signature_is_over_the_canonical_bytes() {
    let signer = EvidenceSigner::from_seed(&seed()).ok().unwrap();
    let signature = signer.sign(&record()).unwrap();
    let payload = encode(&record()).unwrap();
    let key = SigningKey::from_bytes(&seed());
    assert_eq!(signature, key.sign(&payload).to_bytes());
    assert_eq!(signature, signer.sign(&record()).unwrap());
    let public = VerifyingKey::from_bytes(&signer.public_key()).unwrap();
    assert!(public.verify(&payload, &Signature::from_bytes(&signature)).is_ok());
}

#[test]
fn own_signature_verifies() {
    let signer = EvidenceSigner::from_seed(&seed()).ok().unwrap();
    let signature = signer.sign(&record()).unwrap();
    assert_eq!(EvidenceSigner::verify(&signer.public_key(), &record(), &signature), Ok(true));
}

#[test]
fn signature_of_a_changed_record_does_not_verify() {
    let signer = EvidenceSigner::from_seed(&seed()).ok().unwrap();
    let signature = signer.sign(&record()).unwrap();
    let mut changed = record();
    changed.verdict = false;
    assert_eq!(EvidenceSigner::verify(&signer.public_key(), &changed, &signature), Ok(false));
    let mut bent = signature;
    bent[3] ^= 1;
    assert_eq!(EvidenceSigner::verify(&signer.public_key(), &record(), &bent), Ok(false));
}

#[test]
fn signature_does_not_verify_under_another_key() {
    let signer = EvidenceSigner::from_seed(&seed()).ok().unwrap();
    let other = EvidenceSigner::from_seed(&[9u8; 32]).ok().unwrap();
    let signature = signer.sign(&record()).unwrap();
    assert_eq!(EvidenceSigner::verify(&other.public_key(), &record(), &signature), Ok(false));
}

#[test]
fn bytes_that_are_no_public_key_verify_nothing() {
    let signer = EvidenceSigner::from_seed(&seed()).ok().unwrap();
    let signature = signer.sign(&record()).unwrap();
    let mut candidate = [0u8; 32];
    let mut found = false;
    for first in 0..=255u8 {
        candidate[0] = first;
        if VerifyingKey::from_bytes(&candidate).is_err() {
            found = true;
            break;
        }
    }
    assert!(found);
    assert_eq!(EvidenceSigner::verify(&candidate, &record(), &signature), Ok(false));
}

#[test]
fn records_that_cannot_be_encoded_are_not_signed() {
    let signer = EvidenceSigner::from_seed(&seed()).ok().unwrap();
    let mut bad = record();
    bad.image_sha256 = "mock_sha256".to_string();
    assert_eq!(signer.sign(&bad), Err(LedgerError::EncodingError));
    assert_eq!(
        EvidenceSigner::verify(&signer.public_key(), &bad, &[0u8; 64]),
        Err(LedgerError::EncodingError)
    );
}
