use ckb_merkle_mountain_range::util::MemStore;
use ckb_merkle_mountain_range::{MMRStoreReadOps, MMRStoreWriteOps};
use yuanjing_core::api::{assemble_evidence, get_audit_proof, submit_evidence};
use yuanjing_core::config::{Config, DEFAULT_PORT};
use yuanjing_core::digest::{leaf_digest, merge};
use yuanjing_core::error::LedgerError;
use yuanjing_core::evidence::{encode, Evidence};
use yuanjing_core::fingerprint::generate_fingerprints;
use yuanjing_core::hex_text::digest_hex;
use yuanjing_core::inclusion::{verify_batch, verify_proof, ProofEntry};
use yuanjing_core::mmr_store::EvidenceStore;
use yuanjing_core::signer::EvidenceSigner;

fn record(n: u32) -> Evidence {
    Evidence {
        image_phash: "mock_phash".to_string(),
        image_sha256: "0123456789abcdef".repeat(4),
        verdict: n % 2 == 0,
        confidence: "0.99".to_string(),
        activated_prompts: vec![1, 2, n],
        prompt_pool_hash: "mock_pool_hash_abc123".to_string(),
        external_knowledge_hash: "mock_ext".to_string(),
        timestamp: 1234567890 + i64::from(n),
    }
}

fn digest_of(r: &Evidence) -> [u8; 32] {
    leaf_digest(&encode(r).unwrap())
}

#[test]
fn sha256_fingerprint_of_abc() {
    let (sha, phash) = generate_fingerprints(b"abc", "AAEC".to_string());
    assert_eq!(sha, "ba7816bf8f01cfea414140de5dae2223b00361a396177a9cb410ff61f20015ad");
    assert_eq!(phash, "AAEC");
}

#[test]
fn sha256_fingerprint_is_encodable_text() {
    let (sha, phash) = generate_fingerprints(&[0u8, 1, 2, 250, 255], "cGhhc2g=".to_string());
    assert_eq!(sha.len(), 64);
    let evidence = assemble_evidence(sha, phash, true, "0.5".to_string(), 0);
    assert!(encode(&evidence).is_ok());
}

#[test]
fn hex_text_is_lower_case_two_digits_per_byte() {
    let mut digest = [0u8; 32];
    digest[0] = 0x01;
    digest[1] = 0xab;
    digest[2] = 0xf0;
    digest[31] = 0x9c;
    let text = digest_hex(&digest);
    assert_eq!(text.len(), 64);
    assert!(text.starts_with("01abf0"));
    assert!(text.ends_with("009c"));
    assert_eq!(text, hex::encode(digest));
}

#[test]
fn config_defaults() {
    let config = Config::from_values(None, None, None, None);
    assert_eq!(config.host, "0.0.0.0");
    assert_eq!(config.port, 3000);
    assert_eq!(DEFAULT_PORT, 3000);
    assert_eq!(config.db_path, "data/db/mmr_db");
    assert_eq!(config.key_path, "yuanjing.key");
}

#[test]
fn config_takes_what_is_set() {
    let config = Config::from_values(
        Some("127.0.0.1".to_string()),
        Some(8080),
        None,
        Some("other.key".to_string()),
    );
    assert_eq!(config.host, "127.0.0.1");
    assert_eq!(config.port, 8080);
    assert_eq!(config.db_path, "data/db/mmr_db");
    assert_eq!(config.key_path, "other.key");
}

#[test]
fn assembled_evidence_has_the_fixed_fields() {
    let e = assemble_evidence(
        "ab".repeat(32),
        "phash".to_string(),
        false,
        "0.25".to_string(),
        77,
    );
    assert_eq!(e.image_sha256, "ab".repeat(32));
    assert_eq!(e.image_phash, "phash");
    assert!(!e.verdict);
    assert_eq!(e.confidence, "0.25");
    assert_eq!(e.activated_prompts, vec![1, 2, 99]);
    assert_eq!(e.prompt_pool_hash, "mock_pool_hash_abc123");
    assert_eq!(e.external_knowledge_hash, "mock_wiki_hash_xyz789");
    assert_eq!(e.timestamp, 77);
}

#[test]
fn ledger_append_returns_root_and_position() {
    let mut ledger = EvidenceStore::new();
    assert_eq!(ledger.mmr_size(), 0);
    assert_eq!(ledger.root(), Err(LedgerError::EmptyLedger));

    let (root0, pos0) = ledger.append(&record(0)).unwrap();
    assert_eq!(pos0, 0);
    assert_eq!(root0, digest_of(&record(0)));
    assert_eq!(ledger.mmr_size(), 1);

    let (root1, pos1) = ledger.append(&record(1)).unwrap();
    assert_eq!(pos1, 1);
    assert_eq!(ledger.mmr_size(), 3);
    let mut joined = digest_of(&record(0)).to_vec();
    joined.extend_from_slice(&digest_of(&record(1)));
    assert_eq!(root1, *blake3::hash(&joined).as_bytes());
    assert_eq!(ledger.root(), Ok(root1));

    let (_, pos2) = ledger.append(&record(2)).unwrap();
    assert_eq!(pos2, 3);
    assert_eq!(ledger.mmr_size(), 4);
}

#[test]
fn ledger_proofs_verify_for_every_record() {
    let mut ledger = EvidenceStore::new();
    let mut positions = Vec::new();
    for n in 0..20u32 {
        positions.push(ledger.append(&record(n)).unwrap().1);
    }
    let root = ledger.root().unwrap();
    for (n, pos) in positions.iter().enumerate() {
        let proof = ledger.get_proof(vec![*pos]).unwrap();
        assert!(verify_proof(&proof, &digest_of(&record(n as u32)), *pos, &root));
        assert!(!verify_proof(&proof, &digest_of(&record(n as u32 + 100)), *pos, &root));
    }
}

#[test]
fn flipping_a_bit_of_the_source_changes_the_digest_and_fails_the_proof() {
    let mut ledger = EvidenceStore::new();
    ledger.append(&record(0)).unwrap();
    let (root, pos) = ledger.append(&record(1)).unwrap();
    ledger.append(&record(2)).unwrap();
    let root_now = ledger.root().unwrap();
    assert_ne!(root, root_now);
    let proof = ledger.get_proof(vec![pos]).unwrap();
    let source = encode(&record(1)).unwrap();
    assert!(verify_proof(&proof, &leaf_digest(&source), pos, &root_now));
    for at in [0usize, 1, 5, 70, source.len() - 1] {
        for bit in [0u8, 3, 7] {
            let mut flipped = source.clone();
            flipped[at] ^= 1 << bit;
            assert_ne!(leaf_digest(&flipped), leaf_digest(&source));
            assert!(!verify_proof(&proof, &leaf_digest(&flipped), pos, &root_now));
        }
    }
}

#[test]
fn ledger_refuses_a_malformed_record_and_stays_as_it_was() {
    let mut ledger = EvidenceStore::new();
    ledger.append(&record(0)).unwrap();
    let root = ledger.root().unwrap();
    let mut bad = record(1);
    bad.confidence = "1.5".to_string();
    assert_eq!(ledger.append(&bad), Err(LedgerError::EncodingError));
    assert_eq!(ledger.mmr_size(), 1);
    assert_eq!(ledger.root(), Ok(root));
}

#[test]
fn ledger_reopens_from_its_parts() {
    let mut ledger = EvidenceStore::new();
    let mut positions = Vec::new();
    for n in 0..6u32 {
        positions.push(ledger.append(&record(n)).unwrap().1);
    }
    let root = ledger.root().unwrap();
    let proofs: Vec<Vec<[u8; 32]>> = positions
        .iter()
        .map(|p| ledger.get_proof(vec![*p]).unwrap().proof_items())
        .collect();
    let (nodes, size) = ledger.into_parts();
    let mut reopened = EvidenceStore::open(nodes, size);
    assert_eq!(reopened.mmr_size(), size);
    assert_eq!(reopened.root(), Ok(root));
    for (i, p) in positions.iter().enumerate() {
        assert_eq!(reopened.get_proof(vec![*p]).unwrap().proof_items(), proofs[i]);
    }
    let mut straight = EvidenceStore::new();
    for n in 0..7u32 {
        straight.append(&record(n)).unwrap();
    }
    assert_eq!(reopened.append(&record(6)).unwrap().0, straight.root().unwrap());
}

#[test]
fn ledger_reports_corrupt_state_and_invalid_requests() {
    let corrupt = EvidenceStore::open(MemStore::default(), 3);
    assert_eq!(corrupt.root(), Err(LedgerError::CorruptState));
    assert_eq!(corrupt.get_proof(vec![0]).err(), Some(LedgerError::CorruptState));
    let mut ledger = EvidenceStore::new();
    ledger.append(&record(0)).unwrap();
    ledger.append(&record(1)).unwrap();
    assert_eq!(ledger.get_proof(vec![2]).err(), Some(LedgerError::InvalidProofRequest));
    assert_eq!(ledger.get_proof(vec![3]).err(), Some(LedgerError::InvalidProofRequest));
    assert_eq!(ledger.get_proof(vec![]).err(), Some(LedgerError::InvalidProofRequest));
    let nodes = MemStore::<[u8; 32]>::default();
    let mut handle = &nodes;
    handle.append(u64::MAX - 1, vec![[5u8; 32]]).unwrap();
    let mut full = EvidenceStore::open(nodes, u64::MAX);
    assert_eq!(full.append(&record(0)), Err(LedgerError::StoreIOError));
    assert_eq!(full.mmr_size(), u64::MAX);
}

#[test]
fn append_with_a_missing_peak_changes_nothing() {
    // Three nodes on record and none in the store: the new leaf would merge with
    // nothing, but the root could not be read, so nothing is written.
    let mut ledger = EvidenceStore::open(MemStore::default(), 3);
    assert_eq!(ledger.append(&record(0)), Err(LedgerError::CorruptState));
    assert_eq!(ledger.mmr_size(), 3);
    let (nodes, size) = ledger.into_parts();
    assert_eq!(size, 3);
    assert_eq!((&nodes).get_elem(3), Ok(None));
}

#[test]
fn submission_with_a_missing_peak_changes_nothing() {
    let signer = EvidenceSigner::from_seed(&[7u8; 32]).ok().unwrap();
    let mut ledger = EvidenceStore::open(MemStore::default(), 3);
    assert_eq!(
        submit_evidence(&signer, &mut ledger, record(0)).err(),
        Some(LedgerError::CorruptState)
    );
    assert_eq!(ledger.mmr_size(), 3);
    let (nodes, _) = ledger.into_parts();
    assert_eq!((&nodes).get_elem(3), Ok(None));
}

#[test]
fn failed_appends_leave_root_and_size_as_they_were() {
    let mut ledger = EvidenceStore::new();
    for n in 0..5u32 {
        ledger.append(&record(n)).unwrap();
    }
    let size = ledger.mmr_size();
    let root = ledger.root().unwrap();
    let mut bad = record(9);
    bad.image_sha256 = "short".to_string();
    assert_eq!(ledger.append(&bad), Err(LedgerError::EncodingError));
    assert_eq!(ledger.mmr_size(), size);
    assert_eq!(ledger.root(), Ok(root));
    let (appended_root, pos) = ledger.append(&record(5)).unwrap();
    assert_eq!(pos, size);
    assert_eq!(ledger.root(), Ok(appended_root));
}

#[test]
fn records_in_the_other_order_give_another_root() {
    let a = record(1);
    let b = record(2);
    let mut first = EvidenceStore::new();
    first.append(&a).unwrap();
    let (root_ab, pos_ab) = first.append(&b).unwrap();
    let mut second = EvidenceStore::new();
    second.append(&b).unwrap();
    let (root_ba, pos_ba) = second.append(&a).unwrap();
    assert_eq!((pos_ab, pos_ba), (1, 1));
    assert_eq!((first.mmr_size(), second.mmr_size()), (3, 3));
    assert_ne!(root_ab, root_ba);
    let mut joined = digest_of(&a).to_vec();
    joined.extend_from_slice(&digest_of(&b));
    assert_eq!(root_ab, *blake3::hash(&joined).as_bytes());
    let mut joined = digest_of(&b).to_vec();
    joined.extend_from_slice(&digest_of(&a));
    assert_eq!(root_ba, *blake3::hash(&joined).as_bytes());
}

#[test]
fn a_record_changed_in_one_field_gives_another_first_root() {
    let base = record(3);
    let mut changed: Vec<Evidence> = Vec::new();
    let mut r = base.clone();
    r.image_phash.push('x');
    changed.push(r);
    let mut r = base.clone();
    r.image_sha256 = "fedcba9876543210".repeat(4);
    changed.push(r);
    let mut r = base.clone();
    r.verdict = !r.verdict;
    changed.push(r);
    let mut r = base.clone();
    r.confidence = "0.98".to_string();
    changed.push(r);
    let mut r = base.clone();
    r.activated_prompts.swap(0, 1);
    changed.push(r);
    let mut r = base.clone();
    r.activated_prompts.push(0);
    changed.push(r);
    let mut r = base.clone();
    r.prompt_pool_hash.push('x');
    changed.push(r);
    let mut r = base.clone();
    r.external_knowledge_hash.push('x');
    changed.push(r);
    let mut r = base.clone();
    r.timestamp += 1;
    changed.push(r);
    let root = EvidenceStore::new().append(&base).unwrap().0;
    assert_eq!(root, digest_of(&base));
    for r in changed.iter() {
        assert_ne!(encode(r), encode(&base));
        assert_ne!(EvidenceStore::new().append(r).unwrap().0, root);
    }
}

#[test]
fn proof_of_the_first_of_three_records_recomputes_the_root() {
    let mut ledger = EvidenceStore::new();
    ledger.append(&record(0)).unwrap();
    ledger.append(&record(1)).unwrap();
    let (root, pos) = ledger.append(&record(2)).unwrap();
    assert_eq!(pos, 3);
    let proof = ledger.get_proof(vec![0]).unwrap();
    let items = proof.proof_items();
    assert_eq!(items, vec![digest_of(&record(1)), digest_of(&record(2))]);
    let d0 = digest_of(&record(0));
    assert_eq!(merge(&merge(&d0, &items[0]), &items[1]), root);
    assert_ne!(merge(&merge(&items[0], &d0), &items[1]), root);
    assert_ne!(merge(&items[1], &merge(&d0, &items[0])), root);
    assert!(verify_proof(&proof, &d0, 0, &root));
}

#[test]
fn proof_for_two_of_three_records_holds_the_third_alone() {
    let mut ledger = EvidenceStore::new();
    for n in 0..3u32 {
        ledger.append(&record(n)).unwrap();
    }
    let root = ledger.root().unwrap();
    let proof = ledger.get_proof(vec![0, 1]).unwrap();
    assert_eq!(proof.proof_items(), vec![digest_of(&record(2))]);
    let leaves = vec![
        ProofEntry { pos: 0, digest: digest_of(&record(0)) },
        ProofEntry { pos: 1, digest: digest_of(&record(1)) },
    ];
    assert!(verify_batch(&proof, &leaves, &root));
    let tampered = vec![
        ProofEntry { pos: 0, digest: digest_of(&record(0)) },
        ProofEntry { pos: 1, digest: digest_of(&record(7)) },
    ];
    assert!(!verify_batch(&proof, &tampered, &root));
}

#[test]
fn submission_gives_a_receipt() {
    let signer = EvidenceSigner::from_seed(&[7u8; 32]).ok().unwrap();
    let mut ledger = EvidenceStore::new();
    let evidence = assemble_evidence(
        "0123456789abcdef".repeat(4),
        "phash".to_string(),
        true,
        "0.99".to_string(),
        1700000000,
    );
    let receipt = submit_evidence(&signer, &mut ledger, evidence.clone()).unwrap();
    assert_eq!(receipt.leaf_pos, 0);
    assert_eq!(receipt.root_hash, hex::encode(ledger.root().unwrap()));
    assert_eq!(receipt.root_hash, hex::encode(digest_of(&evidence)));
    assert_eq!(receipt.signature, hex::encode(signer.sign(&evidence).unwrap()));
    assert_eq!(receipt.signature.len(), 128);
    assert_eq!(encode(&receipt.evidence_dump), encode(&evidence));

    let second = submit_evidence(&signer, &mut ledger, record(4)).unwrap();
    assert_eq!(second.leaf_pos, 1);
    assert_eq!(ledger.mmr_size(), 3);
    assert_eq!(second.root_hash, hex::encode(ledger.root().unwrap()));
}

#[test]
fn submission_of_a_malformed_record_is_refused() {
    let signer = EvidenceSigner::from_seed(&[7u8; 32]).ok().unwrap();
    let mut ledger = EvidenceStore::new();
    let evidence = assemble_evidence(
        "not a digest".to_string(),
        "phash".to_string(),
        true,
        "0.99".to_string(),
        1700000000,
    );
    assert_eq!(
        submit_evidence(&signer, &mut ledger, evidence).err(),
        Some(LedgerError::EncodingError)
    );
    assert_eq!(ledger.mmr_size(), 0);
}

#[test]
fn audit_response_lists_the_proof_in_hex() {
    let mut ledger = EvidenceStore::new();
    for n in 0..3u32 {
        ledger.append(&record(n)).unwrap();
    }
    let response = get_audit_proof(&ledger, 0).unwrap();
    assert!(response.proof_valid);
    assert_eq!(response.leaf_pos, 0);
    assert_eq!(
        response.proof_hex,
        vec![hex::encode(digest_of(&record(1))), hex::encode(digest_of(&record(2)))]
    );
    assert_eq!(get_audit_proof(&ledger, 2).err(), Some(LedgerError::InvalidProofRequest));
    assert_eq!(get_audit_proof(&ledger, 4).err(), Some(LedgerError::InvalidProofRequest));
}
