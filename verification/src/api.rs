//! What the service answers: the receipt for a submitted record and the audit
//! response for a position. The transport around them is not part of the library.

use vstd::prelude::*;
use crate::engine::{after_append, append_failure, root_failure, root_of};
use crate::error::LedgerError;
use crate::evidence::{Evidence, EvidenceModel, canonical_bytes, encodable};
use crate::hex_text::{digest_hex, hex_chars, hex_of};
use crate::inclusion::{nats, proof_failure, proof_of};
use crate::mmr_store::{EvidenceStore, append_error, record_digest};
use crate::signer::{EvidenceSigner, ed25519_signature};

verus! {

/// The receipt for a record that was signed and appended.
#[derive(Debug, Clone)]
pub struct ProveReceipt {
    /// The root of the ledger after the append, in hexadecimal.
    pub root_hash: String,
    /// The position of the record's leaf.
    pub leaf_pos: u64,
    /// The signature over the record's canonical bytes, in hexadecimal.
    pub signature: String,
    /// The record as it was signed and appended.
    pub evidence_dump: Evidence,
}

/// The inclusion proof for one position, for display.
#[derive(Debug, Clone)]
pub struct AuditResponse {
    /// Always `true`: the proof was produced; checking it is the client's part.
    pub proof_valid: bool,
    /// The position that the proof is for.
    pub leaf_pos: u64,
    /// The digests of the proof, in order, each in hexadecimal.
    pub proof_hex: Vec<String>,
}

/// The components that are recorded as activated for every submitted record.
pub open spec fn submitted_prompts() -> Seq<u32> {
    seq![1u32, 2u32, 99u32]
}

/// The record that is made for a submission.
pub open spec fn submitted_evidence(
    sha: Seq<char>,
    phash: Seq<char>,
    verdict: bool,
    confidence: Seq<char>,
    timestamp: i64,
) -> EvidenceModel {
    EvidenceModel {
        image_phash: phash,
        image_sha256: sha,
        verdict,
        confidence,
        activated_prompts: submitted_prompts(),
        prompt_pool_hash: "mock_pool_hash_abc123"@,
        external_knowledge_hash: "mock_wiki_hash_xyz789"@,
        timestamp,
    }
}

/// Makes the record for a submission from the fingerprints of the image, the verdict
/// and its confidence, and the time.
pub fn assemble_evidence(
    sha: String,
    phash: String,
    verdict: bool,
    confidence: String,
    timestamp: i64,
) -> (evidence: Evidence)
    ensures
        evidence@ == submitted_evidence(sha@, phash@, verdict, confidence@, timestamp),
{
    let prompts: Vec<u32> = vec![1u32, 2u32, 99u32];
    assert(prompts@ =~= submitted_prompts());
    Evidence {
        image_phash: phash,
        image_sha256: sha,
        verdict,
        confidence,
        activated_prompts: prompts,
        prompt_pool_hash: "mock_pool_hash_abc123".to_owned(),
        external_knowledge_hash: "mock_wiki_hash_xyz789".to_owned(),
        timestamp,
    }
}

/// Handles a submission: signs the record, appends it to the ledger and makes the
/// receipt. A record that cannot be encoded is refused before anything is signed or
/// stored, and on every error the ledger is as it was.
pub fn submit_evidence(signer: &EvidenceSigner, store: &mut EvidenceStore, evidence: Evidence) -> (r:
    Result<ProveReceipt, LedgerError>)
    ensures
        match r {
            Ok(receipt) => {
                &&& encodable(evidence@)
                &&& append_failure(old(store)@, record_digest(evidence@)) is None
                &&& final(store)@ == after_append(old(store)@, record_digest(evidence@))
                &&& root_failure(final(store)@) is None
                &&& receipt.root_hash@ == hex_chars(root_of(final(store)@))
                &&& receipt.leaf_pos == old(store)@.size
                &&& receipt.signature@ == hex_chars(
                    ed25519_signature(signer.seed_bytes(), canonical_bytes(evidence@)),
                )
                &&& receipt.evidence_dump == evidence
            },
            Err(e) => {
                &&& final(store)@ == old(store)@
                &&& e == append_error(old(store)@, evidence@)
                &&& !encodable(evidence@) || append_failure(
                    old(store)@,
                    record_digest(evidence@),
                ) is Some
            },
        },
{
    let signature = match signer.sign(&evidence) {
        Err(e) => {
            return Err(e);
        },
        Ok(signature) => signature,
    };
    let (root, pos) = match store.append(&evidence) {
        Err(e) => {
            return Err(e);
        },
        Ok(done) => done,
    };
    Ok(
        ProveReceipt {
            root_hash: digest_hex(&root),
            leaf_pos: pos,
            signature: hex_of(signature.as_slice()),
            evidence_dump: evidence,
        },
    )
}

/// Handles an audit request: makes the inclusion proof for the leaf at `pos` and
/// writes its digests in hexadecimal.
pub fn get_audit_proof(store: &EvidenceStore, pos: u64) -> (r: Result<AuditResponse, LedgerError>)
    ensures
        match r {
            Ok(response) => {
                &&& proof_failure(store@, seq![pos as nat]) is None
                &&& response.proof_valid
                &&& response.leaf_pos == pos
                &&& response.proof_hex@.len() == proof_of(store@, seq![pos as nat]).entries.len()
                &&& forall|i: int|
                    0 <= i < response.proof_hex@.len() ==> (#[trigger] response.proof_hex@[i])@
                        == hex_chars(proof_of(store@, seq![pos as nat]).entries[i].digest)
            },
            Err(e) => proof_failure(store@, seq![pos as nat]) == Some(e),
        },
{
    let targets: Vec<u64> = vec![pos];
    assert(nats(targets@) =~= seq![pos as nat]);
    let proof = match store.get_proof(targets) {
        Err(e) => {
            return Err(e);
        },
        Ok(proof) => proof,
    };
    let items = proof.proof_items();
    let mut proof_hex: Vec<String> = Vec::new();
    let mut i: usize = 0;
    while i < items.len()
        invariant
            i <= items@.len(),
            proof_hex@.len() == i,
            forall|j: int| 0 <= j < i ==> (#[trigger] proof_hex@[j])@ == hex_chars(items@[j]@),
        decreases items@.len() - i,
    {
        proof_hex.push(digest_hex(&items[i]));
        i = i + 1;
    }
    Ok(AuditResponse { proof_valid: true, leaf_pos: pos, proof_hex })
}

} // verus!
