//! The ledger: records go in, a root and a position come out, and proofs can be asked
//! for later. Appending takes the ledger exclusively; reading shares it.

use vstd::prelude::*;
use ckb_merkle_mountain_range::util::MemStore;
use crate::digest::{blake3_hash, leaf_digest};
use crate::engine::{
    after_append, append, append_failure, consistent, current_root, node, root_failure, root_of,
};
use crate::error::LedgerError;
use crate::evidence::{Evidence, EvidenceModel, canonical_bytes, encodable, encode};
use crate::inclusion::{
    InclusionProof, accepts, accepts_batch, entries_at, gen_proof, nats, proof_failure, proof_of,
    valid_request,
};
use crate::laws::consistency::empty_ledger;
use crate::node_store::{LedgerModel, NodeStore, store_nodes};

verus! {

/// The leaf digest of a record: the hash of its canonical bytes.
pub open spec fn record_digest(r: EvidenceModel) -> Seq<u8> {
    blake3_hash(canonical_bytes(r))
}

/// The error with which appending the record `r` to the ledger `m` fails, where it
/// fails: a record that cannot be encoded is refused before the ledger is looked at.
pub open spec fn append_error(m: LedgerModel, r: EvidenceModel) -> LedgerError {
    if !encodable(r) {
        LedgerError::EncodingError
    } else {
        append_failure(m, record_digest(r)).unwrap()
    }
}

/// The append-only ledger of evidence.
pub struct EvidenceStore {
    store: NodeStore,
}

impl View for EvidenceStore {
    type V = LedgerModel;

    closed spec fn view(&self) -> LedgerModel {
        self.store@
    }
}

impl EvidenceStore {
    /// A ledger without records.
    pub fn new() -> (ledger: EvidenceStore)
        ensures
            ledger@ == empty_ledger(),
            consistent(ledger@),
    {
        EvidenceStore { store: NodeStore::new() }
    }

    /// Takes a ledger up again from what was persisted: the node map and the size.
    pub fn open(nodes: MemStore<[u8; 32]>, mmr_size: u64) -> (ledger: EvidenceStore)
        ensures
            ledger@ == (LedgerModel { nodes: store_nodes(nodes), size: mmr_size as nat }),
    {
        EvidenceStore { store: NodeStore::open(nodes, mmr_size) }
    }

    /// Closes the ledger and hands out what is to be persisted.
    pub fn into_parts(self) -> (parts: (MemStore<[u8; 32]>, u64))
        ensures
            store_nodes(parts.0) == self@.nodes,
            parts.1 == self@.size,
    {
        self.store.into_parts()
    }

    /// The number of nodes of the ledger.
    pub fn mmr_size(&self) -> (size: u64)
        ensures
            size == self@.size,
    {
        self.store.size()
    }

    /// Appends a record: encodes it, hashes the canonical bytes to a leaf digest,
    /// appends the digest and reads the new root. Returns the root and the position of
    /// the leaf. The append either completes or has not happened: on every error the
    /// ledger is as it was.
    pub fn append(&mut self, evidence: &Evidence) -> (r: Result<([u8; 32], u64), LedgerError>)
        ensures
            match r {
                Ok((root, pos)) => {
                    &&& encodable(evidence@)
                    &&& append_failure(old(self)@, record_digest(evidence@)) is None
                    &&& final(self)@ == after_append(old(self)@, record_digest(evidence@))
                    &&& pos == old(self)@.size
                    &&& root_failure(final(self)@) is None
                    &&& root@ == root_of(final(self)@)
                },
                Err(e) => {
                    &&& final(self)@ == old(self)@
                    &&& e == append_error(old(self)@, evidence@)
                    &&& !encodable(evidence@) || append_failure(
                        old(self)@,
                        record_digest(evidence@),
                    ) is Some
                },
            },
            consistent(old(self)@) ==> consistent(final(self)@),
            consistent(old(self)@) && encodable(evidence@) && old(self)@.size < u64::MAX ==> r is Ok,
    {
        let payload = match encode(evidence) {
            Err(e) => {
                return Err(e);
            },
            Ok(bytes) => bytes,
        };
        let leaf = leaf_digest(payload.as_slice());
        let pos = match append(&mut self.store, leaf) {
            Err(e) => {
                return Err(e);
            },
            Ok(pos) => pos,
        };
        // The append has read every peak that the root is folded from.
        match current_root(&self.store) {
            Ok(root) => Ok((root, pos)),
            Err(e) => Err(e),
        }
    }

    /// The root of the ledger.
    pub fn root(&self) -> (r: Result<[u8; 32], LedgerError>)
        ensures
            match r {
                Ok(root) => root_failure(self@) is None && root@ == root_of(self@),
                Err(e) => root_failure(self@) == Some(e),
            },
            consistent(self@) && self@.size > 0 ==> r is Ok,
    {
        current_root(&self.store)
    }

    /// The inclusion proof for the leaves at the positions of `pos_list`.
    pub fn get_proof(&self, pos_list: Vec<u64>) -> (r: Result<InclusionProof, LedgerError>)
        ensures
            match r {
                Ok(proof) => proof_failure(self@, nats(pos_list@)) is None && proof@ == proof_of(
                    self@,
                    nats(pos_list@),
                ),
                Err(e) => proof_failure(self@, nats(pos_list@)) == Some(e),
            },
            consistent(self@) && valid_request(self@.size, nats(pos_list@)) ==> {
                &&& r is Ok
                &&& accepts_batch(
                    r.unwrap()@,
                    entries_at(self@.nodes, nats(pos_list@)),
                    root_of(self@),
                )
                &&& pos_list@.len() == 1 ==> accepts(
                    r.unwrap()@,
                    node(self@.nodes, pos_list@[0] as nat),
                    pos_list@[0] as nat,
                    root_of(self@),
                )
            },
    {
        gen_proof(&self.store, &pos_list)
    }
}

} // verus!
