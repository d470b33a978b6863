//! The node store: a position-to-digest map that only grows, and the count of nodes
//! that have been committed to it.

use vstd::prelude::*;
use ckb_merkle_mountain_range::util::MemStore;
use ckb_merkle_mountain_range::{MMRStoreReadOps, MMRStoreWriteOps};
use crate::engine::consistent;
use crate::error::LedgerError;
use crate::laws::consistency::{empty_ledger, law_empty_is_consistent};

verus! {

/// The in-memory node map of `ckb_merkle_mountain_range`, opaque to the verifier.
#[verifier::external_type_specification]
#[verifier::external_body]
#[verifier::reject_recursive_types(T)]
pub struct ExMemStore<T>(MemStore<T>);

/// The error type of `ckb_merkle_mountain_range`, opaque to the verifier.
#[verifier::external_type_specification]
#[verifier::external_body]
pub struct ExStoreError(ckb_merkle_mountain_range::Error);

/// What a `MemStore` holds: the digest stored at each position that was ever written.
pub uninterp spec fn store_nodes(store: MemStore<[u8; 32]>) -> Map<u64, Seq<u8>>;

/// The map `nodes` after `batch` has been written at the positions `start`, `start + 1`, ...
pub open spec fn nodes_with(nodes: Map<u64, Seq<u8>>, start: nat, batch: Seq<Seq<u8>>) -> Map<
    u64,
    Seq<u8>,
> {
    Map::new(
        |p: u64| nodes.contains_key(p) || start <= p < start + batch.len(),
        |p: u64|
            if start <= p < start + batch.len() {
                batch[p - start]
            } else {
                nodes[p]
            },
    )
}

/// The views of a run of digests.
pub open spec fn digests(items: Seq<[u8; 32]>) -> Seq<Seq<u8>> {
    Seq::new(items.len(), |i: int| items[i]@)
}

/// Calls `MemStore::default`. Trusted: a fresh store holds nothing.
#[verifier::external_body]
pub(crate) fn mem_store_new() -> (store: MemStore<[u8; 32]>)
    ensures
        store_nodes(store) =~= Map::empty(),
{
    MemStore::default()
}

/// Calls `MMRStoreReadOps::get_elem` on a `&MemStore`. Trusted: the call never fails
/// and returns a copy of the digest stored at `pos`, or `None` where nothing is stored.
#[verifier::external_body]
pub(crate) fn mem_store_get(store: &MemStore<[u8; 32]>, pos: u64) -> (r: Result<
    Option<[u8; 32]>,
    ckb_merkle_mountain_range::Error,
>)
    ensures
        match r {
            Ok(Some(d)) => store_nodes(*store).contains_key(pos) && store_nodes(*store)[pos] == d@,
            Ok(None) => !store_nodes(*store).contains_key(pos),
            Err(_) => false,
        },
{
    store.get_elem(pos)
}

/// Calls `MMRStoreWriteOps::append` on a `&MemStore`. Trusted: the call never fails and
/// stores `elems[i]` at position `pos + i`, replacing what was there and leaving every
/// other position as it was. The positions must not run past `u64::MAX`.
#[verifier::external_body]
pub(crate) fn mem_store_append(store: &mut MemStore<[u8; 32]>, pos: u64, elems: Vec<[u8; 32]>) -> (r:
    Result<(), ckb_merkle_mountain_range::Error>)
    requires
        pos + elems.len() <= u64::MAX,
    ensures
        r is Ok,
        store_nodes(*final(store)) == nodes_with(store_nodes(*old(store)), pos as nat, digests(elems@)),
{
    let mut handle: &MemStore<[u8; 32]> = &*store;
    handle.append(pos, elems)
}


/// What a ledger is, to its contracts: the digest at each written position, and the
/// number of nodes that count as committed.
pub struct LedgerModel {
    pub nodes: Map<u64, Seq<u8>>,
    pub size: nat,
}

/// The durable state of a ledger: the node map and the committed size. Nodes at
/// positions at or past the size are orphans that the next append overwrites.
pub struct NodeStore {
    nodes: MemStore<[u8; 32]>,
    size: u64,
}

impl View for NodeStore {
    type V = LedgerModel;

    closed spec fn view(&self) -> LedgerModel {
        LedgerModel { nodes: store_nodes(self.nodes), size: self.size as nat }
    }
}

impl NodeStore {
    /// A store without nodes, of size 0.
    pub fn new() -> (store: NodeStore)
        ensures
            store@ == empty_ledger(),
            consistent(store@),
    {
        proof {
            law_empty_is_consistent();
        }
        NodeStore { nodes: mem_store_new(), size: 0 }
    }

    /// Takes up a node map and the size that was recorded for it, as they are. The size
    /// is trusted and the map is not scanned; what is missing shows when it is asked for.
    pub fn open(nodes: MemStore<[u8; 32]>, size: u64) -> (store: NodeStore)
        ensures
            store@ == (LedgerModel { nodes: store_nodes(nodes), size: size as nat }),
    {
        NodeStore { nodes, size }
    }

    /// Gives the node map and the recorded size back.
    pub fn into_parts(self) -> (parts: (MemStore<[u8; 32]>, u64))
        ensures
            store_nodes(parts.0) == self@.nodes,
            parts.1 == self@.size,
    {
        (self.nodes, self.size)
    }

    /// The number of committed nodes.
    pub fn size(&self) -> (size: u64)
        ensures
            size == self@.size,
    {
        self.size
    }

    /// The digest stored at `pos`, or `None` where the store holds none.
    pub fn get(&self, pos: u64) -> (r: Option<[u8; 32]>)
        ensures
            match r {
                Some(d) => self@.nodes.contains_key(pos) && self@.nodes[pos] == d@,
                None => !self@.nodes.contains_key(pos),
            },
    {
        match mem_store_get(&self.nodes, pos) {
            Ok(found) => found,
            Err(_) => None,
        }
    }

    /// Writes `batch` at the positions `start`, `start + 1`, ... in one piece: either
    /// every digest is stored or none is. The write is refused where the positions
    /// would run past `u64::MAX`. The size is left as it is.
    pub fn append_sequential(&mut self, start: u64, batch: Vec<[u8; 32]>) -> (r: Result<
        (),
        LedgerError,
    >)
        ensures
            match r {
                Ok(_) => {
                    &&& start + batch@.len() <= u64::MAX
                    &&& final(self)@ == (LedgerModel {
                        nodes: nodes_with(old(self)@.nodes, start as nat, digests(batch@)),
                        size: old(self)@.size,
                    })
                },
                Err(e) => {
                    &&& e == LedgerError::StoreIOError
                    &&& start + batch@.len() > u64::MAX
                    &&& final(self)@ == old(self)@
                },
            },
    {
        if batch.len() as u64 > u64::MAX - start {
            return Err(LedgerError::StoreIOError);
        }
        match mem_store_append(&mut self.nodes, start, batch) {
            Ok(_) => Ok(()),
            Err(_) => Err(LedgerError::StoreIOError),
        }
    }

    /// Records a new size. To be called only once the nodes below that size are stored.
    pub fn record_size(&mut self, size: u64)
        ensures
            final(self)@ == (LedgerModel { nodes: old(self)@.nodes, size: size as nat }),
    {
        self.size = size;
    }
}

} // verus!
