//! The engine of the range: growing it by one leaf and folding its peaks into a root.

use vstd::prelude::*;
use crate::digest::{merge, merge_spec};
use crate::error::LedgerError;
use crate::node_store::{LedgerModel, NodeStore, digests, nodes_with};
use crate::laws::consistency::{
    law_append_keeps_consistent, law_append_succeeds_until_full, law_appended_ledger_has_root,
};
use crate::laws::soundness::law_consistent_has_root;
use crate::shape::{Mountain, left_child, mmr_peaks, right_child, valid_size};
use crate::walk::{Peak, mountains, split_peaks};

verus! {

/// Whether the node map holds a digest at `pos`.
pub open spec fn has_node(nodes: Map<u64, Seq<u8>>, pos: nat) -> bool {
    pos <= u64::MAX && nodes.contains_key(pos as u64)
}

/// The digest that the node map holds at `pos`.
pub open spec fn node(nodes: Map<u64, Seq<u8>>, pos: nat) -> Seq<u8> {
    nodes[pos as u64]
}

/// The new internal nodes that a node `cur` of height `h` gives rise to, while the row
/// `ms` ends in a mountain of that same height: that mountain and `cur` merge into a
/// parent, which is carried on one level up.
pub open spec fn carry(nodes: Map<u64, Seq<u8>>, ms: Seq<Mountain>, cur: Seq<u8>, h: nat) -> Seq<
    Seq<u8>,
>
    decreases ms.len(),
{
    if ms.len() > 0 && ms.last().height == h {
        let parent = merge_spec(node(nodes, ms.last().root), cur);
        seq![parent] + carry(nodes, ms.drop_last(), parent, h + 1)
    } else {
        Seq::empty()
    }
}

/// The nodes that appending `leaf` creates, in the order of their positions: the leaf,
/// then one parent for each merge.
pub open spec fn append_batch(m: LedgerModel, leaf: Seq<u8>) -> Seq<Seq<u8>> {
    seq![leaf] + carry(m.nodes, mmr_peaks(m.size), leaf, 0)
}

/// The ledger after `leaf` has been appended.
pub open spec fn after_append(m: LedgerModel, leaf: Seq<u8>) -> LedgerModel {
    LedgerModel {
        nodes: nodes_with(m.nodes, m.size, append_batch(m, leaf)),
        size: m.size + append_batch(m, leaf).len(),
    }
}

/// Why appending `leaf` fails, if it does: the size is no valid size or a peak of it is
/// not in the store, or the new nodes would run past the last position. Every peak is
/// asked for, not only those that merge, so that the root can be read once the leaf
/// is in.
pub open spec fn append_failure(m: LedgerModel, leaf: Seq<u8>) -> Option<LedgerError> {
    if !valid_size(m.size) || !peaks_present(m.nodes, mmr_peaks(m.size)) {
        Some(LedgerError::CorruptState)
    } else if m.size + append_batch(m, leaf).len() > u64::MAX {
        Some(LedgerError::StoreIOError)
    } else {
        None
    }
}

/// The digests of a run of peaks, folded from the right:
/// `merge(d[i], merge(d[i + 1], ... d[last]))`.
pub open spec fn bag_from(ds: Seq<Seq<u8>>, i: int) -> Seq<u8>
    decreases ds.len() - i,
{
    if i + 1 >= ds.len() {
        ds[i]
    } else {
        merge_spec(ds[i], bag_from(ds, i + 1))
    }
}

/// The root over the peak digests `ds`, tallest peak first.
pub open spec fn bag(ds: Seq<Seq<u8>>) -> Seq<u8> {
    bag_from(ds, 0)
}

/// The digests stored at the roots of `ms`.
pub open spec fn peak_digests(nodes: Map<u64, Seq<u8>>, ms: Seq<Mountain>) -> Seq<Seq<u8>> {
    Seq::new(ms.len(), |i: int| node(nodes, ms[i].root))
}

/// Whether the store holds the root of every mountain of `ms`.
pub open spec fn peaks_present(nodes: Map<u64, Seq<u8>>, ms: Seq<Mountain>) -> bool {
    forall|i: int| 0 <= i < ms.len() ==> has_node(nodes, (#[trigger] ms[i]).root)
}

/// The root digest of a ledger.
pub open spec fn root_of(m: LedgerModel) -> Seq<u8> {
    bag(peak_digests(m.nodes, mmr_peaks(m.size)))
}

/// Why the root of a ledger cannot be given, if it cannot.
pub open spec fn root_failure(m: LedgerModel) -> Option<LedgerError> {
    if m.size == 0 {
        Some(LedgerError::EmptyLedger)
    } else if !valid_size(m.size) || !peaks_present(m.nodes, mmr_peaks(m.size)) {
        Some(LedgerError::CorruptState)
    } else {
        None
    }
}

/// Every node of the mountain `m` is in the node map, and every internal node holds
/// the merge of its two children.
pub open spec fn tree_ok(nodes: Map<u64, Seq<u8>>, m: Mountain) -> bool
    decreases m.height,
{
    &&& has_node(nodes, m.root)
    &&& m.height > 0 ==> {
        &&& tree_ok(nodes, left_child(m))
        &&& tree_ok(nodes, right_child(m))
        &&& node(nodes, m.root) == merge_spec(
            node(nodes, left_child(m).root),
            node(nodes, right_child(m).root),
        )
    }
}

/// Every mountain of `ms` is sound in the node map.
pub open spec fn all_ok(nodes: Map<u64, Seq<u8>>, ms: Seq<Mountain>) -> bool {
    forall|i: int| 0 <= i < ms.len() ==> tree_ok(nodes, #[trigger] ms[i])
}

/// A ledger is consistent when its size is a valid size and each of its peaks is the
/// root of a sound tree in the store.
pub open spec fn consistent(m: LedgerModel) -> bool {
    &&& valid_size(m.size)
    &&& m.size <= u64::MAX
    &&& all_ok(m.nodes, mmr_peaks(m.size))
}

/// Reads the digests of the given peaks from the store; `None` where one is missing.
pub fn read_peaks(store: &NodeStore, peaks: &Vec<Peak>) -> (r: Option<Vec<[u8; 32]>>)
    ensures
        match r {
            Some(found) => {
                &&& peaks_present(store@.nodes, mountains(peaks@))
                &&& digests(found@) == peak_digests(store@.nodes, mountains(peaks@))
            },
            None => !peaks_present(store@.nodes, mountains(peaks@)),
        },
{
    let ghost ms = mountains(peaks@);
    let mut found: Vec<[u8; 32]> = Vec::new();
    let mut i: usize = 0;
    while i < peaks.len()
        invariant
            i <= peaks@.len(),
            ms == mountains(peaks@),
            found@.len() == i,
            forall|j: int| 0 <= j < i ==> has_node(store@.nodes, (#[trigger] ms[j]).root),
            forall|j: int|
                0 <= j < i ==> (#[trigger] found@[j])@ == node(store@.nodes, ms[j].root),
        decreases peaks@.len() - i,
    {
        match store.get(peaks[i].pos) {
            None => {
                proof {
                    assert(!has_node(store@.nodes, ms[i as int].root));
                }
                return None;
            },
            Some(d) => {
                found.push(d);
            },
        }
        i = i + 1;
    }
    proof {
        assert(digests(found@) =~= peak_digests(store@.nodes, ms));
    }
    Some(found)
}

/// Appends a leaf digest. The leaf takes the next position; while the two rightmost
/// peaks have the same height they merge into a parent at the position after. Every
/// peak is read before anything is written; the new nodes are then written in one
/// batch, and only after that is the new size recorded. On failure the ledger is as
/// it was; on success its root can be read.
pub fn append(store: &mut NodeStore, leaf: [u8; 32]) -> (r: Result<u64, LedgerError>)
    ensures
        match r {
            Ok(pos) => {
                &&& append_failure(old(store)@, leaf@) is None
                &&& pos == old(store)@.size
                &&& final(store)@ == after_append(old(store)@, leaf@)
                &&& root_failure(final(store)@) is None
            },
            Err(e) => {
                &&& append_failure(old(store)@, leaf@) == Some(e)
                &&& final(store)@ == old(store)@
            },
        },
        consistent(old(store)@) ==> consistent(final(store)@),
        consistent(old(store)@) && old(store)@.size < u64::MAX ==> r is Ok,
{
    let size: u64 = store.size();
    proof {
        law_appended_ledger_has_root(store@, leaf@);
        if consistent(store@) {
            law_append_succeeds_until_full(store@, leaf@);
            if size < u64::MAX {
                law_append_keeps_consistent(store@, leaf@);
            }
        }
    }
    let (peaks, rest) = split_peaks(size);
    if rest != 0 {
        return Err(LedgerError::CorruptState);
    }
    let found = match read_peaks(store, &peaks) {
        None => {
            return Err(LedgerError::CorruptState);
        },
        Some(found) => found,
    };
    let ghost before = store@;
    let ghost ms = mmr_peaks(size as nat);
    let mut batch: Vec<[u8; 32]> = Vec::new();
    batch.push(leaf);
    let mut cur: [u8; 32] = leaf;
    let mut height: u32 = 0;
    let mut k: usize = peaks.len();
    proof {
        assert(ms.take(k as int) =~= ms);
        assert(digests(batch@) =~= seq![leaf@]);
        assert(digests(found@).len() == found@.len());
    }
    while k > 0 && peaks[k - 1].height == height
        invariant
            ms == mountains(peaks@),
            found@.len() == peaks@.len(),
            digests(found@) == peak_digests(before.nodes, ms),
            k <= peaks@.len() <= 64,
            height + k <= peaks@.len(),
            batch@.len() == height + 1,
            append_batch(before, leaf@) == digests(batch@) + carry(
                before.nodes,
                ms.take(k as int),
                cur@,
                height as nat,
            ),
        decreases k,
    {
        let ghost row = ms.take(k as int);
        let ghost done = digests(batch@);
        proof {
            assert(row.last() == peaks@[k - 1]@);
            assert(row.drop_last() =~= ms.take(k - 1));
            assert(digests(found@)[k - 1] == node(before.nodes, ms[k - 1].root));
        }
        cur = merge(&found[k - 1], &cur);
        batch.push(cur);
        k = k - 1;
        height = height + 1;
        proof {
            let rest = carry(before.nodes, ms.take(k as int), cur@, height as nat);
            assert(digests(batch@) =~= done.push(cur@));
            assert(done + (seq![cur@] + rest) =~= done.push(cur@) + rest);
        }
    }
    proof {
        if k > 0 {
            assert(ms.take(k as int).last() == peaks@[k - 1]@);
        }
        assert(digests(batch@) + Seq::<Seq<u8>>::empty() =~= digests(batch@));
    }
    let added: u64 = batch.len() as u64;
    match store.append_sequential(size, batch) {
        Err(e) => Err(e),
        Ok(_) => {
            store.record_size(size + added);
            Ok(size)
        },
    }
}

/// Folds a run of peak digests, tallest peak first, into one root; `None` where the
/// run is empty.
pub fn bag_peaks(ds: &Vec<[u8; 32]>) -> (r: Option<[u8; 32]>)
    ensures
        match r {
            Some(out) => ds@.len() > 0 && out@ == bag(digests(ds@)),
            None => ds@.len() == 0,
        },
{
    if ds.len() == 0 {
        return None;
    }
    let mut i: usize = ds.len() - 1;
    let mut acc: [u8; 32] = ds[i];
    while i > 0
        invariant
            i < ds@.len(),
            acc@ == bag_from(digests(ds@), i as int),
        decreases i,
    {
        i = i - 1;
        acc = merge(&ds[i], &acc);
    }
    Some(acc)
}

/// The root of the ledger: the digest of its only peak, or the peaks folded from the
/// right, tallest first. Fails with `EmptyLedger` on a ledger without leaves and with
/// `CorruptState` where the size is no valid size or a peak is not in the store.
pub fn current_root(store: &NodeStore) -> (r: Result<[u8; 32], LedgerError>)
    ensures
        match r {
            Ok(root) => root_failure(store@) is None && root@ == root_of(store@),
            Err(e) => root_failure(store@) == Some(e),
        },
        consistent(store@) && store@.size > 0 ==> r is Ok,
{
    let size: u64 = store.size();
    proof {
        if consistent(store@) && size > 0 {
            law_consistent_has_root(store@);
        }
    }
    if size == 0 {
        return Err(LedgerError::EmptyLedger);
    }
    let (peaks, rest) = split_peaks(size);
    if rest != 0 {
        return Err(LedgerError::CorruptState);
    }
    let found = match read_peaks(store, &peaks) {
        None => {
            return Err(LedgerError::CorruptState);
        },
        Some(found) => found,
    };
    proof {
        crate::shape::lemma_peaks_nonempty(size as nat);
        assert(digests(found@).len() == found@.len());
    }
    match bag_peaks(&found) {
        Some(root) => Ok(root),
        None => Err(LedgerError::CorruptState),
    }
}

} // verus!
