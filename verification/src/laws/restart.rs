//! Restart: only the recorded size and the nodes below it decide what a ledger answers.

use vstd::prelude::*;
use crate::engine::{has_node, node, peak_digests, peaks_present, root_failure, root_of};
use crate::inclusion::{
    all_present, batch_positions, entries_at, proof_failure, proof_of, valid_request,
};
use crate::laws::soundness::{is_free_peak, is_free_side, lemma_batch_holds};
use crate::node_store::LedgerModel;
use crate::shape::{
    Mountain, child_toward, covers, grounded, holds_target, is_leaf_position, leaf_under,
    lemma_children, lemma_peak_covers, lemma_peaks_are_row, lemma_row_span_in, lemma_side_trail,
    mmr_peaks, peak_index, side_trail, trail, valid_size,
};

verus! {

/// The two node maps hold the same at `p`: both nothing, or both the same digest.
pub open spec fn agree_at(a: Map<u64, Seq<u8>>, b: Map<u64, Seq<u8>>, p: u64) -> bool {
    a.contains_key(p) == b.contains_key(p) && (a.contains_key(p) ==> a[p] == b[p])
}

/// The two node maps hold the same at every position below `limit`.
pub open spec fn same_below(a: Map<u64, Seq<u8>>, b: Map<u64, Seq<u8>>, limit: nat) -> bool {
    forall|p: u64| p < limit ==> #[trigger] agree_at(a, b, p)
}

/// Every sibling on the way from the root of a mountain down to a leaf lies left of
/// the root.
pub proof fn lemma_trail_within(m: Mountain, pos: nat)
    requires
        grounded(m),
        covers(m, pos),
        leaf_under(m, pos),
    ensures
        forall|i: int| 0 <= i < trail(m, pos).len() ==> (#[trigger] trail(m, pos)[i]).sibling < m.root,
    decreases m.height,
{
    let t = trail(m, pos);
    if m.height > 0 {
        let child = child_toward(m, pos);
        lemma_children(m, pos);
        lemma_trail_within(child, pos);
        assert forall|i: int| 0 <= i < t.len() implies (#[trigger] t[i]).sibling < m.root by {
            if i > 0 {
                assert(t[i] == trail(child, pos)[i - 1]);
            }
        }
    }
}

/// Every node of a proof for a valid request lies below the size.
pub proof fn lemma_batch_within(size: nat, targets: Seq<nat>)
    requires
        valid_size(size),
        forall|i: int| 0 <= i < targets.len() ==> is_leaf_position(size, #[trigger] targets[i]),
    ensures
        forall|j: int|
            0 <= j < batch_positions(size, targets).len() ==> #[trigger] batch_positions(
                size,
                targets,
            )[j] < size,
{
    let ms = mmr_peaks(size);
    let ps = batch_positions(size, targets);
    lemma_peaks_are_row(size, 0, 64);
    assert forall|a: int| 0 <= a < ps.len() implies #[trigger] ps[a] < size by {
        let x = ps[a];
        assert(ps.contains(x));
        lemma_batch_holds(size, targets, x);
        if is_free_peak(size, targets, x) {
            let j = choose|j: int|
                0 <= j < ms.len() && (#[trigger] ms[j]).root == x && !holds_target(ms[j], targets);
            lemma_row_span_in(ms, 0, 64, j);
        } else {
            let i = choose|i: int|
                0 <= i < targets.len() && is_free_side(size, targets, #[trigger] targets[i], x);
            let t = targets[i];
            let k = peak_index(ms, t);
            let st = side_trail(ms[k], t);
            let j = choose|j: int|
                0 <= j < st.len() && (#[trigger] st[j]).root == x && !holds_target(st[j], targets);
            lemma_peak_covers(ms, 64, t);
            lemma_side_trail(ms[k], t);
            lemma_trail_within(ms[k], t);
            lemma_row_span_in(ms, 0, 64, k);
            assert(st[j].root == trail(ms[k], t)[j].sibling);
        }
    }
}

/// Only the size and the nodes below it count. Two ledgers of the same size whose
/// stores hold the same below that size give the same root and the same proofs, and
/// fail alike: so does a ledger that was closed and taken up again from what was
/// persisted, whatever orphaned nodes lie at or past its size.
pub proof fn law_reopened_ledger_answers_alike(a: LedgerModel, b: LedgerModel, targets: Seq<nat>)
    requires
        a.size == b.size,
        a.size <= u64::MAX,
        same_below(a.nodes, b.nodes, a.size),
    ensures
        root_failure(a) == root_failure(b),
        root_failure(a) is None ==> root_of(a) == root_of(b),
        proof_failure(a, targets) == proof_failure(b, targets),
        proof_failure(a, targets) is None ==> proof_of(a, targets) == proof_of(b, targets),
{
    let size = a.size;
    let ms = mmr_peaks(size);
    if valid_size(size) {
        lemma_peaks_are_row(size, 0, 64);
        assert forall|i: int| 0 <= i < ms.len() implies has_node(a.nodes, (#[trigger] ms[i]).root)
            == has_node(b.nodes, ms[i].root) && (has_node(a.nodes, ms[i].root) ==> node(
            a.nodes,
            ms[i].root,
        ) == node(b.nodes, ms[i].root)) by {
            lemma_row_span_in(ms, 0, 64, i);
            assert(agree_at(a.nodes, b.nodes, ms[i].root as u64));
        }
        if peaks_present(a.nodes, ms) {
            assert(peaks_present(b.nodes, ms));
            assert(peak_digests(a.nodes, ms) =~= peak_digests(b.nodes, ms));
        }
        if peaks_present(b.nodes, ms) {
            assert(peaks_present(a.nodes, ms));
        }
        if valid_request(size, targets) {
            let ps = batch_positions(size, targets);
            lemma_batch_within(size, targets);
            assert forall|j: int| 0 <= j < ps.len() implies has_node(a.nodes, #[trigger] ps[j])
                == has_node(b.nodes, ps[j]) && (has_node(a.nodes, ps[j]) ==> node(a.nodes, ps[j])
                == node(b.nodes, ps[j])) by {
                assert(ps[j] < size);
                assert(agree_at(a.nodes, b.nodes, ps[j] as u64));
            }
            if all_present(a.nodes, ps) {
                assert(all_present(b.nodes, ps));
                assert(entries_at(a.nodes, ps) =~= entries_at(b.nodes, ps));
            }
            if all_present(b.nodes, ps) {
                assert(all_present(a.nodes, ps));
            }
        }
    }
}

} // verus!
