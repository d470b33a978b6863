//! Binding: what a root and a proof commit to, as far as BLAKE3 has no collisions.

use vstd::prelude::*;
use crate::laws::small::{law_one_leaf, law_two_leaves};
use crate::node_store::LedgerModel;
use crate::digest::{blake3_hash, merge_spec};
use crate::engine::{bag_from, consistent, node, peak_digests, root_of, tree_ok};
use crate::evidence::{
    EvidenceModel, canonical_bytes, encodable, law_encoding_is_injective, lemma_cut,
};
use crate::inclusion::{EntryModel, ProofModel, accepts, climb, lookup, peak_input, peak_inputs};
use crate::laws::consistency::{ledger_of, lemma_root_present};
use crate::mmr_store::record_digest;
use crate::shape::{
    Mountain, Turn, child_toward, covers, goes_left, grounded, leaf_under, left_child,
    lemma_children, lemma_peak_covers, lemma_peak_index, lemma_peaks_are_row, mmr_peaks,
    peak_index, right_child, trail, turn_at,
};

verus! {

/// Two different byte strings with the same BLAKE3 digest.
pub open spec fn collision(x: Seq<u8>, y: Seq<u8>) -> bool {
    x != y && blake3_hash(x) == blake3_hash(y)
}

/// Some two different byte strings have the same BLAKE3 digest.
pub open spec fn collision_exists() -> bool {
    exists|x: Seq<u8>, y: Seq<u8>| #[trigger] collision(x, y)
}

/// Merging with one changed child gives another parent, or shows a collision.
pub proof fn lemma_merge_binds(l1: Seq<u8>, r1: Seq<u8>, l2: Seq<u8>, r2: Seq<u8>)
    requires
        (l1 != l2 && r1 == r2) || (l1 == l2 && r1 != r2),
    ensures
        merge_spec(l1, r1) != merge_spec(l2, r2) || collision_exists(),
{
    if l1 + r1 == l2 + r2 {
        if l1 == l2 {
            lemma_cut(l1, r1, l2, r2);
        } else {
            assert((l1 + r1).len() == (l2 + r2).len());
            lemma_cut(l1, r1, l2, r2);
        }
    }
    if merge_spec(l1, r1) == merge_spec(l2, r2) {
        assert(collision(l1 + r1, l2 + r2));
    }
}

/// Merging is not commutative: two different digests of one length merge to
/// different parents in the two orders, unless two different byte strings have the
/// same BLAKE3 digest.
pub proof fn law_merge_depends_on_order(left: Seq<u8>, right: Seq<u8>)
    requires
        left != right,
        left.len() == right.len(),
    ensures
        merge_spec(left, right) != merge_spec(right, left) || collision_exists(),
{
    if left + right == right + left {
        lemma_cut(left, right, right, left);
    }
    if merge_spec(left, right) == merge_spec(right, left) {
        assert(collision(left + right, right + left));
    }
}

/// Climbing the same turns with the same siblings from two different leaves ends in
/// two different digests, or shows a collision.
pub proof fn lemma_climb_binds(t: Seq<Turn>, leaf1: Seq<u8>, leaf2: Seq<u8>, entries: Seq<EntryModel>)
    requires
        leaf1 != leaf2,
        climb(t, leaf1, entries) is Some,
        climb(t, leaf2, entries) is Some,
    ensures
        climb(t, leaf1, entries) != climb(t, leaf2, entries) || collision_exists(),
    decreases t.len(),
{
    if t.len() > 0 {
        lemma_climb_binds(t.skip(1), leaf1, leaf2, entries);
        let below1 = climb(t.skip(1), leaf1, entries).unwrap();
        let below2 = climb(t.skip(1), leaf2, entries).unwrap();
        let sibling = lookup(entries, t[0].sibling).unwrap();
        if below1 != below2 {
            if t[0].sibling_is_left {
                lemma_merge_binds(sibling, below1, sibling, below2);
            } else {
                lemma_merge_binds(below1, sibling, below2, sibling);
            }
        }
    }
}

/// Two runs of peak digests that agree from `i` on fold to the same digest from `i` on.
pub proof fn lemma_bag_same_suffix(a: Seq<Seq<u8>>, b: Seq<Seq<u8>>, i: int)
    requires
        a.len() == b.len(),
        0 <= i < a.len(),
        forall|j: int| i <= j < a.len() ==> a[j] == b[j],
    ensures
        bag_from(a, i) == bag_from(b, i),
    decreases a.len() - i,
{
    if i + 1 < a.len() {
        lemma_bag_same_suffix(a, b, i + 1);
    }
}

/// Two runs of peak digests that differ in exactly one place fold to different
/// digests, or show a collision.
pub proof fn lemma_bag_binds(a: Seq<Seq<u8>>, b: Seq<Seq<u8>>, k: int, i: int)
    requires
        a.len() == b.len(),
        0 <= i <= k < a.len(),
        a[k] != b[k],
        forall|j: int| 0 <= j < a.len() && j != k ==> a[j] == b[j],
    ensures
        bag_from(a, i) != bag_from(b, i) || collision_exists(),
    decreases k - i,
{
    if i == k {
        if k + 1 < a.len() {
            lemma_bag_same_suffix(a, b, k + 1);
            lemma_merge_binds(a[k], bag_from(a, k + 1), b[k], bag_from(b, k + 1));
        }
    } else {
        lemma_bag_binds(a, b, k, i + 1);
        if bag_from(a, i + 1) != bag_from(b, i + 1) {
            lemma_merge_binds(a[i], bag_from(a, i + 1), b[i], bag_from(b, i + 1));
        }
    }
}

/// A proof binds the leaf: no proof is accepted for two different leaf digests at the
/// same position under the same root, unless two different byte strings have the same
/// BLAKE3 digest.
pub proof fn law_proof_binds_leaf(
    p: ProofModel,
    leaf1: Seq<u8>,
    leaf2: Seq<u8>,
    pos: nat,
    root: Seq<u8>,
)
    requires
        leaf1 != leaf2,
        accepts(p, leaf1, pos, root),
        accepts(p, leaf2, pos, root),
    ensures
        collision_exists(),
{
    let ms = mmr_peaks(p.mmr_size);
    let k = peak_index(ms, pos);
    let t = trail(ms[k], pos);
    lemma_peak_index(ms, pos);
    lemma_climb_binds(t, leaf1, leaf2, p.entries);
    let own1 = climb(t, leaf1, p.entries).unwrap();
    let own2 = climb(t, leaf2, p.entries).unwrap();
    if own1 != own2 {
        let a = peak_inputs(ms, k, own1, p.entries);
        let b = peak_inputs(ms, k, own2, p.entries);
        assert(peak_input(ms, k, own1, p.entries, k) == Some(own1));
        assert(peak_input(ms, k, own2, p.entries, k) == Some(own2));
        lemma_bag_binds(a, b, k, 0);
    }
}

/// A record that was altered is not accepted in place of the one that was appended:
/// where a proof is accepted for the digest of one record, it is not accepted, at the
/// same position and under the same root, for the digest of any other record, unless
/// two different byte strings have the same BLAKE3 digest.
pub proof fn law_tampered_record_is_rejected(
    p: ProofModel,
    appended: EvidenceModel,
    altered: EvidenceModel,
    pos: nat,
    root: Seq<u8>,
)
    requires
        encodable(appended),
        encodable(altered),
        appended != altered,
        accepts(p, record_digest(appended), pos, root),
    ensures
        !accepts(p, record_digest(altered), pos, root) || collision_exists(),
{
    law_encoding_is_injective(appended, altered);
    if record_digest(appended) == record_digest(altered) {
        assert(collision(canonical_bytes(appended), canonical_bytes(altered)));
    } else if accepts(p, record_digest(altered), pos, root) {
        law_proof_binds_leaf(p, record_digest(appended), record_digest(altered), pos, root);
    }
}

/// Every digest in the node map is 32 bytes long.
pub open spec fn nodes_are_sized(nodes: Map<u64, Seq<u8>>) -> bool {
    forall|p: u64| #[trigger] nodes.contains_key(p) ==> nodes[p].len() == 32
}

/// Every digest among the entries is 32 bytes long.
pub open spec fn entries_are_sized(entries: Seq<EntryModel>) -> bool {
    forall|i: int| 0 <= i < entries.len() ==> (#[trigger] entries[i]).digest.len() == 32
}

/// The digest of the peak above `pos` as the proof `p` recomputes it from `leaf`.
pub open spec fn recomputed_peak(p: ProofModel, leaf: Seq<u8>, pos: nat) -> Option<Seq<u8>> {
    let ms = mmr_peaks(p.mmr_size);
    climb(trail(ms[peak_index(ms, pos)], pos), leaf, p.entries)
}

/// What sized entries hold for a position is 32 bytes long.
pub proof fn lemma_lookup_sized(entries: Seq<EntryModel>, pos: nat)
    requires
        entries_are_sized(entries),
        lookup(entries, pos) is Some,
    ensures
        lookup(entries, pos).unwrap().len() == 32,
    decreases entries.len(),
{
    if entries[0].pos != pos {
        let rest = entries.skip(1);
        assert forall|i: int| 0 <= i < rest.len() implies (#[trigger] rest[i]).digest.len()
            == 32 by {
            assert(rest[i] == entries[i + 1]);
        }
        lemma_lookup_sized(rest, pos);
    }
}

/// Two merges that give the same parent, with left children of one length or right
/// children of one length, merge the same children, unless they show a collision.
pub proof fn lemma_merge_injective(l1: Seq<u8>, r1: Seq<u8>, l2: Seq<u8>, r2: Seq<u8>)
    requires
        l1.len() == l2.len() || r1.len() == r2.len(),
        merge_spec(l1, r1) == merge_spec(l2, r2),
    ensures
        (l1 == l2 && r1 == r2) || collision_exists(),
{
    if l1 + r1 == l2 + r2 {
        assert((l1 + r1).len() == (l2 + r2).len());
        lemma_cut(l1, r1, l2, r2);
    } else {
        assert(collision(l1 + r1, l2 + r2));
    }
}

/// Two runs of peak digests that fold to the same digest from `i` on are the same
/// from `i` on, where at each place the two digests are of one length, unless they
/// show a collision.
pub proof fn lemma_bag_injective(a: Seq<Seq<u8>>, b: Seq<Seq<u8>>, i: int)
    requires
        a.len() == b.len(),
        0 <= i < a.len(),
        forall|j: int| 0 <= j < a.len() ==> (#[trigger] a[j]).len() == b[j].len(),
        bag_from(a, i) == bag_from(b, i),
    ensures
        (forall|j: int| i <= j < a.len() ==> #[trigger] a[j] == b[j]) || collision_exists(),
    decreases a.len() - i,
{
    if i + 1 < a.len() {
        assert(a[i].len() == b[i].len());
        lemma_merge_injective(a[i], bag_from(a, i + 1), b[i], bag_from(b, i + 1));
        if !collision_exists() {
            lemma_bag_injective(a, b, i + 1);
        }
    }
}

/// In a sound tree of sized digests, a climb with sized siblings that ends in the
/// digest of the root started from the digest that the store holds at the leaf,
/// unless there is a collision.
pub proof fn lemma_climb_injective(
    nodes: Map<u64, Seq<u8>>,
    entries: Seq<EntryModel>,
    m: Mountain,
    pos: nat,
    leaf: Seq<u8>,
)
    requires
        nodes_are_sized(nodes),
        entries_are_sized(entries),
        tree_ok(nodes, m),
        grounded(m),
        covers(m, pos),
        leaf_under(m, pos),
        climb(trail(m, pos), leaf, entries) == Some(node(nodes, m.root)),
    ensures
        node(nodes, pos) == leaf || collision_exists(),
    decreases m.height,
{
    let t = trail(m, pos);
    if m.height > 0 {
        let child = child_toward(m, pos);
        lemma_children(m, pos);
        assert(t.skip(1) =~= trail(child, pos));
        assert(t[0] == turn_at(m, pos));
        let below = climb(trail(child, pos), leaf, entries).unwrap();
        let sibling = lookup(entries, t[0].sibling).unwrap();
        lemma_lookup_sized(entries, t[0].sibling);
        lemma_root_present(nodes, left_child(m));
        lemma_root_present(nodes, right_child(m));
        assert(nodes.contains_key(left_child(m).root as u64));
        assert(nodes.contains_key(right_child(m).root as u64));
        let left = node(nodes, left_child(m).root);
        let right = node(nodes, right_child(m).root);
        if goes_left(m, pos) {
            lemma_merge_injective(below, sibling, left, right);
        } else {
            lemma_merge_injective(sibling, below, left, right);
        }
        if !collision_exists() {
            lemma_climb_injective(nodes, entries, child, pos, leaf);
        }
    }
}

/// No proof, whoever made it, passes off another leaf: where a proof is accepted for
/// a leaf digest at a position under the root of a consistent ledger of the proof's
/// size, the ledger holds that very digest at that position, unless two different
/// byte strings have the same BLAKE3 digest. The digests concerned are 32 bytes long:
/// those of the store, those of the proof, and the peak that the proof recomputes.
pub proof fn law_accepted_leaf_is_stored(m: LedgerModel, p: ProofModel, leaf: Seq<u8>, pos: nat)
    requires
        consistent(m),
        nodes_are_sized(m.nodes),
        p.mmr_size == m.size,
        entries_are_sized(p.entries),
        recomputed_peak(p, leaf, pos) is Some ==> recomputed_peak(p, leaf, pos).unwrap().len()
            == 32,
        accepts(p, leaf, pos, root_of(m)),
    ensures
        node(m.nodes, pos) == leaf || collision_exists(),
{
    let ms = mmr_peaks(m.size);
    let k = peak_index(ms, pos);
    let t = trail(ms[k], pos);
    let own = climb(t, leaf, p.entries).unwrap();
    let given = peak_inputs(ms, k, own, p.entries);
    let held = peak_digests(m.nodes, ms);
    lemma_peaks_are_row(m.size, 0, 64);
    lemma_peak_covers(ms, 64, pos);
    assert forall|j: int| 0 <= j < given.len() implies (#[trigger] given[j]).len()
        == held[j].len() by {
        assert(peak_input(ms, k, own, p.entries, j) is Some);
        if j != k {
            lemma_lookup_sized(p.entries, ms[j].root);
        }
        lemma_root_present(m.nodes, ms[j]);
        assert(m.nodes.contains_key(ms[j].root as u64));
    }
    lemma_bag_injective(given, held, 0);
    if !collision_exists() {
        assert(given[k] == held[k]);
        assert(peak_input(ms, k, own, p.entries, k) == Some(own));
        lemma_climb_injective(m.nodes, p.entries, ms[k], pos, leaf);
    }
}

/// The root depends on the order of the leaves: the ledger of `a` then `b` and the
/// ledger of `b` then `a` have different roots for different digests `a` and `b` of
/// one length, unless two different byte strings have the same BLAKE3 digest.
pub proof fn law_root_depends_on_order(a: Seq<u8>, b: Seq<u8>)
    requires
        a != b,
        a.len() == b.len(),
    ensures
        root_of(ledger_of(seq![a, b])) != root_of(ledger_of(seq![b, a])) || collision_exists(),
{
    law_two_leaves(a, b);
    law_two_leaves(b, a);
    law_merge_depends_on_order(a, b);
}


/// Changed bytes have a changed digest, unless the two byte strings are a collision.
pub proof fn law_changed_bytes_change_digest(bytes: Seq<u8>, changed: Seq<u8>)
    requires
        bytes != changed,
    ensures
        blake3_hash(bytes) != blake3_hash(changed) || collision_exists(),
{
    if blake3_hash(bytes) == blake3_hash(changed) {
        assert(collision(bytes, changed));
    }
}

/// Two different records have different leaf digests, unless their canonical bytes are
/// a collision.
pub proof fn law_changed_record_changes_digest(a: EvidenceModel, b: EvidenceModel)
    requires
        encodable(a),
        encodable(b),
        a != b,
    ensures
        record_digest(a) != record_digest(b) || collision_exists(),
{
    law_encoding_is_injective(a, b);
    law_changed_bytes_change_digest(canonical_bytes(a), canonical_bytes(b));
}

/// A record that differs in any field gives another root: the ledgers that each hold
/// one of two different records alone have different roots, unless two different byte
/// strings have the same BLAKE3 digest.
pub proof fn law_changed_record_changes_root(a: EvidenceModel, b: EvidenceModel)
    requires
        encodable(a),
        encodable(b),
        a != b,
    ensures
        root_of(ledger_of(seq![record_digest(a)])) != root_of(ledger_of(seq![record_digest(b)]))
            || collision_exists(),
{
    law_changed_record_changes_digest(a, b);
    law_one_leaf(record_digest(a));
    law_one_leaf(record_digest(b));
}

/// The root depends on the order of the records: appending two different records in
/// the two orders gives two different roots, where their leaf digests are of one
/// length, unless two different byte strings have the same BLAKE3 digest.
pub proof fn law_record_order_changes_root(a: EvidenceModel, b: EvidenceModel)
    requires
        encodable(a),
        encodable(b),
        a != b,
        record_digest(a).len() == record_digest(b).len(),
    ensures
        root_of(ledger_of(seq![record_digest(a), record_digest(b)])) != root_of(
            ledger_of(seq![record_digest(b), record_digest(a)]),
        ) || collision_exists(),
{
    law_changed_record_changes_digest(a, b);
    if record_digest(a) != record_digest(b) {
        law_root_depends_on_order(record_digest(a), record_digest(b));
    }
}

} // verus!
