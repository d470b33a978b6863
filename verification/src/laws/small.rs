//! Small ledgers: what the ledgers of one, two and three leaves hold, node by node.

use vstd::prelude::*;
use crate::digest::merge_spec;
use crate::engine::{
    after_append, append_batch, bag_from, carry, consistent, node, peak_digests, root_failure,
    root_of,
};
use crate::inclusion::{
    EntryModel, accepts, accepts_batch, batch_positions, batch_siblings, entries_at, extend,
    free_roots, kept_siblings, proof_failure, proof_of,
};
use crate::laws::binding::{collision_exists, law_merge_depends_on_order, lemma_merge_binds};
use crate::laws::consistency::{
    empty_ledger, law_append_keeps_consistent, law_empty_is_consistent, leaf_position, ledger_of,
    lemma_append_peaks, stored,
};
use crate::laws::soundness::{law_batch_is_accepted, law_consistent_has_root, law_proofs_verify};
use crate::shape::{
    Mountain, child_toward, covers, holds_target, is_leaf_position, leaf_under, left_child,
    lemma_row_is_peaks, mmr_peaks, other_child, peak_index, right_child, side_trail, side_trail_up,
    tree_size,
};

verus! {

/// The ledger of one leaf has one node, the leaf, which is its root.
pub proof fn law_one_leaf(leaf: Seq<u8>)
    ensures
        ledger_of(seq![leaf]).size == 1,
        consistent(ledger_of(seq![leaf])),
        mmr_peaks(1) == seq![Mountain { root: 0, height: 0 }],
        stored(ledger_of(seq![leaf]).nodes, 0, leaf),
        root_failure(ledger_of(seq![leaf])) is None,
        root_of(ledger_of(seq![leaf])) == leaf,
{
    let none = Seq::<Mountain>::empty();
    let e = empty_ledger();
    let one = after_append(e, leaf);
    assert(seq![leaf].drop_last() =~= Seq::<Seq<u8>>::empty());
    assert(ledger_of(Seq::<Seq<u8>>::empty()) == e);
    assert(seq![leaf].last() == leaf);
    assert(ledger_of(seq![leaf]) == one);
    law_empty_is_consistent();
    lemma_row_is_peaks(none, 0, 64);
    assert(mmr_peaks(0) == none);
    assert(carry(e.nodes, none, leaf, 0).len() == 0);
    assert(append_batch(e, leaf) =~= seq![leaf]);
    law_append_keeps_consistent(e, leaf);
    lemma_append_peaks(e, leaf);
    let row = mmr_peaks(1);
    assert(row =~= seq![Mountain { root: 0, height: 0 }]);
    law_consistent_has_root(one);
    assert(peak_digests(one.nodes, row) =~= seq![leaf]);
}

/// The ledger of two leaves has three nodes: the two leaves and, as its only peak and
/// its root, the merge of the first leaf with the second.
pub proof fn law_two_leaves(first: Seq<u8>, second: Seq<u8>)
    ensures
        ledger_of(seq![first, second]).size == 3,
        consistent(ledger_of(seq![first, second])),
        mmr_peaks(3) == seq![Mountain { root: 2, height: 1 }],
        stored(ledger_of(seq![first, second]).nodes, 0, first),
        stored(ledger_of(seq![first, second]).nodes, 1, second),
        stored(ledger_of(seq![first, second]).nodes, 2, merge_spec(first, second)),
        root_failure(ledger_of(seq![first, second])) is None,
        root_of(ledger_of(seq![first, second])) == merge_spec(first, second),
{
    let none = Seq::<Mountain>::empty();
    let one = ledger_of(seq![first]);
    let two = after_append(one, second);
    law_one_leaf(first);
    assert(seq![first, second].drop_last() =~= seq![first]);
    assert(seq![first, second].last() == second);
    assert(ledger_of(seq![first, second]) == two);
    let row1 = mmr_peaks(1);
    assert(row1.drop_last() =~= none);
    let parent = merge_spec(first, second);
    assert(carry(one.nodes, row1.drop_last(), parent, 1).len() == 0);
    assert(carry(one.nodes, row1, second, 0) =~= seq![parent]);
    assert(append_batch(one, second) =~= seq![second, parent]);
    law_append_keeps_consistent(one, second);
    lemma_append_peaks(one, second);
    let high = Mountain { root: 2, height: 1 };
    let row2 = mmr_peaks(3);
    assert(row2 =~= seq![high]);
    assert(one.nodes.contains_key(0u64));
    assert(two.nodes.contains_key(2u64));
    law_consistent_has_root(two);
    assert(peak_digests(two.nodes, row2) =~= seq![parent]);
}

/// The ledger of three leaves. The leaves stand at the positions 0, 1 and 3; the first
/// two have merged into the node at 2, and the third is a peak of its own. The root is
/// the merge of the node at 2 with the third leaf. The proof for the first leaf holds
/// the second leaf, its sibling, and then the third, the other peak, and is accepted.
pub proof fn law_three_leaves(l0: Seq<u8>, l1: Seq<u8>, l2: Seq<u8>)
    ensures
        ledger_of(seq![l0, l1, l2]).size == 4,
        consistent(ledger_of(seq![l0, l1, l2])),
        leaf_position(seq![l0, l1, l2], 0) == 0,
        leaf_position(seq![l0, l1, l2], 1) == 1,
        leaf_position(seq![l0, l1, l2], 2) == 3,
        mmr_peaks(4) == seq![Mountain { root: 2, height: 1 }, Mountain { root: 3, height: 0 }],
        stored(ledger_of(seq![l0, l1, l2]).nodes, 0, l0),
        stored(ledger_of(seq![l0, l1, l2]).nodes, 1, l1),
        stored(ledger_of(seq![l0, l1, l2]).nodes, 2, merge_spec(l0, l1)),
        stored(ledger_of(seq![l0, l1, l2]).nodes, 3, l2),
        root_failure(ledger_of(seq![l0, l1, l2])) is None,
        root_of(ledger_of(seq![l0, l1, l2])) == merge_spec(merge_spec(l0, l1), l2),
        proof_failure(ledger_of(seq![l0, l1, l2]), seq![0nat]) is None,
        proof_of(ledger_of(seq![l0, l1, l2]), seq![0nat]).entries == seq![
            EntryModel { pos: 1, digest: l1 },
            EntryModel { pos: 3, digest: l2 },
        ],
        accepts(
            proof_of(ledger_of(seq![l0, l1, l2]), seq![0nat]),
            l0,
            0,
            root_of(ledger_of(seq![l0, l1, l2])),
        ),
{
    let leaves = seq![l0, l1, l2];
    let two = ledger_of(seq![l0, l1]);
    let three = after_append(two, l2);
    let parent = merge_spec(l0, l1);
    let high = Mountain { root: 2, height: 1 };
    let low = Mountain { root: 3, height: 0 };
    law_one_leaf(l0);
    law_two_leaves(l0, l1);
    assert(leaves.drop_last() =~= seq![l0, l1]);
    assert(leaves.last() == l2);
    assert(ledger_of(leaves) == three);
    assert(leaves.take(0) =~= Seq::<Seq<u8>>::empty());
    assert(leaves.take(1) =~= seq![l0]);
    assert(leaves.take(2) =~= seq![l0, l1]);
    assert(ledger_of(Seq::<Seq<u8>>::empty()) == empty_ledger());

    // The third leaf merges with nothing.
    let row2 = mmr_peaks(3);
    assert(carry(two.nodes, row2, l2, 0).len() == 0);
    assert(append_batch(two, l2) =~= seq![l2]);
    law_append_keeps_consistent(two, l2);
    lemma_append_peaks(two, l2);
    let row3 = mmr_peaks(4);
    assert(row3 =~= seq![high, low]);
    assert(two.nodes.contains_key(0u64));
    assert(two.nodes.contains_key(1u64));
    assert(two.nodes.contains_key(2u64));

    // The root folds the two peaks, the taller first.
    law_consistent_has_root(three);
    let ds = peak_digests(three.nodes, row3);
    assert(ds =~= seq![parent, l2]);
    assert(bag_from(ds, 1) == l2);
    assert(bag_from(ds, 0) == merge_spec(parent, l2));

    // The way from the peak at 2 down to the leaf at 0 passes the leaf at 1.
    lemma_three_leaves_shape();
    let targets = seq![0nat];
    assert(targets[0] == 0);
    assert(is_leaf_position(4, 0));
    let beside = Mountain { root: 1, height: 0 };
    assert(!holds_target(beside, targets));
    assert(!holds_target(low, targets));
    assert(covers(high, targets[0]));
    assert(holds_target(high, targets));
    let none = Seq::<nat>::empty();
    let up = side_trail_up(high, 0);
    assert(up =~= seq![beside]);
    assert(up.drop_last() =~= Seq::<Mountain>::empty());
    assert(free_roots(up.drop_last(), targets) =~= none);
    assert(free_roots(up, targets) =~= seq![1nat]);
    assert(kept_siblings(4, targets, 0) =~= seq![1nat]);
    assert(targets.drop_last() =~= none);
    assert(targets.last() == 0);
    assert(batch_siblings(4, targets, targets.drop_last()) =~= none);
    assert(seq![1nat].drop_last() =~= none);
    assert(extend(none, none) =~= none);
    assert(extend(none, seq![1nat]) =~= seq![1nat]);
    assert(batch_siblings(4, targets, targets) =~= seq![1nat]);
    assert(row3.drop_last() =~= seq![high]);
    assert(seq![high].drop_last() =~= Seq::<Mountain>::empty());
    assert(free_roots(seq![high].drop_last(), targets) =~= none);
    assert(free_roots(seq![high], targets) =~= none);
    assert(free_roots(row3, targets) =~= seq![3nat]);
    assert(seq![3nat].drop_last() =~= none);
    assert(!seq![1nat].contains(3nat));
    assert(extend(seq![1nat], none) =~= seq![1nat]);
    assert(extend(seq![1nat], seq![3nat]) =~= seq![1nat, 3nat]);
    assert(batch_positions(4, targets) =~= seq![1nat, 3nat]);
    assert(entries_at(three.nodes, seq![1nat, 3nat]) =~= seq![
        EntryModel { pos: 1, digest: l1 },
        EntryModel { pos: 3, digest: l2 },
    ]);
    law_proofs_verify(three, 0);
}

/// The shape of the range of four nodes: the way from the peak at 2 down to the leaf
/// at 0 passes the leaf at 1, the way down to the leaf at 1 passes the leaf at 0, and
/// the leaves stand at 0, 1 and 3.
pub proof fn lemma_three_leaves_shape()
    ensures
        left_child(Mountain { root: 2, height: 1 }) == (Mountain { root: 0, height: 0 }),
        right_child(Mountain { root: 2, height: 1 }) == (Mountain { root: 1, height: 0 }),
        side_trail_up(Mountain { root: 2, height: 1 }, 0) == seq![Mountain { root: 1, height: 0 }],
        side_trail_up(Mountain { root: 2, height: 1 }, 1) == seq![Mountain { root: 0, height: 0 }],
        leaf_under(Mountain { root: 2, height: 1 }, 0),
        leaf_under(Mountain { root: 2, height: 1 }, 1),
        mmr_peaks(4) == seq![Mountain { root: 2, height: 1 }, Mountain { root: 3, height: 0 }]
            ==> peak_index(mmr_peaks(4), 0) == 0 && peak_index(mmr_peaks(4), 1) == 0
            && is_leaf_position(4, 0) && is_leaf_position(4, 1),
{
    let high = Mountain { root: 2, height: 1 };
    let left = Mountain { root: 0, height: 0 };
    let right = Mountain { root: 1, height: 0 };
    assert(tree_size(0) == 1);
    assert(left_child(high) == left);
    assert(right_child(high) == right);
    assert(side_trail(left, 0) =~= Seq::<Mountain>::empty());
    assert(side_trail(right, 1) =~= Seq::<Mountain>::empty());
    assert(other_child(high, 0) == right);
    assert(other_child(high, 1) == left);
    assert(child_toward(high, 0) == left);
    assert(child_toward(high, 1) == right);
    assert(side_trail(high, 0) =~= seq![right]);
    assert(side_trail(high, 1) =~= seq![left]);
    assert(side_trail_up(high, 0) =~= seq![right]);
    assert(side_trail_up(high, 1) =~= seq![left]);
    assert(leaf_under(left, 0));
    assert(leaf_under(right, 1));
    assert(leaf_under(high, 0));
    assert(leaf_under(high, 1));
    if mmr_peaks(4) == seq![high, Mountain { root: 3, height: 0 }] {
        let row = mmr_peaks(4);
        assert(row[0] == high);
        assert(peak_index(row, 0) == 0);
        assert(peak_index(row, 1) == 0);
    }
}

/// The batched proof for the first two of three leaves holds one entry, the third
/// leaf: the two targets are each other's sibling, and the node above them is
/// recomputed from them. It is accepted for the two leaves together.
pub proof fn law_three_leaves_batch(l0: Seq<u8>, l1: Seq<u8>, l2: Seq<u8>)
    ensures
        proof_failure(ledger_of(seq![l0, l1, l2]), seq![0nat, 1nat]) is None,
        proof_of(ledger_of(seq![l0, l1, l2]), seq![0nat, 1nat]).entries == seq![
            EntryModel { pos: 3, digest: l2 },
        ],
        accepts_batch(
            proof_of(ledger_of(seq![l0, l1, l2]), seq![0nat, 1nat]),
            seq![EntryModel { pos: 0, digest: l0 }, EntryModel { pos: 1, digest: l1 }],
            root_of(ledger_of(seq![l0, l1, l2])),
        ),
{
    let three = ledger_of(seq![l0, l1, l2]);
    let high = Mountain { root: 2, height: 1 };
    let low = Mountain { root: 3, height: 0 };
    let left = Mountain { root: 0, height: 0 };
    let right = Mountain { root: 1, height: 0 };
    let targets = seq![0nat, 1nat];
    let none = Seq::<nat>::empty();
    law_three_leaves(l0, l1, l2);
    law_two_leaves(l0, l1);
    lemma_three_leaves_shape();
    let row = mmr_peaks(4);
    assert(targets[0] == 0 && targets[1] == 1);
    assert(covers(right, targets[1]));
    assert(covers(left, targets[0]));
    assert(covers(high, targets[0]));
    assert(holds_target(right, targets));
    assert(holds_target(left, targets));
    assert(holds_target(high, targets));
    assert(!holds_target(low, targets));
    assert(seq![right].drop_last() =~= Seq::<Mountain>::empty());
    assert(seq![left].drop_last() =~= Seq::<Mountain>::empty());
    assert(free_roots(Seq::<Mountain>::empty(), targets) =~= none);
    assert(free_roots(seq![right], targets) =~= none);
    assert(free_roots(seq![left], targets) =~= none);
    assert(kept_siblings(4, targets, 0) =~= none);
    assert(kept_siblings(4, targets, 1) =~= none);
    assert(targets.drop_last() =~= seq![0nat]);
    assert(seq![0nat].drop_last() =~= none);
    assert(seq![0nat].last() == 0);
    assert(targets.last() == 1);
    assert(batch_siblings(4, targets, none) =~= none);
    assert(extend(none, none) =~= none);
    assert(batch_siblings(4, targets, seq![0nat]) =~= none);
    assert(batch_siblings(4, targets, targets) =~= none);
    assert(row.drop_last() =~= seq![high]);
    assert(seq![high].drop_last() =~= Seq::<Mountain>::empty());
    assert(free_roots(seq![high], targets) =~= none);
    assert(free_roots(row, targets) =~= seq![3nat]);
    assert(seq![3nat].drop_last() =~= none);
    assert(!none.contains(3nat));
    assert(extend(none, seq![3nat]) =~= seq![3nat]);
    assert(batch_positions(4, targets) =~= seq![3nat]);
    assert(entries_at(three.nodes, seq![3nat]) =~= seq![EntryModel { pos: 3, digest: l2 }]);
    assert(three.nodes.contains_key(0u64));
    assert(three.nodes.contains_key(1u64));
    assert(entries_at(three.nodes, targets) =~= seq![
        EntryModel { pos: 0, digest: l0 },
        EntryModel { pos: 1, digest: l1 },
    ]);
    law_batch_is_accepted(three, targets);
}

/// The batched proof for both leaves of the ledger of two leaves holds nothing: each
/// leaf is the other's sibling, and their parent is the only peak. It is accepted for
/// the two leaves together.
pub proof fn law_two_leaves_batch(first: Seq<u8>, second: Seq<u8>)
    ensures
        proof_failure(ledger_of(seq![first, second]), seq![0nat, 1nat]) is None,
        proof_of(ledger_of(seq![first, second]), seq![0nat, 1nat]).entries.len() == 0,
        proof_of(ledger_of(seq![first, second]), seq![0nat]).entries.len() == 1,
        proof_of(ledger_of(seq![first, second]), seq![1nat]).entries.len() == 1,
        accepts_batch(
            proof_of(ledger_of(seq![first, second]), seq![0nat, 1nat]),
            seq![EntryModel { pos: 0, digest: first }, EntryModel { pos: 1, digest: second }],
            root_of(ledger_of(seq![first, second])),
        ),
{
    let two = ledger_of(seq![first, second]);
    let high = Mountain { root: 2, height: 1 };
    let left = Mountain { root: 0, height: 0 };
    let right = Mountain { root: 1, height: 0 };
    let targets = seq![0nat, 1nat];
    let none = Seq::<nat>::empty();
    let nothing = Seq::<Mountain>::empty();
    law_two_leaves(first, second);
    lemma_three_leaves_shape();
    let row = mmr_peaks(3);
    assert(row[0] == high);
    assert(peak_index(row, 0) == 0);
    assert(peak_index(row, 1) == 0);
    assert(is_leaf_position(3, 0));
    assert(is_leaf_position(3, 1));
    assert(targets[0] == 0 && targets[1] == 1);
    assert(covers(right, targets[1]));
    assert(covers(left, targets[0]));
    assert(covers(high, targets[0]));
    assert(seq![right].drop_last() =~= nothing);
    assert(seq![left].drop_last() =~= nothing);
    assert(seq![high].drop_last() =~= nothing);
    assert(free_roots(nothing, targets) =~= none);
    assert(free_roots(seq![right], targets) =~= none);
    assert(free_roots(seq![left], targets) =~= none);
    assert(free_roots(seq![high], targets) =~= none);
    assert(kept_siblings(3, targets, 0) =~= none);
    assert(kept_siblings(3, targets, 1) =~= none);
    assert(targets.drop_last() =~= seq![0nat]);
    assert(seq![0nat].drop_last() =~= none);
    assert(seq![0nat].last() == 0);
    assert(targets.last() == 1);
    assert(batch_siblings(3, targets, none) =~= none);
    assert(extend(none, none) =~= none);
    assert(batch_siblings(3, targets, seq![0nat]) =~= none);
    assert(batch_siblings(3, targets, targets) =~= none);
    assert(batch_positions(3, targets) =~= none);
    assert(two.nodes.contains_key(0u64));
    assert(two.nodes.contains_key(1u64));
    assert(entries_at(two.nodes, targets) =~= seq![
        EntryModel { pos: 0, digest: first },
        EntryModel { pos: 1, digest: second },
    ]);
    law_batch_is_accepted(two, targets);

    // Alone, each leaf needs the other.
    let only0 = seq![0nat];
    let only1 = seq![1nat];
    assert(only0[0] == 0 && only1[0] == 1);
    assert(only0.drop_last() =~= none && only1.drop_last() =~= none);
    assert(!holds_target(right, only0));
    assert(!holds_target(left, only1));
    assert(covers(high, only0[0]) && covers(high, only1[0]));
    assert(free_roots(nothing, only0) =~= none);
    assert(free_roots(nothing, only1) =~= none);
    assert(free_roots(seq![right], only0) =~= seq![1nat]);
    assert(free_roots(seq![left], only1) =~= seq![0nat]);
    assert(free_roots(seq![high], only0) =~= none);
    assert(free_roots(seq![high], only1) =~= none);
    assert(seq![1nat].drop_last() =~= none && seq![0nat].drop_last() =~= none);
    assert(batch_siblings(3, only0, none) =~= none);
    assert(batch_siblings(3, only1, none) =~= none);
    assert(extend(none, seq![1nat]) =~= seq![1nat]);
    assert(extend(none, seq![0nat]) =~= seq![0nat]);
    assert(batch_siblings(3, only0, only0) =~= seq![1nat]);
    assert(batch_siblings(3, only1, only1) =~= seq![0nat]);
    assert(extend(seq![1nat], none) =~= seq![1nat]);
    assert(extend(seq![0nat], none) =~= seq![0nat]);
    assert(batch_positions(3, only0) =~= seq![1nat]);
    assert(batch_positions(3, only1) =~= seq![0nat]);
}

/// In the ledger of three leaves the sides matter: with the first two leaves merged
/// in the other order the root is missed, where those two leaves differ and are of
/// one length, unless two different byte strings have the same BLAKE3 digest.
pub proof fn law_three_leaves_sides_matter(l0: Seq<u8>, l1: Seq<u8>, l2: Seq<u8>)
    requires
        l0 != l1,
        l0.len() == l1.len(),
    ensures
        merge_spec(merge_spec(l1, l0), l2) != root_of(ledger_of(seq![l0, l1, l2]))
            || collision_exists(),
{
    law_three_leaves(l0, l1, l2);
    law_merge_depends_on_order(l0, l1);
    if merge_spec(l0, l1) != merge_spec(l1, l0) {
        lemma_merge_binds(merge_spec(l1, l0), l2, merge_spec(l0, l1), l2);
    }
}

} // verus!
