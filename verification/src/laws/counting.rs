//! Counting: leaves, and the merges that an append performs.

use vstd::prelude::*;
use crate::digest::merge_spec;
use crate::engine::{after_append, append_batch, carry, consistent, node};
use crate::laws::consistency::{law_history_is_recorded, ledger_of, lemma_append_peaks};
use crate::node_store::LedgerModel;
use crate::shape::{
    Mountain, is_row, lemma_peaks_are_row, lemma_row_heights_fall, lemma_row_is_peaks,
    lemma_row_take, mmr_peaks,
};

verus! {

/// The number of leaves of a perfect tree of height `h`.
pub open spec fn tree_leaves(h: nat) -> nat
    decreases h,
{
    if h == 0 {
        1
    } else {
        2 * tree_leaves((h - 1) as nat)
    }
}

/// The leaves under the mountains of `ms`, counted in trees of height `h`: a mountain
/// of height `g` counts as `2^(g - h)`. With `h` at 0 this is the number of leaves.
pub open spec fn row_units(ms: Seq<Mountain>, h: nat) -> nat
    decreases ms.len(),
{
    if ms.len() == 0 {
        0
    } else {
        row_units(ms.drop_last(), h) + tree_leaves((ms.last().height - h) as nat)
    }
}

/// The number of leaves of a range of `size` nodes.
pub open spec fn leaf_count(size: nat) -> nat {
    row_units(mmr_peaks(size), 0)
}

/// The number of 1-bits at the low end of the binary form of `n`.
pub open spec fn trailing_ones(n: nat) -> nat
    decreases n,
{
    if n % 2 == 1 {
        1 + trailing_ones(n / 2)
    } else {
        0
    }
}

/// A row of mountains that are all higher than `h` holds an even number of trees of
/// height `h`: twice the number of trees of height `h + 1`.
pub proof fn lemma_units_double(ms: Seq<Mountain>, h: nat)
    requires
        forall|i: int| 0 <= i < ms.len() ==> (#[trigger] ms[i]).height > h,
    ensures
        row_units(ms, h) == 2 * row_units(ms, h + 1),
    decreases ms.len(),
{
    if ms.len() > 0 {
        let front = ms.drop_last();
        assert forall|i: int| 0 <= i < front.len() implies (#[trigger] front[i]).height > h by {
            assert(front[i] == ms[i]);
        }
        lemma_units_double(front, h);
        assert(ms.last() == ms[ms.len() - 1]);
    }
}

/// The carry from height `h` through a row whose mountains are all at least `h` high
/// makes as many parents as the number of trees of height `h` in the row has
/// trailing 1-bits.
pub proof fn lemma_carry_counts_ones(
    nodes: Map<u64, Seq<u8>>,
    row: Seq<Mountain>,
    cur: Seq<u8>,
    h: nat,
)
    requires
        is_row(row, 0, 64),
        row.len() > 0 ==> row.last().height >= h,
    ensures
        carry(nodes, row, cur, h).len() == trailing_ones(row_units(row, h)),
    decreases row.len(),
{
    if row.len() > 0 {
        let shorter = row.drop_last();
        lemma_row_take(row, 0, 64, row.len() - 1);
        assert(shorter =~= row.take(row.len() - 1));
        if shorter.len() > 0 {
            assert(shorter.last() == row[row.len() - 2]);
            assert(row[row.len() - 1].height < row[row.len() - 2].height);
        }
        assert forall|i: int| 0 <= i < shorter.len() implies (#[trigger] shorter[i]).height
            > row.last().height by {
            lemma_row_heights_fall(row, 0, 64, i);
            assert(shorter[i] == row[i]);
        }
        if row.last().height == h {
            let parent = merge_spec(node(nodes, row.last().root), cur);
            lemma_units_double(shorter, h);
            lemma_carry_counts_ones(nodes, shorter, parent, h + 1);
            assert(carry(nodes, row, cur, h) == seq![parent] + carry(
                nodes,
                shorter,
                parent,
                h + 1,
            ));
            assert(row_units(row, h) == 2 * row_units(shorter, h + 1) + 1);
        } else {
            assert forall|i: int| 0 <= i < row.len() implies (#[trigger] row[i]).height > h by {
                lemma_row_heights_fall(row, 0, 64, i);
            }
            lemma_units_double(row, h);
        }
    }
}

/// An append merges as often as the number of leaves before it has trailing 1-bits in
/// its binary form, and so creates one node more than that.
pub proof fn law_merges_are_trailing_ones(m: LedgerModel, leaf: Seq<u8>)
    ensures
        append_batch(m, leaf).len() == 1 + trailing_ones(leaf_count(m.size)),
{
    lemma_peaks_are_row(m.size, 0, 64);
    lemma_carry_counts_ones(m.nodes, mmr_peaks(m.size), leaf, 0);
}

/// The mountains that a carry from height `h` merges hold, together with one tree of
/// height `h`, as many leaves as the one tree that takes their place.
pub proof fn lemma_carry_keeps_count(
    nodes: Map<u64, Seq<u8>>,
    row: Seq<Mountain>,
    cur: Seq<u8>,
    h: nat,
)
    ensures
        carry(nodes, row, cur, h).len() <= row.len(),
        row_units(row, 0) + tree_leaves(h) == row_units(
            row.take(row.len() - carry(nodes, row, cur, h).len()),
            0,
        ) + tree_leaves(h + carry(nodes, row, cur, h).len()),
    decreases row.len(),
{
    if row.len() > 0 && row.last().height == h {
        let shorter = row.drop_last();
        let parent = merge_spec(node(nodes, row.last().root), cur);
        let rest = carry(nodes, shorter, parent, h + 1);
        lemma_carry_keeps_count(nodes, shorter, parent, h + 1);
        assert(carry(nodes, row, cur, h) == seq![parent] + rest);
        assert(shorter.take(shorter.len() - rest.len()) =~= row.take(
            row.len() - carry(nodes, row, cur, h).len(),
        ));
    } else {
        assert(row.take(row.len() as int) =~= row);
    }
}

/// An append to a consistent ledger adds exactly one leaf.
pub proof fn law_append_adds_one_leaf(m: LedgerModel, leaf: Seq<u8>)
    requires
        consistent(m),
        m.size + append_batch(m, leaf).len() <= u64::MAX,
    ensures
        leaf_count(after_append(m, leaf).size) == leaf_count(m.size) + 1,
{
    let ms = mmr_peaks(m.size);
    let j = carry(m.nodes, ms, leaf, 0).len();
    let top = Mountain { root: m.size + j, height: j };
    let closed = ms.take(ms.len() - j).push(top);
    lemma_append_peaks(m, leaf);
    lemma_carry_keeps_count(m.nodes, ms, leaf, 0);
    assert(closed.drop_last() =~= ms.take(ms.len() - j));
    assert(closed.last() == top);
}

/// A ledger that grew from the empty ledger by appends has as many leaves as were
/// appended.
pub proof fn law_history_counts_leaves(leaves: Seq<Seq<u8>>)
    requires
        ledger_of(leaves).size <= u64::MAX,
    ensures
        leaf_count(ledger_of(leaves).size) == leaves.len(),
    decreases leaves.len(),
{
    if leaves.len() == 0 {
        lemma_row_is_peaks(Seq::<Mountain>::empty(), 0, 64);
    } else {
        let front = leaves.drop_last();
        law_history_counts_leaves(front);
        law_history_is_recorded(front);
        law_append_adds_one_leaf(ledger_of(front), leaves.last());
    }
}

} // verus!
