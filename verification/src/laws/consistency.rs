//! Consistency: what an append keeps true of the ledger, and what a ledger that grew
//! by appends alone holds.

use vstd::prelude::*;
use crate::error::LedgerError;
use crate::digest::merge_spec;
use crate::engine::{
    after_append, all_ok, append_batch, append_failure, carry, consistent, has_node, node,
    peaks_present, root_failure, tree_ok,
};
use crate::node_store::LedgerModel;
use crate::shape::{
    Mountain, goes_left, grounded, is_leaf_of, is_leaf_position, is_row, leaf_in_row, left_child,
    lemma_child_roots, lemma_height_fits, lemma_leaf_position_in_row, lemma_peaks_are_row,
    lemma_row_grounded, lemma_row_heights_fall, lemma_row_is_peaks, lemma_row_push,
    lemma_row_rebound, lemma_row_span, lemma_row_span_in, lemma_row_take, lemma_tree_size_63,
    lemma_tree_size_monotonic, mmr_peaks, right_child, row_end, tree_size,
};

verus! {

/// `b` holds whatever `a` holds at the positions below `limit`.
pub open spec fn keeps_below(a: Map<u64, Seq<u8>>, b: Map<u64, Seq<u8>>, limit: nat) -> bool {
    forall|p: u64| p < limit && #[trigger] a.contains_key(p) ==> b.contains_key(p) && b[p] == a[p]
}

/// A sound tree stays sound in any node map that keeps what lies at or left of its root.
pub proof fn lemma_tree_ok_kept(a: Map<u64, Seq<u8>>, b: Map<u64, Seq<u8>>, m: Mountain)
    requires
        tree_ok(a, m),
        grounded(m),
        keeps_below(a, b, m.root + 1),
    ensures
        tree_ok(b, m),
    decreases m.height,
{
    if m.height > 0 {
        lemma_child_roots(m);
        lemma_tree_ok_kept(a, b, left_child(m));
        lemma_tree_ok_kept(a, b, right_child(m));
        lemma_root_present(a, left_child(m));
        lemma_root_present(a, right_child(m));
        assert(a.contains_key(left_child(m).root as u64));
        assert(a.contains_key(right_child(m).root as u64));
    }
    assert(a.contains_key(m.root as u64));
}

/// The root of a sound tree is in the node map.
pub proof fn lemma_root_present(nodes: Map<u64, Seq<u8>>, m: Mountain)
    requires
        tree_ok(nodes, m),
    ensures
        has_node(nodes, m.root),
{
}

/// The node map holds the digest `d` at `pos`.
pub open spec fn stored(nodes: Map<u64, Seq<u8>>, pos: nat, d: Seq<u8>) -> bool {
    has_node(nodes, pos) && node(nodes, pos) == d
}

/// The node map `after` holds the digests `c` at the positions `first`, `first + 1`, ...
pub open spec fn placed(after: Map<u64, Seq<u8>>, first: nat, c: Seq<Seq<u8>>) -> bool {
    forall|i: int| 0 <= i < c.len() ==> stored(after, (first + i) as nat, #[trigger] c[i])
}

/// What is placed from `first` on is, without its first digest, placed from `first + 1` on.
pub proof fn lemma_placed_skip(after: Map<u64, Seq<u8>>, first: nat, c: Seq<Seq<u8>>)
    requires
        placed(after, first, c),
        c.len() > 0,
    ensures
        placed(after, first + 1, c.skip(1)),
        stored(after, first, c[0]),
{
    let rest = c.skip(1);
    assert forall|i: int| 0 <= i < rest.len() implies stored(
        after,
        (first + 1 + i) as nat,
        #[trigger] rest[i],
    ) by {
        assert(rest[i] == c[i + 1]);
        assert(stored(after, (first + (i + 1)) as nat, c[i + 1]));
    }
}

/// The heart of an append. A node `cur` of height `h` has been placed at `start`, right
/// of the row `row`, and the parents that the carry creates stand at the positions
/// after it. Then the row, shortened by the mountains that were merged and closed by the
/// last parent, is a row of sound trees that ends right after that parent.
pub proof fn lemma_carry_keeps_row(
    nodes: Map<u64, Seq<u8>>,
    after: Map<u64, Seq<u8>>,
    row: Seq<Mountain>,
    cur: Seq<u8>,
    h: nat,
    start: nat,
)
    requires
        is_row(row, 0, 64),
        row_end(row, 0) + tree_size(h) == start + 1,
        row.len() > 0 ==> row.last().height >= h,
        all_ok(nodes, row),
        start + carry(nodes, row, cur, h).len() <= u64::MAX,
        keeps_below(nodes, after, row_end(row, 0)),
        tree_ok(after, Mountain { root: start, height: h }),
        node(after, start) == cur,
        placed(after, start + 1, carry(nodes, row, cur, h)),
    ensures
        ({
            let j = carry(nodes, row, cur, h).len();
            let top = Mountain { root: start + j, height: h + j };
            let closed = row.take(row.len() - j).push(top);
            &&& j <= row.len()
            &&& is_row(closed, 0, 64)
            &&& row_end(closed, 0) == start + j + 1
            &&& all_ok(after, closed)
        }),
    decreases row.len(),
{
    let c = carry(nodes, row, cur, h);
    let here = Mountain { root: start, height: h };
    if row.len() > 0 && row.last().height == h {
        let last = row.last();
        let shorter = row.drop_last();
        let parent = merge_spec(node(nodes, last.root), cur);
        let above = Mountain { root: start + 1, height: h + 1 };
        let rest = carry(nodes, shorter, parent, h + 1);
        assert(c == seq![parent] + rest);
        assert(c[0] == parent);
        lemma_row_grounded(row, 0, 64, row.len() - 1);
        lemma_row_take(row, 0, 64, row.len() - 1);
        assert(shorter =~= row.take(row.len() - 1));
        assert(left_child(above) == last);
        assert(right_child(above) == here);
        assert(tree_ok(nodes, last));
        lemma_tree_ok_kept(nodes, after, last);
        assert(nodes.contains_key(last.root as u64));
        assert(tree_ok(after, above));
        lemma_placed_skip(after, start + 1, c);
        assert(c.skip(1) =~= rest);
        if shorter.len() > 0 {
            assert(shorter.last() == row[row.len() - 2]);
            assert(row[row.len() - 1].height < row[row.len() - 2].height);
        }
        assert forall|i: int| 0 <= i < shorter.len() implies tree_ok(
            nodes,
            #[trigger] shorter[i],
        ) by {
            assert(shorter[i] == row[i]);
        }
        lemma_carry_keeps_row(nodes, after, shorter, parent, h + 1, start + 1);
        let j = c.len();
        assert(shorter.take(shorter.len() - rest.len()) =~= row.take(row.len() - j));
    } else {
        assert(c.len() == 0);
        assert(row.take(row.len() as int) =~= row);
        if row.len() == 0 {
            lemma_height_fits(h);
        }
        lemma_row_push(row, 0, 64, here);
        let closed = row.push(here);
        assert forall|i: int| 0 <= i < closed.len() implies tree_ok(
            after,
            #[trigger] closed[i],
        ) by {
            if i < row.len() {
                assert(closed[i] == row[i]);
                assert(tree_ok(nodes, row[i]));
                lemma_row_grounded(row, 0, 64, i);
                lemma_row_take(row, 0, 64, i + 1);
                lemma_row_span_in(row, 0, 64, i);
                lemma_tree_ok_kept(nodes, after, row[i]);
            }
        }
    }
}

/// Appending to a consistent ledger succeeds unless the positions run out, and leaves
/// a consistent ledger that holds the new leaf at the old size and every older node
/// as it was.
pub proof fn law_append_keeps_consistent(m: LedgerModel, leaf: Seq<u8>)
    requires
        consistent(m),
        m.size + append_batch(m, leaf).len() <= u64::MAX,
    ensures
        append_failure(m, leaf) is None,
        consistent(after_append(m, leaf)),
        after_append(m, leaf).size > m.size,
        has_node(after_append(m, leaf).nodes, m.size),
        node(after_append(m, leaf).nodes, m.size) == leaf,
        keeps_below(m.nodes, after_append(m, leaf).nodes, m.size),
{
    let ms = mmr_peaks(m.size);
    let batch = append_batch(m, leaf);
    let c = carry(m.nodes, ms, leaf, 0);
    let next = after_append(m, leaf);
    lemma_peaks_are_row(m.size, 0, 64);
    lemma_sound_row_is_present(m.nodes, ms);
    assert(batch[0] == leaf);
    assert(next.nodes.contains_key(m.size as u64));
    assert forall|i: int| 0 <= i < c.len() implies stored(
        next.nodes,
        (m.size + 1 + i) as nat,
        #[trigger] c[i],
    ) by {
        assert(batch[i + 1] == c[i]);
        assert(next.nodes.contains_key((m.size + 1 + i) as u64));
    }
    assert(placed(next.nodes, m.size + 1, c));
    lemma_carry_keeps_row(m.nodes, next.nodes, ms, leaf, 0, m.size);
    let j = c.len();
    let top = Mountain { root: m.size + j, height: 0 + j };
    let closed = ms.take(ms.len() - j).push(top);
    lemma_row_is_peaks(closed, 0, 64);
    assert(next.size == row_end(closed, 0));
}

/// The shape side of an append: a leaf of the row, or of the node that is carried,
/// is a leaf of the row that the carry leaves behind.
pub proof fn lemma_carry_keeps_leaves(
    nodes: Map<u64, Seq<u8>>,
    row: Seq<Mountain>,
    cur: Seq<u8>,
    h: nat,
    start: nat,
    pos: nat,
)
    requires
        is_row(row, 0, 64),
        row_end(row, 0) + tree_size(h) == start + 1,
        leaf_in_row(row, pos) || is_leaf_of(Mountain { root: start, height: h }, pos),
    ensures
        ({
            let j = carry(nodes, row, cur, h).len();
            let top = Mountain { root: start + j, height: h + j };
            j <= row.len() && leaf_in_row(row.take(row.len() - j).push(top), pos)
        }),
    decreases row.len(),
{
    let c = carry(nodes, row, cur, h);
    let here = Mountain { root: start, height: h };
    if row.len() > 0 && row.last().height == h {
        let last = row.last();
        let shorter = row.drop_last();
        let parent = merge_spec(node(nodes, last.root), cur);
        let above = Mountain { root: start + 1, height: h + 1 };
        let rest = carry(nodes, shorter, parent, h + 1);
        assert(c == seq![parent] + rest);
        lemma_row_grounded(row, 0, 64, row.len() - 1);
        lemma_row_take(row, 0, 64, row.len() - 1);
        assert(shorter =~= row.take(row.len() - 1));
        assert(left_child(above) == last);
        assert(right_child(above) == here);
        lemma_tree_size_monotonic(0, h);
        if is_leaf_of(here, pos) {
            assert(!goes_left(above, pos));
            assert(is_leaf_of(above, pos));
        } else {
            let i = choose|i: int| 0 <= i < row.len() && is_leaf_of(#[trigger] row[i], pos);
            if i == row.len() - 1 {
                assert(goes_left(above, pos));
                assert(is_leaf_of(above, pos));
            } else {
                assert(is_leaf_of(shorter[i], pos));
            }
        }
        lemma_carry_keeps_leaves(nodes, shorter, parent, h + 1, start + 1, pos);
        assert(shorter.take(shorter.len() - rest.len()) =~= row.take(row.len() - c.len()));
    } else {
        assert(row.take(row.len() as int) =~= row);
        let closed = row.push(here);
        if is_leaf_of(here, pos) {
            assert(is_leaf_of(closed[row.len() as int], pos));
        } else {
            let i = choose|i: int| 0 <= i < row.len() && is_leaf_of(#[trigger] row[i], pos);
            assert(is_leaf_of(closed[i], pos));
        }
    }
}

/// After an append to a consistent ledger the position of the new leaf is a leaf
/// position, and so is every position that was one before.
pub proof fn law_append_keeps_leaves(m: LedgerModel, leaf: Seq<u8>, pos: nat)
    requires
        consistent(m),
        m.size + append_batch(m, leaf).len() <= u64::MAX,
        pos == m.size || is_leaf_position(m.size, pos),
    ensures
        is_leaf_position(after_append(m, leaf).size, pos),
{
    let ms = mmr_peaks(m.size);
    let next = after_append(m, leaf);
    law_append_keeps_consistent(m, leaf);
    lemma_peaks_are_row(m.size, 0, 64);
    lemma_leaf_position_in_row(m.size, pos);
    lemma_leaf_position_in_row(next.size, pos);
    lemma_carry_keeps_leaves(m.nodes, ms, leaf, 0, m.size, pos);
    let j = carry(m.nodes, ms, leaf, 0).len();
    let top = Mountain { root: m.size + j, height: 0 + j };
    let closed = ms.take(ms.len() - j).push(top);
    lemma_append_peaks(m, leaf);
}

/// The peaks after an append: the peaks that were not merged, then the one new peak.
pub proof fn lemma_append_peaks(m: LedgerModel, leaf: Seq<u8>)
    requires
        consistent(m),
        m.size + append_batch(m, leaf).len() <= u64::MAX,
    ensures
        ({
            let ms = mmr_peaks(m.size);
            let j = carry(m.nodes, ms, leaf, 0).len();
            let top = Mountain { root: m.size + j, height: j };
            j <= ms.len() && mmr_peaks(after_append(m, leaf).size) == ms.take(ms.len() - j).push(
                top,
            )
        }),
{
    let ms = mmr_peaks(m.size);
    let batch = append_batch(m, leaf);
    let c = carry(m.nodes, ms, leaf, 0);
    let next = after_append(m, leaf);
    lemma_peaks_are_row(m.size, 0, 64);
    assert(batch[0] == leaf);
    assert(next.nodes.contains_key(m.size as u64));
    assert forall|i: int| 0 <= i < c.len() implies stored(
        next.nodes,
        (m.size + 1 + i) as nat,
        #[trigger] c[i],
    ) by {
        assert(batch[i + 1] == c[i]);
        assert(next.nodes.contains_key((m.size + 1 + i) as u64));
    }
    lemma_carry_keeps_row(m.nodes, next.nodes, ms, leaf, 0, m.size);
    let j = c.len();
    let top = Mountain { root: m.size + j, height: 0 + j };
    let closed = ms.take(ms.len() - j).push(top);
    lemma_row_is_peaks(closed, 0, 64);
}

/// The ledger without any node.
pub open spec fn empty_ledger() -> LedgerModel {
    LedgerModel { nodes: Map::empty(), size: 0 }
}

/// The ledger that results from appending `leaves`, one after the other, to the empty
/// ledger.
pub open spec fn ledger_of(leaves: Seq<Seq<u8>>) -> LedgerModel
    decreases leaves.len(),
{
    if leaves.len() == 0 {
        empty_ledger()
    } else {
        after_append(ledger_of(leaves.drop_last()), leaves.last())
    }
}

/// The position that the `i`-th of `leaves` was given: the size of the ledger when it
/// was appended.
pub open spec fn leaf_position(leaves: Seq<Seq<u8>>, i: int) -> nat {
    ledger_of(leaves.take(i)).size
}

/// The ledger `m` holds the `i`-th of `leaves` at its position, and that position is a
/// leaf position of `m`.
pub open spec fn recorded(leaves: Seq<Seq<u8>>, m: LedgerModel, i: int) -> bool {
    &&& is_leaf_position(m.size, leaf_position(leaves, i))
    &&& stored(m.nodes, leaf_position(leaves, i), leaves[i])
}

/// The empty ledger is consistent.
pub proof fn law_empty_is_consistent()
    ensures
        consistent(empty_ledger()),
{
    lemma_peaks_are_row(0, 0, 64);
}

/// A ledger that grew from the empty ledger by appends alone is consistent and holds
/// every leaf at the position it was given.
pub proof fn law_history_is_recorded(leaves: Seq<Seq<u8>>)
    requires
        ledger_of(leaves).size <= u64::MAX,
    ensures
        consistent(ledger_of(leaves)),
        forall|i: int| 0 <= i < leaves.len() ==> #[trigger] recorded(leaves, ledger_of(leaves), i),
    decreases leaves.len(),
{
    if leaves.len() == 0 {
        law_empty_is_consistent();
    } else {
        let front = leaves.drop_last();
        let prev = ledger_of(front);
        let next = ledger_of(leaves);
        law_history_is_recorded(front);
        law_append_keeps_consistent(prev, leaves.last());
        assert forall|i: int| 0 <= i < leaves.len() implies #[trigger] recorded(
            leaves,
            next,
            i,
        ) by {
            let pos = leaf_position(leaves, i);
            if i < front.len() {
                assert(leaves.take(i) =~= front.take(i));
                assert(recorded(front, prev, i));
                assert(front[i] == leaves[i]);
                assert(prev.nodes.contains_key(pos as u64));
            } else {
                assert(leaves.take(i) =~= front);
            }
            law_append_keeps_leaves(prev, leaves.last(), pos);
        }
    }
}


/// Where every mountain of a row is sound, the root of each is in the store.
pub proof fn lemma_sound_row_is_present(nodes: Map<u64, Seq<u8>>, row: Seq<Mountain>)
    requires
        all_ok(nodes, row),
    ensures
        peaks_present(nodes, row),
{
    assert forall|i: int| 0 <= i < row.len() implies has_node(nodes, (#[trigger] row[i]).root) by {
        lemma_root_present(nodes, row[i]);
    }
}

/// The row that a carry leaves behind, whatever the store holds: the mountains that
/// were not merged, closed by one mountain that ends where the carry ended.
pub proof fn lemma_carry_closes_row(
    nodes: Map<u64, Seq<u8>>,
    row: Seq<Mountain>,
    cur: Seq<u8>,
    h: nat,
    start: nat,
)
    requires
        is_row(row, 0, 64),
        row_end(row, 0) + tree_size(h) == start + 1,
        row.len() > 0 ==> row.last().height >= h,
        h + row.len() <= 64,
    ensures
        ({
            let j = carry(nodes, row, cur, h).len();
            let top = Mountain { root: start + j, height: h + j };
            let closed = row.take(row.len() - j).push(top);
            &&& j <= row.len()
            &&& is_row(closed, 0, 65)
            &&& row_end(closed, 0) == start + j + 1
            &&& closed[0] == (if j < row.len() {
                row[0]
            } else {
                top
            })
        }),
    decreases row.len(),
{
    let c = carry(nodes, row, cur, h);
    let here = Mountain { root: start, height: h };
    if row.len() > 0 && row.last().height == h {
        let shorter = row.drop_last();
        let parent = merge_spec(node(nodes, row.last().root), cur);
        let rest = carry(nodes, shorter, parent, h + 1);
        assert(c == seq![parent] + rest);
        lemma_row_grounded(row, 0, 64, row.len() - 1);
        lemma_row_take(row, 0, 64, row.len() - 1);
        assert(shorter =~= row.take(row.len() - 1));
        if shorter.len() > 0 {
            assert(shorter.last() == row[row.len() - 2]);
            assert(row[row.len() - 1].height < row[row.len() - 2].height);
            assert(shorter[0] == row[0]);
        }
        lemma_carry_closes_row(nodes, shorter, parent, h + 1, start + 1);
        assert(shorter.take(shorter.len() - rest.len()) =~= row.take(row.len() - c.len()));
    } else {
        assert(row.take(row.len() as int) =~= row);
        lemma_row_rebound(row, 0, 64, 65);
        lemma_row_push(row, 0, 65, here);
        if row.len() > 0 {
            assert(row.push(here)[0] == row[0]);
        }
    }
}

/// A consistent ledger takes another leaf unless it is full: an append fails on it
/// only where its size is `u64::MAX`, and then with `StoreIOError`.
pub proof fn law_append_succeeds_until_full(m: LedgerModel, leaf: Seq<u8>)
    requires
        consistent(m),
    ensures
        m.size < u64::MAX ==> append_failure(m, leaf) is None,
        m.size == u64::MAX ==> append_failure(m, leaf) == Some(LedgerError::StoreIOError),
{
    let ms = mmr_peaks(m.size);
    let j = carry(m.nodes, ms, leaf, 0).len();
    let top = Mountain { root: m.size + j, height: 0 + j };
    let closed = ms.take(ms.len() - j).push(top);
    lemma_peaks_are_row(m.size, 0, 64);
    lemma_row_span(ms, 0, 64);
    lemma_sound_row_is_present(m.nodes, ms);
    lemma_carry_closes_row(m.nodes, ms, leaf, 0, m.size);
    lemma_tree_size_63();
    if m.size < u64::MAX {
        if closed[0].height < 63 {
            lemma_row_rebound(closed, 0, 65, 63);
            lemma_row_span(closed, 0, 63);
        } else if ms.len() > 0 {
            lemma_row_heights_fall(ms, 0, 64, 0);
            lemma_row_span_in(ms, 0, 64, 0);
            if ms[0].height >= 63 {
                // The first peak alone would fill the ledger.
                lemma_tree_size_monotonic(63, ms[0].height);
            }
        }
    }
}


/// An append that succeeds leaves a ledger whose root can be read: its size is a valid
/// size, and each of its peaks was either a peak before, and in the store, or is the
/// last node that the append wrote.
pub proof fn law_appended_ledger_has_root(m: LedgerModel, leaf: Seq<u8>)
    ensures
        append_failure(m, leaf) is None ==> root_failure(after_append(m, leaf)) is None,
{
    if append_failure(m, leaf) is None {
        let ms = mmr_peaks(m.size);
        let batch = append_batch(m, leaf);
        let next = after_append(m, leaf);
        let j = carry(m.nodes, ms, leaf, 0).len();
        let top = Mountain { root: m.size + j, height: 0 + j };
        let closed = ms.take(ms.len() - j).push(top);
        lemma_peaks_are_row(m.size, 0, 64);
        lemma_row_span(ms, 0, 64);
        lemma_carry_closes_row(m.nodes, ms, leaf, 0, m.size);
        if j == ms.len() {
            lemma_height_fits(top.height);
        }
        lemma_row_rebound(closed, 0, 65, 64);
        lemma_row_is_peaks(closed, 0, 64);
        assert(mmr_peaks(next.size) == closed);
        assert forall|i: int| 0 <= i < closed.len() implies has_node(
            next.nodes,
            (#[trigger] closed[i]).root,
        ) by {
            if i < ms.len() - j {
                assert(closed[i] == ms[i]);
                assert(has_node(m.nodes, ms[i].root));
            } else {
                assert(closed[i] == top);
                assert(next.nodes.contains_key(top.root as u64));
            }
        }
    }
}

} // verus!
