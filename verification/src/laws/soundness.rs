//! Soundness of proofs: every proof that a consistent ledger gives is accepted under
//! its root.

use vstd::prelude::*;
use crate::engine::{consistent, has_node, node, peak_digests, root_failure, root_of, tree_ok};
use crate::inclusion::{
    EntryModel, accepts, accepts_batch, all_present, batch_positions, batch_siblings, climb,
    entries_at, entry_positions, extend, free_roots, kept_siblings, lookup, peak_input,
    peak_inputs, proof_failure, proof_of, rebuilt, rebuilt_peaks, valid_request,
};
use crate::laws::consistency::{
    law_history_is_recorded, leaf_position, ledger_of, lemma_root_present, recorded,
};
use crate::node_store::LedgerModel;
use crate::shape::{
    Mountain, child_toward, covers, grounded, holds_target, is_leaf_position, leaf_under,
    left_child, lemma_child_roots, lemma_children, lemma_covering_peak, lemma_other_child_misses,
    lemma_peak_covers, lemma_peaks_are_row, lemma_row_grounded, lemma_side_trail,
    lemma_tree_size_monotonic, mmr_peaks, other_child, peak_index, right_child, side_trail,
    side_trail_up, trail, turn_at,
};

verus! {

/// The entries hold, for `pos`, the digest that the node map holds there.
pub open spec fn serves(nodes: Map<u64, Seq<u8>>, entries: Seq<EntryModel>, pos: nat) -> bool {
    lookup(entries, pos) == Some(node(nodes, pos))
}

/// Entries that were read from the node map serve every position they were read for.
pub proof fn lemma_entries_serve(nodes: Map<u64, Seq<u8>>, ps: Seq<nat>, pos: nat)
    requires
        ps.contains(pos),
    ensures
        serves(nodes, entries_at(nodes, ps), pos),
    decreases ps.len(),
{
    let es = entries_at(nodes, ps);
    assert(es[0].pos == ps[0]);
    if ps[0] != pos {
        let i = choose|i: int| 0 <= i < ps.len() && ps[i] == pos;
        assert(ps.skip(1)[i - 1] == pos);
        lemma_entries_serve(nodes, ps.skip(1), pos);
        assert(es.skip(1) =~= entries_at(nodes, ps.skip(1)));
    }
}

/// Extending a run of positions keeps what it held and takes in all that is offered.
pub proof fn lemma_extend_holds(acc: Seq<nat>, xs: Seq<nat>, x: nat)
    ensures
        extend(acc, xs).contains(x) <==> acc.contains(x) || xs.contains(x),
    decreases xs.len(),
{
    if xs.len() > 0 {
        let front = xs.drop_last();
        let sofar = extend(acc, front);
        lemma_extend_holds(acc, front, x);
        if xs.contains(x) {
            let i = choose|i: int| 0 <= i < xs.len() && xs[i] == x;
            if i < front.len() {
                assert(front[i] == x);
            }
        }
        if front.contains(x) {
            let i = choose|i: int| 0 <= i < front.len() && front[i] == x;
            assert(xs[i] == x);
        }
        if !sofar.contains(xs.last()) {
            let longer = sofar.push(xs.last());
            assert(longer[longer.len() - 1] == xs.last());
            if sofar.contains(x) {
                let i = choose|i: int| 0 <= i < sofar.len() && sofar[i] == x;
                assert(longer[i] == x);
            }
            if longer.contains(x) {
                let i = choose|i: int| 0 <= i < longer.len() && longer[i] == x;
                if i < sofar.len() {
                    assert(sofar[i] == x);
                }
            }
        }
        assert(xs[xs.len() - 1] == xs.last());
    }
}

/// The subtree `c` need not be brought by a proof for `targets`, or the entries hold
/// for its root the digest that the node map holds there.
pub open spec fn supplied(
    nodes: Map<u64, Seq<u8>>,
    entries: Seq<EntryModel>,
    targets: Seq<nat>,
    c: Mountain,
) -> bool {
    holds_target(c, targets) || serves(nodes, entries, c.root)
}

/// `x` is the root of a subtree that is passed by on the way from the target `t` up to
/// its peak and holds no target.
pub open spec fn is_free_side(size: nat, targets: Seq<nat>, t: nat, x: nat) -> bool {
    let ms = mmr_peaks(size);
    let st = side_trail(ms[peak_index(ms, t)], t);
    exists|j: int| 0 <= j < st.len() && (#[trigger] st[j]).root == x && !holds_target(st[j], targets)
}

/// `x` is the root of a peak that holds no target.
pub open spec fn is_free_peak(size: nat, targets: Seq<nat>, x: nat) -> bool {
    let ms = mmr_peaks(size);
    exists|j: int| 0 <= j < ms.len() && (#[trigger] ms[j]).root == x && !holds_target(ms[j], targets)
}

/// The free roots of a run of subtrees are the roots of those that hold no target.
pub proof fn lemma_free_roots_hold(cs: Seq<Mountain>, targets: Seq<nat>, x: nat)
    ensures
        free_roots(cs, targets).contains(x) <==> exists|j: int|
            0 <= j < cs.len() && (#[trigger] cs[j]).root == x && !holds_target(cs[j], targets),
    decreases cs.len(),
{
    if cs.len() > 0 {
        let front = cs.drop_last();
        let sofar = free_roots(front, targets);
        lemma_free_roots_hold(front, targets, x);
        if exists|j: int|
            0 <= j < cs.len() && (#[trigger] cs[j]).root == x && !holds_target(cs[j], targets) {
            let j = choose|j: int|
                0 <= j < cs.len() && (#[trigger] cs[j]).root == x && !holds_target(cs[j], targets);
            if j < front.len() {
                assert(front[j] == cs[j]);
                assert(sofar.contains(x));
            } else {
                assert(cs[j] == cs.last());
                let longer = sofar.push(cs.last().root);
                assert(longer[longer.len() - 1] == x);
            }
            if sofar.contains(x) && !holds_target(cs.last(), targets) {
                let a = choose|a: int| 0 <= a < sofar.len() && sofar[a] == x;
                assert(sofar.push(cs.last().root)[a] == x);
            }
        }
        if free_roots(cs, targets).contains(x) {
            let all = free_roots(cs, targets);
            let a = choose|a: int| 0 <= a < all.len() && all[a] == x;
            if !holds_target(cs.last(), targets) && a == all.len() - 1 {
                assert(cs[cs.len() - 1].root == x);
            } else {
                assert(sofar[a] == x);
                assert(sofar.contains(x));
                let j = choose|j: int|
                    0 <= j < front.len() && (#[trigger] front[j]).root == x && !holds_target(
                        front[j],
                        targets,
                    );
                assert(cs[j] == front[j]);
            }
        }
    }
}

/// The siblings kept for a target are the roots of the subtrees on its way that hold
/// no target.
pub proof fn lemma_kept_hold(size: nat, targets: Seq<nat>, t: nat, x: nat)
    ensures
        kept_siblings(size, targets, t).contains(x) <==> is_free_side(size, targets, t, x),
{
    let ms = mmr_peaks(size);
    let m = ms[peak_index(ms, t)];
    let st = side_trail(m, t);
    let up = side_trail_up(m, t);
    lemma_side_trail(m, t);
    lemma_free_roots_hold(up, targets, x);
    if is_free_side(size, targets, t, x) {
        let j = choose|j: int|
            0 <= j < st.len() && (#[trigger] st[j]).root == x && !holds_target(st[j], targets);
        assert(up[m.height - 1 - j] == st[j]);
    }
    if kept_siblings(size, targets, t).contains(x) {
        let a = choose|a: int|
            0 <= a < up.len() && (#[trigger] up[a]).root == x && !holds_target(up[a], targets);
        assert(st[m.height - 1 - a] == up[a]);
    }
}

/// The siblings of a batch are those kept for one of the targets gone through.
pub proof fn lemma_siblings_hold(size: nat, targets: Seq<nat>, upto: Seq<nat>, x: nat)
    ensures
        batch_siblings(size, targets, upto).contains(x) <==> exists|i: int|
            0 <= i < upto.len() && is_free_side(size, targets, #[trigger] upto[i], x),
    decreases upto.len(),
{
    if upto.len() > 0 {
        let front = upto.drop_last();
        lemma_siblings_hold(size, targets, front, x);
        lemma_kept_hold(size, targets, upto.last(), x);
        lemma_extend_holds(
            batch_siblings(size, targets, front),
            kept_siblings(size, targets, upto.last()),
            x,
        );
        if batch_siblings(size, targets, upto).contains(x) {
            if batch_siblings(size, targets, front).contains(x) {
                let i = choose|i: int|
                    0 <= i < front.len() && is_free_side(size, targets, #[trigger] front[i], x);
                assert(upto[i] == front[i]);
            } else {
                assert(upto[upto.len() - 1] == upto.last());
            }
        }
        if exists|i: int| 0 <= i < upto.len() && is_free_side(size, targets, #[trigger] upto[i], x) {
            let i = choose|i: int|
                0 <= i < upto.len() && is_free_side(size, targets, #[trigger] upto[i], x);
            if i < front.len() {
                assert(front[i] == upto[i]);
            }
        }
    }
}

/// A proof holds a position exactly when it is the root of a subtree that holds no
/// target and is either passed by on the way up from a target, or a peak.
pub proof fn lemma_batch_holds(size: nat, targets: Seq<nat>, x: nat)
    ensures
        batch_positions(size, targets).contains(x) <==> (exists|i: int|
            0 <= i < targets.len() && is_free_side(size, targets, #[trigger] targets[i], x))
            || is_free_peak(size, targets, x),
{
    lemma_siblings_hold(size, targets, targets, x);
    lemma_free_roots_hold(mmr_peaks(size), targets, x);
    lemma_extend_holds(
        batch_siblings(size, targets, targets),
        free_roots(mmr_peaks(size), targets),
        x,
    );
}

/// In a sound tree, climbing from a leaf with the true siblings ends in the digest of
/// the root, and every sibling on the way is in the node map.
pub proof fn lemma_climb_reaches_root(
    nodes: Map<u64, Seq<u8>>,
    entries: Seq<EntryModel>,
    m: Mountain,
    pos: nat,
)
    requires
        tree_ok(nodes, m),
        grounded(m),
        covers(m, pos),
        leaf_under(m, pos),
        forall|i: int|
            0 <= i < trail(m, pos).len() ==> serves(
                nodes,
                entries,
                (#[trigger] trail(m, pos)[i]).sibling,
            ),
    ensures
        climb(trail(m, pos), node(nodes, pos), entries) == Some(node(nodes, m.root)),
        trail(m, pos).len() == m.height,
    decreases m.height,
{
    let t = trail(m, pos);
    if m.height > 0 {
        let child = child_toward(m, pos);
        lemma_children(m, pos);
        assert(t.skip(1) =~= trail(child, pos));
        assert(t[0] == turn_at(m, pos));
        assert forall|i: int| 0 <= i < trail(child, pos).len() implies serves(
            nodes,
            entries,
            (#[trigger] trail(child, pos)[i]).sibling,
        ) by {
            assert(trail(child, pos)[i] == t[i + 1]);
        }
        lemma_climb_reaches_root(nodes, entries, child, pos);
    }
}

/// In a sound tree every sibling on the way down to a leaf is in the node map.
pub proof fn lemma_trail_present(nodes: Map<u64, Seq<u8>>, m: Mountain, pos: nat)
    requires
        tree_ok(nodes, m),
        grounded(m),
        covers(m, pos),
        leaf_under(m, pos),
    ensures
        forall|i: int|
            0 <= i < trail(m, pos).len() ==> has_node(nodes, (#[trigger] trail(m, pos)[i]).sibling),
    decreases m.height,
{
    let t = trail(m, pos);
    if m.height > 0 {
        let child = child_toward(m, pos);
        lemma_children(m, pos);
        lemma_trail_present(nodes, child, pos);
        lemma_root_present(nodes, left_child(m));
        lemma_root_present(nodes, right_child(m));
        assert forall|i: int| 0 <= i < t.len() implies has_node(
            nodes,
            (#[trigger] t[i]).sibling,
        ) by {
            if i > 0 {
                assert(t[i] == trail(child, pos)[i - 1]);
            }
        }
    }
}

/// What proves the targets of a valid request on a consistent ledger is all in the store.
pub proof fn lemma_batch_present(m: LedgerModel, targets: Seq<nat>)
    requires
        consistent(m),
        forall|i: int| 0 <= i < targets.len() ==> is_leaf_position(m.size, #[trigger] targets[i]),
    ensures
        all_present(m.nodes, batch_positions(m.size, targets)),
{
    let ms = mmr_peaks(m.size);
    let ps = batch_positions(m.size, targets);
    lemma_peaks_are_row(m.size, 0, 64);
    assert forall|a: int| 0 <= a < ps.len() implies has_node(m.nodes, #[trigger] ps[a]) by {
        let x = ps[a];
        assert(ps.contains(x));
        lemma_batch_holds(m.size, targets, x);
        if is_free_peak(m.size, targets, x) {
            let j = choose|j: int|
                0 <= j < ms.len() && (#[trigger] ms[j]).root == x && !holds_target(ms[j], targets);
            lemma_root_present(m.nodes, ms[j]);
        } else {
            let i = choose|i: int|
                0 <= i < targets.len() && is_free_side(m.size, targets, #[trigger] targets[i], x);
            let t = targets[i];
            let peak = ms[peak_index(ms, t)];
            let st = side_trail(peak, t);
            let j = choose|j: int|
                0 <= j < st.len() && (#[trigger] st[j]).root == x && !holds_target(st[j], targets);
            lemma_peak_covers(ms, 64, t);
            lemma_side_trail(peak, t);
            lemma_trail_present(m.nodes, peak, t);
            assert(st[j].root == trail(peak, t)[j].sibling);
        }
    }
}

/// A consistent ledger with at least one node has a root.
pub proof fn law_consistent_has_root(m: LedgerModel)
    requires
        consistent(m),
        m.size > 0,
    ensures
        root_failure(m) is None,
{
    let ms = mmr_peaks(m.size);
    assert forall|i: int| 0 <= i < ms.len() implies has_node(m.nodes, (#[trigger] ms[i]).root) by {
        lemma_root_present(m.nodes, ms[i]);
    }
}

/// No subtree that is passed by on the way down to a leaf holds that leaf.
pub proof fn lemma_sides_miss(m: Mountain, pos: nat)
    requires
        grounded(m),
        covers(m, pos),
        leaf_under(m, pos),
    ensures
        forall|j: int|
            0 <= j < side_trail(m, pos).len() ==> !covers(#[trigger] side_trail(m, pos)[j], pos),
    decreases m.height,
{
    if m.height > 0 {
        let child = child_toward(m, pos);
        let st = side_trail(m, pos);
        lemma_children(m, pos);
        lemma_other_child_misses(m, pos);
        lemma_sides_miss(child, pos);
        assert forall|j: int| 0 <= j < st.len() implies !covers(#[trigger] st[j], pos) by {
            if j > 0 {
                assert(st[j] == side_trail(child, pos)[j - 1]);
            }
        }
    }
}

/// The proof that a consistent ledger gives for one leaf is accepted for the digest
/// stored at that leaf, under the root of the ledger.
pub proof fn law_proofs_verify(m: LedgerModel, pos: nat)
    requires
        consistent(m),
        is_leaf_position(m.size, pos),
    ensures
        root_failure(m) is None,
        proof_failure(m, seq![pos]) is None,
        accepts(proof_of(m, seq![pos]), node(m.nodes, pos), pos, root_of(m)),
{
    let targets = seq![pos];
    let ms = mmr_peaks(m.size);
    let k = peak_index(ms, pos);
    let t = trail(ms[k], pos);
    let st = side_trail(ms[k], pos);
    let batch = batch_positions(m.size, targets);
    let entries = entries_at(m.nodes, batch);
    assert(targets[0] == pos);
    law_consistent_has_root(m);
    lemma_batch_present(m, targets);
    lemma_peaks_are_row(m.size, 0, 64);
    lemma_peak_covers(ms, 64, pos);
    lemma_side_trail(ms[k], pos);
    lemma_sides_miss(ms[k], pos);
    assert forall|a: int| 0 <= a < t.len() implies serves(
        m.nodes,
        entries,
        (#[trigger] t[a]).sibling,
    ) by {
        assert(!covers(st[a], pos));
        assert(!holds_target(st[a], targets));
        assert(is_free_side(m.size, targets, targets[0], st[a].root));
        lemma_batch_holds(m.size, targets, st[a].root);
        lemma_entries_serve(m.nodes, batch, st[a].root);
    }
    lemma_climb_reaches_root(m.nodes, entries, ms[k], pos);
    let own = node(m.nodes, ms[k].root);
    assert forall|a: int| 0 <= a < ms.len() implies #[trigger] peak_input(ms, k, own, entries, a)
        == Some(node(m.nodes, ms[a].root)) by {
        if a != k {
            if covers(ms[a], pos) {
                lemma_covering_peak(ms, 0, 64, pos, a);
            }
            assert(!holds_target(ms[a], targets));
            assert(is_free_peak(m.size, targets, ms[a].root));
            lemma_batch_holds(m.size, targets, ms[a].root);
            lemma_entries_serve(m.nodes, batch, ms[a].root);
        }
    }
    assert(peak_inputs(ms, k, own, entries) =~= peak_digests(m.nodes, ms));
}

/// For every run of one or more appended leaves and each of them, the proof that the
/// ledger gives for the leaf's position is accepted for that leaf under the ledger's
/// root.
pub proof fn law_every_leaf_is_proved(leaves: Seq<Seq<u8>>, i: int)
    requires
        0 <= i < leaves.len(),
        ledger_of(leaves).size <= u64::MAX,
    ensures
        root_failure(ledger_of(leaves)) is None,
        proof_failure(ledger_of(leaves), seq![leaf_position(leaves, i)]) is None,
        accepts(
            proof_of(ledger_of(leaves), seq![leaf_position(leaves, i)]),
            leaves[i],
            leaf_position(leaves, i),
            root_of(ledger_of(leaves)),
        ),
{
    let m = ledger_of(leaves);
    law_history_is_recorded(leaves);
    assert(recorded(leaves, m, i));
    law_proofs_verify(m, leaf_position(leaves, i));
}

/// For every target under `c`, each subtree that is passed by on the way from the
/// root of `c` down to the target is supplied.
pub open spec fn sides_supplied(
    nodes: Map<u64, Seq<u8>>,
    entries: Seq<EntryModel>,
    targets: Seq<nat>,
    c: Mountain,
    t: nat,
) -> bool {
    forall|j: int|
        0 <= j < side_trail(c, t).len() ==> supplied(
            nodes,
            entries,
            targets,
            #[trigger] side_trail(c, t)[j],
        )
}

/// What `rebuilt` needs below `c`: the targets under `c` are leaves of it, and the
/// subtrees passed by on the way to them are supplied.
pub open spec fn ready(
    nodes: Map<u64, Seq<u8>>,
    entries: Seq<EntryModel>,
    targets: Seq<nat>,
    c: Mountain,
    t: nat,
) -> bool {
    covers(c, t) ==> leaf_under(c, t) && sides_supplied(nodes, entries, targets, c, t)
}

/// In a sound tree whose side subtrees are supplied, the digest rebuilt from the
/// stored digests of the targets is the digest of the root.
pub proof fn lemma_rebuilt_is_stored(
    nodes: Map<u64, Seq<u8>>,
    entries: Seq<EntryModel>,
    targets: Seq<nat>,
    c: Mountain,
)
    requires
        tree_ok(nodes, c),
        grounded(c),
        supplied(nodes, entries, targets, c),
        forall|i: int|
            0 <= i < targets.len() ==> ready(nodes, entries, targets, c, #[trigger] targets[i]),
    ensures
        rebuilt(c, entries_at(nodes, targets), entries) == Some(node(nodes, c.root)),
    decreases c.height,
{
    let leaves = entries_at(nodes, targets);
    assert(entry_positions(leaves) =~= targets);
    if holds_target(c, targets) {
        let i = choose|i: int| 0 <= i < targets.len() && covers(c, #[trigger] targets[i]);
        let t = targets[i];
        assert(ready(nodes, entries, targets, c, t));
        if c.height == 0 {
            lemma_tree_size_monotonic(0, 0);
            assert(targets.contains(c.root));
            lemma_entries_serve(nodes, targets, c.root);
        } else {
            lemma_child_roots(c);
            lemma_children(c, t);
            let left = left_child(c);
            let right = right_child(c);
            assert(side_trail(c, t)[0] == other_child(c, t));
            assert(supplied(nodes, entries, targets, other_child(c, t)));
            assert(holds_target(child_toward(c, t), targets));
            assert forall|a: int| 0 <= a < targets.len() implies ready(
                nodes,
                entries,
                targets,
                left,
                #[trigger] targets[a],
            ) by {
                lemma_ready_below(nodes, entries, targets, c, targets[a]);
            }
            assert forall|a: int| 0 <= a < targets.len() implies ready(
                nodes,
                entries,
                targets,
                right,
                #[trigger] targets[a],
            ) by {
                lemma_ready_below(nodes, entries, targets, c, targets[a]);
            }
            lemma_rebuilt_is_stored(nodes, entries, targets, left);
            lemma_rebuilt_is_stored(nodes, entries, targets, right);
        }
    }
}

/// What is ready at a node is ready at its two children.
pub proof fn lemma_ready_below(
    nodes: Map<u64, Seq<u8>>,
    entries: Seq<EntryModel>,
    targets: Seq<nat>,
    c: Mountain,
    t: nat,
)
    requires
        c.height > 0,
        grounded(c),
        ready(nodes, entries, targets, c, t),
    ensures
        ready(nodes, entries, targets, left_child(c), t),
        ready(nodes, entries, targets, right_child(c), t),
{
    lemma_child_roots(c);
    lemma_tree_size_monotonic(0, (c.height - 1) as nat);
    let left = left_child(c);
    let right = right_child(c);
    if covers(left, t) || covers(right, t) {
        assert(covers(c, t));
        let child = child_toward(c, t);
        assert(covers(left, t) ==> child == left);
        assert(covers(right, t) ==> child == right);
        let st = side_trail(c, t);
        assert forall|j: int| 0 <= j < side_trail(child, t).len() implies supplied(
            nodes,
            entries,
            targets,
            #[trigger] side_trail(child, t)[j],
        ) by {
            assert(side_trail(child, t)[j] == st[j + 1]);
        }
    }
}

/// Every proof that a consistent ledger gives is accepted: for any request of leaf
/// positions the proof exists and is accepted, under the root of the ledger, for the
/// targets together, each with the digest that the ledger holds at it.
pub proof fn law_batch_is_accepted(m: LedgerModel, targets: Seq<nat>)
    requires
        consistent(m),
        valid_request(m.size, targets),
    ensures
        root_failure(m) is None,
        proof_failure(m, targets) is None,
        accepts_batch(proof_of(m, targets), entries_at(m.nodes, targets), root_of(m)),
{
    let ms = mmr_peaks(m.size);
    let batch = batch_positions(m.size, targets);
    let entries = entries_at(m.nodes, batch);
    let leaves = entries_at(m.nodes, targets);
    assert(is_leaf_position(m.size, targets[0]));
    law_consistent_has_root(m);
    lemma_batch_present(m, targets);
    lemma_peaks_are_row(m.size, 0, 64);
    assert forall|a: int| 0 <= a < ms.len() implies #[trigger] rebuilt(ms[a], leaves, entries)
        == Some(node(m.nodes, ms[a].root)) by {
        let c = ms[a];
        lemma_row_grounded(ms, 0, 64, a);
        if !holds_target(c, targets) {
            assert(is_free_peak(m.size, targets, c.root));
            lemma_batch_holds(m.size, targets, c.root);
            lemma_entries_serve(m.nodes, batch, c.root);
        }
        assert forall|i: int| 0 <= i < targets.len() implies ready(
            m.nodes,
            entries,
            targets,
            c,
            #[trigger] targets[i],
        ) by {
            let t = targets[i];
            if covers(c, t) {
                lemma_covering_peak(ms, 0, 64, t, a);
                let st = side_trail(c, t);
                assert forall|j: int| 0 <= j < st.len() implies supplied(
                    m.nodes,
                    entries,
                    targets,
                    #[trigger] st[j],
                ) by {
                    if !holds_target(st[j], targets) {
                        assert(is_free_side(m.size, targets, targets[i], st[j].root));
                        lemma_batch_holds(m.size, targets, st[j].root);
                        lemma_entries_serve(m.nodes, batch, st[j].root);
                    }
                }
            }
        }
        lemma_rebuilt_is_stored(m.nodes, entries, targets, c);
    }
    assert(rebuilt_peaks(ms, leaves, entries) =~= peak_digests(m.nodes, ms));
    assert forall|i: int| 0 <= i < leaves.len() implies is_leaf_position(
        m.size,
        (#[trigger] leaves[i]).pos,
    ) by {
        assert(leaves[i].pos == targets[i]);
    }
}

/// Extending a run of positions that holds none twice gives a run that holds none twice.
pub proof fn lemma_extend_no_duplicates(acc: Seq<nat>, xs: Seq<nat>)
    requires
        acc.no_duplicates(),
    ensures
        extend(acc, xs).no_duplicates(),
    decreases xs.len(),
{
    if xs.len() > 0 {
        let sofar = extend(acc, xs.drop_last());
        lemma_extend_no_duplicates(acc, xs.drop_last());
        if !sofar.contains(xs.last()) {
            let longer = sofar.push(xs.last());
            assert forall|i: int, j: int|
                0 <= i < longer.len() && 0 <= j < longer.len() && i != j implies longer[i]
                != longer[j] by {
                if i < sofar.len() && j < sofar.len() {
                    assert(sofar[i] != sofar[j]);
                } else if i < sofar.len() {
                    assert(sofar.contains(sofar[i]));
                } else {
                    assert(sofar.contains(sofar[j]));
                }
            }
        }
    }
}

/// No proof holds a node twice: the positions of the entries of a proof, for one
/// target or for many, are all different.
pub proof fn law_proof_has_no_entry_twice(m: LedgerModel, targets: Seq<nat>, i: int, j: int)
    requires
        0 <= i < j < proof_of(m, targets).entries.len(),
    ensures
        proof_of(m, targets).entries[i].pos != proof_of(m, targets).entries[j].pos,
{
    lemma_siblings_no_duplicates(m.size, targets, targets);
    lemma_extend_no_duplicates(
        batch_siblings(m.size, targets, targets),
        free_roots(mmr_peaks(m.size), targets),
    );
    let ps = batch_positions(m.size, targets);
    assert(ps[i] != ps[j]);
}

/// The siblings of a batch are all different.
pub proof fn lemma_siblings_no_duplicates(size: nat, targets: Seq<nat>, upto: Seq<nat>)
    ensures
        batch_siblings(size, targets, upto).no_duplicates(),
    decreases upto.len(),
{
    if upto.len() > 0 {
        lemma_siblings_no_duplicates(size, targets, upto.drop_last());
        lemma_extend_no_duplicates(
            batch_siblings(size, targets, upto.drop_last()),
            kept_siblings(size, targets, upto.last()),
        );
    }
}

/// No proof holds what the verifier recomputes: no entry stands at a requested
/// position, and each entry is the root of a subtree that holds no requested leaf.
pub proof fn law_proof_holds_no_target(m: LedgerModel, targets: Seq<nat>, i: int)
    requires
        0 <= i < proof_of(m, targets).entries.len(),
    ensures
        !targets.contains(proof_of(m, targets).entries[i].pos),
        is_free_peak(m.size, targets, proof_of(m, targets).entries[i].pos) || exists|a: int|
            0 <= a < targets.len() && is_free_side(
                m.size,
                targets,
                #[trigger] targets[a],
                proof_of(m, targets).entries[i].pos,
            ),
{
    let ps = batch_positions(m.size, targets);
    let x = ps[i];
    let ms = mmr_peaks(m.size);
    assert(ps.contains(x));
    lemma_batch_holds(m.size, targets, x);
    if targets.contains(x) {
        let b = choose|b: int| 0 <= b < targets.len() && targets[b] == x;
        if is_free_peak(m.size, targets, x) {
            let j = choose|j: int|
                0 <= j < ms.len() && (#[trigger] ms[j]).root == x && !holds_target(ms[j], targets);
            lemma_tree_size_monotonic(0, ms[j].height);
            assert(covers(ms[j], targets[b]));
        } else {
            let a = choose|a: int|
                0 <= a < targets.len() && is_free_side(m.size, targets, #[trigger] targets[a], x);
            let st = side_trail(ms[peak_index(ms, targets[a])], targets[a]);
            let j = choose|j: int|
                0 <= j < st.len() && (#[trigger] st[j]).root == x && !holds_target(st[j], targets);
            lemma_tree_size_monotonic(0, st[j].height);
            assert(covers(st[j], targets[b]));
        }
    }
}

} // verus!
