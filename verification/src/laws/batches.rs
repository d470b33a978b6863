//! Batched proofs: what a proof for several targets holds and what it leaves out.

use vstd::prelude::*;
use crate::inclusion::{
    batch_positions, batch_siblings, extend, free_roots, kept_siblings, proof_of,
};
use crate::laws::soundness::{lemma_free_roots_hold, lemma_kept_hold, lemma_siblings_hold};
use crate::node_store::LedgerModel;
use crate::laws::soundness::lemma_sides_miss;
use crate::shape::{
    Mountain, child_toward, covers, grounded, holds_target, is_leaf_position, leaf_under,
    lemma_child_roots, lemma_children, lemma_covering_peak, lemma_other_child_misses,
    lemma_peak_covers, lemma_peaks_are_row, lemma_row_roots_rise, lemma_side_trail,
    lemma_tree_size_monotonic, mmr_peaks, other_child, peak_index, side_trail, side_trail_up,
    valid_size,
};

verus! {

/// The two runs name the same positions, in whatever order and however often.
pub open spec fn same_targets(a: Seq<nat>, b: Seq<nat>) -> bool {
    forall|x: nat| a.contains(x) <==> b.contains(x)
}

/// Whether a subtree holds a target depends on which positions are targets alone.
pub proof fn lemma_holds_target_same(c: Mountain, a: Seq<nat>, b: Seq<nat>)
    requires
        same_targets(a, b),
    ensures
        holds_target(c, a) == holds_target(c, b),
{
    if holds_target(c, a) {
        let i = choose|i: int| 0 <= i < a.len() && covers(c, #[trigger] a[i]);
        assert(a.contains(a[i]));
        let j = choose|j: int| 0 <= j < b.len() && b[j] == a[i];
        assert(covers(c, b[j]));
    }
    if holds_target(c, b) {
        let i = choose|i: int| 0 <= i < b.len() && covers(c, #[trigger] b[i]);
        assert(b.contains(b[i]));
        let j = choose|j: int| 0 <= j < a.len() && a[j] == b[i];
        assert(covers(c, a[j]));
    }
}

/// The free roots of a run of subtrees depend on which positions are targets alone.
pub proof fn lemma_free_roots_same(cs: Seq<Mountain>, a: Seq<nat>, b: Seq<nat>)
    requires
        same_targets(a, b),
    ensures
        free_roots(cs, a) == free_roots(cs, b),
    decreases cs.len(),
{
    if cs.len() > 0 {
        lemma_free_roots_same(cs.drop_last(), a, b);
        lemma_holds_target_same(cs.last(), a, b);
    }
}

/// Extending a run by positions that it holds already leaves it as it is.
pub proof fn lemma_extend_absorbs(acc: Seq<nat>, xs: Seq<nat>)
    requires
        forall|i: int| 0 <= i < xs.len() ==> acc.contains(#[trigger] xs[i]),
    ensures
        extend(acc, xs) == acc,
    decreases xs.len(),
{
    if xs.len() > 0 {
        let front = xs.drop_last();
        assert forall|i: int| 0 <= i < front.len() implies acc.contains(#[trigger] front[i]) by {
            assert(front[i] == xs[i]);
        }
        lemma_extend_absorbs(acc, front);
        assert(acc.contains(xs[xs.len() - 1]));
    }
}

/// The siblings of a batch depend on which positions are targets alone, given the
/// targets gone through.
pub proof fn lemma_siblings_same(size: nat, a: Seq<nat>, b: Seq<nat>, upto: Seq<nat>)
    requires
        same_targets(a, b),
    ensures
        batch_siblings(size, a, upto) == batch_siblings(size, b, upto),
    decreases upto.len(),
{
    if upto.len() > 0 {
        lemma_siblings_same(size, a, b, upto.drop_last());
        let ms = mmr_peaks(size);
        let t = upto.last();
        lemma_free_roots_same(
            side_trail_up(ms[peak_index(ms, t)], t),
            a,
            b,
        );
    }
}

/// Going through a target a second time adds no sibling.
pub proof fn lemma_siblings_skip_repeat(
    size: nat,
    targets: Seq<nat>,
    front: Seq<nat>,
    t: nat,
    back: Seq<nat>,
)
    requires
        front.contains(t),
    ensures
        batch_siblings(size, targets, front + seq![t] + back) == batch_siblings(
            size,
            targets,
            front + back,
        ),
    decreases back.len(),
{
    let long = front + seq![t] + back;
    let short = front + back;
    if back.len() == 0 {
        assert(long.drop_last() =~= front);
        assert(long.last() == t);
        assert(short =~= front);
        let kept = kept_siblings(size, targets, t);
        let sofar = batch_siblings(size, targets, front);
        assert forall|i: int| 0 <= i < kept.len() implies sofar.contains(#[trigger] kept[i]) by {
            let x = kept[i];
            assert(kept.contains(x));
            lemma_kept_hold(size, targets, t, x);
            lemma_siblings_hold(size, targets, front, x);
            let a = choose|a: int| 0 <= a < front.len() && front[a] == t;
            assert(front[a] == t);
        }
        lemma_extend_absorbs(sofar, kept);
    } else {
        assert(long.drop_last() =~= front + seq![t] + back.drop_last());
        assert(short.drop_last() =~= front + back.drop_last());
        assert(long.last() == back.last());
        assert(short.last() == back.last());
        lemma_siblings_skip_repeat(size, targets, front, t, back.drop_last());
    }
}

/// Asking for a target a second time changes nothing: the proof for a request in
/// which a target is repeated is the proof for the request without the repeat.
pub proof fn law_repeated_target_changes_nothing(
    m: LedgerModel,
    front: Seq<nat>,
    t: nat,
    back: Seq<nat>,
)
    requires
        front.contains(t),
    ensures
        proof_of(m, front + seq![t] + back) == proof_of(m, front + back),
{
    let long = front + seq![t] + back;
    let short = front + back;
    assert forall|x: nat| long.contains(x) <==> short.contains(x) by {
        if long.contains(x) {
            let i = choose|i: int| 0 <= i < long.len() && long[i] == x;
            if i < front.len() {
                assert(short[i] == x);
            } else if i == front.len() {
                let a = choose|a: int| 0 <= a < front.len() && front[a] == t;
                assert(short[a] == x);
            } else {
                assert(short[i - 1] == x);
            }
        }
        if short.contains(x) {
            let i = choose|i: int| 0 <= i < short.len() && short[i] == x;
            if i < front.len() {
                assert(long[i] == x);
            } else {
                assert(long[i + 1] == x);
            }
        }
    }
    lemma_siblings_same(m.size, long, short, long);
    lemma_siblings_skip_repeat(m.size, short, front, t, back);
    lemma_free_roots_same(mmr_peaks(m.size), long, short);
    assert(batch_positions(m.size, long) == batch_positions(m.size, short));
}


/// No two of the subtrees have the same root.
pub open spec fn roots_differ(cs: Seq<Mountain>) -> bool {
    forall|i: int, j: int|
        0 <= i < j < cs.len() ==> (#[trigger] cs[i]).root != (#[trigger] cs[j]).root
}

/// Each of `small` is among `large`.
pub open spec fn among(small: Seq<nat>, large: Seq<nat>) -> bool {
    forall|i: int| 0 <= i < small.len() ==> large.contains(#[trigger] small[i])
}

/// A subtree that holds one of a few targets holds one of more.
pub proof fn lemma_holds_target_more(c: Mountain, small: Seq<nat>, large: Seq<nat>)
    requires
        among(small, large),
        holds_target(c, small),
    ensures
        holds_target(c, large),
{
    let i = choose|i: int| 0 <= i < small.len() && covers(c, #[trigger] small[i]);
    assert(large.contains(small[i]));
    let j = choose|j: int| 0 <= j < large.len() && large[j] == small[i];
    assert(covers(c, large[j]));
}

/// With more targets no more roots are free; with a subtree that holds one of the
/// added targets alone, fewer are.
pub proof fn lemma_free_roots_shrink(cs: Seq<Mountain>, small: Seq<nat>, large: Seq<nat>)
    requires
        among(small, large),
    ensures
        free_roots(cs, large).len() <= free_roots(cs, small).len() <= cs.len(),
        (exists|j: int|
            0 <= j < cs.len() && !holds_target(#[trigger] cs[j], small) && holds_target(
                cs[j],
                large,
            )) ==> free_roots(cs, large).len() < free_roots(cs, small).len(),
        (exists|j: int| 0 <= j < cs.len() && !holds_target(#[trigger] cs[j], small))
            ==> free_roots(cs, small).len() >= 1,
    decreases cs.len(),
{
    if cs.len() > 0 {
        let front = cs.drop_last();
        lemma_free_roots_shrink(front, small, large);
        if holds_target(cs.last(), small) {
            lemma_holds_target_more(cs.last(), small, large);
        }
        if exists|j: int|
            0 <= j < cs.len() && !holds_target(#[trigger] cs[j], small) && holds_target(
                cs[j],
                large,
            ) {
            let j = choose|j: int|
                0 <= j < cs.len() && !holds_target(#[trigger] cs[j], small) && holds_target(
                    cs[j],
                    large,
                );
            if j < front.len() {
                assert(front[j] == cs[j]);
            } else {
                assert(cs[j] == cs.last());
            }
        }
        if exists|j: int| 0 <= j < cs.len() && !holds_target(#[trigger] cs[j], small) {
            let j = choose|j: int| 0 <= j < cs.len() && !holds_target(#[trigger] cs[j], small);
            if j < front.len() {
                assert(front[j] == cs[j]);
            } else {
                assert(cs[j] == cs.last());
            }
        }
    }
}

/// The free roots of subtrees with different roots are all different.
pub proof fn lemma_free_roots_differ(cs: Seq<Mountain>, targets: Seq<nat>)
    requires
        roots_differ(cs),
    ensures
        free_roots(cs, targets).no_duplicates(),
    decreases cs.len(),
{
    if cs.len() > 0 {
        let front = cs.drop_last();
        let sofar = free_roots(front, targets);
        assert forall|i: int, j: int| 0 <= i < j < front.len() implies (#[trigger] front[i]).root
            != (#[trigger] front[j]).root by {
            assert(front[i] == cs[i]);
            assert(front[j] == cs[j]);
        }
        lemma_free_roots_differ(front, targets);
        if !holds_target(cs.last(), targets) {
            let x = cs.last().root;
            lemma_free_roots_hold(front, targets, x);
            if sofar.contains(x) {
                let j = choose|j: int|
                    0 <= j < front.len() && (#[trigger] front[j]).root == x && !holds_target(
                        front[j],
                        targets,
                    );
                assert(front[j] == cs[j]);
                assert(cs[cs.len() - 1] == cs.last());
            }
            let longer = sofar.push(x);
            assert forall|i: int, j: int|
                0 <= i < longer.len() && 0 <= j < longer.len() && i != j implies longer[i]
                != longer[j] by {
                if i < sofar.len() && j < sofar.len() {
                    assert(sofar[i] != sofar[j]);
                } else if i < sofar.len() {
                    assert(sofar.contains(sofar[i]));
                } else {
                    assert(sofar.contains(sofar[j]));
                }
            }
        }
    }
}

/// An extended run is no longer than the two runs together.
pub proof fn lemma_extend_len(acc: Seq<nat>, xs: Seq<nat>)
    ensures
        extend(acc, xs).len() <= acc.len() + xs.len(),
    decreases xs.len(),
{
    if xs.len() > 0 {
        lemma_extend_len(acc, xs.drop_last());
    }
}

/// A run extended by positions that are all different and that it does not hold is as
/// long as the two runs together.
pub proof fn lemma_extend_fresh(acc: Seq<nat>, xs: Seq<nat>)
    requires
        xs.no_duplicates(),
        forall|i: int| 0 <= i < xs.len() ==> !acc.contains(#[trigger] xs[i]),
    ensures
        extend(acc, xs) == acc + xs,
    decreases xs.len(),
{
    if xs.len() > 0 {
        let front = xs.drop_last();
        assert forall|i: int| 0 <= i < front.len() implies !acc.contains(#[trigger] front[i]) by {
            assert(front[i] == xs[i]);
        }
        assert forall|i: int, j: int|
            0 <= i < front.len() && 0 <= j < front.len() && i != j implies front[i]
            != front[j] by {
            assert(front[i] == xs[i] && front[j] == xs[j]);
        }
        lemma_extend_fresh(acc, front);
        let sofar = acc + front;
        if sofar.contains(xs.last()) {
            let a = choose|a: int| 0 <= a < sofar.len() && sofar[a] == xs.last();
            if a < acc.len() {
                assert(acc[a] == xs.last());
                assert(acc.contains(xs[xs.len() - 1]));
            } else {
                assert(front[a - acc.len()] == xs[a - acc.len()]);
                assert(xs[a - acc.len()] == xs[xs.len() - 1]);
            }
        }
        assert(sofar.push(xs.last()) =~= acc + xs);
    } else {
        assert(acc + xs =~= acc);
    }
}

/// The roots of the subtrees passed by on the way down to a leaf lie in the tree,
/// left of its root.
pub proof fn lemma_sides_inside(m: Mountain, pos: nat)
    requires
        grounded(m),
        covers(m, pos),
        leaf_under(m, pos),
    ensures
        forall|j: int|
            0 <= j < side_trail(m, pos).len() ==> covers(
                m,
                (#[trigger] side_trail(m, pos)[j]).root,
            ) && side_trail(m, pos)[j].root < m.root,
    decreases m.height,
{
    if m.height > 0 {
        let child = child_toward(m, pos);
        let st = side_trail(m, pos);
        lemma_children(m, pos);
        lemma_other_child_misses(m, pos);
        lemma_child_roots(m);
        lemma_sides_inside(child, pos);
        assert forall|j: int| 0 <= j < st.len() implies covers(m, (#[trigger] st[j]).root)
            && st[j].root < m.root by {
            if j > 0 {
                assert(st[j] == side_trail(child, pos)[j - 1]);
                assert(covers(child, st[j].root));
            }
        }
    }
}

/// The subtrees passed by on the way down to a leaf have different roots.
pub proof fn lemma_sides_differ(m: Mountain, pos: nat)
    requires
        grounded(m),
        covers(m, pos),
        leaf_under(m, pos),
    ensures
        roots_differ(side_trail(m, pos)),
        roots_differ(side_trail_up(m, pos)),
    decreases m.height,
{
    let st = side_trail(m, pos);
    let up = side_trail_up(m, pos);
    lemma_side_trail(m, pos);
    if m.height > 0 {
        let child = child_toward(m, pos);
        lemma_children(m, pos);
        lemma_other_child_misses(m, pos);
        lemma_child_roots(m);
        lemma_sides_inside(child, pos);
        lemma_sides_differ(child, pos);
        lemma_side_trail(child, pos);
        let below = side_trail(child, pos);
        assert forall|i: int, j: int| 0 <= i < j < st.len() implies (#[trigger] st[i]).root != (
        #[trigger] st[j]).root by {
            assert(st[j] == below[j - 1]);
            assert(covers(child, below[j - 1].root));
            if i > 0 {
                assert(st[i] == below[i - 1]);
            } else {
                assert(st[0] == other_child(m, pos));
                assert(!covers(child, other_child(m, pos).root));
            }
        }
    }
    assert forall|i: int, j: int| 0 <= i < j < up.len() implies (#[trigger] up[i]).root != (
    #[trigger] up[j]).root by {
        assert(up[i] == st[m.height - 1 - i]);
        assert(up[j] == st[m.height - 1 - j]);
    }
}

/// Two different leaves under one tree part ways: one of the subtrees passed by on the
/// way down to the first holds the second.
pub proof fn lemma_ways_part(m: Mountain, a: nat, b: nat)
    requires
        grounded(m),
        covers(m, a),
        covers(m, b),
        leaf_under(m, a),
        leaf_under(m, b),
        a != b,
    ensures
        exists|j: int| 0 <= j < side_trail(m, a).len() && covers(#[trigger] side_trail(m, a)[j], b),
    decreases m.height,
{
    lemma_tree_size_monotonic(0, m.height);
    if m.height > 0 {
        let st = side_trail(m, a);
        lemma_children(m, a);
        lemma_children(m, b);
        lemma_child_roots(m);
        if child_toward(m, a) == child_toward(m, b) {
            let child = child_toward(m, a);
            lemma_ways_part(child, a, b);
            let j = choose|j: int|
                0 <= j < side_trail(child, a).len() && covers(#[trigger] side_trail(child, a)[j], b);
            assert(st[j + 1] == side_trail(child, a)[j]);
        } else {
            assert(st[0] == other_child(m, a));
            assert(other_child(m, a) == child_toward(m, b));
        }
    }
}

/// The proof for one leaf holds every sibling on its way up and every other peak:
/// it is as long as those together.
pub proof fn lemma_single_len(size: nat, a: nat)
    requires
        valid_size(size),
        is_leaf_position(size, a),
    ensures
        batch_positions(size, seq![a]).len() == kept_siblings(size, seq![a], a).len() + free_roots(
            mmr_peaks(size),
            seq![a],
        ).len(),
{
    let ms = mmr_peaks(size);
    let k = peak_index(ms, a);
    let targets = seq![a];
    let kept = kept_siblings(size, targets, a);
    let free = free_roots(ms, targets);
    let none = Seq::<nat>::empty();
    lemma_peaks_are_row(size, 0, 64);
    lemma_peak_covers(ms, 64, a);
    lemma_sides_differ(ms[k], a);
    lemma_sides_inside(ms[k], a);
    lemma_side_trail(ms[k], a);
    lemma_free_roots_differ(side_trail_up(ms[k], a), targets);
    assert(roots_differ(ms)) by {
        assert forall|i: int, j: int| 0 <= i < j < ms.len() implies (#[trigger] ms[i]).root != (
        #[trigger] ms[j]).root by {
            lemma_row_roots_rise(ms, 0, 64, i, j);
            lemma_tree_size_monotonic(0, ms[j].height);
        }
    }
    lemma_free_roots_differ(ms, targets);
    assert(targets.drop_last() =~= none);
    assert(targets.last() == a);
    assert(batch_siblings(size, targets, targets.drop_last()) =~= none);
    lemma_extend_fresh(none, kept);
    assert(none + kept =~= kept);
    assert forall|i: int| 0 <= i < free.len() implies !kept.contains(#[trigger] free[i]) by {
        let x = free[i];
        assert(free.contains(x));
        lemma_free_roots_hold(ms, targets, x);
        let j = choose|j: int|
            0 <= j < ms.len() && (#[trigger] ms[j]).root == x && !holds_target(ms[j], targets);
        if kept.contains(x) {
            lemma_kept_hold(size, targets, a, x);
            let st = side_trail(ms[k], a);
            let c = choose|c: int|
                0 <= c < st.len() && (#[trigger] st[c]).root == x && !holds_target(st[c], targets);
            assert(covers(ms[k], st[c].root));
            lemma_tree_size_monotonic(0, ms[j].height);
            assert(covers(ms[j], x));
            lemma_covering_peak(ms, 0, 64, x, j);
            lemma_covering_peak(ms, 0, 64, x, k);
        }
    }
    lemma_extend_fresh(kept, free);
}

/// A batched proof for two different leaves is shorter than their two single proofs
/// together.
pub proof fn law_batch_is_shorter(size: nat, a: nat, b: nat)
    requires
        valid_size(size),
        is_leaf_position(size, a),
        is_leaf_position(size, b),
        a != b,
    ensures
        batch_positions(size, seq![a, b]).len() < batch_positions(size, seq![a]).len()
            + batch_positions(size, seq![b]).len(),
{
    let ms = mmr_peaks(size);
    let ka = peak_index(ms, a);
    let kb = peak_index(ms, b);
    let both = seq![a, b];
    let only_a = seq![a];
    let only_b = seq![b];
    let none = Seq::<nat>::empty();
    lemma_peaks_are_row(size, 0, 64);
    lemma_peak_covers(ms, 64, a);
    lemma_peak_covers(ms, 64, b);
    lemma_single_len(size, a);
    lemma_single_len(size, b);
    assert(both[0] == a && both[1] == b && only_a[0] == a && only_b[0] == b);
    assert(among(only_a, both)) by {
        assert(both.contains(both[0]));
    }
    assert(among(only_b, both)) by {
        assert(both.contains(both[1]));
    }
    let up_a = side_trail_up(ms[ka], a);
    let up_b = side_trail_up(ms[kb], b);
    lemma_free_roots_shrink(up_a, only_a, both);
    lemma_free_roots_shrink(up_b, only_b, both);
    lemma_free_roots_shrink(ms, only_a, both);
    lemma_free_roots_shrink(ms, only_b, both);

    // The batch is no longer than what it is put together from.
    assert(both.drop_last() =~= only_a);
    assert(both.last() == b);
    assert(only_a.drop_last() =~= none);
    assert(only_a.last() == a);
    assert(batch_siblings(size, both, none) =~= none);
    lemma_extend_len(none, kept_siblings(size, both, a));
    lemma_extend_len(batch_siblings(size, both, only_a), kept_siblings(size, both, b));
    lemma_extend_len(batch_siblings(size, both, both), free_roots(ms, both));

    if ka == kb {
        // Under one peak the ways part, and the sibling at the parting holds the other.
        lemma_ways_part(ms[ka], a, b);
        lemma_sides_miss(ms[ka], a);
        lemma_side_trail(ms[ka], a);
        let st = side_trail(ms[ka], a);
        let j = choose|j: int| 0 <= j < st.len() && covers(#[trigger] st[j], b);
        let c = up_a[ms[ka].height - 1 - j];
        assert(c == st[j]);
        assert(covers(c, both[1]));
        assert(holds_target(c, both));
        assert(!covers(st[j], a));
        assert(!holds_target(c, only_a));
    } else {
        // Under two peaks each single proof holds the other's peak, the batch neither.
        if covers(ms[kb], a) {
            lemma_covering_peak(ms, 0, 64, a, kb);
        }
        assert(!holds_target(ms[kb], only_a));
    }
}


/// The roots of `cs` without the one at `k`, in order.
pub open spec fn roots_but(cs: Seq<Mountain>, k: int) -> Seq<nat> {
    Seq::new(
        (cs.len() - 1) as nat,
        |i: int|
            if i < k {
                cs[i].root
            } else {
                cs[i + 1].root
            },
    )
}

/// The roots of `cs`, in order.
pub open spec fn roots_of(cs: Seq<Mountain>) -> Seq<nat> {
    Seq::new(cs.len(), |i: int| cs[i].root)
}

/// Where no subtree holds a target, every root is free.
pub proof fn lemma_free_roots_all(cs: Seq<Mountain>, targets: Seq<nat>)
    requires
        forall|j: int| 0 <= j < cs.len() ==> !holds_target(#[trigger] cs[j], targets),
    ensures
        free_roots(cs, targets) == roots_of(cs),
    decreases cs.len(),
{
    if cs.len() > 0 {
        let front = cs.drop_last();
        assert forall|j: int| 0 <= j < front.len() implies !holds_target(
            #[trigger] front[j],
            targets,
        ) by {
            assert(front[j] == cs[j]);
        }
        lemma_free_roots_all(front, targets);
        assert(!holds_target(cs[cs.len() - 1], targets));
        assert(roots_of(front).push(cs.last().root) =~= roots_of(cs));
    } else {
        assert(free_roots(cs, targets) =~= roots_of(cs));
    }
}

/// Where one subtree alone holds a target, every root but its root is free.
pub proof fn lemma_free_roots_but_one(cs: Seq<Mountain>, targets: Seq<nat>, k: int)
    requires
        0 <= k < cs.len(),
        holds_target(cs[k], targets),
        forall|j: int| 0 <= j < cs.len() && j != k ==> !holds_target(#[trigger] cs[j], targets),
    ensures
        free_roots(cs, targets) == roots_but(cs, k),
    decreases cs.len(),
{
    let front = cs.drop_last();
    if k == cs.len() - 1 {
        assert forall|j: int| 0 <= j < front.len() implies !holds_target(
            #[trigger] front[j],
            targets,
        ) by {
            assert(front[j] == cs[j]);
        }
        lemma_free_roots_all(front, targets);
        assert(cs.last() == cs[k]);
        assert(roots_of(front) =~= roots_but(cs, k));
    } else {
        assert(front[k] == cs[k]);
        assert forall|j: int| 0 <= j < front.len() && j != k implies !holds_target(
            #[trigger] front[j],
            targets,
        ) by {
            assert(front[j] == cs[j]);
        }
        lemma_free_roots_but_one(front, targets, k);
        assert(!holds_target(cs[cs.len() - 1], targets));
        assert(roots_but(front, k).push(cs.last().root) =~= roots_but(cs, k));
    }
}

/// The form of a proof for one leaf: every sibling on the way from the leaf up to its
/// peak, lowest first, then every other peak, from left to right.
pub proof fn law_single_proof_form(size: nat, a: nat)
    requires
        valid_size(size),
        is_leaf_position(size, a),
    ensures
        batch_positions(size, seq![a]) == roots_of(
            side_trail_up(mmr_peaks(size)[peak_index(mmr_peaks(size), a)], a),
        ) + roots_but(mmr_peaks(size), peak_index(mmr_peaks(size), a)),
{
    let ms = mmr_peaks(size);
    let k = peak_index(ms, a);
    let targets = seq![a];
    let up = side_trail_up(ms[k], a);
    let kept = kept_siblings(size, targets, a);
    let free = free_roots(ms, targets);
    let none = Seq::<nat>::empty();
    lemma_peaks_are_row(size, 0, 64);
    lemma_peak_covers(ms, 64, a);
    lemma_single_len(size, a);
    lemma_sides_miss(ms[k], a);
    lemma_side_trail(ms[k], a);
    assert(targets[0] == a);
    assert forall|j: int| 0 <= j < up.len() implies !holds_target(#[trigger] up[j], targets) by {
        assert(up[j] == side_trail(ms[k], a)[ms[k].height - 1 - j]);
        assert(!covers(side_trail(ms[k], a)[ms[k].height - 1 - j], a));
    }
    lemma_free_roots_all(up, targets);
    assert(covers(ms[k], targets[0]));
    assert forall|j: int| 0 <= j < ms.len() && j != k implies !holds_target(
        #[trigger] ms[j],
        targets,
    ) by {
        if covers(ms[j], a) {
            lemma_covering_peak(ms, 0, 64, a, j);
        }
    }
    lemma_free_roots_but_one(ms, targets, k);

    // Nothing is dropped as a repeat, as was shown for the length.
    lemma_sides_differ(ms[k], a);
    lemma_sides_inside(ms[k], a);
    lemma_free_roots_differ(up, targets);
    assert(targets.drop_last() =~= none);
    assert(targets.last() == a);
    assert(batch_siblings(size, targets, targets.drop_last()) =~= none);
    lemma_extend_fresh(none, kept);
    assert(none + kept =~= kept);
    let all = batch_positions(size, targets);
    assert(all.len() == kept.len() + free.len());
    lemma_extend_is_join(kept, free);
}

/// An extended run that is as long as the two runs together is the two joined.
pub proof fn lemma_extend_is_join(acc: Seq<nat>, xs: Seq<nat>)
    requires
        extend(acc, xs).len() == acc.len() + xs.len(),
    ensures
        extend(acc, xs) == acc + xs,
    decreases xs.len(),
{
    if xs.len() > 0 {
        let front = xs.drop_last();
        lemma_extend_len(acc, front);
        lemma_extend_is_join(acc, front);
        assert((acc + front).push(xs.last()) =~= acc + xs);
    } else {
        assert(acc + xs =~= acc);
    }
}

} // verus!
