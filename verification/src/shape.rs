//! The shape of a Merkle Mountain Range: which positions are peaks, and how a
//! position is reached from the peak above it.
//!
//! Nodes are numbered in creation order. A perfect tree of height `h` therefore
//! occupies `tree_size(h)` consecutive positions in post-order: its left subtree,
//! its right subtree, then its root.

use vstd::prelude::*;
use vstd::arithmetic::power2::{pow2, lemma2_to64, lemma2_to64_rest, lemma_pow2_unfold};

verus! {

/// Number of nodes of a perfect binary tree of height `h` (a single leaf has height 0).
pub open spec fn tree_size(h: nat) -> nat
    decreases h,
{
    if h == 0 {
        1
    } else {
        2 * tree_size((h - 1) as nat) + 1
    }
}

/// A perfect subtree of the range, named by the position of its root and its height.
pub struct Mountain {
    pub root: nat,
    pub height: nat,
}

/// The peaks of height below `h` that a greedy split of `rem` nodes yields, tallest
/// first, when the first of them starts at position `base`.
pub open spec fn peaks_below(rem: nat, base: nat, h: nat) -> Seq<Mountain>
    decreases h,
{
    if h == 0 {
        Seq::empty()
    } else {
        let g = (h - 1) as nat;
        let t = tree_size(g);
        if rem >= t {
            seq![Mountain { root: (base + t - 1) as nat, height: g }] + peaks_below(
                (rem - t) as nat,
                base + t,
                g,
            )
        } else {
            peaks_below(rem, base, g)
        }
    }
}

/// The nodes that are left over once `rem` has been split into peaks of height below `h`.
pub open spec fn rest_below(rem: nat, h: nat) -> nat
    decreases h,
{
    if h == 0 {
        rem
    } else {
        let g = (h - 1) as nat;
        let t = tree_size(g);
        if rem >= t {
            rest_below((rem - t) as nat, g)
        } else {
            rest_below(rem, g)
        }
    }
}

/// The peaks of a range of `size` nodes, from the tallest (leftmost, oldest) to the
/// shortest (rightmost, newest).
pub open spec fn mmr_peaks(size: nat) -> Seq<Mountain> {
    peaks_below(size, 0, 64)
}

/// A node count is valid when it splits into perfect trees of strictly falling height
/// with nothing left over.
pub open spec fn valid_size(size: nat) -> bool {
    rest_below(size, 64) == 0
}

/// `ms` is a row of mountains that starts at `base`, each standing directly right of
/// the one before it, with heights that fall strictly and start below `bound`.
pub open spec fn is_row(ms: Seq<Mountain>, base: nat, bound: nat) -> bool {
    &&& ms.len() > 0 ==> ms[0].height < bound && ms[0].root + 1 == base + tree_size(ms[0].height)
    &&& forall|i: int, j: int|
        0 <= i && j == i + 1 && j < ms.len() ==> {
            &&& (#[trigger] ms[j]).height < (#[trigger] ms[i]).height
            &&& ms[j].root == ms[i].root + tree_size(ms[j].height)
        }
}

/// The first position right of the row `ms` that starts at `base`.
pub open spec fn row_end(ms: Seq<Mountain>, base: nat) -> nat {
    if ms.len() == 0 {
        base
    } else {
        ms.last().root + 1
    }
}

/// A perfect tree of height `h` has `2^(h + 1) - 1` nodes.
pub proof fn lemma_tree_size_pow2(h: nat)
    ensures
        tree_size(h) + 1 == pow2(h + 1),
    decreases h,
{
    lemma_pow2_unfold(h + 1);
    if h == 0 {
        lemma2_to64();
    } else {
        lemma_tree_size_pow2((h - 1) as nat);
    }
}

/// A higher tree has no fewer nodes, and every tree has at least one.
pub proof fn lemma_tree_size_monotonic(a: nat, b: nat)
    requires
        a <= b,
    ensures
        1 <= tree_size(a) <= tree_size(b),
    decreases b,
{
    if b == 0 {
    } else if a < b {
        lemma_tree_size_monotonic(a, (b - 1) as nat);
    } else {
        lemma_tree_size_monotonic((a - 1) as nat, (b - 1) as nat);
    }
}

/// A tree of height 63 fills the positions of 64 bits but one: it has `u64::MAX` nodes.
pub proof fn lemma_tree_size_63()
    ensures
        tree_size(63) == u64::MAX,
{
    lemma_tree_size_pow2(63);
    lemma2_to64_rest();
}

/// The greedy split always yields a row, and the row together with the leftover
/// accounts for every node.
pub proof fn lemma_peaks_are_row(rem: nat, base: nat, h: nat)
    ensures
        is_row(peaks_below(rem, base, h), base, h),
        row_end(peaks_below(rem, base, h), base) + rest_below(rem, h) == base + rem,
        peaks_below(rem, base, h).len() <= h,
    decreases h,
{
    if h > 0 {
        let g = (h - 1) as nat;
        let t = tree_size(g);
        lemma_tree_size_monotonic(0, g);
        if rem >= t {
            let first = Mountain { root: (base + t - 1) as nat, height: g };
            let tail = peaks_below((rem - t) as nat, base + t, g);
            lemma_peaks_are_row((rem - t) as nat, base + t, g);
            lemma_row_cons(first, tail, base, h);
        } else {
            lemma_peaks_are_row(rem, base, g);
            lemma_row_rebound(peaks_below(rem, base, g), base, g, h);
        }
    }
}

/// A mountain at `base` followed by a row that starts right of it, under its height,
/// is a row.
pub proof fn lemma_row_cons(first: Mountain, tail: Seq<Mountain>, base: nat, bound: nat)
    requires
        first.height < bound,
        first.root + 1 == base + tree_size(first.height),
        is_row(tail, first.root + 1, first.height),
    ensures
        is_row(seq![first] + tail, base, bound),
        row_end(seq![first] + tail, base) == row_end(tail, first.root + 1),
{
    let ms = seq![first] + tail;
    assert(ms[0] == first);
    assert forall|i: int, j: int| 0 <= i && j == i + 1 && j < ms.len() implies {
        &&& (#[trigger] ms[j]).height < (#[trigger] ms[i]).height
        &&& ms[j].root == ms[i].root + tree_size(ms[j].height)
    } by {
        assert(ms[j] == tail[j - 1]);
        if i > 0 {
            assert(ms[i] == tail[i - 1]);
        }
    }
    if tail.len() > 0 {
        assert(ms.last() == tail.last());
    }
}

/// What is left of a row once its first mountain is taken away is a row again.
pub proof fn lemma_row_tail(ms: Seq<Mountain>, base: nat, bound: nat)
    requires
        is_row(ms, base, bound),
        ms.len() > 0,
    ensures
        is_row(ms.skip(1), ms[0].root + 1, ms[0].height),
        row_end(ms.skip(1), ms[0].root + 1) == row_end(ms, base),
        ms[0].height < bound,
        ms[0].root + 1 == base + tree_size(ms[0].height),
{
    let tail = ms.skip(1);
    if tail.len() > 0 {
        assert(tail[0] == ms[1]);
        assert(tail.last() == ms.last());
    }
    assert forall|i: int, j: int| 0 <= i && j == i + 1 && j < tail.len() implies {
        &&& (#[trigger] tail[j]).height < (#[trigger] tail[i]).height
        &&& tail[j].root == tail[i].root + tree_size(tail[j].height)
    } by {
        assert(tail[j] == ms[j + 1]);
        assert(tail[i] == ms[i + 1]);
    }
}

/// A row stays a row under any bound that is above the height of its first mountain.
pub proof fn lemma_row_rebound(ms: Seq<Mountain>, base: nat, bound: nat, other: nat)
    requires
        is_row(ms, base, bound),
        ms.len() > 0 ==> ms[0].height < other,
    ensures
        is_row(ms, base, other),
{
}

/// A row under the bound `h` spans fewer nodes than one tree of height `h`.
pub proof fn lemma_row_span(ms: Seq<Mountain>, base: nat, h: nat)
    requires
        is_row(ms, base, h),
    ensures
        base <= row_end(ms, base),
        row_end(ms, base) - base < tree_size(h),
        ms.len() <= h,
    decreases ms.len(),
{
    lemma_tree_size_monotonic(0, h);
    if ms.len() > 0 {
        let g = ms[0].height;
        lemma_row_tail(ms, base, h);
        lemma_row_span(ms.skip(1), ms[0].root + 1, g);
        lemma_tree_size_monotonic(g + 1, h);
    }
}

/// A row is exactly what the greedy split of its own span yields.
pub proof fn lemma_row_is_peaks(ms: Seq<Mountain>, base: nat, h: nat)
    requires
        is_row(ms, base, h),
    ensures
        base <= row_end(ms, base),
        peaks_below((row_end(ms, base) - base) as nat, base, h) == ms,
        rest_below((row_end(ms, base) - base) as nat, h) == 0,
    decreases h,
{
    lemma_row_span(ms, base, h);
    let span = (row_end(ms, base) - base) as nat;
    if h == 0 {
        assert(peaks_below(span, base, h) =~= ms);
    } else {
        let g = (h - 1) as nat;
        let t = tree_size(g);
        if ms.len() == 0 || ms[0].height < g {
            lemma_row_rebound(ms, base, h, g);
            lemma_row_span(ms, base, g);
            lemma_row_is_peaks(ms, base, g);
        } else {
            let tail = ms.skip(1);
            let b = ms[0].root + 1;
            lemma_row_tail(ms, base, h);
            assert(ms[0].height == g);
            assert(b == base + t);
            lemma_row_span(tail, b, g);
            lemma_row_is_peaks(tail, b, g);
            assert(span == t + (row_end(tail, b) - b));
            assert(ms[0] == Mountain { root: (base + t - 1) as nat, height: g });
            assert(peaks_below(span, base, h) == seq![ms[0]] + peaks_below(
                (span - t) as nat,
                base + t,
                g,
            ));
            assert(seq![ms[0]] + tail =~= ms);
        }
    }
}

/// The left child of a mountain of height above 0.
pub open spec fn left_child(m: Mountain) -> Mountain {
    Mountain {
        root: (m.root - 1 - tree_size((m.height - 1) as nat)) as nat,
        height: (m.height - 1) as nat,
    }
}

/// The right child of a mountain of height above 0.
pub open spec fn right_child(m: Mountain) -> Mountain {
    Mountain { root: (m.root - 1) as nat, height: (m.height - 1) as nat }
}

/// Whether `pos` lies in the left half of `m`.
pub open spec fn goes_left(m: Mountain, pos: nat) -> bool {
    pos <= left_child(m).root
}

/// A mountain that does not start before position 0.
pub open spec fn grounded(m: Mountain) -> bool {
    m.root + 1 >= tree_size(m.height)
}

/// Whether `pos` is one of the positions of `m`.
pub open spec fn covers(m: Mountain, pos: nat) -> bool {
    m.root + 1 <= pos + tree_size(m.height) && pos <= m.root
}

/// One level of the way from a peak down to a leaf: the position of the sibling that is
/// passed by, and whether that sibling is the left child.
pub struct Turn {
    pub sibling: nat,
    pub sibling_is_left: bool,
}

/// The turn taken at `m` on the way to `pos`.
pub open spec fn turn_at(m: Mountain, pos: nat) -> Turn {
    if goes_left(m, pos) {
        Turn { sibling: right_child(m).root, sibling_is_left: false }
    } else {
        Turn { sibling: left_child(m).root, sibling_is_left: true }
    }
}

/// The child of `m` whose subtree holds `pos`.
pub open spec fn child_toward(m: Mountain, pos: nat) -> Mountain {
    if goes_left(m, pos) {
        left_child(m)
    } else {
        right_child(m)
    }
}

/// Whether `pos`, a position of `m`, is a leaf of `m`.
pub open spec fn leaf_under(m: Mountain, pos: nat) -> bool
    decreases m.height,
{
    if m.height == 0 {
        true
    } else if pos >= m.root {
        false
    } else {
        leaf_under(child_toward(m, pos), pos)
    }
}

/// The turns from the root of `m` down to `pos`, topmost first.
pub open spec fn trail(m: Mountain, pos: nat) -> Seq<Turn>
    decreases m.height,
{
    if m.height == 0 {
        Seq::empty()
    } else {
        seq![turn_at(m, pos)] + trail(child_toward(m, pos), pos)
    }
}

/// The index of the first mountain of `ms` whose root is not left of `pos`.
pub open spec fn peak_index(ms: Seq<Mountain>, pos: nat) -> int
    decreases ms.len(),
{
    if ms.len() == 0 || pos <= ms[0].root {
        0
    } else {
        1 + peak_index(ms.skip(1), pos)
    }
}

/// Whether `pos` is the position of a leaf in a range of `size` nodes.
pub open spec fn is_leaf_position(size: nat, pos: nat) -> bool {
    &&& pos < size
    &&& peak_index(mmr_peaks(size), pos) < mmr_peaks(size).len()
    &&& leaf_under(mmr_peaks(size)[peak_index(mmr_peaks(size), pos)], pos)
}

/// `peak_index` passes over the mountains whose roots are left of `pos` and stops at
/// the first other.
pub proof fn lemma_peak_index(ms: Seq<Mountain>, pos: nat)
    ensures
        0 <= peak_index(ms, pos) <= ms.len(),
        forall|j: int| 0 <= j < peak_index(ms, pos) ==> (#[trigger] ms[j]).root < pos,
        peak_index(ms, pos) < ms.len() ==> pos <= ms[peak_index(ms, pos)].root,
    decreases ms.len(),
{
    if ms.len() == 0 || pos <= ms[0].root {
    } else {
        let tail = ms.skip(1);
        lemma_peak_index(tail, pos);
        assert forall|j: int| 0 <= j < peak_index(ms, pos) implies (#[trigger] ms[j]).root
            < pos by {
            if j > 0 {
                assert(ms[j] == tail[j - 1]);
            }
        }
    }
}

/// In a row that starts at position 0, the mountain that `peak_index` picks for a
/// position left of the row's end is the one that covers it.
pub proof fn lemma_peak_covers(ms: Seq<Mountain>, bound: nat, pos: nat)
    requires
        is_row(ms, 0, bound),
        pos < row_end(ms, 0),
    ensures
        0 <= peak_index(ms, pos) < ms.len(),
        covers(ms[peak_index(ms, pos)], pos),
        grounded(ms[peak_index(ms, pos)]),
{
    lemma_peak_index(ms, pos);
    let k = peak_index(ms, pos);
    if k == ms.len() {
        assert(ms[k - 1].root < pos);
    }
    if k > 0 {
        assert(ms[k - 1].root < pos);
    }
    lemma_row_grounded(ms, 0, bound, k);
}

/// Every mountain of a row stands at or right of the row's base and is lower than
/// the row's bound; its left neighbour, where it has one, ends right before it.
pub proof fn lemma_row_grounded(ms: Seq<Mountain>, base: nat, bound: nat, k: int)
    requires
        is_row(ms, base, bound),
        0 <= k < ms.len(),
    ensures
        ms[k].root + 1 >= base + tree_size(ms[k].height),
        ms[k].height < bound,
        k > 0 ==> ms[k].root + 1 == ms[k - 1].root + 1 + tree_size(ms[k].height),
    decreases k,
{
    if k > 0 {
        lemma_row_grounded(ms, base, bound, k - 1);
        lemma_tree_size_monotonic(0, ms[k - 1].height);
        assert(ms[k].root == ms[k - 1].root + tree_size(ms[k].height));
    }
}

/// The two children of a grounded mountain split its positions, apart from its root,
/// between them, and are grounded themselves.
pub proof fn lemma_children(m: Mountain, pos: nat)
    requires
        m.height > 0,
        grounded(m),
        covers(m, pos),
        pos < m.root,
    ensures
        grounded(left_child(m)),
        grounded(right_child(m)),
        left_child(m).root + tree_size((m.height - 1) as nat) == right_child(m).root,
        right_child(m).root + 1 == m.root,
        covers(child_toward(m, pos), pos),
        grounded(child_toward(m, pos)),
        child_toward(m, pos).height + 1 == m.height,
{
    lemma_tree_size_monotonic(0, (m.height - 1) as nat);
}


/// A range with at least one node has at least one peak.
pub proof fn lemma_peaks_nonempty(size: nat)
    requires
        valid_size(size),
        size > 0,
    ensures
        mmr_peaks(size).len() > 0,
{
    lemma_peaks_are_row(size, 0, 64);
}


/// The first `n` mountains of a row are a row.
pub proof fn lemma_row_take(ms: Seq<Mountain>, base: nat, bound: nat, n: int)
    requires
        is_row(ms, base, bound),
        0 <= n <= ms.len(),
    ensures
        is_row(ms.take(n), base, bound),
        n > 0 ==> row_end(ms.take(n), base) == ms[n - 1].root + 1,
        n == 0 ==> row_end(ms.take(n), base) == base,
{
    let front = ms.take(n);
    assert forall|i: int, j: int| 0 <= i && j == i + 1 && j < front.len() implies {
        &&& (#[trigger] front[j]).height < (#[trigger] front[i]).height
        &&& front[j].root == front[i].root + tree_size(front[j].height)
    } by {
        assert(front[j] == ms[j]);
        assert(front[i] == ms[i]);
    }
    if n > 0 {
        assert(front[0] == ms[0]);
        assert(front.last() == ms[n - 1]);
    }
}

/// A row with one more mountain that stands right of it and is lower than its last
/// mountain is a row.
pub proof fn lemma_row_push(ms: Seq<Mountain>, base: nat, bound: nat, m: Mountain)
    requires
        is_row(ms, base, bound),
        m.root + 1 == row_end(ms, base) + tree_size(m.height),
        ms.len() > 0 ==> m.height < ms.last().height,
        ms.len() == 0 ==> m.height < bound,
    ensures
        is_row(ms.push(m), base, bound),
        row_end(ms.push(m), base) == m.root + 1,
{
    let longer = ms.push(m);
    assert forall|i: int, j: int| 0 <= i && j == i + 1 && j < longer.len() implies {
        &&& (#[trigger] longer[j]).height < (#[trigger] longer[i]).height
        &&& longer[j].root == longer[i].root + tree_size(longer[j].height)
    } by {
        assert(longer[i] == ms[i]);
        if j < ms.len() {
            assert(longer[j] == ms[j]);
        }
    }
    if ms.len() > 0 {
        assert(longer[0] == ms[0]);
    }
}

/// The children of a grounded mountain are grounded and lie left of its root.
pub proof fn lemma_child_roots(m: Mountain)
    requires
        m.height > 0,
        grounded(m),
    ensures
        grounded(left_child(m)),
        grounded(right_child(m)),
        left_child(m).root + tree_size((m.height - 1) as nat) == right_child(m).root,
        right_child(m).root + 1 == m.root,
{
    lemma_tree_size_monotonic(0, (m.height - 1) as nat);
}

/// A tree whose nodes all have positions that fit 64 bits is at most 63 high.
pub proof fn lemma_height_fits(h: nat)
    requires
        tree_size(h) <= u64::MAX + 1,
    ensures
        h <= 63,
{
    if h >= 64 {
        lemma_tree_size_63();
        lemma_tree_size_monotonic(64, h);
    }
}


/// Whether `pos` is a leaf of one of the mountains of `ms`.
pub open spec fn leaf_in_row(ms: Seq<Mountain>, pos: nat) -> bool {
    exists|i: int| 0 <= i < ms.len() && is_leaf_of(#[trigger] ms[i], pos)
}

/// Whether `pos` is a position of `m` and a leaf of it.
pub open spec fn is_leaf_of(m: Mountain, pos: nat) -> bool {
    covers(m, pos) && leaf_under(m, pos)
}

/// The roots of a row rise from left to right.
pub proof fn lemma_row_roots_rise(ms: Seq<Mountain>, base: nat, bound: nat, a: int, b: int)
    requires
        is_row(ms, base, bound),
        0 <= a < b < ms.len(),
    ensures
        ms[a].root + tree_size(ms[b].height) <= ms[b].root,
    decreases b - a,
{
    lemma_tree_size_monotonic(0, ms[b].height);
    if a + 1 < b {
        lemma_row_roots_rise(ms, base, bound, a, b - 1);
        assert(ms[b].root == ms[b - 1].root + tree_size(ms[b].height));
    } else {
        assert(ms[b].root == ms[a].root + tree_size(ms[b].height));
    }
}

/// The leaf positions of a valid size are the leaves of its peaks.
pub proof fn lemma_leaf_position_in_row(size: nat, pos: nat)
    requires
        valid_size(size),
    ensures
        is_leaf_position(size, pos) <==> leaf_in_row(mmr_peaks(size), pos),
{
    let ms = mmr_peaks(size);
    lemma_peaks_are_row(size, 0, 64);
    lemma_peak_index(ms, pos);
    let k = peak_index(ms, pos);
    if is_leaf_position(size, pos) {
        lemma_peak_covers(ms, 64, pos);
        assert(is_leaf_of(ms[k], pos));
    }
    if leaf_in_row(ms, pos) {
        let i = choose|i: int| 0 <= i < ms.len() && is_leaf_of(#[trigger] ms[i], pos);
        lemma_row_span_in(ms, 0, 64, i);
        if i < k {
            assert(ms[i].root < pos);
        }
        if i > k {
            lemma_row_roots_rise(ms, 0, 64, k, i);
        }
        assert(i == k);
    }
}

/// Every mountain of a row ends at or before the end of the row.
pub proof fn lemma_row_span_in(ms: Seq<Mountain>, base: nat, bound: nat, i: int)
    requires
        is_row(ms, base, bound),
        0 <= i < ms.len(),
    ensures
        ms[i].root + 1 <= row_end(ms, base),
{
    if i + 1 < ms.len() {
        lemma_row_roots_rise(ms, base, bound, i, ms.len() - 1);
    }
}


/// In a row every mountain is at least as high as the last.
pub proof fn lemma_row_heights_fall(ms: Seq<Mountain>, base: nat, bound: nat, i: int)
    requires
        is_row(ms, base, bound),
        0 <= i < ms.len(),
    ensures
        ms[i].height >= ms.last().height + (ms.len() - 1 - i),
    decreases ms.len() - i,
{
    if i + 1 < ms.len() {
        lemma_row_heights_fall(ms, base, bound, i + 1);
        assert(ms[i + 1].height < ms[i].height);
    }
}


/// The child of `m` whose subtree does not hold `pos`: the sibling that is passed by.
pub open spec fn other_child(m: Mountain, pos: nat) -> Mountain {
    if goes_left(m, pos) {
        right_child(m)
    } else {
        left_child(m)
    }
}

/// The subtrees that are passed by on the way from the root of `m` down to `pos`,
/// topmost first.
pub open spec fn side_trail(m: Mountain, pos: nat) -> Seq<Mountain>
    decreases m.height,
{
    if m.height == 0 {
        Seq::empty()
    } else {
        seq![other_child(m, pos)] + side_trail(child_toward(m, pos), pos)
    }
}

/// The subtrees that are passed by on the way from `pos` up to the root of `m`,
/// lowest first.
pub open spec fn side_trail_up(m: Mountain, pos: nat) -> Seq<Mountain> {
    Seq::new(m.height, |i: int| side_trail(m, pos)[m.height - 1 - i])
}

/// Whether one of `targets` is a position of `m`.
pub open spec fn holds_target(m: Mountain, targets: Seq<nat>) -> bool {
    exists|i: int| 0 <= i < targets.len() && covers(m, #[trigger] targets[i])
}

/// The subtrees passed by are the subtrees under the siblings of the trail, one level
/// lower at each turn.
pub proof fn lemma_side_trail(m: Mountain, pos: nat)
    ensures
        side_trail(m, pos).len() == m.height,
        trail(m, pos).len() == m.height,
        forall|j: int|
            0 <= j < m.height ==> (#[trigger] side_trail(m, pos)[j]).root == trail(
                m,
                pos,
            )[j].sibling && side_trail(m, pos)[j].height + j + 1 == m.height,
    decreases m.height,
{
    if m.height > 0 {
        let child = child_toward(m, pos);
        lemma_side_trail(child, pos);
        let st = side_trail(m, pos);
        let t = trail(m, pos);
        assert forall|j: int| 0 <= j < m.height implies (#[trigger] st[j]).root == t[j].sibling
            && st[j].height + j + 1 == m.height by {
            if j > 0 {
                assert(st[j] == side_trail(child, pos)[j - 1]);
                assert(t[j] == trail(child, pos)[j - 1]);
            }
        }
    }
}

/// The subtree that is passed by does not hold the position that the way leads to.
pub proof fn lemma_other_child_misses(m: Mountain, pos: nat)
    requires
        m.height > 0,
        grounded(m),
        covers(m, pos),
        pos < m.root,
    ensures
        !covers(other_child(m, pos), pos),
        grounded(other_child(m, pos)),
        covers(m, other_child(m, pos).root),
        other_child(m, pos).root < m.root,
{
    lemma_child_roots(m);
    lemma_tree_size_monotonic(0, (m.height - 1) as nat);
}

/// In a row, only the mountain that `peak_index` picks covers a position.
pub proof fn lemma_covering_peak(ms: Seq<Mountain>, base: nat, bound: nat, pos: nat, j: int)
    requires
        is_row(ms, base, bound),
        0 <= j < ms.len(),
        covers(ms[j], pos),
    ensures
        j == peak_index(ms, pos),
{
    lemma_peak_index(ms, pos);
    let k = peak_index(ms, pos);
    if j < k {
        assert(ms[j].root < pos);
    }
    if j > k {
        lemma_row_roots_rise(ms, base, bound, k, j);
    }
}

} // verus!
