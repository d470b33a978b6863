//! Inclusion proofs: what they hold, and how one is checked against a root without
//! access to the ledger.

use vstd::prelude::*;
use crate::digest::{digest_eq, merge, merge_spec};
use crate::engine::{bag, bag_peaks, consistent, has_node, node, root_of};
use crate::laws::soundness::{law_batch_is_accepted, law_proofs_verify};
use crate::error::LedgerError;
use crate::node_store::{LedgerModel, NodeStore, digests};
use crate::shape::{
    Mountain, Turn, covers, grounded, holds_target, is_leaf_position, is_row, left_child,
    lemma_child_roots, lemma_peak_covers, lemma_peaks_are_row, lemma_row_grounded,
    lemma_side_trail, mmr_peaks, peak_index, right_child, row_end, side_trail_up, trail, tree_size,
    valid_size,
};
use crate::walk::{Peak, Step, descend, locate_peak, mountains, span_of, split_peaks, turns};

verus! {

/// One node of a proof: a position of the range and the digest stored there.
#[derive(Clone, Copy, Debug)]
pub struct ProofEntry {
    pub pos: u64,
    pub digest: [u8; 32],
}

/// A proof entry, to the contracts.
pub struct EntryModel {
    pub pos: nat,
    pub digest: Seq<u8>,
}

impl View for ProofEntry {
    type V = EntryModel;

    open spec fn view(&self) -> EntryModel {
        EntryModel { pos: self.pos as nat, digest: self.digest@ }
    }
}

/// An inclusion proof: the size of the range it was made for, and the nodes that a
/// verifier needs besides the leaves themselves. For a single target these are the
/// siblings on the way from the leaf up to its peak, lowest first, then the other
/// peaks from left to right. For several targets the nodes that the verifier
/// recomputes from the targets are left out.
#[derive(Clone, Debug)]
pub struct InclusionProof {
    pub mmr_size: u64,
    pub entries: Vec<ProofEntry>,
}

/// An inclusion proof, to the contracts.
pub struct ProofModel {
    pub mmr_size: nat,
    pub entries: Seq<EntryModel>,
}

/// The entries that a run of proof entries stands for.
pub open spec fn entry_models(es: Seq<ProofEntry>) -> Seq<EntryModel> {
    Seq::new(es.len(), |i: int| es[i]@)
}

impl View for InclusionProof {
    type V = ProofModel;

    open spec fn view(&self) -> ProofModel {
        ProofModel { mmr_size: self.mmr_size as nat, entries: entry_models(self.entries@) }
    }
}

impl InclusionProof {
    /// The size of the range that the proof was made for.
    pub fn mmr_size(&self) -> (size: u64)
        ensures
            size == self@.mmr_size,
    {
        self.mmr_size
    }

    /// The digests of the proof, in order.
    pub fn proof_items(&self) -> (items: Vec<[u8; 32]>)
        ensures
            items@.len() == self@.entries.len(),
            forall|i: int| 0 <= i < items@.len() ==> (#[trigger] items@[i])@ == self@.entries[i].digest,
    {
        let mut items: Vec<[u8; 32]> = Vec::new();
        let mut i: usize = 0;
        while i < self.entries.len()
            invariant
                i <= self.entries@.len(),
                items@.len() == i,
                forall|j: int|
                    0 <= j < i ==> (#[trigger] items@[j])@ == self.entries@[j].digest@,
            decreases self.entries@.len() - i,
        {
            items.push(self.entries[i].digest);
            i = i + 1;
        }
        items
    }
}

/// The digest that the first entry for `pos` holds, if there is such an entry.
pub open spec fn lookup(entries: Seq<EntryModel>, pos: nat) -> Option<Seq<u8>>
    decreases entries.len(),
{
    if entries.len() == 0 {
        None
    } else if entries[0].pos == pos {
        Some(entries[0].digest)
    } else {
        lookup(entries.skip(1), pos)
    }
}

/// The digest of the node above one turn, from the digest `below` on the side of the
/// leaf and the sibling's digest `sibling`.
pub open spec fn step_up(turn: Turn, below: Seq<u8>, sibling: Seq<u8>) -> Seq<u8> {
    if turn.sibling_is_left {
        merge_spec(sibling, below)
    } else {
        merge_spec(below, sibling)
    }
}

/// The digest at the top of the turns `t`, topmost first, recomputed from `leaf` at
/// their bottom and the siblings that `entries` holds; `None` where a sibling is missing.
pub open spec fn climb(t: Seq<Turn>, leaf: Seq<u8>, entries: Seq<EntryModel>) -> Option<Seq<u8>>
    decreases t.len(),
{
    if t.len() == 0 {
        Some(leaf)
    } else {
        match (climb(t.skip(1), leaf, entries), lookup(entries, t[0].sibling)) {
            (Some(below), Some(sibling)) => Some(step_up(t[0], below, sibling)),
            _ => None,
        }
    }
}

/// The digest that stands for the peak `ms[i]` when the root is recomputed: `own` for
/// the peak above the leaf, and what `entries` holds for any other.
pub open spec fn peak_input(
    ms: Seq<Mountain>,
    k: int,
    own: Seq<u8>,
    entries: Seq<EntryModel>,
    i: int,
) -> Option<Seq<u8>> {
    if i == k {
        Some(own)
    } else {
        lookup(entries, ms[i].root)
    }
}

/// The peak digests from which the root is recomputed, where none is missing.
pub open spec fn peak_inputs(ms: Seq<Mountain>, k: int, own: Seq<u8>, entries: Seq<EntryModel>) -> Seq<
    Seq<u8>,
> {
    Seq::new(ms.len(), |i: int| peak_input(ms, k, own, entries, i).unwrap())
}

/// The root that the proof `p` yields for `leaf` at `pos`: the peak above the leaf is
/// recomputed from the leaf and its siblings, then folded with the other peaks as the
/// ledger folds them. `None` where the size is no valid size, `pos` is no leaf
/// position of it, or the proof lacks a node that is needed.
pub open spec fn recomputed_root(p: ProofModel, leaf: Seq<u8>, pos: nat) -> Option<Seq<u8>> {
    let ms = mmr_peaks(p.mmr_size);
    let k = peak_index(ms, pos);
    if !valid_size(p.mmr_size) || !is_leaf_position(p.mmr_size, pos) {
        None
    } else {
        match climb(trail(ms[k], pos), leaf, p.entries) {
            None => None,
            Some(own) => if forall|i: int|
                0 <= i < ms.len() ==> (#[trigger] peak_input(ms, k, own, p.entries, i)) is Some {
                Some(bag(peak_inputs(ms, k, own, p.entries)))
            } else {
                None
            },
        }
    }
}

/// Whether the proof `p` shows that `leaf` stands at `pos` under the root `root`.
pub open spec fn accepts(p: ProofModel, leaf: Seq<u8>, pos: nat, root: Seq<u8>) -> bool {
    recomputed_root(p, leaf, pos) == Some(root)
}

/// The digest of the first entry for `pos`.
pub fn find_entry(entries: &Vec<ProofEntry>, pos: u64) -> (r: Option<[u8; 32]>)
    ensures
        match r {
            Some(d) => lookup(entry_models(entries@), pos as nat) == Some(d@),
            None => lookup(entry_models(entries@), pos as nat) is None,
        },
{
    let mut i: usize = 0;
    proof {
        assert(entry_models(entries@).skip(0) =~= entry_models(entries@));
    }
    while i < entries.len()
        invariant
            i <= entries@.len(),
            lookup(entry_models(entries@), pos as nat) == lookup(
                entry_models(entries@).skip(i as int),
                pos as nat,
            ),
        decreases entries@.len() - i,
    {
        proof {
            let here = entry_models(entries@).skip(i as int);
            assert(here[0] == entries@[i as int]@);
            assert(here.skip(1) =~= entry_models(entries@).skip(i + 1));
        }
        if entries[i].pos == pos {
            return Some(entries[i].digest);
        }
        i = i + 1;
    }
    None
}

/// Once a sibling is missing at some level, the climb fails at every level above it.
pub proof fn lemma_climb_fails_above(t: Seq<Turn>, i: int, leaf: Seq<u8>, entries: Seq<EntryModel>)
    requires
        0 <= i <= t.len(),
        climb(t.skip(i), leaf, entries) is None,
    ensures
        climb(t, leaf, entries) is None,
    decreases i,
{
    if i == 0 {
        assert(t.skip(0) =~= t);
    } else {
        assert(t.skip(i - 1).skip(1) =~= t.skip(i));
        lemma_climb_fails_above(t, i - 1, leaf, entries);
    }
}

/// Recomputes the peak above the leaf from the steps of the descent, topmost first.
pub fn climb_steps(steps: &Vec<Step>, leaf: &[u8; 32], entries: &Vec<ProofEntry>) -> (r: Option<
    [u8; 32],
>)
    ensures
        match r {
            Some(d) => climb(turns(steps@), leaf@, entry_models(entries@)) == Some(d@),
            None => climb(turns(steps@), leaf@, entry_models(entries@)) is None,
        },
{
    let ghost t = turns(steps@);
    let ghost es = entry_models(entries@);
    let mut cur: [u8; 32] = *leaf;
    let mut i: usize = steps.len();
    proof {
        assert(t.skip(i as int).len() == 0);
    }
    while i > 0
        invariant
            i <= steps@.len(),
            t == turns(steps@),
            es == entry_models(entries@),
            climb(t.skip(i as int), leaf@, es) == Some(cur@),
        decreases i,
    {
        i = i - 1;
        proof {
            assert(t.skip(i as int).skip(1) =~= t.skip(i + 1));
            assert(t.skip(i as int)[0] == steps@[i as int]@);
        }
        match find_entry(entries, steps[i].sibling) {
            None => {
                proof {
                    lemma_climb_fails_above(t, i as int, leaf@, es);
                }
                return None;
            },
            Some(sibling) => {
                cur = if steps[i].sibling_is_left {
                    merge(&sibling, &cur)
                } else {
                    merge(&cur, &sibling)
                };
            },
        }
    }
    proof {
        assert(t.skip(0) =~= t);
    }
    Some(cur)
}

/// Checks an inclusion proof offline: recomputes the peak above `position` from
/// `leaf_hash` and the siblings of the proof, each on the side that the position
/// gives it, folds that peak with the other peaks of the proof as the ledger folds
/// its peaks, and compares the result with `expected_root`.
pub fn verify_proof(
    proof: &InclusionProof,
    leaf_hash: &[u8; 32],
    position: u64,
    expected_root: &[u8; 32],
) -> (ok: bool)
    ensures
        ok == accepts(proof@, leaf_hash@, position as nat, expected_root@),
{
    let size: u64 = proof.mmr_size;
    let (peaks, rest) = split_peaks(size);
    if rest != 0 || position >= size {
        return false;
    }
    let ghost ms = mmr_peaks(size as nat);
    let ghost es = proof@.entries;
    proof {
        lemma_peaks_are_row(size as nat, 0, 64);
        lemma_peak_covers(ms, 64, position as nat);
    }
    let k: usize = locate_peak(&peaks, position);
    let steps = match descend(peaks[k], position) {
        None => {
            return false;
        },
        Some(steps) => steps,
    };
    let own = match climb_steps(&steps, leaf_hash, &proof.entries) {
        None => {
            return false;
        },
        Some(own) => own,
    };
    let mut inputs: Vec<[u8; 32]> = Vec::new();
    let mut i: usize = 0;
    while i < peaks.len()
        invariant
            i <= peaks@.len(),
            k < peaks@.len(),
            k == peak_index(ms, position as nat),
            size == proof@.mmr_size,
            valid_size(size as nat),
            is_leaf_position(size as nat, position as nat),
            climb(trail(ms[k as int], position as nat), leaf_hash@, es) == Some(own@),
            ms == mmr_peaks(size as nat),
            ms == mountains(peaks@),
            es == proof@.entries,
            inputs@.len() == i,
            forall|j: int|
                0 <= j < i ==> (#[trigger] peak_input(ms, k as int, own@, es, j)) == Some(
                    inputs@[j]@,
                ),
        decreases peaks@.len() - i,
    {
        if i == k {
            inputs.push(own);
        } else {
            match find_entry(&proof.entries, peaks[i].pos) {
                None => {
                    proof {
                        assert(peak_input(ms, k as int, own@, es, i as int) is None);
                    }
                    return false;
                },
                Some(d) => {
                    inputs.push(d);
                },
            }
        }
        i = i + 1;
    }
    proof {
        assert(digests(inputs@) =~= peak_inputs(ms, k as int, own@, es));
    }
    match bag_peaks(&inputs) {
        Some(root) => digest_eq(&root, expected_root),
        None => false,
    }
}


/// `acc`, followed by those of `xs` that are not in it yet, each once and in order.
pub open spec fn extend(acc: Seq<nat>, xs: Seq<nat>) -> Seq<nat>
    decreases xs.len(),
{
    if xs.len() == 0 {
        acc
    } else {
        let sofar = extend(acc, xs.drop_last());
        if sofar.contains(xs.last()) {
            sofar
        } else {
            sofar.push(xs.last())
        }
    }
}

/// The roots of those of the subtrees `cs` that hold none of `targets`, in order. Such
/// a subtree cannot be recomputed from the targets, so a proof must bring its root.
pub open spec fn free_roots(cs: Seq<Mountain>, targets: Seq<nat>) -> Seq<nat>
    decreases cs.len(),
{
    if cs.len() == 0 {
        Seq::empty()
    } else {
        let front = free_roots(cs.drop_last(), targets);
        if holds_target(cs.last(), targets) {
            front
        } else {
            front.push(cs.last().root)
        }
    }
}

/// The siblings that a proof for `targets` brings for the target `t`: those on the way
/// from `t` up to its peak, lowest first, that are neither a target nor above one.
pub open spec fn kept_siblings(size: nat, targets: Seq<nat>, t: nat) -> Seq<nat> {
    let ms = mmr_peaks(size);
    free_roots(side_trail_up(ms[peak_index(ms, t)], t), targets)
}

/// The siblings that a proof for `targets` brings for the first targets `upto`, target
/// by target, none twice.
pub open spec fn batch_siblings(size: nat, targets: Seq<nat>, upto: Seq<nat>) -> Seq<nat>
    decreases upto.len(),
{
    if upto.len() == 0 {
        Seq::empty()
    } else {
        extend(
            batch_siblings(size, targets, upto.drop_last()),
            kept_siblings(size, targets, upto.last()),
        )
    }
}

/// The positions of the nodes of a proof for `targets`: for each target, in the order
/// given, the siblings on its way up that are neither a target nor above one, lowest
/// first; then the peaks that hold no target, from left to right. No position stands
/// twice. For one target these are all siblings on its way up and all other peaks.
pub open spec fn batch_positions(size: nat, targets: Seq<nat>) -> Seq<nat> {
    extend(batch_siblings(size, targets, targets), free_roots(mmr_peaks(size), targets))
}

/// The entries for the positions `ps`, with the digests that the node map holds there.
pub open spec fn entries_at(nodes: Map<u64, Seq<u8>>, ps: Seq<nat>) -> Seq<EntryModel> {
    Seq::new(ps.len(), |i: int| EntryModel { pos: ps[i], digest: node(nodes, ps[i]) })
}

/// Whether the node map holds a digest at each of the positions `ps`.
pub open spec fn all_present(nodes: Map<u64, Seq<u8>>, ps: Seq<nat>) -> bool {
    forall|i: int| 0 <= i < ps.len() ==> has_node(nodes, #[trigger] ps[i])
}

/// A request names at least one target, and each target is the position of a leaf.
pub open spec fn valid_request(size: nat, targets: Seq<nat>) -> bool {
    &&& targets.len() > 0
    &&& forall|i: int| 0 <= i < targets.len() ==> is_leaf_position(size, #[trigger] targets[i])
}

/// Why no proof can be given for `targets`, if none can.
pub open spec fn proof_failure(m: LedgerModel, targets: Seq<nat>) -> Option<LedgerError> {
    if !valid_size(m.size) {
        Some(LedgerError::CorruptState)
    } else if !valid_request(m.size, targets) {
        Some(LedgerError::InvalidProofRequest)
    } else if !all_present(m.nodes, batch_positions(m.size, targets)) {
        Some(LedgerError::CorruptState)
    } else {
        None
    }
}

/// The proof that a ledger gives for `targets`.
pub open spec fn proof_of(m: LedgerModel, targets: Seq<nat>) -> ProofModel {
    ProofModel {
        mmr_size: m.size,
        entries: entries_at(m.nodes, batch_positions(m.size, targets)),
    }
}

/// The positions of a run of entries.
pub open spec fn entry_positions(es: Seq<EntryModel>) -> Seq<nat> {
    Seq::new(es.len(), |i: int| es[i].pos)
}

/// The digest of the root of `m`, rebuilt from the leaves that are given and the
/// entries of a proof: a subtree that holds none of the leaves is taken from the
/// entries, a given leaf is taken as it is given, and any other node is the merge of
/// its two children. `None` where a node that is needed is missing.
pub open spec fn rebuilt(m: Mountain, leaves: Seq<EntryModel>, entries: Seq<EntryModel>) -> Option<
    Seq<u8>,
>
    decreases m.height,
{
    if !holds_target(m, entry_positions(leaves)) {
        lookup(entries, m.root)
    } else if m.height == 0 {
        lookup(leaves, m.root)
    } else {
        match (
            rebuilt(left_child(m), leaves, entries),
            rebuilt(right_child(m), leaves, entries),
        ) {
            (Some(left), Some(right)) => Some(merge_spec(left, right)),
            _ => None,
        }
    }
}

/// The digests of the peaks `ms`, each rebuilt from the leaves and the entries.
pub open spec fn rebuilt_peaks(ms: Seq<Mountain>, leaves: Seq<EntryModel>, entries: Seq<EntryModel>) -> Seq<
    Seq<u8>,
> {
    Seq::new(ms.len(), |j: int| rebuilt(ms[j], leaves, entries).unwrap())
}

/// Whether the proof `p` shows that each of `leaves` stands at its position under the
/// root `root`: the size is a valid size, at least one leaf is given and each at the
/// position of a leaf, every peak can be rebuilt from the leaves and the entries, and
/// the peaks fold to `root` as the ledger folds them.
pub open spec fn accepts_batch(p: ProofModel, leaves: Seq<EntryModel>, root: Seq<u8>) -> bool {
    let ms = mmr_peaks(p.mmr_size);
    &&& valid_size(p.mmr_size)
    &&& leaves.len() > 0
    &&& forall|i: int|
        0 <= i < leaves.len() ==> is_leaf_position(p.mmr_size, (#[trigger] leaves[i]).pos)
    &&& forall|j: int| 0 <= j < ms.len() ==> (#[trigger] rebuilt(ms[j], leaves, p.entries)) is Some
    &&& bag(rebuilt_peaks(ms, leaves, p.entries)) == root
}

/// What a consistent ledger owes to a valid request: a proof that is accepted for all
/// targets together, each with the digest that the ledger holds there; and where one
/// target is asked for, a proof that is accepted for that leaf alone.
pub open spec fn owed(m: LedgerModel, targets: Seq<nat>) -> bool {
    consistent(m) && valid_request(m.size, targets) ==> {
        &&& proof_failure(m, targets) is None
        &&& accepts_batch(proof_of(m, targets), entries_at(m.nodes, targets), root_of(m))
        &&& targets.len() == 1 ==> accepts(
            proof_of(m, targets),
            node(m.nodes, targets[0]),
            targets[0],
            root_of(m),
        )
    }
}

/// The positions of a run of `u64`, as natural numbers.
pub open spec fn nats(ps: Seq<u64>) -> Seq<nat> {
    Seq::new(ps.len(), |i: int| ps[i] as nat)
}

/// Whether `x` is among `acc`.
pub fn holds_position(acc: &Vec<u64>, x: u64) -> (found: bool)
    ensures
        found == nats(acc@).contains(x as nat),
{
    let mut i: usize = 0;
    while i < acc.len()
        invariant
            i <= acc@.len(),
            forall|j: int| 0 <= j < i ==> acc@[j] != x,
        decreases acc@.len() - i,
    {
        if acc[i] == x {
            proof {
                assert(nats(acc@)[i as int] == x as nat);
            }
            return true;
        }
        i = i + 1;
    }
    proof {
        assert forall|j: int| 0 <= j < nats(acc@).len() implies nats(acc@)[j] != x as nat by {
            assert(acc@[j] != x);
        }
    }
    false
}

/// Adds to `acc` those of `xs` that it does not hold yet.
pub fn extend_positions(acc: &mut Vec<u64>, xs: &Vec<u64>)
    ensures
        nats(final(acc)@) == extend(nats(old(acc)@), nats(xs@)),
{
    let ghost start = nats(acc@);
    let mut i: usize = 0;
    proof {
        assert(nats(xs@).take(0).len() == 0);
    }
    while i < xs.len()
        invariant
            i <= xs@.len(),
            nats(acc@) == extend(start, nats(xs@).take(i as int)),
        decreases xs@.len() - i,
    {
        let ghost sofar = nats(acc@);
        proof {
            let upto = nats(xs@).take(i + 1);
            assert(upto.drop_last() =~= nats(xs@).take(i as int));
            assert(upto.last() == xs@[i as int] as nat);
        }
        if !holds_position(acc, xs[i]) {
            acc.push(xs[i]);
            proof {
                assert(nats(acc@) =~= sofar.push(xs@[i as int] as nat));
            }
        }
        i = i + 1;
    }
    proof {
        assert(nats(xs@).take(xs@.len() as int) =~= nats(xs@));
    }
}

/// Whether one of `targets` is a position of the subtree `c`.
pub fn covers_any(c: Peak, targets: &Vec<u64>) -> (found: bool)
    requires
        c.height <= 63,
    ensures
        found == holds_target(c@, nats(targets@)),
{
    let span: u64 = span_of(c.height);
    let mut i: usize = 0;
    while i < targets.len()
        invariant
            i <= targets@.len(),
            span == tree_size(c.height as nat),
            forall|j: int| 0 <= j < i ==> !covers(c@, #[trigger] nats(targets@)[j]),
        decreases targets@.len() - i,
    {
        let t: u64 = targets[i];
        proof {
            assert(nats(targets@)[i as int] == t as nat);
        }
        if t <= c.pos && c.pos - t < span {
            return true;
        }
        i = i + 1;
    }
    false
}

/// The roots of those of the subtrees `cs` that hold none of `targets`, in order.
pub fn free_positions(cs: &Vec<Peak>, targets: &Vec<u64>) -> (r: Vec<u64>)
    requires
        forall|i: int| 0 <= i < cs@.len() ==> (#[trigger] cs@[i]).height <= 63,
    ensures
        nats(r@) == free_roots(mountains(cs@), nats(targets@)),
{
    let mut out: Vec<u64> = Vec::new();
    let mut i: usize = 0;
    proof {
        assert(mountains(cs@).take(0).len() == 0);
        assert(nats(out@) =~= free_roots(mountains(cs@).take(0), nats(targets@)));
    }
    while i < cs.len()
        invariant
            i <= cs@.len(),
            forall|j: int| 0 <= j < cs@.len() ==> (#[trigger] cs@[j]).height <= 63,
            nats(out@) == free_roots(mountains(cs@).take(i as int), nats(targets@)),
        decreases cs@.len() - i,
    {
        let ghost sofar = nats(out@);
        proof {
            let upto = mountains(cs@).take(i + 1);
            assert(upto.drop_last() =~= mountains(cs@).take(i as int));
            assert(upto.last() == cs@[i as int]@);
        }
        if !covers_any(cs[i], targets) {
            out.push(cs[i].pos);
            proof {
                assert(nats(out@) =~= sofar.push(cs@[i as int].pos as nat));
            }
        }
        i = i + 1;
    }
    proof {
        assert(mountains(cs@).take(cs@.len() as int) =~= mountains(cs@));
    }
    out
}

/// The subtrees that the steps of a descent pass by, lowest first: the sibling of the
/// last step stands at height 0, the one before it at height 1, and so on.
pub fn sides_of(steps: &Vec<Step>) -> (r: Vec<Peak>)
    requires
        steps@.len() <= 63,
    ensures
        r@.len() == steps@.len(),
        forall|i: int|
            0 <= i < r@.len() ==> (#[trigger] r@[i]).pos == steps@[steps@.len() - 1 - i].sibling
                && r@[i].height == i,
{
    let mut out: Vec<Peak> = Vec::new();
    let mut i: usize = steps.len();
    let mut height: u32 = 0;
    while i > 0
        invariant
            i <= steps@.len() <= 63,
            height + i == steps@.len(),
            out@.len() == height,
            forall|j: int|
                0 <= j < out@.len() ==> (#[trigger] out@[j]).pos == steps@[steps@.len() - 1
                    - j].sibling && out@[j].height == j,
        decreases i,
    {
        i = i - 1;
        out.push(Peak { pos: steps[i].sibling, height });
        height = height + 1;
    }
    out
}

/// Makes the inclusion proof for one or more leaf positions. For each target, in the
/// order given, the proof takes up the siblings on the way from the leaf up to its
/// peak, lowest first, then the peaks from left to right; it leaves out every node
/// that is a target or stands above one, since the verifier recomputes those from the
/// leaves, and takes up no node twice. For one target these are all siblings on its
/// way and all other peaks. Nothing is recomputed: every digest is read from the store.
///
/// Fails with `InvalidProofRequest` where no target is given or a target is not the
/// position of a leaf below the size, and with `CorruptState` where the size is no
/// valid size or the store lacks a node that the proof needs.
pub fn gen_proof(store: &NodeStore, targets: &Vec<u64>) -> (r: Result<InclusionProof, LedgerError>)
    ensures
        match r {
            Ok(proof) => proof_failure(store@, nats(targets@)) is None && proof@ == proof_of(
                store@,
                nats(targets@),
            ),
            Err(e) => proof_failure(store@, nats(targets@)) == Some(e),
        },
        consistent(store@) && valid_request(store@.size, nats(targets@)) ==> {
            &&& r is Ok
            &&& accepts_batch(
                r.unwrap()@,
                entries_at(store@.nodes, nats(targets@)),
                root_of(store@),
            )
            &&& targets@.len() == 1 ==> accepts(
                r.unwrap()@,
                node(store@.nodes, targets@[0] as nat),
                targets@[0] as nat,
                root_of(store@),
            )
        },
{
    let size: u64 = store.size();
    let ghost wanted_targets = nats(targets@);
    proof {
        if consistent(store@) && valid_request(store@.size, wanted_targets) {
            law_batch_is_accepted(store@, wanted_targets);
            if wanted_targets.len() == 1 {
                law_proofs_verify(store@, wanted_targets[0]);
                assert(wanted_targets =~= seq![wanted_targets[0]]);
            }
        }
    }
    let (peaks, rest) = split_peaks(size);
    if rest != 0 {
        return Err(LedgerError::CorruptState);
    }
    if targets.len() == 0 {
        return Err(LedgerError::InvalidProofRequest);
    }
    let ghost ms = mmr_peaks(size as nat);
    proof {
        lemma_peaks_are_row(size as nat, 0, 64);
    }
    // Every target is looked at before any node is collected.
    let mut i: usize = 0;
    while i < targets.len()
        invariant
            i <= targets@.len(),
            store@.size == size,
            valid_size(size as nat),
            ms == mmr_peaks(size as nat),
            ms == mountains(peaks@),
            is_row(ms, 0, 64),
            row_end(ms, 0) == size,
            wanted_targets == nats(targets@),
            forall|j: int| 0 <= j < i ==> is_leaf_position(size as nat, #[trigger] wanted_targets[j]),
        decreases targets@.len() - i,
    {
        let pos: u64 = targets[i];
        proof {
            assert(wanted_targets[i as int] == pos as nat);
        }
        if pos >= size {
            return Err(LedgerError::InvalidProofRequest);
        }
        proof {
            lemma_peak_covers(ms, 64, pos as nat);
        }
        let k: usize = locate_peak(&peaks, pos);
        if descend(peaks[k], pos).is_none() {
            return Err(LedgerError::InvalidProofRequest);
        }
        i = i + 1;
    }
    let mut wanted: Vec<u64> = Vec::new();
    let mut i: usize = 0;
    proof {
        assert(wanted_targets.take(0).len() == 0);
        assert(nats(wanted@) =~= batch_siblings(size as nat, wanted_targets, wanted_targets.take(0)));
    }
    while i < targets.len()
        invariant
            i <= targets@.len(),
            store@.size == size,
            valid_size(size as nat),
            ms == mmr_peaks(size as nat),
            ms == mountains(peaks@),
            is_row(ms, 0, 64),
            row_end(ms, 0) == size,
            forall|j: int| 0 <= j < peaks@.len() ==> (#[trigger] peaks@[j]).height <= 63,
            wanted_targets == nats(targets@),
            valid_request(size as nat, wanted_targets),
            owed(store@, wanted_targets),
            nats(wanted@) == batch_siblings(
                size as nat,
                wanted_targets,
                wanted_targets.take(i as int),
            ),
        decreases targets@.len() - i,
    {
        let pos: u64 = targets[i];
        proof {
            assert(wanted_targets[i as int] == pos as nat);
            assert(is_leaf_position(size as nat, wanted_targets[i as int]));
            let upto = wanted_targets.take(i + 1);
            assert(upto.drop_last() =~= wanted_targets.take(i as int));
            assert(upto.last() == pos as nat);
            lemma_peak_covers(ms, 64, pos as nat);
        }
        let k: usize = locate_peak(&peaks, pos);
        let steps = match descend(peaks[k], pos) {
            None => {
                return Err(LedgerError::InvalidProofRequest);
            },
            Some(steps) => steps,
        };
        proof {
            lemma_side_trail(ms[k as int], pos as nat);
        }
        let sides = sides_of(&steps);
        proof {
            assert(mountains(sides@) =~= side_trail_up(ms[k as int], pos as nat));
        }
        let kept = free_positions(&sides, targets);
        extend_positions(&mut wanted, &kept);
        i = i + 1;
    }
    proof {
        assert(wanted_targets.take(targets@.len() as int) =~= wanted_targets);
    }
    let free = free_positions(&peaks, targets);
    extend_positions(&mut wanted, &free);
    let ghost ps = nats(wanted@);
    let mut entries: Vec<ProofEntry> = Vec::new();
    let mut n: usize = 0;
    while n < wanted.len()
        invariant
            n <= wanted@.len(),
            store@.size == size,
            valid_size(size as nat),
            valid_request(size as nat, wanted_targets),
            wanted_targets == nats(targets@),
            owed(store@, wanted_targets),
            ps == nats(wanted@),
            ps == batch_positions(size as nat, wanted_targets),
            entries@.len() == n,
            forall|j: int| 0 <= j < n ==> has_node(store@.nodes, #[trigger] ps[j]),
            forall|j: int|
                0 <= j < n ==> (#[trigger] entries@[j])@ == (EntryModel {
                    pos: ps[j],
                    digest: node(store@.nodes, ps[j]),
                }),
        decreases wanted@.len() - n,
    {
        let p: u64 = wanted[n];
        proof {
            assert(ps[n as int] == p as nat);
        }
        match store.get(p) {
            None => {
                proof {
                    assert(!has_node(store@.nodes, ps[n as int]));
                }
                return Err(LedgerError::CorruptState);
            },
            Some(d) => {
                entries.push(ProofEntry { pos: p, digest: d });
            },
        }
        n = n + 1;
    }
    let proof = InclusionProof { mmr_size: size, entries };
    proof {
        assert(proof@.entries =~= entries_at(store@.nodes, ps));
    }
    Ok(proof)
}

/// Rebuilds the digest of the root of the subtree `m` from the leaves that are given,
/// whose positions are `positions`, and the entries of a proof.
pub fn rebuild(m: Peak, positions: &Vec<u64>, leaves: &Vec<ProofEntry>, entries: &Vec<ProofEntry>) -> (r:
    Option<[u8; 32]>)
    requires
        m.height <= 63,
        grounded(m@),
        nats(positions@) == entry_positions(entry_models(leaves@)),
    ensures
        match r {
            Some(d) => rebuilt(m@, entry_models(leaves@), entry_models(entries@)) == Some(d@),
            None => rebuilt(m@, entry_models(leaves@), entry_models(entries@)) is None,
        },
    decreases m.height,
{
    if !covers_any(m, positions) {
        return find_entry(entries, m.pos);
    }
    if m.height == 0 {
        return find_entry(leaves, m.pos);
    }
    let span: u64 = span_of(m.height);
    proof {
        lemma_child_roots(m@);
    }
    let half: u64 = (span - 1) / 2;
    let left = Peak { pos: m.pos - 1 - half, height: m.height - 1 };
    let right = Peak { pos: m.pos - 1, height: m.height - 1 };
    proof {
        assert(left@ == left_child(m@));
        assert(right@ == right_child(m@));
    }
    match rebuild(left, positions, leaves, entries) {
        None => None,
        Some(l) => match rebuild(right, positions, leaves, entries) {
            None => None,
            Some(r) => Some(merge(&l, &r)),
        },
    }
}

/// Checks an inclusion proof for several leaves offline. Each leaf is given as an
/// entry: its position and its digest. Every peak that holds a given leaf is
/// recomputed from the leaves and the entries of the proof, the other peaks are taken
/// from the proof, and the peaks are folded as the ledger folds them and compared
/// with `expected_root`.
pub fn verify_batch(proof: &InclusionProof, leaves: &Vec<ProofEntry>, expected_root: &[u8; 32]) -> (ok:
    bool)
    ensures
        ok == accepts_batch(proof@, entry_models(leaves@), expected_root@),
{
    let size: u64 = proof.mmr_size;
    let (peaks, rest) = split_peaks(size);
    if rest != 0 || leaves.len() == 0 {
        return false;
    }
    let ghost ms = mmr_peaks(size as nat);
    let ghost lm = entry_models(leaves@);
    let ghost em = proof@.entries;
    proof {
        lemma_peaks_are_row(size as nat, 0, 64);
    }
    let mut positions: Vec<u64> = Vec::new();
    let mut i: usize = 0;
    while i < leaves.len()
        invariant
            i <= leaves@.len(),
            size == proof@.mmr_size,
            valid_size(size as nat),
            ms == mmr_peaks(size as nat),
            ms == mountains(peaks@),
            is_row(ms, 0, 64),
            row_end(ms, 0) == size,
            lm == entry_models(leaves@),
            positions@.len() == i,
            forall|j: int| 0 <= j < i ==> positions@[j] == leaves@[j].pos,
            forall|j: int| 0 <= j < i ==> is_leaf_position(size as nat, (#[trigger] lm[j]).pos),
        decreases leaves@.len() - i,
    {
        let pos: u64 = leaves[i].pos;
        proof {
            assert(lm[i as int].pos == pos as nat);
        }
        if pos >= size {
            proof {
                assert(!is_leaf_position(size as nat, lm[i as int].pos));
            }
            return false;
        }
        proof {
            lemma_peak_covers(ms, 64, pos as nat);
        }
        let k: usize = locate_peak(&peaks, pos);
        if descend(peaks[k], pos).is_none() {
            proof {
                assert(!is_leaf_position(size as nat, lm[i as int].pos));
            }
            return false;
        }
        positions.push(pos);
        i = i + 1;
    }
    proof {
        assert(nats(positions@) =~= entry_positions(lm));
    }
    let mut found: Vec<[u8; 32]> = Vec::new();
    let mut j: usize = 0;
    while j < peaks.len()
        invariant
            j <= peaks@.len(),
            size == proof@.mmr_size,
            valid_size(size as nat),
            ms == mmr_peaks(size as nat),
            ms == mountains(peaks@),
            is_row(ms, 0, 64),
            leaves@.len() > 0,
            forall|a: int|
                0 <= a < lm.len() ==> is_leaf_position(size as nat, (#[trigger] lm[a]).pos),
            forall|a: int| 0 <= a < peaks@.len() ==> (#[trigger] peaks@[a]).height <= 63,
            lm == entry_models(leaves@),
            em == proof@.entries,
            nats(positions@) == entry_positions(lm),
            found@.len() == j,
            forall|a: int|
                0 <= a < j ==> (#[trigger] rebuilt(ms[a], lm, em)) == Some(found@[a]@),
        decreases peaks@.len() - j,
    {
        proof {
            lemma_row_grounded(ms, 0, 64, j as int);
        }
        match rebuild(peaks[j], &positions, leaves, &proof.entries) {
            None => {
                proof {
                    assert(rebuilt(ms[j as int], lm, em) is None);
                }
                return false;
            },
            Some(d) => {
                found.push(d);
            },
        }
        j = j + 1;
    }
    proof {
        assert(is_leaf_position(size as nat, lm[0].pos));
        crate::shape::lemma_peaks_nonempty(size as nat);
        assert(digests(found@).len() == found@.len());
        assert(digests(found@) =~= rebuilt_peaks(ms, lm, em));
        assert forall|a: int| 0 <= a < ms.len() implies (#[trigger] rebuilt(ms[a], lm, em))
            is Some by {
            assert(rebuilt(ms[a], lm, em) == Some(found@[a]@));
        }
    }
    match bag_peaks(&found) {
        Some(root) => digest_eq(&root, expected_root),
        None => false,
    }
}

} // verus!
