//! Executable walks over the shape of a range: splitting a node count into peaks,
//! finding the peak above a position, and descending from a peak to a leaf.

use vstd::prelude::*;
use crate::shape::{
    Mountain, Turn, child_toward, covers, grounded, is_leaf_of, leaf_under, lemma_children,
    lemma_height_fits, lemma_tree_size_63, lemma_tree_size_monotonic, mmr_peaks, peak_index,
    peaks_below, rest_below, trail, tree_size, turn_at,
};

verus! {

/// A peak of the range: the position of its root and its height.
#[derive(Clone, Copy, Debug)]
pub struct Peak {
    pub pos: u64,
    pub height: u32,
}

impl View for Peak {
    type V = Mountain;

    open spec fn view(&self) -> Mountain {
        Mountain { root: self.pos as nat, height: self.height as nat }
    }
}

/// The mountains that a run of peaks stands for.
pub open spec fn mountains(ps: Seq<Peak>) -> Seq<Mountain> {
    Seq::new(ps.len(), |i: int| ps[i]@)
}

/// One level of a descent: the sibling that is passed by and the side it is on.
#[derive(Clone, Copy, Debug)]
pub struct Step {
    pub sibling: u64,
    pub sibling_is_left: bool,
}

impl View for Step {
    type V = Turn;

    open spec fn view(&self) -> Turn {
        Turn { sibling: self.sibling as nat, sibling_is_left: self.sibling_is_left }
    }
}

/// The turns that a run of steps stands for.
pub open spec fn turns(ss: Seq<Step>) -> Seq<Turn> {
    Seq::new(ss.len(), |i: int| ss[i]@)
}

/// Splits a node count into its peaks, tallest first, and says how many nodes are
/// left over; the count is a valid size exactly when nothing is left over.
pub fn split_peaks(size: u64) -> (r: (Vec<Peak>, u64))
    ensures
        mountains(r.0@) == mmr_peaks(size as nat),
        r.1 == rest_below(size as nat, 64),
        r.0@.len() <= 64,
        forall|i: int| 0 <= i < r.0@.len() ==> (#[trigger] r.0@[i]).height <= 63,
{
    let mut peaks: Vec<Peak> = Vec::new();
    let mut rem: u64 = size;
    let mut base: u64 = 0;
    let mut t: u64 = u64::MAX;
    let mut h: u32 = 64;
    proof {
        lemma_tree_size_63();
        assert(mountains(peaks@) + peaks_below(rem as nat, base as nat, h as nat) =~= mmr_peaks(
            size as nat,
        ));
    }
    while h > 0
        invariant
            h <= 64,
            h > 0 ==> t == tree_size((h - 1) as nat),
            base + rem == size,
            peaks@.len() + h <= 64,
            forall|i: int| 0 <= i < peaks@.len() ==> (#[trigger] peaks@[i]).height <= 63,
            mmr_peaks(size as nat) == mountains(peaks@) + peaks_below(
                rem as nat,
                base as nat,
                h as nat,
            ),
            rest_below(size as nat, 64) == rest_below(rem as nat, h as nat),
        decreases h,
    {
        let ghost before = mountains(peaks@);
        let ghost ahead = peaks_below(rem as nat, base as nat, h as nat);
        h = h - 1;
        proof {
            lemma_tree_size_monotonic(0, h as nat);
        }
        if rem >= t {
            let peak = Peak { pos: base + (t - 1), height: h };
            peaks.push(peak);
            base = base + t;
            rem = rem - t;
            proof {
                let rest = peaks_below(rem as nat, base as nat, h as nat);
                assert(ahead == seq![peak@] + rest);
                assert(mountains(peaks@) =~= before.push(peak@));
                assert(before + (seq![peak@] + rest) =~= before.push(peak@) + rest);
            }
        }
        t = t / 2;
    }
    proof {
        assert(mountains(peaks@) + Seq::<Mountain>::empty() =~= mountains(peaks@));
    }
    (peaks, rem)
}

/// The number of nodes of a perfect tree of the given height.
pub fn span_of(height: u32) -> (t: u64)
    requires
        height <= 63,
    ensures
        t == tree_size(height as nat),
{
    let mut t: u64 = 1;
    let mut h: u32 = 0;
    proof {
        lemma_tree_size_63();
    }
    while h < height
        invariant
            h <= height <= 63,
            t == tree_size(h as nat),
            tree_size(63) == u64::MAX,
        decreases height - h,
    {
        proof {
            lemma_tree_size_monotonic((h + 1) as nat, 63);
        }
        t = 2 * t + 1;
        h = h + 1;
    }
    t
}

/// The index of the first peak whose root is not left of `pos`; the number of peaks
/// where there is none.
pub fn locate_peak(peaks: &Vec<Peak>, pos: u64) -> (k: usize)
    ensures
        k == peak_index(mountains(peaks@), pos as nat),
        k <= peaks@.len(),
{
    let mut k: usize = 0;
    proof {
        assert(mountains(peaks@).skip(0) =~= mountains(peaks@));
    }
    while k < peaks.len() && peaks[k].pos < pos
        invariant
            k <= peaks@.len(),
            peak_index(mountains(peaks@), pos as nat) == k + peak_index(
                mountains(peaks@).skip(k as int),
                pos as nat,
            ),
        decreases peaks@.len() - k,
    {
        proof {
            let here = mountains(peaks@).skip(k as int);
            assert(here[0] == peaks@[k as int]@);
            assert(here.skip(1) =~= mountains(peaks@).skip(k + 1));
        }
        k = k + 1;
    }
    proof {
        let here = mountains(peaks@).skip(k as int);
        if k < peaks@.len() {
            assert(here[0] == peaks@[k as int]@);
        }
    }
    k
}

/// Walks from a peak down to the position `pos`. Returns the steps taken, topmost
/// first, or `None` where `pos` is no leaf of the peak: not one of its positions, or an
/// internal node. A peak whose tree would start left of position 0 has no leaves.
pub fn descend(peak: Peak, pos: u64) -> (r: Option<Vec<Step>>)
    ensures
        r is Some <==> grounded(peak@) && is_leaf_of(peak@, pos as nat),
        r is Some ==> turns(r.unwrap()@) == trail(peak@, pos as nat),
{
    if peak.height > 63 {
        proof {
            if grounded(peak@) {
                lemma_height_fits(peak.height as nat);
            }
        }
        return None;
    }
    let whole: u64 = span_of(peak.height);
    if peak.pos < whole - 1 || pos > peak.pos || pos < peak.pos - (whole - 1) {
        return None;
    }
    let mut steps: Vec<Step> = Vec::new();
    let mut root: u64 = peak.pos;
    let mut height: u32 = peak.height;
    let mut span: u64 = whole;
    proof {
        assert(turns(steps@) + trail(peak@, pos as nat) =~= trail(peak@, pos as nat));
    }
    while height > 0
        invariant
            height <= 63,
            span == tree_size(height as nat),
            grounded(Mountain { root: root as nat, height: height as nat }),
            covers(Mountain { root: root as nat, height: height as nat }, pos as nat),
            leaf_under(peak@, pos as nat) == leaf_under(
                Mountain { root: root as nat, height: height as nat },
                pos as nat,
            ),
            trail(peak@, pos as nat) == turns(steps@) + trail(
                Mountain { root: root as nat, height: height as nat },
                pos as nat,
            ),
        decreases height,
    {
        let ghost cur = Mountain { root: root as nat, height: height as nat };
        let ghost done = turns(steps@);
        if pos >= root {
            return None;
        }
        proof {
            lemma_children(cur, pos as nat);
        }
        let half: u64 = (span - 1) / 2;
        let left_root: u64 = root - 1 - half;
        let right_root: u64 = root - 1;
        let step = if pos <= left_root {
            Step { sibling: right_root, sibling_is_left: false }
        } else {
            Step { sibling: left_root, sibling_is_left: true }
        };
        steps.push(step);
        if pos <= left_root {
            root = left_root;
        } else {
            root = right_root;
        }
        height = height - 1;
        span = half;
        proof {
            let next = Mountain { root: root as nat, height: height as nat };
            assert(next == child_toward(cur, pos as nat));
            assert(step@ == turn_at(cur, pos as nat));
            assert(turns(steps@) =~= done.push(step@));
            assert(done + (seq![step@] + trail(next, pos as nat)) =~= done.push(step@) + trail(
                next,
                pos as nat,
            ));
        }
    }
    proof {
        assert(turns(steps@) + Seq::<Turn>::empty() =~= turns(steps@));
    }
    Some(steps)
}

} // verus!
