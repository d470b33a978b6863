use ckb_merkle_mountain_range::util::MemStore;
use ckb_merkle_mountain_range::{MMRStoreReadOps, MMRStoreWriteOps, Merge, MMR};
use yuanjing_core::digest::{digest_eq, leaf_digest, merge, MergeBlake3};
use yuanjing_core::engine::{append, bag_peaks, current_root, read_peaks};
use yuanjing_core::error::LedgerError;
use yuanjing_core::inclusion::{
    covers_any, extend_positions, find_entry, free_positions, gen_proof, holds_position, rebuild,
    sides_of, verify_batch, verify_proof,
    InclusionProof, ProofEntry,
};
use yuanjing_core::node_store::NodeStore;
use yuanjing_core::walk::{descend, locate_peak, span_of, split_peaks, Peak};

fn leaf(n: u8) -> [u8; 32] {
    let mut out = [0u8; 32];
    out[0] = n;
    out[31] = n.wrapping_mul(7).wrapping_add(1);
    out
}

fn hash_pair(l: &[u8; 32], r: &[u8; 32]) -> [u8; 32] {
    let mut joined = Vec::new();
    joined.extend_from_slice(l);
    joined.extend_from_slice(r);
    *blake3::hash(&joined).as_bytes()
}

fn ledger_with(n: u8) -> (NodeStore, Vec<u64>) {
    let mut store = NodeStore::new();
    let mut positions = Vec::new();
    for i in 0..n {
        positions.push(append(&mut store, leaf(i)).unwrap());
    }
    (store, positions)
}

fn items(proof: &InclusionProof) -> Vec<[u8; 32]> {
    proof.proof_items()
}

#[test]
fn blake3_of_the_empty_input_is_the_known_digest() {
    let expected = "af1349b9f5f9a1a6a0404dea36dcc9499bcb25c9adc112b7cc9a93cae41f3262";
    assert_eq!(hex::encode(leaf_digest(b"")), expected);
}

#[test]
fn leaf_digest_matches_blake3() {
    let data = b"canonical bytes of a record";
    assert_eq!(leaf_digest(data), *blake3::hash(data).as_bytes());
    assert_ne!(leaf_digest(data).to_vec(), data.to_vec());
}

#[test]
fn merge_is_the_hash_of_left_then_right() {
    let l = leaf(1);
    let r = leaf(2);
    assert_eq!(merge(&l, &r), hash_pair(&l, &r));
    let mut hasher = blake3::Hasher::new();
    hasher.update(&l);
    hasher.update(&r);
    assert_eq!(merge(&l, &r), *hasher.finalize().as_bytes());
}

#[test]
fn merge_is_not_commutative() {
    let l = leaf(1);
    let r = leaf(2);
    assert_ne!(merge(&l, &r), merge(&r, &l));
}

#[test]
fn digest_eq_compares_all_bytes() {
    let a = leaf(3);
    let mut b = a;
    assert!(digest_eq(&a, &b));
    b[17] ^= 1;
    assert!(!digest_eq(&a, &b));
    b[17] ^= 1;
    b[31] ^= 0x80;
    assert!(!digest_eq(&a, &b));
}

#[test]
fn span_of_is_two_to_the_height_plus_one_minus_one() {
    assert_eq!(span_of(0), 1);
    assert_eq!(span_of(1), 3);
    assert_eq!(span_of(2), 7);
    assert_eq!(span_of(10), 2047);
    assert_eq!(span_of(63), u64::MAX);
}

#[test]
fn peaks_of_nineteen_nodes() {
    let (peaks, rest) = split_peaks(19);
    assert_eq!(rest, 0);
    let got: Vec<(u64, u32)> = peaks.iter().map(|p| (p.pos, p.height)).collect();
    assert_eq!(got, vec![(14, 3), (17, 1), (18, 0)]);
}

#[test]
fn peaks_of_small_sizes() {
    assert!(split_peaks(0).0.is_empty());
    assert_eq!(split_peaks(0).1, 0);
    let one: Vec<(u64, u32)> = split_peaks(1).0.iter().map(|p| (p.pos, p.height)).collect();
    assert_eq!(one, vec![(0, 0)]);
    let three: Vec<(u64, u32)> = split_peaks(3).0.iter().map(|p| (p.pos, p.height)).collect();
    assert_eq!(three, vec![(2, 1)]);
    let four: Vec<(u64, u32)> = split_peaks(4).0.iter().map(|p| (p.pos, p.height)).collect();
    assert_eq!(four, vec![(2, 1), (3, 0)]);
    let full: Vec<(u64, u32)> =
        split_peaks(u64::MAX).0.iter().map(|p| (p.pos, p.height)).collect();
    assert_eq!(full, vec![(u64::MAX - 1, 63)]);
}

#[test]
fn sizes_that_are_no_range_leave_nodes_over() {
    for size in [2u64, 5, 6, 9, 12, 13, 14] {
        assert_ne!(split_peaks(size).1, 0, "size {}", size);
    }
    for size in [0u64, 1, 3, 4, 7, 8, 10, 11, 15, 16, 18, 19] {
        assert_eq!(split_peaks(size).1, 0, "size {}", size);
    }
}

#[test]
fn peaks_agree_with_the_outside_crate() {
    let mut leaves: u64 = 0;
    while leaves < 300 {
        let size = if leaves == 0 {
            0
        } else {
            ckb_merkle_mountain_range::leaf_index_to_mmr_size(leaves - 1)
        };
        let ours: Vec<u64> = split_peaks(size).0.iter().map(|p| p.pos).collect();
        assert_eq!(ours, ckb_merkle_mountain_range::helper::get_peaks(size));
        assert_eq!(split_peaks(size).1, 0);
        leaves += 1;
    }
}

#[test]
fn locate_peak_finds_the_covering_peak() {
    let (peaks, _) = split_peaks(19);
    assert_eq!(locate_peak(&peaks, 0), 0);
    assert_eq!(locate_peak(&peaks, 14), 0);
    assert_eq!(locate_peak(&peaks, 15), 1);
    assert_eq!(locate_peak(&peaks, 17), 1);
    assert_eq!(locate_peak(&peaks, 18), 2);
    assert_eq!(locate_peak(&peaks, 19), 3);
}

#[test]
fn descend_gives_the_siblings_from_the_top() {
    let peak = Peak { pos: 14, height: 3 };
    let steps = descend(peak, 8).unwrap();
    let got: Vec<(u64, bool)> = steps.iter().map(|s| (s.sibling, s.sibling_is_left)).collect();
    assert_eq!(got, vec![(6, true), (12, false), (7, true)]);
    let steps = descend(peak, 0).unwrap();
    let got: Vec<(u64, bool)> = steps.iter().map(|s| (s.sibling, s.sibling_is_left)).collect();
    assert_eq!(got, vec![(13, false), (5, false), (1, false)]);
    assert!(descend(Peak { pos: 18, height: 0 }, 18).unwrap().is_empty());
}

#[test]
fn descend_refuses_internal_nodes() {
    let peak = Peak { pos: 14, height: 3 };
    for pos in [2u64, 5, 6, 9, 12, 13, 14] {
        assert!(descend(peak, pos).is_none(), "position {}", pos);
    }
    for pos in [0u64, 1, 3, 4, 7, 8, 10, 11] {
        assert!(descend(peak, pos).is_some(), "position {}", pos);
    }
}

#[test]
fn descend_refuses_positions_outside_the_peak() {
    let peak = Peak { pos: 17, height: 1 };
    assert!(descend(peak, 14).is_none());
    assert!(descend(peak, 18).is_none());
    assert!(descend(peak, 15).is_some());
    assert!(descend(peak, 16).is_some());
    // No tree of height 3 has its root at position 5, and none is 64 high.
    assert!(descend(Peak { pos: 5, height: 3 }, 0).is_none());
    assert!(descend(Peak { pos: u64::MAX, height: 64 }, 0).is_none());
    assert!(descend(Peak { pos: u64::MAX - 1, height: 63 }, 0).is_some());
}

#[test]
fn leaf_positions_agree_with_the_outside_crate() {
    let (_, positions) = ledger_with(100);
    for (i, pos) in positions.iter().enumerate() {
        assert_eq!(*pos, ckb_merkle_mountain_range::leaf_index_to_pos(i as u64));
    }
}

#[test]
fn three_leaves_scenario() {
    let l0 = leaf(10);
    let l1 = leaf(11);
    let l2 = leaf(12);
    let mut store = NodeStore::new();

    assert_eq!(append(&mut store, l0), Ok(0));
    assert_eq!(store.size(), 1);
    assert_eq!(current_root(&store), Ok(l0));

    assert_eq!(append(&mut store, l1), Ok(1));
    assert_eq!(store.size(), 3);
    let parent = hash_pair(&l0, &l1);
    assert_eq!(store.get(2), Some(parent));
    assert_eq!(current_root(&store), Ok(parent));

    assert_eq!(append(&mut store, l2), Ok(3));
    assert_eq!(store.size(), 4);
    let peaks: Vec<(u64, u32)> = split_peaks(4).0.iter().map(|p| (p.pos, p.height)).collect();
    assert_eq!(peaks, vec![(2, 1), (3, 0)]);
    assert_eq!(store.get(3), Some(l2));
    let root = hash_pair(&parent, &l2);
    assert_eq!(current_root(&store), Ok(root));

    let proof = gen_proof(&store, &vec![0]).unwrap();
    assert_eq!(proof.mmr_size(), 4);
    assert_eq!(items(&proof), vec![l1, l2]);
    let positions: Vec<u64> = proof.entries.iter().map(|e| e.pos).collect();
    assert_eq!(positions, vec![1, 3]);
    assert!(verify_proof(&proof, &l0, 0, &root));
}

fn given(positions: &[u64], digests: &[[u8; 32]]) -> Vec<ProofEntry> {
    positions
        .iter()
        .zip(digests.iter())
        .map(|(pos, digest)| ProofEntry { pos: *pos, digest: *digest })
        .collect()
}

#[test]
fn batched_proof_has_no_entry_twice() {
    let (store, _) = ledger_with(3);
    let root = current_root(&store).unwrap();
    let proof = gen_proof(&store, &vec![0, 1]).unwrap();
    // The two targets are each other's sibling and the node at 2 is recomputed from
    // them: the proof holds the other peak alone.
    let positions: Vec<u64> = proof.entries.iter().map(|e| e.pos).collect();
    assert_eq!(positions, vec![3]);
    assert_eq!(items(&proof), vec![leaf(2)]);
    assert!(verify_batch(&proof, &given(&[0, 1], &[leaf(0), leaf(1)]), &root));
    assert!(verify_batch(&proof, &given(&[1, 0], &[leaf(1), leaf(0)]), &root));
    assert!(!verify_batch(&proof, &given(&[0, 1], &[leaf(0), leaf(9)]), &root));
    assert!(!verify_batch(&proof, &given(&[0], &[leaf(0)]), &root));
    assert!(!verify_batch(&proof, &Vec::new(), &root));
    assert!(!verify_proof(&proof, &leaf(0), 0, &root));
}

#[test]
fn batched_proof_for_both_of_two_leaves_is_empty() {
    let (store, _) = ledger_with(2);
    let root = current_root(&store).unwrap();
    let both = gen_proof(&store, &vec![0, 1]).unwrap();
    let first = gen_proof(&store, &vec![0]).unwrap();
    let second = gen_proof(&store, &vec![1]).unwrap();
    assert!(both.entries.is_empty());
    assert_eq!((first.entries.len(), second.entries.len()), (1, 1));
    assert!(verify_batch(&both, &given(&[0, 1], &[leaf(0), leaf(1)]), &root));
    assert!(!verify_batch(&both, &given(&[0, 1], &[leaf(1), leaf(0)]), &root));
}

#[test]
fn batched_proof_leaves_out_a_peak_that_is_a_target() {
    let (store, _) = ledger_with(3);
    let root = current_root(&store).unwrap();
    let proof = gen_proof(&store, &vec![0, 3]).unwrap();
    let positions: Vec<u64> = proof.entries.iter().map(|e| e.pos).collect();
    assert_eq!(positions, vec![1]);
    assert!(verify_batch(&proof, &given(&[0, 3], &[leaf(0), leaf(2)]), &root));
    assert!(!verify_batch(&proof, &given(&[0, 3], &[leaf(0), leaf(1)]), &root));
}

#[test]
fn batched_proof_lists_siblings_by_target_then_free_peaks() {
    let (store, _) = ledger_with(11);
    assert_eq!(store.size(), 19);
    let proof = gen_proof(&store, &vec![8, 0]).unwrap();
    let positions: Vec<u64> = proof.entries.iter().map(|e| e.pos).collect();
    // For 8: siblings 7, 12 (6 is above the target 0). For 0: siblings 1, 5 (13 is
    // above the target 8). Then the peaks at 17 and 18.
    assert_eq!(positions, vec![7, 12, 1, 5, 17, 18]);
    let root = current_root(&store).unwrap();
    assert!(verify_batch(&proof, &given(&[0, 8], &[leaf(0), leaf(5)]), &root));
}

#[test]
fn batched_proofs_hold_no_target_and_nothing_twice() {
    let (store, positions) = ledger_with(23);
    let root = current_root(&store).unwrap();
    let picks: Vec<Vec<usize>> = vec![
        vec![0, 1],
        vec![0, 1, 9, 22],
        vec![3, 4],
        vec![5, 17, 18, 19, 20],
        vec![22],
        vec![0, 15, 16, 21, 22, 7],
        (0..23).collect(),
    ];
    for pick in picks.iter() {
        let targets: Vec<u64> = pick.iter().map(|i| positions[*i]).collect();
        let digests: Vec<[u8; 32]> = pick.iter().map(|i| leaf(*i as u8)).collect();
        let proof = gen_proof(&store, &targets).unwrap();
        let mut seen: Vec<u64> = Vec::new();
        for entry in proof.entries.iter() {
            assert!(!seen.contains(&entry.pos));
            assert!(!targets.contains(&entry.pos));
            seen.push(entry.pos);
            assert_eq!(store.get(entry.pos), Some(entry.digest));
        }
        assert!(verify_batch(&proof, &given(&targets, &digests), &root));
        let mut bent = digests.clone();
        bent[0][4] ^= 2;
        assert!(!verify_batch(&proof, &given(&targets, &bent), &root));
        let mut other_root = root;
        other_root[31] ^= 1;
        assert!(!verify_batch(&proof, &given(&targets, &digests), &other_root));
        if !proof.entries.is_empty() {
            let mut short = proof.clone();
            short.entries.pop();
            assert!(!verify_batch(&short, &given(&targets, &digests), &root));
        }
    }
}

#[test]
fn batched_proof_is_shorter_than_the_single_proofs_together() {
    let (store, positions) = ledger_with(23);
    for a in 0..23usize {
        for b in 0..23usize {
            if a == b {
                continue;
            }
            let qa = gen_proof(&store, &vec![positions[a]]).unwrap();
            let qb = gen_proof(&store, &vec![positions[b]]).unwrap();
            let q = gen_proof(&store, &vec![positions[a], positions[b]]).unwrap();
            assert!(q.entries.len() < qa.entries.len() + qb.entries.len());
        }
    }
}

#[test]
fn repeating_a_target_changes_nothing() {
    let (store, positions) = ledger_with(23);
    let once = gen_proof(&store, &vec![positions[4], positions[13]]).unwrap();
    let twice =
        gen_proof(&store, &vec![positions[4], positions[4], positions[13], positions[4]]).unwrap();
    let a: Vec<(u64, [u8; 32])> = once.entries.iter().map(|e| (e.pos, e.digest)).collect();
    let b: Vec<(u64, [u8; 32])> = twice.entries.iter().map(|e| (e.pos, e.digest)).collect();
    assert_eq!(a, b);
}

#[test]
fn every_set_of_leaves_of_small_ledgers_is_proved() {
    for n in 1..=9u8 {
        let (store, positions) = ledger_with(n);
        let root = current_root(&store).unwrap();
        for mask in 1u32..(1u32 << n) {
            let pick: Vec<usize> = (0..n as usize).filter(|i| mask & (1 << i) != 0).collect();
            let targets: Vec<u64> = pick.iter().map(|i| positions[*i]).collect();
            let digests: Vec<[u8; 32]> = pick.iter().map(|i| leaf(*i as u8)).collect();
            let proof = gen_proof(&store, &targets).unwrap();
            assert!(verify_batch(&proof, &given(&targets, &digests), &root));
            for entry in proof.entries.iter() {
                assert!(!targets.contains(&entry.pos));
            }
            if pick.len() == n as usize {
                assert!(proof.entries.is_empty());
            }
        }
    }
}

#[test]
fn batched_proofs_hold_the_nodes_that_the_outside_crate_holds() {
    // With a target under the last peak the outside crate folds no peaks together,
    // and its proof holds the same nodes as ours, in another order.
    let outside = MemStore::<[u8; 32]>::default();
    let mut size: u64 = 0;
    let mut ours = NodeStore::new();
    let mut positions: Vec<u64> = Vec::new();
    for n in 0..23u8 {
        let mut mmr = MMR::<[u8; 32], MergeBlake3, _>::new(size, &outside);
        positions.push(mmr.push(leaf(n)).unwrap());
        mmr.commit().unwrap();
        size = mmr.mmr_size();
        append(&mut ours, leaf(n)).unwrap();
    }
    let picks: Vec<Vec<usize>> =
        vec![vec![0, 1, 22], vec![22], vec![3, 9, 10, 22], vec![5, 17, 18, 19, 20, 22]];
    for pick in picks.iter() {
        let targets: Vec<u64> = pick.iter().map(|i| positions[*i]).collect();
        let mmr = MMR::<[u8; 32], MergeBlake3, _>::new(size, &outside);
        let theirs = mmr.gen_proof(targets.clone()).unwrap();
        let mut expected: Vec<[u8; 32]> = theirs.proof_items().to_vec();
        let mut got = items(&gen_proof(&ours, &targets).unwrap());
        expected.sort();
        got.sort();
        assert_eq!(got, expected);
    }
}

#[test]
fn rebuild_takes_leaves_as_given_and_the_rest_from_the_proof() {
    let (store, _) = ledger_with(4);
    let peak = Peak { pos: 6, height: 2 };
    let leaves = given(&[0, 4], &[leaf(0), leaf(3)]);
    let entries = given(&[1, 3], &[leaf(1), leaf(2)]);
    assert_eq!(rebuild(peak, &vec![0, 4], &leaves, &entries), store.get(6));
    let missing = given(&[1], &[leaf(1)]);
    assert_eq!(rebuild(peak, &vec![0, 4], &leaves, &missing), None);
    let whole = given(&[6], &[leaf(9)]);
    assert_eq!(rebuild(peak, &Vec::new(), &Vec::new(), &whole), Some(leaf(9)));
}

#[test]
fn covers_any_and_free_positions_follow_the_spans() {
    let (peaks, _) = split_peaks(19);
    assert!(covers_any(peaks[0], &vec![0]));
    assert!(covers_any(peaks[0], &vec![18, 14]));
    assert!(!covers_any(peaks[0], &vec![15, 18]));
    assert!(covers_any(peaks[1], &vec![15]));
    assert!(!covers_any(peaks[2], &vec![17]));
    assert!(!covers_any(peaks[2], &Vec::new()));
    assert_eq!(free_positions(&peaks, &vec![16]), vec![14, 18]);
    assert_eq!(free_positions(&peaks, &vec![0, 18]), vec![17]);
    assert_eq!(free_positions(&peaks, &Vec::new()), vec![14, 17, 18]);
}

#[test]
fn sides_of_gives_the_siblings_from_the_bottom() {
    let steps = descend(Peak { pos: 14, height: 3 }, 8).unwrap();
    let sides: Vec<(u64, u32)> = sides_of(&steps).iter().map(|p| (p.pos, p.height)).collect();
    assert_eq!(sides, vec![(7, 0), (12, 1), (6, 2)]);
}

#[test]
fn every_leaf_of_every_prefix_is_proved() {
    let mut store = NodeStore::new();
    let mut positions: Vec<u64> = Vec::new();
    for n in 0..70u8 {
        positions.push(append(&mut store, leaf(n)).unwrap());
        let root = current_root(&store).unwrap();
        for (i, pos) in positions.iter().enumerate() {
            let proof = gen_proof(&store, &vec![*pos]).unwrap();
            assert!(verify_proof(&proof, &leaf(i as u8), *pos, &root));
        }
    }
}

#[test]
fn single_proof_lists_siblings_bottom_up_then_other_peaks() {
    let (store, _) = ledger_with(11);
    assert_eq!(store.size(), 19);
    let proof = gen_proof(&store, &vec![8]).unwrap();
    let positions: Vec<u64> = proof.entries.iter().map(|e| e.pos).collect();
    assert_eq!(positions, vec![7, 12, 6, 17, 18]);
}

#[test]
fn root_depends_on_the_order_of_leaves() {
    let a = leaf(1);
    let b = leaf(2);
    let mut first = NodeStore::new();
    append(&mut first, a).unwrap();
    append(&mut first, b).unwrap();
    let mut second = NodeStore::new();
    append(&mut second, b).unwrap();
    append(&mut second, a).unwrap();
    assert_ne!(current_root(&first).unwrap(), current_root(&second).unwrap());
    assert_eq!(current_root(&first).unwrap(), hash_pair(&a, &b));
    assert_eq!(current_root(&second).unwrap(), hash_pair(&b, &a));
}

#[test]
fn root_folds_peaks_from_the_right() {
    let (store, _) = ledger_with(7);
    assert_eq!(store.size(), 11);
    let tall = store.get(6).unwrap();
    let mid = store.get(9).unwrap();
    let low = store.get(10).unwrap();
    let expected = hash_pair(&tall, &hash_pair(&mid, &low));
    assert_eq!(current_root(&store), Ok(expected));
    assert_eq!(bag_peaks(&vec![tall, mid, low]), Some(expected));
    assert_eq!(bag_peaks(&vec![tall]), Some(tall));
    assert_eq!(bag_peaks(&Vec::new()), None);
}

#[test]
fn merges_per_append_are_the_trailing_ones_of_the_leaf_count() {
    let mut store = NodeStore::new();
    for n in 0..200u64 {
        let before = store.size();
        append(&mut store, leaf(n as u8)).unwrap();
        let merges = store.size() - before - 1;
        assert_eq!(merges, u64::from(n.trailing_ones()));
    }
}

#[test]
fn nodes_and_root_agree_with_the_outside_crate() {
    let outside = MemStore::<[u8; 32]>::default();
    let mut size: u64 = 0;
    let mut ours = NodeStore::new();
    for n in 0..64u8 {
        let mut mmr = MMR::<[u8; 32], MergeBlake3, _>::new(size, &outside);
        let pos = mmr.push(leaf(n)).unwrap();
        mmr.commit().unwrap();
        size = mmr.mmr_size();
        let root = mmr.get_root().unwrap();

        assert_eq!(append(&mut ours, leaf(n)), Ok(pos));
        assert_eq!(ours.size(), size);
        assert_eq!(current_root(&ours), Ok(root));
    }
    for pos in 0..size {
        assert_eq!(ours.get(pos), (&outside).get_elem(pos).unwrap());
    }
    assert_eq!(ours.get(size), None);
}

#[test]
fn merge_strategy_serves_the_outside_crate() {
    let l = leaf(1);
    let r = leaf(2);
    assert_eq!(<MergeBlake3 as Merge>::merge(&l, &r), Ok(hash_pair(&l, &r)));
    assert_eq!(<MergeBlake3 as Merge>::merge_peaks(&r, &l), Ok(hash_pair(&l, &r)));
}

#[test]
fn reopened_ledger_gives_the_same_root_and_proofs() {
    let (store, positions) = ledger_with(13);
    let root = current_root(&store).unwrap();
    let mut before: Vec<Vec<(u64, [u8; 32])>> = Vec::new();
    for pos in positions.iter() {
        let proof = gen_proof(&store, &vec![*pos]).unwrap();
        before.push(proof.entries.iter().map(|e| (e.pos, e.digest)).collect());
    }
    let (nodes, size) = store.into_parts();
    let reopened = NodeStore::open(nodes, size);
    assert_eq!(reopened.size(), size);
    assert_eq!(current_root(&reopened), Ok(root));
    for (i, pos) in positions.iter().enumerate() {
        let proof = gen_proof(&reopened, &vec![*pos]).unwrap();
        let entries: Vec<(u64, [u8; 32])> =
            proof.entries.iter().map(|e| (e.pos, e.digest)).collect();
        assert_eq!(entries, before[i]);
        assert!(verify_proof(&proof, &leaf(i as u8), *pos, &root));
    }
}

#[test]
fn orphaned_nodes_are_ignored_and_overwritten() {
    let (store, _) = ledger_with(2);
    let root = current_root(&store).unwrap();
    let (nodes, size) = store.into_parts();
    // A batch that was written before a crash, with the size still at 3.
    let mut handle = &nodes;
    handle.append(3, vec![[0xee; 32], [0xdd; 32]]).unwrap();
    let mut reopened = NodeStore::open(nodes, size);
    assert_eq!(current_root(&reopened), Ok(root));
    assert_eq!(append(&mut reopened, leaf(2)), Ok(3));
    assert_eq!(reopened.get(3), Some(leaf(2)));
    assert_eq!(reopened.size(), 4);
    let (fresh, _) = ledger_with(3);
    assert_eq!(current_root(&reopened), current_root(&fresh));
}

#[test]
fn tampered_leaf_fails_its_old_proof() {
    let (store, positions) = ledger_with(9);
    let root = current_root(&store).unwrap();
    for (i, pos) in positions.iter().enumerate() {
        let proof = gen_proof(&store, &vec![*pos]).unwrap();
        let mut tampered = leaf(i as u8);
        tampered[5] ^= 0x04;
        assert!(verify_proof(&proof, &leaf(i as u8), *pos, &root));
        assert!(!verify_proof(&proof, &tampered, *pos, &root));
    }
}

#[test]
fn proof_is_refused_for_wrong_position_root_or_sibling() {
    let (store, positions) = ledger_with(6);
    let root = current_root(&store).unwrap();
    let proof = gen_proof(&store, &vec![positions[2]]).unwrap();
    assert!(verify_proof(&proof, &leaf(2), positions[2], &root));
    assert!(!verify_proof(&proof, &leaf(2), positions[3], &root));
    assert!(!verify_proof(&proof, &leaf(2), 2, &root));
    assert!(!verify_proof(&proof, &leaf(2), 1000, &root));
    let mut other_root = root;
    other_root[0] ^= 1;
    assert!(!verify_proof(&proof, &leaf(2), positions[2], &other_root));
    let mut bent = proof.clone();
    bent.entries[0].digest[9] ^= 0x40;
    assert!(!verify_proof(&bent, &leaf(2), positions[2], &root));
    let mut short = proof.clone();
    short.entries.pop();
    assert!(!verify_proof(&short, &leaf(2), positions[2], &root));
    let mut missized = proof.clone();
    missized.mmr_size = 9;
    assert!(!verify_proof(&missized, &leaf(2), positions[2], &root));
}

#[test]
fn proof_of_the_only_leaf_is_empty() {
    let (store, _) = ledger_with(1);
    let proof = gen_proof(&store, &vec![0]).unwrap();
    assert!(proof.entries.is_empty());
    assert!(verify_proof(&proof, &leaf(0), 0, &leaf(0)));
    assert!(!verify_proof(&proof, &leaf(1), 0, &leaf(0)));
}

#[test]
fn root_of_the_empty_ledger_is_an_error() {
    let store = NodeStore::new();
    assert_eq!(current_root(&store), Err(LedgerError::EmptyLedger));
}

#[test]
fn proof_requests_for_no_leaf_are_refused() {
    let (store, _) = ledger_with(4);
    assert_eq!(store.size(), 7);
    assert_eq!(gen_proof(&store, &vec![]).err(), Some(LedgerError::InvalidProofRequest));
    assert_eq!(gen_proof(&store, &vec![7]).err(), Some(LedgerError::InvalidProofRequest));
    assert_eq!(gen_proof(&store, &vec![u64::MAX]).err(), Some(LedgerError::InvalidProofRequest));
    for internal in [2u64, 5, 6] {
        assert_eq!(
            gen_proof(&store, &vec![internal]).err(),
            Some(LedgerError::InvalidProofRequest)
        );
        assert_eq!(
            gen_proof(&store, &vec![0, internal]).err(),
            Some(LedgerError::InvalidProofRequest)
        );
    }
    let empty = NodeStore::new();
    assert_eq!(gen_proof(&empty, &vec![0]).err(), Some(LedgerError::InvalidProofRequest));
}

#[test]
fn a_size_that_names_missing_nodes_is_corrupt_state() {
    let store = NodeStore::open(MemStore::default(), 3);
    assert_eq!(current_root(&store), Err(LedgerError::CorruptState));
    assert_eq!(gen_proof(&store, &vec![0]).err(), Some(LedgerError::CorruptState));
    let mut store = NodeStore::open(MemStore::default(), 1);
    assert_eq!(append(&mut store, leaf(1)), Err(LedgerError::CorruptState));
    assert_eq!(store.size(), 1);
    assert_eq!(store.get(1), None);
}

#[test]
fn append_reads_every_peak_before_it_writes() {
    // Size 3: one peak at position 2, which the store lacks. The leaf would not
    // merge with it, yet the append is refused and nothing is written.
    let mut store = NodeStore::open(MemStore::default(), 3);
    assert_eq!(append(&mut store, leaf(1)), Err(LedgerError::CorruptState));
    assert_eq!(store.size(), 3);
    assert_eq!(store.get(3), None);

    // Size 10: peaks at 6 and 9; only the one at 9 is stored.
    let nodes = MemStore::<[u8; 32]>::default();
    let mut handle = &nodes;
    handle.append(9, vec![leaf(7)]).unwrap();
    let mut store = NodeStore::open(nodes, 10);
    assert_eq!(append(&mut store, leaf(1)), Err(LedgerError::CorruptState));
    assert_eq!(store.size(), 10);
    assert_eq!(store.get(10), None);
    assert_eq!(current_root(&store), Err(LedgerError::CorruptState));
}

#[test]
fn a_successful_append_leaves_a_readable_root() {
    // Size 10 with both peaks stored, whatever lies below them.
    let nodes = MemStore::<[u8; 32]>::default();
    let mut handle = &nodes;
    handle.append(6, vec![leaf(6)]).unwrap();
    handle.append(9, vec![leaf(9)]).unwrap();
    let mut store = NodeStore::open(nodes, 10);
    assert_eq!(append(&mut store, leaf(1)), Ok(10));
    assert_eq!(store.size(), 11);
    let expected = hash_pair(&leaf(6), &hash_pair(&leaf(9), &leaf(1)));
    assert_eq!(current_root(&store), Ok(expected));
}

#[test]
fn read_peaks_gives_all_or_nothing() {
    let (store, _) = ledger_with(7);
    let (peaks, _) = split_peaks(store.size());
    let found = read_peaks(&store, &peaks).unwrap();
    assert_eq!(found, vec![store.get(6).unwrap(), store.get(9).unwrap(), store.get(10).unwrap()]);
    let (more, _) = split_peaks(15);
    assert_eq!(read_peaks(&store, &more), None);
    assert_eq!(read_peaks(&store, &Vec::new()), Some(Vec::new()));
}

#[test]
fn a_size_that_is_no_range_is_corrupt_state() {
    let (store, _) = ledger_with(3);
    let (nodes, _) = store.into_parts();
    let mut store = NodeStore::open(nodes, 2);
    assert_eq!(current_root(&store), Err(LedgerError::CorruptState));
    assert_eq!(gen_proof(&store, &vec![0]).err(), Some(LedgerError::CorruptState));
    assert_eq!(append(&mut store, leaf(9)), Err(LedgerError::CorruptState));
    assert_eq!(store.size(), 2);
}

#[test]
fn a_full_ledger_refuses_the_write() {
    // A full ledger is one tree of height 63, whose peak is the last node but one.
    let nodes = MemStore::<[u8; 32]>::default();
    let mut handle = &nodes;
    handle.append(u64::MAX - 1, vec![leaf(3)]).unwrap();
    let mut store = NodeStore::open(nodes, u64::MAX);
    assert_eq!(current_root(&store), Ok(leaf(3)));
    assert_eq!(append(&mut store, leaf(1)), Err(LedgerError::StoreIOError));
    assert_eq!(store.size(), u64::MAX);
    assert_eq!(store.get(u64::MAX), None);

    let mut empty = NodeStore::open(MemStore::default(), u64::MAX);
    assert_eq!(append(&mut empty, leaf(1)), Err(LedgerError::CorruptState));
}

#[test]
fn node_store_reads_what_was_written() {
    let mut store = NodeStore::new();
    assert_eq!(store.size(), 0);
    assert_eq!(store.get(0), None);
    assert_eq!(store.append_sequential(5, vec![leaf(1), leaf(2), leaf(3)]), Ok(()));
    assert_eq!(store.size(), 0);
    assert_eq!(store.get(4), None);
    assert_eq!(store.get(5), Some(leaf(1)));
    assert_eq!(store.get(6), Some(leaf(2)));
    assert_eq!(store.get(7), Some(leaf(3)));
    assert_eq!(store.get(8), None);
    assert_eq!(store.append_sequential(6, vec![leaf(9)]), Ok(()));
    assert_eq!(store.get(5), Some(leaf(1)));
    assert_eq!(store.get(6), Some(leaf(9)));
    assert_eq!(store.get(7), Some(leaf(3)));
    store.record_size(8);
    assert_eq!(store.size(), 8);
}

#[test]
fn node_store_refuses_positions_past_the_end() {
    let mut store = NodeStore::new();
    assert_eq!(
        store.append_sequential(u64::MAX - 1, vec![leaf(1), leaf(2)]),
        Err(LedgerError::StoreIOError)
    );
    assert_eq!(store.get(u64::MAX - 1), None);
    assert_eq!(store.append_sequential(u64::MAX - 2, vec![leaf(1), leaf(2)]), Ok(()));
    assert_eq!(store.get(u64::MAX - 1), Some(leaf(2)));
}

#[test]
fn find_entry_takes_the_first_match() {
    let entries = vec![
        ProofEntry { pos: 4, digest: leaf(1) },
        ProofEntry { pos: 7, digest: leaf(2) },
        ProofEntry { pos: 4, digest: leaf(3) },
    ];
    assert_eq!(find_entry(&entries, 4), Some(leaf(1)));
    assert_eq!(find_entry(&entries, 7), Some(leaf(2)));
    assert_eq!(find_entry(&entries, 5), None);
}

#[test]
fn extend_positions_adds_each_new_position_once() {
    let mut acc = vec![3u64, 1];
    extend_positions(&mut acc, &vec![1, 4, 4, 3, 9]);
    assert_eq!(acc, vec![3, 1, 4, 9]);
    assert!(holds_position(&acc, 9));
    assert!(!holds_position(&acc, 2));
}
