use circ_das::das::{
    is_available, required_samples, sample, verify_opening, MerkleTree, ProofStep, SampleRng,
};
use std::collections::BTreeSet;

fn symbols(n: usize) -> Vec<u8> {
    (0..n as u32).map(|x| ((x.wrapping_mul(2_654_435_761)) >> 13) as u8 ^ 0x5a).collect()
}

/// `1 - ((n-w)/n)^s`, the detection probability of a size-`w` withheld set.
fn detection(n: usize, w: usize, s: usize) -> f64 {
    if w == 0 {
        return 0.0;
    }
    if w >= n {
        return 1.0;
    }
    1.0 - ((n - w) as f64 / n as f64).powi(s as i32)
}

#[test]
fn opening_verifies_for_every_index_various_sizes() {
    // Includes odd, even, prime, and power-of-two leaf counts to exercise the
    // odd-tail carry-up path at multiple levels.
    for &n in &[1usize, 2, 3, 5, 8, 13, 16, 31, 64, 100] {
        let syms = symbols(n);
        let tree = MerkleTree::commit(&syms);
        assert_eq!(tree.len(), n);
        let root = tree.root();
        for (i, &sym) in syms.iter().enumerate() {
            let path = tree.open(i);
            assert!(verify_opening(root, i, sym, &path), "valid opening failed to verify: n={n}, i={i}");
        }
    }
}

#[test]
fn tampered_symbol_is_rejected() {
    let n = 37;
    let syms = symbols(n);
    let tree = MerkleTree::commit(&syms);
    let root = tree.root();
    for (i, &sym) in syms.iter().enumerate() {
        let path = tree.open(i);
        // Flip the symbol to any other value: opening must be rejected.
        let bad = sym ^ 0xff;
        assert_ne!(bad, sym);
        assert!(
            !verify_opening(root, i, bad, &path),
            "tampered symbol at i={i} was accepted — commitment not binding"
        );
    }
}

#[test]
fn wrong_index_and_doctored_path_are_rejected() {
    let n = 40;
    let syms = symbols(n);
    let tree = MerkleTree::commit(&syms);
    let root = tree.root();
    // Correct symbol, WRONG index (claim position 0 with symbol from position 7).
    let path7 = tree.open(7);
    assert!(!verify_opening(root, 0, syms[7], &path7));
    // Correct (index, symbol) but a doctored sibling in the path.
    let mut path5 = tree.open(5);
    assert!(!path5.is_empty());
    path5[0].sibling ^= 1;
    assert!(!verify_opening(root, 5, syms[5], &path5));
    // Flipping the side bit must also break verification.
    let mut path5b = tree.open(5);
    path5b[0].sibling_is_right = !path5b[0].sibling_is_right;
    assert!(!verify_opening(root, 5, syms[5], &path5b));
}

#[test]
fn distinct_symbols_give_distinct_roots() {
    let a = MerkleTree::commit(&symbols(64)).root();
    let mut s = symbols(64);
    s[17] ^= 0x01; // one-bit change anywhere must move the root
    let b = MerkleTree::commit(&s).root();
    assert_ne!(a, b, "root failed to bind a one-bit symbol change");
}

#[test]
fn availability_predicate_matches_threshold() {
    // n=24, d=5 => available iff present > 19 iff missing <= 4 = d-1.
    let (n, d) = (24usize, 5usize);
    assert!(is_available(n, 20, d)); // 4 missing -> recoverable
    assert!(!is_available(n, 19, d)); // 5 missing -> boundary, NOT recoverable
    assert!(!is_available(n, 10, d));
    assert!(is_available(n, n, d)); // nothing missing
}

#[test]
fn required_samples_is_the_exact_threshold() {
    // s must be the SMALLEST value with miss <= 2^-lambda; check s works and s-1 fails.
    let lambda = 80u32;
    let target = (2.0f64).powi(-(lambda as i32));
    for &(n, d) in &[(1136usize, 15usize), (1156, 9), (1072, 7), (1089, 4), (24, 5)] {
        let s = required_samples(n, d, lambda);
        let miss = |s: usize| ((n - d) as f64 / n as f64).powi(s as i32);
        assert!(miss(s) <= target * (1.0 + 1e-9), "s={s} does not reach 2^-{lambda} for (n={n},d={d})");
        assert!(s >= 1);
        if s > 1 {
            assert!(miss(s - 1) > target, "s={s} is not minimal for (n={n},d={d})");
        }
    }
}

#[test]
fn fewer_samples_track_larger_d_over_n() {
    // At R=0.90: BC [1136,1024,15], 2D-RS [1156,1024,9].
    // BC has the larger d/n, so it needs strictly FEWER samples for the same lambda.
    let s_bc = required_samples(1136, 15, 80);
    let s_rs = required_samples(1156, 9, 80);
    assert!(s_bc < s_rs, "BC {s_bc} should need fewer samples than 2D-RS {s_rs}");
}

#[test]
fn empirical_detection_matches_formula_on_a_toy_set() {
    // Monte-Carlo the sampler against an arbitrary size-w withheld set and confirm
    // empirical detection tracks 1-((n-w)/n)^s.
    let (n, w) = (24usize, 5usize);
    let withheld: BTreeSet<usize> = (0..w).collect();
    for &s in &[3usize, 5, 10] {
        let trials = 40_000;
        let mut rng = SampleRng::new(0xda5_u64 ^ ((s as u64) << 20));
        let mut detected = 0;
        for _ in 0..trials {
            let q = sample(&mut rng, n, s);
            if q.iter().any(|i| withheld.contains(i)) {
                detected += 1;
            }
        }
        let emp = detected as f64 / trials as f64;
        let theory = detection(n, w, s);
        assert!((emp - theory).abs() < 0.01, "s={s}: empirical {emp:.4} vs theory {theory:.4}");
    }
}

#[test]
fn required_samples_edge_cases() {
    // The whole block withheld: one sample always detects.
    assert_eq!(required_samples(24, 24, 80), 1);
    assert_eq!(required_samples(24, 30, 80), 1);
    // lambda = 0 asks for nothing.
    assert_eq!(required_samples(24, 5, 0), 0);
    // Half the block withheld: each sample halves the miss rate.
    assert_eq!(required_samples(10, 5, 1), 1);
    assert_eq!(required_samples(10, 5, 7), 7);
    // (3/4)^s <= 1/2 first at s = 3 (27/64).
    assert_eq!(required_samples(4, 1, 1), 3);
}

#[test]
fn single_leaf_tree_root_is_the_leaf() {
    let tree = MerkleTree::commit(&[0x42]);
    assert_eq!(tree.len(), 1);
    assert!(!tree.is_empty());
    let path = tree.open(0);
    assert!(path.is_empty());
    assert!(verify_opening(tree.root(), 0, 0x42, &path));
    assert!(!verify_opening(tree.root(), 0, 0x43, &path));
}

#[test]
fn opening_lengths_follow_the_odd_tail_carry() {
    // Five leaves: levels of sizes 5, 3, 2, 1. Leaf 4 is carried up twice unpaired.
    let tree = MerkleTree::commit(&symbols(5));
    assert_eq!(tree.open(0).len(), 3);
    assert_eq!(tree.open(4).len(), 1);
    let p4 = tree.open(4);
    assert_eq!(p4[0], ProofStep { sibling: p4[0].sibling, sibling_is_right: false });
    let p0 = tree.open(0);
    assert!(p0[0].sibling_is_right);
}

#[test]
fn sampler_is_reproducible_and_in_range() {
    let mut a = SampleRng::new(7);
    let mut b = SampleRng::new(7);
    let qa = sample(&mut a, 10, 50);
    let qb = sample(&mut b, 10, 50);
    assert_eq!(qa, qb);
    assert_eq!(qa.len(), 50);
    assert!(qa.iter().all(|&i| i < 10));
    // First draw from seed 0: state = 1442695040888963407, output = state >> 33.
    let mut c = SampleRng::new(0);
    assert_eq!(c.index(1 << 31), (1442695040888963407u64 >> 33) as usize);
    assert!(sample(&mut c, 0, 0).is_empty());
}

fn fnv1a_bytes(bytes: &[u8]) -> u64 {
    let mut h: u64 = 0xcbf2_9ce4_8422_2325;
    for &b in bytes {
        h ^= b as u64;
        h = h.wrapping_mul(0x0000_0100_0000_01b3);
    }
    h
}

fn splitmix64(mut z: u64) -> u64 {
    z = z.wrapping_add(0x9e37_79b9_7f4a_7c15);
    z = (z ^ (z >> 30)).wrapping_mul(0xbf58_476d_1ce4_e5b9);
    z = (z ^ (z >> 27)).wrapping_mul(0x94d0_49bb_1331_11eb);
    z ^ (z >> 31)
}

fn expected_leaf(index: usize, symbol: u8) -> u64 {
    let mut buf = vec![0x00u8];
    buf.extend_from_slice(&(index as u64).to_le_bytes());
    buf.push(symbol);
    splitmix64(fnv1a_bytes(&buf))
}

fn expected_node(left: u64, right: u64) -> u64 {
    let mut buf = vec![0x01u8];
    buf.extend_from_slice(&left.to_le_bytes());
    buf.extend_from_slice(&right.to_le_bytes());
    splitmix64(fnv1a_bytes(&buf))
}

#[test]
fn roots_follow_the_leaf_and_node_digest_layout() {
    // One leaf: the root is the leaf digest of (0, symbol).
    assert_eq!(MerkleTree::commit(&[0x42]).root(), expected_leaf(0, 0x42));
    // Three leaves: node(node(l0, l1), l2), the odd third leaf carried up unchanged.
    let syms = [7u8, 8, 9];
    let l: Vec<u64> = syms.iter().enumerate().map(|(i, &s)| expected_leaf(i, s)).collect();
    let root = expected_node(expected_node(l[0], l[1]), l[2]);
    let tree = MerkleTree::commit(&syms);
    assert_eq!(tree.root(), root);
    let p2 = tree.open(2);
    assert_eq!(p2, vec![ProofStep { sibling: expected_node(l[0], l[1]), sibling_is_right: false }]);
    // FNV-1a of the empty string is the offset basis; splitmix64(0) is a known constant.
    assert_eq!(fnv1a_bytes(&[]), 0xcbf2_9ce4_8422_2325);
    assert_eq!(splitmix64(0), 0xe220_a839_7b1d_cdaf);
}

#[test]
fn sample_counts_of_the_da_operating_points() {
    // k = 1024 at rates 0.667, 0.90, 0.95: block-circulant (mu = 16) vs 2D-RS (32 x 32 data).
    assert_eq!(required_samples(1536, 65, 80), 1283);
    assert_eq!(required_samples(1521, 64, 80), 1290);
    assert_eq!(required_samples(1136, 15, 80), 4172);
    assert_eq!(required_samples(1156, 9, 80), 7095);
    assert_eq!(required_samples(1072, 7, 80), 8465);
    assert_eq!(required_samples(1089, 4, 80), 15070);
}
