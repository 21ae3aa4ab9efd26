use circ_das::gf256::{add, Gf256};
use circ_das::grs::{min_distance_from_h, min_weight_support, rank, solve, Grs};

fn recover_every_subset(
    start: usize,
    depth: usize,
    idx: &mut Vec<usize>,
    n0: usize,
    f: &Gf256,
    code: &Grs,
    cw: &[u8],
) {
    if depth == idx.len() {
        let mut damaged = cw.to_vec();
        for &e in idx.iter() {
            damaged[e] = 0xAB; // clobber
        }
        let rec = code.recover(f, &damaged, idx).expect("must recover");
        assert_eq!(rec, cw, "mismatch on erasures {idx:?}");
        return;
    }
    for j in start..n0 {
        idx[depth] = j;
        recover_every_subset(j + 1, depth + 1, idx, n0, f, code, cw);
    }
}

#[test]
fn rs_roundtrip_all_erasure_patterns_up_to_rho() {
    // Small RS [12, 8, 5]: rho=4, must correct EVERY erasure pattern of size<=4.
    let f = Gf256::new();
    let (n0, k0) = (12usize, 8usize);
    let code = Grs::new(&f, n0, k0);
    let data: Vec<u8> = (0..k0 as u8).map(|x| x.wrapping_mul(7).wrapping_add(3)).collect();
    let cw = code.encode_systematic(&f, &data);
    // Codeword satisfies H c = 0.
    for row in code.h() {
        let s = row.iter().zip(&cw).fold(0u8, |acc, (&h, &c)| add(acc, f.mul(h, c)));
        assert_eq!(s, 0, "encoded word not in code");
    }
    // Exhaustive: every subset of size t<=rho recovers.
    let rho = code.rho;
    for t in 1..=rho {
        let mut idx = vec![0usize; t];
        recover_every_subset(0, 0, &mut idx, n0, &f, &code, &cw);
    }
}

#[test]
fn rs_min_distance_is_rho_plus_one() {
    // Empirical: smallest linearly-dependent set of H-columns == d == rho+1.
    let f = Gf256::new();
    let code = Grs::new(&f, 10, 6); // rho=4 => d=5
    let d = min_distance_from_h(&f, code.h(), code.n0);
    assert_eq!(d, code.rho + 1);
}

#[test]
fn systematic_prefix_and_parity_of_a_small_code() {
    let f = Gf256::new();
    let code = Grs::new(&f, 6, 4);
    let data = [1u8, 2, 3, 4];
    let cw = code.encode_systematic(&f, &data);
    assert_eq!(cw.len(), 6);
    assert_eq!(&cw[..4], &data[..]);
    // The parity part is not a copy of the data.
    assert_ne!(&cw[4..], &[0u8, 0u8][..]);
    // Column j of H is (points[j]^0, points[j]^1) = (1, g^j).
    assert_eq!(code.column(3), vec![1u8, f.exp_g(3)]);
}

#[test]
fn recover_with_nothing_erased_returns_the_input() {
    let f = Gf256::new();
    let code = Grs::new(&f, 6, 4);
    let word = vec![9u8, 8, 7, 6, 5, 4];
    assert_eq!(code.recover(&f, &word, &[]), Some(word.clone()));
}

#[test]
fn too_many_or_repeated_erasures_are_refused() {
    let f = Gf256::new();
    let code = Grs::new(&f, 6, 4); // rho = 2
    let cw = code.encode_systematic(&f, &[5, 6, 7, 8]);
    // Three erasures exceed rho = 2: not uniquely recoverable.
    assert_eq!(code.recover(&f, &cw, &[0, 1, 2]), None);
    // The same position twice is refused.
    assert_eq!(code.recover(&f, &cw, &[1, 1]), None);
}

#[test]
fn solve_and_rank_on_small_systems() {
    let f = Gf256::new();
    // x0 = 3, x0 + x1 = 5 (over GF(2^8), + is XOR) => x1 = 6.
    let mut a = vec![vec![1u8, 0], vec![1u8, 1]];
    let mut b = vec![3u8, 5];
    assert_eq!(solve(&f, &mut a, &mut b, 2), Some(vec![3u8, 6]));
    // A singular system has no unique solution.
    let mut a2 = vec![vec![1u8, 1], vec![1u8, 1]];
    let mut b2 = vec![1u8, 1];
    assert_eq!(solve(&f, &mut a2, &mut b2, 2), None);
    assert_eq!(rank(&f, &[vec![1u8, 1], vec![1u8, 1]]), 1);
    assert_eq!(rank(&f, &[vec![1u8, 0], vec![0u8, 1]]), 2);
    assert_eq!(rank(&f, &[vec![0u8, 0], vec![0u8, 0]]), 0);
}

#[test]
fn min_weight_support_of_an_rs_code_has_rho_plus_one_positions() {
    let f = Gf256::new();
    let code = Grs::new(&f, 8, 5); // rho = 3, d = 4
    let s = min_weight_support(&f, code.h(), code.n0);
    assert_eq!(s, vec![0usize, 1, 2, 3]);
}
