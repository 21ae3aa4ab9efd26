use circ_das::block_circulant::BlockCirculant;
use circ_das::gf256::{add, Gf256};
use circ_das::grs::min_distance_from_h;

fn sample_message(k: usize) -> Vec<u8> {
    (0..k as u32).map(|x| ((x.wrapping_mul(2654435761)) >> 13) as u8 | 1).collect()
}

fn recover_every_subset(
    start: usize,
    depth: usize,
    idx: &mut Vec<usize>,
    n: usize,
    f: &Gf256,
    bc: &BlockCirculant,
    cw: &[u8],
) {
    if depth == idx.len() {
        let mut dmg = cw.to_vec();
        for &e in idx.iter() {
            dmg[e] = 0x00;
        }
        let rec = bc
            .recover(f, &dmg, idx)
            .unwrap_or_else(|| panic!("SACRED INVARIANT VIOLATED: {idx:?} did not recover"));
        assert_eq!(rec, cw, "recovered != original for erasures {idx:?}");
        return;
    }
    for j in start..n {
        idx[depth] = j;
        recover_every_subset(j + 1, depth + 1, idx, n, f, bc, cw);
    }
}

#[test]
fn encoded_word_in_code() {
    let f = Gf256::new();
    let bc = BlockCirculant::new(&f, 6, 4, 3); // mu=6, omega=4, rho=3
    let msg = sample_message(bc.k());
    let cw = bc.encode(&f, &msg);
    // H_BC c = 0
    for row in bc.parity_check(&f) {
        let s = row.iter().zip(&cw).fold(0u8, |a, (&h, &c)| add(a, f.mul(h, c)));
        assert_eq!(s, 0);
    }
    // systematic: message prefix preserved
    assert_eq!(&cw[..bc.k()], &msg[..]);
}

#[test]
fn measured_min_distance_matches_theorem_iii_2() {
    // d = 2*rho + 1 for lambda=2, measured as the smallest linearly-dependent set of
    // H_BC columns, on small instances with mu>=6 or rho>=3.
    let f = Gf256::new();
    for &(mu, omega, rho) in &[(6usize, 2usize, 2usize), (4, 2, 3), (4, 3, 3)] {
        let bc = BlockCirculant::new(&f, mu, omega, rho);
        let h = bc.parity_check(&f);
        let d = min_distance_from_h(&f, &h, bc.n());
        assert_eq!(
            d,
            bc.d_formula(),
            "measured d={d} != 2*rho+1={} for (mu={mu},omega={omega},rho={rho})",
            bc.d_formula()
        );
    }
}

#[test]
fn sacred_invariant_all_erasures_up_to_2rho_recover() {
    // EXHAUSTIVE: every erasure pattern of size <= 2*rho must recover.
    let f = Gf256::new();
    let bc = BlockCirculant::new(&f, 6, 2, 2); // 2*rho = 4, n = 6*4 = 24
    let msg = sample_message(bc.k());
    let cw = bc.encode(&f, &msg);
    let n = bc.n();
    let two_rho = 2 * bc.rho;
    for t in 1..=two_rho {
        let mut idx = vec![0usize; t];
        recover_every_subset(0, 0, &mut idx, n, &f, &bc, &cw);
    }
}

#[test]
fn sizes_of_a_small_instance() {
    let f = Gf256::new();
    let bc = BlockCirculant::new(&f, 6, 2, 2);
    assert_eq!(bc.n(), 24);
    assert_eq!(bc.k(), 12);
    assert_eq!(bc.d_formula(), 5);
    let h = bc.parity_check(&f);
    assert_eq!(h.len(), 12);
    assert!(h.iter().all(|row| row.len() == 24));
}

#[test]
fn the_small_cyclic_corner_measures_one_short() {
    // mu=4, rho=2: the measured distance is 2*rho, one below the formula.
    let f = Gf256::new();
    let bc = BlockCirculant::new(&f, 4, 2, 2);
    let h = bc.parity_check(&f);
    assert_eq!(min_distance_from_h(&f, &h, bc.n()), 4);
    assert_eq!(bc.d_formula(), 5);
}

#[test]
fn local_generators_reproduce_the_encoding() {
    let f = Gf256::new();
    let bc = BlockCirculant::new(&f, 6, 2, 2);
    let gen = bc.local_generators(&f);
    assert_eq!(gen.len(), 6);
    assert!(gen.iter().all(|m| m.len() == 2 && m.iter().all(|r| r.len() == 4)));
    // Encoding a unit message e_0 (block 0, position 0): local codes 0 and 1 read it.
    let mut msg = vec![0u8; bc.k()];
    msg[0] = 1;
    let cw = bc.encode(&f, &msg);
    // Local code 1 reads block 0 in columns 0..omega, so its parity is column 0 of gen[1].
    assert_eq!(cw[bc.k() + 2], gen[1][0][0]);
    assert_eq!(cw[bc.k() + 3], gen[1][1][0]);
    // Local code 0 reads block 0 in columns omega..2*omega: column 2 of gen[0].
    assert_eq!(cw[bc.k()], gen[0][0][2]);
    assert_eq!(cw[bc.k() + 1], gen[0][1][2]);
}

#[test]
fn recover_refuses_a_repeated_erasure() {
    let f = Gf256::new();
    let bc = BlockCirculant::new(&f, 6, 2, 2);
    let cw = bc.encode(&f, &sample_message(bc.k()));
    assert_eq!(bc.recover(&f, &cw, &[3, 3]), None);
    assert_eq!(bc.recover(&f, &cw, &[]), Some(cw.clone()));
}

/// The columns `cols` of `h`, as a matrix of the same rows.
fn columns(h: &[Vec<u8>], cols: &[usize]) -> Vec<Vec<u8>> {
    h.iter().map(|row| cols.iter().map(|&c| row[c]).collect()).collect()
}

#[test]
fn distance_reaches_two_rho_plus_one_on_more_instances() {
    let f = Gf256::new();
    for &(mu, omega, rho) in &[
        (2usize, 1usize, 1usize),
        (6, 1, 1),
        (8, 1, 1),
        (6, 1, 2),
        (6, 3, 2),
        (4, 1, 3),
        (8, 2, 2),
    ] {
        let bc = BlockCirculant::new(&f, mu, omega, rho);
        let h = bc.parity_check(&f);
        assert_eq!(
            min_distance_from_h(&f, &h, bc.n()),
            2 * rho + 1,
            "(mu={mu},omega={omega},rho={rho})"
        );
    }
}

#[test]
fn two_local_codes_of_the_smallest_ring_recover_up_to_two_rho() {
    let f = Gf256::new();
    let bc = BlockCirculant::new(&f, 2, 1, 1);
    let cw = bc.encode(&f, &sample_message(bc.k()));
    for t in 1..=2 * bc.rho {
        let mut idx = vec![0usize; t];
        recover_every_subset(0, 0, &mut idx, bc.n(), &f, &bc, &cw);
    }
}

#[test]
fn a_light_neighbouring_pair_loses_two_rho_erasures() {
    // On these instances two neighbouring local codes carry a nonzero codeword of only
    // 2*rho symbols, so erasing its support is not recoverable.
    let f = Gf256::new();
    let cases: [(usize, usize, usize, &[usize]); 2] =
        [(32, 3, 2, &[3, 5, 98, 100]), (32, 2, 3, &[16, 17, 88, 90, 91, 93])];
    for &(mu, omega, rho, erased) in cases.iter() {
        let bc = BlockCirculant::new(&f, mu, omega, rho);
        assert_eq!(erased.len(), 2 * rho);
        let h = bc.parity_check(&f);
        assert!(circ_das::grs::rank(&f, &columns(&h, erased)) < erased.len());
        let cw = bc.encode(&f, &sample_message(bc.k()));
        let mut dmg = cw.clone();
        for &e in erased {
            dmg[e] = 0;
        }
        assert_eq!(bc.recover(&f, &dmg, erased), None, "(mu={mu},omega={omega},rho={rho})");
    }
}

#[test]
fn design_distance_check_matches_the_measured_distance() {
    let f = Gf256::new();
    for &(mu, omega, rho) in &[(6usize, 2usize, 2usize), (4, 2, 3), (2, 1, 1), (6, 1, 1)] {
        let bc = BlockCirculant::new(&f, mu, omega, rho);
        assert!(bc.reaches_design_distance(&f), "(mu={mu},omega={omega},rho={rho})");
    }
    // The small cyclic corner: two neighbouring local codes share a codeword of weight 4.
    let corner = BlockCirculant::new(&f, 4, 2, 2);
    assert!(!corner.reaches_design_distance(&f));
}
