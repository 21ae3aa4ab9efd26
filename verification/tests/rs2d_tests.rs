use circ_das::gf256::{add, Gf256};
use circ_das::grs::min_distance_from_h;
use circ_das::rs2d::Rs2d;
use std::collections::BTreeSet;

#[test]
fn encoded_grid_in_product_code() {
    let f = Gf256::new();
    let code = Rs2d::new(&f, 6, 4, 6, 4); // [36,16], d=9
    let msg: Vec<u8> = (0..code.k() as u8).map(|x| x.wrapping_mul(5).wrapping_add(1)).collect();
    let grid = code.encode(&f, &msg);
    for row in code.parity_check() {
        let s = row.iter().zip(&grid).fold(0u8, |a, (&h, &c)| add(a, f.mul(h, c)));
        assert_eq!(s, 0);
    }
    // systematic top-left k2 x k1 block equals the message
    for r in 0..code.k2 {
        for c in 0..code.k1 {
            assert_eq!(grid[r * code.n1 + c], msg[r * code.k1 + c]);
        }
    }
}

#[test]
fn measured_min_distance_is_d1_times_d2() {
    // RS[4,2] x RS[4,2]: d1=d2=3, d=9, n=16.
    let f = Gf256::new();
    let code = Rs2d::new(&f, 4, 2, 4, 2);
    let d = min_distance_from_h(&f, &code.parity_check(), code.n());
    assert_eq!(d, code.d_formula());
    assert_eq!(d, 9);
}

#[test]
fn erasure_roundtrip_random_below_distance() {
    // Random erasure patterns of size d-1 must always recover (d-1 < d).
    let f = Gf256::new();
    let code = Rs2d::new(&f, 5, 3, 5, 3); // [25,9], d=9
    let msg: Vec<u8> = (0..code.k() as u8).map(|x| x.wrapping_mul(9).wrapping_add(7)).collect();
    let grid = code.encode(&f, &msg);
    let d = code.d_formula();
    let n = code.n();
    // deterministic LCG for reproducible "random" patterns
    let mut state: u64 = 0x1234_5678_9abc_def0;
    let mut next = || {
        state = state.wrapping_mul(6364136223846793005).wrapping_add(1442695040888963407);
        (state >> 33) as usize
    };
    for _ in 0..200 {
        // choose d-1 distinct positions
        let mut chosen = BTreeSet::new();
        while chosen.len() < d - 1 {
            chosen.insert(next() % n);
        }
        let erased: Vec<usize> = chosen.into_iter().collect();
        let mut dmg = grid.clone();
        for &e in &erased {
            dmg[e] = 0;
        }
        let rec = code.recover(&f, &dmg, &erased).expect("all <= d-1 erasures must recover");
        assert_eq!(rec, grid);
    }
}

#[test]
fn sizes_of_a_rectangular_product() {
    let f = Gf256::new();
    let code = Rs2d::new(&f, 5, 3, 4, 2);
    assert_eq!(code.n(), 20);
    assert_eq!(code.k(), 6);
    assert_eq!(code.d_formula(), 9);
    // (n2 rows x (n1-k1) checks) + (n1 columns x (n2-k2) checks)
    assert_eq!(code.parity_check().len(), 4 * 2 + 5 * 2);
}

#[test]
fn rows_and_columns_of_the_grid_are_codewords() {
    let f = Gf256::new();
    let code = Rs2d::new(&f, 5, 3, 4, 2);
    let msg: Vec<u8> = (1..=6u8).collect();
    let grid = code.encode(&f, &msg);
    assert_eq!(grid.len(), 20);
    // Every row has a vanishing C1 syndrome, every column a vanishing C2 syndrome.
    for r in 0..4 {
        for hr in code.row_code.h() {
            let s = (0..5).fold(0u8, |a, c| add(a, f.mul(hr[c], grid[r * 5 + c])));
            assert_eq!(s, 0);
        }
    }
    for c in 0..5 {
        for hc in code.col_code.h() {
            let s = (0..4).fold(0u8, |a, r| add(a, f.mul(hc[r], grid[r * 5 + c])));
            assert_eq!(s, 0);
        }
    }
}
