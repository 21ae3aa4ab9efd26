use circ_das::block_circulant::BlockCirculant;
use circ_das::gf256::Gf256;
use circ_das::neon::{BcEncoder, MulTable};

/// Deterministic pseudo-random byte stream for reproducible fixtures.
fn fill(seed: u64, n: usize) -> Vec<u8> {
    let mut s = seed | 1;
    (0..n)
        .map(|_| {
            // xorshift64
            s ^= s << 13;
            s ^= s >> 7;
            s ^= s << 17;
            (s >> 24) as u8
        })
        .collect()
}

#[test]
fn split_table_mul_matches_scalar_field_mul() {
    // The split-nibble decomposition must equal the field multiply for every (c, x).
    let f = Gf256::new();
    for c in 0u16..=255 {
        let t = MulTable::new(&f, c as u8);
        for x in 0u16..=255 {
            let expect = f.mul(c as u8, x as u8);
            let got = t.lo[(x as u8 & 0x0f) as usize] ^ t.hi[(x as u8 >> 4) as usize];
            assert_eq!(got, expect, "split table wrong for c={c} x={x}");
        }
    }
}

#[test]
fn shard_l1_matches_reference_encode() {
    // With shard_len = 1, the shard encoder must reproduce BlockCirculant::encode's
    // parity bytes exactly.
    let f = Gf256::new();
    for &(mu, omega, rho) in &[(6usize, 4usize, 3usize), (6, 2, 2), (8, 3, 2)] {
        let bc = BlockCirculant::new(&f, mu, omega, rho);
        let enc = BcEncoder::new(&f, &bc);
        let msg = fill(0xC0FFEE ^ (mu as u64), bc.k());
        let full = bc.encode(&f, &msg);
        let reference_parity = &full[bc.k()..]; // mu*rho parity bytes, global order
        let mut parity = vec![0u8; enc.parity_shards()];
        enc.encode_scalar(&f, &msg, 1, &mut parity);
        assert_eq!(
            parity, reference_parity,
            "shard(L=1) parity != reference encode for (mu={mu},omega={omega},rho={rho})"
        );
    }
}

#[test]
fn neon_equals_scalar_fixed_params() {
    // DA-shaped params and shard sizes that are and are not multiples of 16.
    let f = Gf256::new();
    let params = [(6usize, 8usize, 4usize), (6, 16, 2), (4, 6, 3), (8, 4, 2)];
    for &(mu, omega, rho) in &params {
        let bc = BlockCirculant::new(&f, mu, omega, rho);
        let enc = BcEncoder::new(&f, &bc);
        for &shard_len in &[1usize, 15, 16, 17, 100, 4096, 4099] {
            let data = fill(0xABCDEF ^ (shard_len as u64), enc.k_shards() * shard_len);
            let mut ps = vec![0u8; enc.parity_shards() * shard_len];
            let mut pn = vec![0u8; enc.parity_shards() * shard_len];
            enc.encode_scalar(&f, &data, shard_len, &mut ps);
            enc.encode_neon(&f, &data, shard_len, &mut pn);
            assert_eq!(ps, pn, "NEON != scalar for (mu={mu},omega={omega},rho={rho}) L={shard_len}");
        }
    }
}

#[test]
fn neon_equals_scalar_over_many_seeded_cases() {
    // A deterministic sweep over parameters, shard sizes and data.
    let f = Gf256::new();
    let mut seed: u64 = 0x1357_9bdf_2468_ace0;
    for case in 0..60u64 {
        seed = seed.wrapping_mul(6364136223846793005).wrapping_add(1442695040888963407);
        let omega = 2 + (seed >> 40) as usize % 10;
        let rho = 1 + (seed >> 20) as usize % 5;
        let mu = 2 * (1 + (seed >> 50) as usize % 3) + 2;
        let shard_len = 1 + (seed >> 8) as usize % 599;
        let bc = BlockCirculant::new(&f, mu, omega, rho);
        let enc = BcEncoder::new(&f, &bc);
        let data = fill(seed ^ case, enc.k_shards() * shard_len);
        let mut ps = vec![0u8; enc.parity_shards() * shard_len];
        let mut pn = vec![0u8; enc.parity_shards() * shard_len];
        enc.encode_scalar(&f, &data, shard_len, &mut ps);
        enc.encode_neon(&f, &data, shard_len, &mut pn);
        assert_eq!(ps, pn, "case {case}: (mu={mu},omega={omega},rho={rho}) L={shard_len}");
    }
}

#[test]
fn shard_counts_and_stale_parity_is_overwritten() {
    let f = Gf256::new();
    let bc = BlockCirculant::new(&f, 6, 2, 2);
    let enc = BcEncoder::new(&f, &bc);
    assert_eq!(enc.k_shards(), 12);
    assert_eq!(enc.parity_shards(), 12);
    // All-zero data gives all-zero parity, whatever the buffer held before.
    let data = vec![0u8; 12 * 3];
    let mut parity = vec![0xffu8; 12 * 3];
    enc.encode_scalar(&f, &data, 3, &mut parity);
    assert!(parity.iter().all(|&b| b == 0));
    let mut parity2 = vec![0x5au8; 12 * 3];
    enc.encode_neon(&f, &data, 3, &mut parity2);
    assert!(parity2.iter().all(|&b| b == 0));
}

#[test]
fn each_byte_column_of_the_shards_is_an_encoding() {
    // Byte b of every shard forms a message whose parity is byte b of the parity shards.
    let f = Gf256::new();
    let bc = BlockCirculant::new(&f, 6, 4, 3);
    let enc = BcEncoder::new(&f, &bc);
    let l = 5;
    let data = fill(0x77, enc.k_shards() * l);
    let mut parity = vec![0u8; enc.parity_shards() * l];
    enc.encode_neon(&f, &data, l, &mut parity);
    for b in 0..l {
        let msg: Vec<u8> = (0..enc.k_shards()).map(|s| data[s * l + b]).collect();
        let cw = bc.encode(&f, &msg);
        for q in 0..enc.parity_shards() {
            assert_eq!(parity[q * l + b], cw[bc.k() + q]);
        }
    }
}

#[test]
fn mul_table_lookup_method() {
    let f = Gf256::new();
    let t = MulTable::new(&f, 0x1d);
    assert_eq!(t.lo[1], 0x1d);
    assert_eq!(t.lo[0], 0);
    assert_eq!(t.hi[1], f.mul(0x1d, 0x10));
}
