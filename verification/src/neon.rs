//! Block-circulant shard encoder: a tuned scalar path and a split-nibble table path.
//!
//! In a deployment each code symbol is a shard of many bytes, so encoding is a stack of
//! `dst[] ^= c * src[]` GF(2^8) mul-accumulates over byte vectors. Multiplication by a
//! fixed constant `c` is linear over GF(2), so it splits over the nibbles of a byte:
//! `c*x = c*(x & 0x0f) ^ c*((x >> 4) << 4)`. Two 16-entry tables `lo[i] = c*i` and
//! `hi[i] = c*(i << 4)` then give `c*x = lo[x & 0x0f] ^ hi[x >> 4]`, the lookup that
//! 16-lane table instructions (such as NEON `vqtbl1q_u8`) perform on 16 bytes at a time.
//! Both encoders do identical work on the same generator matrices and produce the same
//! parity.

use vstd::prelude::*;
use crate::block_circulant::{
    column_of, lemma_bc_systematic_unique, matrices_view, unit_vec, BlockCirculant,
};
use crate::gf256::{gf_mul, lemma_mul_distrib, lemma_mul_one, lemma_mul_zero, Gf256};
use crate::linalg::{dot, gather, in_kernel, lemma_dot_comm, lemma_dot_single, lemma_lincomb_kernel, lemma_xor_facts, lincomb};

verus! {

/// Multiplication by a constant splits over the two nibbles of a byte.
pub proof fn lemma_split_nibble(c: u8, x: u8)
    ensures
        gf_mul(c, x) == gf_mul(c, x & 0x0fu8) ^ gf_mul(c, (x >> 4u8) << 4u8),
{
    assert(x == (x & 0x0fu8) ^ ((x >> 4u8) << 4u8)) by (bit_vector);
    lemma_mul_distrib(c, x & 0x0fu8, (x >> 4u8) << 4u8);
}

/// Split-nibble product tables for one field constant `c`: `lo[i] = c*i` and
/// `hi[i] = c*(i << 4)` for `i` in `0..16`, so that `c*x = lo[x & 0x0f] ^ hi[x >> 4]`.
#[derive(Clone, Copy)]
pub struct MulTable {
    /// The low-nibble products.
    pub lo: [u8; 16],
    /// The high-nibble products.
    pub hi: [u8; 16],
}

impl MulTable {
    /// The tables are those of the constant `c`.
    pub open spec fn is_table_of(&self, c: u8) -> bool {
        &&& self.lo@.len() == 16
        &&& self.hi@.len() == 16
        &&& forall|i: int| 0 <= i < 16 ==> #[trigger] self.lo@[i] == gf_mul(c, i as u8)
        &&& forall|i: int| 0 <= i < 16 ==> #[trigger] self.hi@[i] == gf_mul(c, ((i as u8) << 4u8))
    }

    /// Build the two tables of `c`.
    pub fn new(f: &Gf256, c: u8) -> (t: Self)
        ensures
            t.is_table_of(c),
    {
        let mut lo: [u8; 16] = [0u8; 16];
        let mut hi: [u8; 16] = [0u8; 16];
        let mut i: u8 = 0;
        while i < 16
            invariant
                i <= 16,
                lo@.len() == 16,
                hi@.len() == 16,
                forall|j: int| 0 <= j < i ==> #[trigger] lo@[j] == gf_mul(c, j as u8),
                forall|j: int| 0 <= j < i ==> #[trigger] hi@[j] == gf_mul(c, ((j as u8) << 4u8)),
            decreases 16 - i,
        {
            lo[i as usize] = f.mul(c, i);
            hi[i as usize] = f.mul(c, i << 4u8);
            i += 1;
        }
        MulTable { lo, hi }
    }

    /// `c*x` by the two nibble lookups.
    fn mul(&self, Ghost(c): Ghost<u8>, x: u8) -> (r: u8)
        requires
            self.is_table_of(c),
        ensures
            r == gf_mul(c, x),
    {
        let l = x & 0x0fu8;
        let h = x >> 4u8;
        proof {
            assert(l < 16) by (bit_vector)
                requires
                    l == x & 0x0fu8,
            ;
            assert(h < 16) by (bit_vector)
                requires
                    h == x >> 4u8,
            ;
            assert(self.lo@[l as int] == gf_mul(c, l));
            assert(self.hi@[h as int] == gf_mul(c, (h << 4u8)));
            lemma_split_nibble(c, x);
        }
        self.lo[l as usize] ^ self.hi[h as usize]
    }
}

/// Tuned scalar `dst[] ^= c * src[]` over GF(2^8) on `len` bytes, `src` read from `data`
/// at `src_off` and `dst` written in `parity` at `dst_off`: one full 256-entry product
/// table for `c`, then one lookup and XOR per byte.
fn mul_add_scalar(
    f: &Gf256,
    c: u8,
    data: &[u8],
    src_off: usize,
    parity: &mut [u8],
    dst_off: usize,
    len: usize,
)
    requires
        src_off + len <= data.len(),
        dst_off + len <= old(parity).len(),
    ensures
        final(parity)@.len() == old(parity)@.len(),
        forall|j: int|
            0 <= j < len ==> #[trigger] final(parity)@[dst_off + j] == old(parity)@[dst_off + j] ^ gf_mul(
                c,
                data@[src_off + j],
            ),
        forall|p: int|
            0 <= p < old(parity)@.len() && (p < dst_off || p >= dst_off + len) ==> #[trigger] final(parity)@[p]
                == old(parity)@[p],
{
    let mut table: Vec<u8> = Vec::new();
    let mut x: usize = 0;
    while x < 256
        invariant
            x <= 256,
            table@.len() == x,
            forall|y: int| 0 <= y < x ==> #[trigger] table@[y] == gf_mul(c, y as u8),
        decreases 256 - x,
    {
        table.push(f.mul(c, x as u8));
        x += 1;
    }
    let ghost start = parity@;
    let mut j: usize = 0;
    while j < len
        invariant
            j <= len,
            src_off + len <= data.len(),
            dst_off + len <= parity.len(),
            parity@.len() == start.len(),
            table@.len() == 256,
            forall|y: int| 0 <= y < 256 ==> #[trigger] table@[y] == gf_mul(c, y as u8),
            forall|t: int|
                0 <= t < j ==> #[trigger] parity@[dst_off + t] == start[dst_off + t] ^ gf_mul(
                    c,
                    data@[src_off + t],
                ),
            forall|p: int|
                0 <= p < start.len() && (p < dst_off || p >= dst_off + j) ==> #[trigger] parity@[p]
                    == start[p],
        decreases len - j,
    {
        let s = data[src_off + j];
        let v = parity[dst_off + j] ^ table[s as usize];
        parity[dst_off + j] = v;
        j += 1;
    }
}

/// Split-nibble `dst[] ^= c * src[]` on `len` bytes, with the tables `t` of `c`.
fn mul_add_split(
    t: &MulTable,
    Ghost(c): Ghost<u8>,
    data: &[u8],
    src_off: usize,
    parity: &mut [u8],
    dst_off: usize,
    len: usize,
)
    requires
        t.is_table_of(c),
        src_off + len <= data.len(),
        dst_off + len <= old(parity).len(),
    ensures
        final(parity)@.len() == old(parity)@.len(),
        forall|j: int|
            0 <= j < len ==> #[trigger] final(parity)@[dst_off + j] == old(parity)@[dst_off + j] ^ gf_mul(
                c,
                data@[src_off + j],
            ),
        forall|p: int|
            0 <= p < old(parity)@.len() && (p < dst_off || p >= dst_off + len) ==> #[trigger] final(parity)@[p]
                == old(parity)@[p],
{
    let ghost start = parity@;
    let mut j: usize = 0;
    while j < len
        invariant
            j <= len,
            t.is_table_of(c),
            src_off + len <= data.len(),
            dst_off + len <= parity.len(),
            parity@.len() == start.len(),
            forall|u: int|
                0 <= u < j ==> #[trigger] parity@[dst_off + u] == start[dst_off + u] ^ gf_mul(
                    c,
                    data@[src_off + u],
                ),
            forall|p: int|
                0 <= p < start.len() && (p < dst_off || p >= dst_off + j) ==> #[trigger] parity@[p]
                    == start[p],
        decreases len - j,
    {
        let s = data[src_off + j];
        let prod = t.mul(Ghost(c), s);
        let v = parity[dst_off + j] ^ prod;
        parity[dst_off + j] = v;
        j += 1;
    }
}

/// Data shard feeding column `c` of local code `i`: columns `0..omega` read block `i-1`
/// (cyclically), columns `omega..2*omega` read block `i`.
pub open spec fn src_shard_spec(mu: nat, omega: nat, i: nat, c: nat) -> nat {
    if c < omega {
        (((i + mu - 1) as nat) % mu) * omega + c
    } else {
        i * omega + (c - omega) as nat
    }
}

/// The `2*omega` data bytes at offset `b` of the shards feeding local code `i`.
pub open spec fn local_data(mu: nat, omega: nat, data: Seq<u8>, shard_len: nat, i: nat, b: nat) -> Seq<u8> {
    Seq::new(2 * omega, |c: int| data[(src_shard_spec(mu, omega, i, c as nat) * shard_len + b) as int])
}

/// Byte `b` of parity shard `r` of local code `i`: `XOR_c gen[i][r][c] * D_c[b]`.
pub open spec fn parity_byte(
    mu: nat,
    omega: nat,
    gen: Seq<Seq<Seq<u8>>>,
    data: Seq<u8>,
    shard_len: nat,
    i: nat,
    r: nat,
    b: nat,
) -> u8 {
    dot(gen[i as int][r as int], local_data(mu, omega, data, shard_len, i, b), 2 * omega)
}

/// `parity` holds the `mu*rho` parity shards of `data` (shard-major, `shard_len` bytes
/// each): parity shard `i*rho + r` is row `r` of local code `i`'s generator applied to the
/// data shards of that local code.
pub open spec fn is_shard_parity(
    mu: nat,
    omega: nat,
    rho: nat,
    gen: Seq<Seq<Seq<u8>>>,
    data: Seq<u8>,
    shard_len: nat,
    parity: Seq<u8>,
) -> bool {
    &&& parity.len() == mu * rho * shard_len
    &&& forall|i: nat, r: nat, b: nat|
        i < mu && r < rho && b < shard_len ==> #[trigger] parity[((i * rho + r) * shard_len + b) as int]
            == parity_byte(mu, omega, gen, data, shard_len, i, r, b)
}

/// A block-circulant shard encoder: encodes `mu*omega` data shards into `mu*rho` parity
/// shards of `shard_len` bytes each. The scalar and split-table paths do identical work.
pub struct BcEncoder {
    pub mu: usize,
    pub omega: usize,
    pub rho: usize,
    /// `gen[i]` is the `rho x (2*omega)` systematic generator of local code `i`.
    pub gen: Vec<Vec<Vec<u8>>>,
}

impl BcEncoder {
    /// The generator matrices, one per local code.
    pub open spec fn generators(&self) -> Seq<Seq<Seq<u8>>> {
        matrices_view(self.gen@)
    }

    /// The parameters are those of a block-circulant code and the generators have their
    /// shapes.
    pub open spec fn wf(&self) -> bool {
        &&& self.mu >= 2
        &&& self.mu * (self.rho + self.omega) <= 255
        &&& self.gen@.len() == self.mu
        &&& forall|i: int|
            0 <= i < self.mu ==> (#[trigger] self.gen@[i])@.len() == self.rho && forall|r: int|
                0 <= r < self.rho ==> (#[trigger] self.gen@[i]@[r])@.len() == 2 * self.omega
    }

    /// Build from a block-circulant code, capturing its local generator matrices.
    pub fn new(f: &Gf256, bc: &BlockCirculant) -> (enc: Self)
        requires
            bc.wf(),
        ensures
            enc.wf(),
            enc.mu == bc.mu,
            enc.omega == bc.omega,
            enc.rho == bc.rho,
            bc.is_generator(enc.generators()),
    {
        let gen = bc.local_generators(f);
        let enc = BcEncoder { mu: bc.mu, omega: bc.omega, rho: bc.rho, gen };
        proof {
            let gv = matrices_view(enc.gen@);
            assert forall|i: int| 0 <= i < enc.mu implies (#[trigger] enc.gen@[i])@.len() == enc.rho && forall|
                r: int,
            | 0 <= r < enc.rho ==> (#[trigger] enc.gen@[i]@[r])@.len() == 2 * enc.omega by {
                assert(gv[i] == crate::linalg::rows_view(enc.gen@[i]@));
                assert(gv[i].len() == enc.rho);
                assert forall|r: int| 0 <= r < enc.rho implies (#[trigger] enc.gen@[i]@[r])@.len() == 2
                    * enc.omega by {
                    assert(gv[i][r] == enc.gen@[i]@[r]@);
                }
            }
        }
        enc
    }

    /// Number of input data shards (`k = mu*omega`).
    pub fn k_shards(&self) -> (r: usize)
        requires
            self.wf(),
        ensures
            r == self.mu * self.omega,
    {
        proof {
            assert(self.mu * self.omega <= self.mu * (self.rho + self.omega)) by (nonlinear_arith);
        }
        self.mu * self.omega
    }

    /// Number of output parity shards (`mu*rho`).
    pub fn parity_shards(&self) -> (r: usize)
        requires
            self.wf(),
        ensures
            r == self.mu * self.rho,
    {
        proof {
            assert(self.mu * self.rho <= self.mu * (self.rho + self.omega)) by (nonlinear_arith);
        }
        self.mu * self.rho
    }

    /// Global index of the data shard feeding column `c` of local code `i`.
    fn src_shard(&self, i: usize, c: usize) -> (s: usize)
        requires
            self.wf(),
            i < self.mu,
            c < 2 * self.omega,
        ensures
            s == src_shard_spec(self.mu as nat, self.omega as nat, i as nat, c as nat),
            s < self.mu * self.omega,
    {
        let mu = self.mu;
        let w = self.omega;
        proof {
            assert(mu * w <= mu * (self.rho + w)) by (nonlinear_arith);
        }
        let prev = if i == 0 {
            mu - 1
        } else {
            i - 1
        };
        proof {
            if i == 0 {
                vstd::arithmetic::div_mod::lemma_fundamental_div_mod_converse(
                    (i + mu - 1) as int,
                    mu as int,
                    0,
                    (mu - 1) as int,
                );
            } else {
                vstd::arithmetic::div_mod::lemma_fundamental_div_mod_converse(
                    (i + mu - 1) as int,
                    mu as int,
                    1,
                    (i - 1) as int,
                );
            }
            assert(prev == ((i + mu - 1) as nat) % (mu as nat));
        }
        if c < w {
            proof {
                assert(prev * w + c < mu * w) by (nonlinear_arith)
                    requires
                        prev < mu,
                        c < w,
                ;
            }
            prev * w + c
        } else {
            proof {
                assert(i * w + (c - w) < mu * w) by (nonlinear_arith)
                    requires
                        i < mu,
                        c - w < w,
                        c >= w,
                ;
            }
            i * w + (c - w)
        }
    }
}

proof fn lemma_shard_offsets(q: nat, m: nat, l: nat, b: nat)
    requires
        q < m,
        b < l,
    ensures
        q * l + b < m * l,
        q * l + l <= m * l,
{
    assert(q * l + l <= m * l) by (nonlinear_arith)
        requires
            q < m,
    ;
}

proof fn lemma_shard_order(q2: nat, q: nat, l: nat, b: nat)
    requires
        q2 < q,
        b < l,
    ensures
        q2 * l + b < q * l,
{
    assert(q2 * l + l <= q * l) by (nonlinear_arith)
        requires
            q2 < q,
    ;
}

impl BcEncoder {
    /// The shared encoder: zero `parity`, then accumulate every nonzero generator
    /// coefficient's contribution, with the 256-entry table kernel or the split-nibble one.
    fn encode_shards(&self, f: &Gf256, data: &[u8], shard_len: usize, parity: &mut [u8], split: bool)
        requires
            self.wf(),
            data.len() == self.mu * self.omega * shard_len,
            old(parity).len() == self.mu * self.rho * shard_len,
        ensures
            is_shard_parity(
                self.mu as nat,
                self.omega as nat,
                self.rho as nat,
                self.generators(),
                data@,
                shard_len as nat,
                final(parity)@,
            ),
    {
        let l = shard_len;
        let mu = self.mu;
        let rho = self.rho;
        let w = self.omega;
        let ghost gen = self.generators();
        let total: usize = parity.len();
        proof {
            assert(2 * (rho + w) <= mu * (rho + w)) by (nonlinear_arith)
                requires
                    mu >= 2,
            ;
            assert(mu * rho <= mu * (rho + w) && mu * w <= mu * (rho + w)) by (nonlinear_arith);
            assert(w <= 127 && rho <= 127 && mu * rho <= 255 && mu * w <= 255);
        }
        let mut j: usize = 0;
        while j < parity.len()
            invariant
                j <= parity@.len(),
                parity@.len() == total,
                forall|p: int| 0 <= p < j ==> #[trigger] parity@[p] == 0,
            decreases parity@.len() - j,
        {
            parity[j] = 0;
            j += 1;
        }
        let two_omega = 2 * w;
        let mut i: usize = 0;
        while i < mu
            invariant
                self.wf(),
                mu == self.mu,
                rho == self.rho,
                w == self.omega,
                two_omega == 2 * w,
                gen == self.generators(),
                data.len() == mu * w * l,
                total == mu * rho * l,
                mu * rho <= 255,
                parity@.len() == total,
                i <= mu,
                forall|i2: nat, r2: nat, b: nat|
                    i2 < i && r2 < rho && b < l ==> #[trigger] parity@[((i2 * rho + r2) * l + b) as int]
                        == parity_byte(mu as nat, w as nat, gen, data@, l as nat, i2, r2, b),
                forall|p: int| (i * rho) * l <= p < total ==> #[trigger] parity@[p] == 0,
            decreases mu - i,
        {
            let mut r: usize = 0;
            while r < rho
                invariant
                    self.wf(),
                    mu == self.mu,
                    rho == self.rho,
                    w == self.omega,
                    two_omega == 2 * w,
                    gen == self.generators(),
                    data.len() == mu * w * l,
                    total == mu * rho * l,
                    mu * rho <= 255,
                    parity@.len() == total,
                    i < mu,
                    r <= rho,
                    forall|i2: nat, r2: nat, b: nat|
                        i2 < i && r2 < rho && b < l ==> #[trigger] parity@[((i2 * rho + r2) * l + b) as int]
                            == parity_byte(mu as nat, w as nat, gen, data@, l as nat, i2, r2, b),
                    forall|r2: nat, b: nat|
                        r2 < r && b < l ==> #[trigger] parity@[((i * rho + r2) * l + b) as int] == parity_byte(
                            mu as nat,
                            w as nat,
                            gen,
                            data@,
                            l as nat,
                            i as nat,
                            r2,
                            b,
                        ),
                    forall|p: int| (i * rho + r) * l <= p < total ==> #[trigger] parity@[p] == 0,
                decreases rho - r,
            {
                proof {
                    assert(i * rho + r < mu * rho) by (nonlinear_arith)
                        requires
                            i < mu,
                            r < rho,
                    ;
                    if l > 0 {
                        lemma_shard_offsets((i * rho + r) as nat, (mu * rho) as nat, l as nat, 0);
                    } else {
                        assert((i * rho + r) * l == 0) by (nonlinear_arith)
                            requires
                                l == 0,
                        ;
                    }
                    assert(mu * rho * l == (mu * rho) * l) by (nonlinear_arith);
                }
                let q: usize = i * rho + r;
                let dst_off: usize = q * l;
                let ghost before = parity@;
                let ghost row = gen[i as int][r as int];
                proof {
                    assert(gen[i as int] == crate::linalg::rows_view(self.gen@[i as int]@));
                    assert(row == self.gen@[i as int]@[r as int]@);
                }
                let mut c: usize = 0;
                while c < two_omega
                    invariant
                        self.wf(),
                        mu == self.mu,
                        rho == self.rho,
                        w == self.omega,
                        two_omega == 2 * w,
                        gen == self.generators(),
                        row == self.gen@[i as int]@[r as int]@,
                        row == gen[i as int][r as int],
                        data.len() == mu * w * l,
                        total == mu * rho * l,
                        parity@.len() == total,
                        before.len() == total,
                        i < mu,
                        r < rho,
                        dst_off == q * l,
                        q == i * rho + r,
                        dst_off + l <= total,
                        c <= two_omega,
                        forall|b: int|
                            0 <= b < l ==> #[trigger] parity@[dst_off + b] == dot(
                                row,
                                local_data(mu as nat, w as nat, data@, l as nat, i as nat, b as nat),
                                c as nat,
                            ),
                        forall|p: int|
                            0 <= p < total && (p < dst_off || p >= dst_off + l) ==> #[trigger] parity@[p]
                                == before[p],
                    decreases two_omega - c,
                {
                    let coef = self.gen[i][r][c];
                    let ghost cur = parity@;
                    if coef != 0 {
                        let s = self.src_shard(i, c);
                        proof {
                            assert(mu * w * l == (mu * w) * l) by (nonlinear_arith);
                            if l > 0 {
                                lemma_shard_offsets(s as nat, (mu * w) as nat, l as nat, 0);
                            } else {
                                assert(s * l == 0) by (nonlinear_arith)
                                    requires
                                        l == 0,
                                ;
                            }
                        }
                        let src_off = s * l;
                        if split {
                            let table = MulTable::new(f, coef);
                            mul_add_split(&table, Ghost(coef), data, src_off, parity, dst_off, l);
                        } else {
                            mul_add_scalar(f, coef, data, src_off, parity, dst_off, l);
                        }
                    }
                    proof {
                        assert forall|b: int| 0 <= b < l implies #[trigger] parity@[dst_off + b] == dot(
                            row,
                            local_data(mu as nat, w as nat, data@, l as nat, i as nat, b as nat),
                            (c + 1) as nat,
                        ) by {
                            let x = local_data(mu as nat, w as nat, data@, l as nat, i as nat, b as nat);
                            assert(x[c as int] == data@[(src_shard_spec(mu as nat, w as nat, i as nat, c as nat) * l + b) as int]);
                            if coef == 0 {
                                lemma_mul_zero(x[c as int]);
                                lemma_xor_facts(cur[dst_off + b], 0, 0, 0);
                            }
                        }
                    }
                    c += 1;
                }
                proof {
                    assert forall|i2: nat, r2: nat, b: nat|
                        i2 < i && r2 < rho && b < l implies #[trigger] parity@[((i2 * rho + r2) * l + b) as int]
                        == parity_byte(mu as nat, w as nat, gen, data@, l as nat, i2, r2, b) by {
                        assert(i2 * rho + r2 < q) by (nonlinear_arith)
                            requires
                                i2 < i,
                                r2 < rho,
                                q == i * rho + r,
                        ;
                        lemma_shard_order((i2 * rho + r2) as nat, q as nat, l as nat, b);
                    }
                    assert forall|r2: nat, b: nat| r2 < r + 1 && b < l implies #[trigger] parity@[((i * rho + r2)
                        * l + b) as int] == parity_byte(
                        mu as nat,
                        w as nat,
                        gen,
                        data@,
                        l as nat,
                        i as nat,
                        r2,
                        b,
                    ) by {
                        if r2 < r {
                            lemma_shard_order((i * rho + r2) as nat, q as nat, l as nat, b);
                        } else {
                            assert(parity@[dst_off + b as int] == dot(
                                row,
                                local_data(mu as nat, w as nat, data@, l as nat, i as nat, b),
                                two_omega as nat,
                            ));
                        }
                    }
                    assert forall|p: int| (i * rho + (r + 1)) * l <= p < total implies #[trigger] parity@[p] == 0 by {
                        assert((i * rho + (r + 1)) * l == q * l + l) by (nonlinear_arith)
                            requires
                                q == i * rho + r,
                        ;
                    }
                }
                r += 1;
            }
            proof {
                assert((i * rho + rho) * l == ((i + 1) * rho) * l) by (nonlinear_arith);
                assert forall|i2: nat, r2: nat, b: nat|
                    i2 < i + 1 && r2 < rho && b < l implies #[trigger] parity@[((i2 * rho + r2) * l + b) as int]
                    == parity_byte(mu as nat, w as nat, gen, data@, l as nat, i2, r2, b) by {
                    if i2 == i {
                        assert(parity@[((i * rho + r2) * l + b) as int] == parity_byte(
                            mu as nat,
                            w as nat,
                            gen,
                            data@,
                            l as nat,
                            i as nat,
                            r2,
                            b,
                        ));
                    }
                }
            }
            i += 1;
        }
    }

    /// Tuned-scalar encode: `data` is `k_shards()*shard_len` bytes (shard-major), and
    /// `parity` (`parity_shards()*shard_len` bytes) is overwritten with the parity shards.
    pub fn encode_scalar(&self, f: &Gf256, data: &[u8], shard_len: usize, parity: &mut [u8])
        requires
            self.wf(),
            data.len() == self.mu * self.omega * shard_len,
            old(parity).len() == self.mu * self.rho * shard_len,
        ensures
            is_shard_parity(
                self.mu as nat,
                self.omega as nat,
                self.rho as nat,
                self.generators(),
                data@,
                shard_len as nat,
                final(parity)@,
            ),
    {
        self.encode_shards(f, data, shard_len, parity, false)
    }

    /// Split-nibble table encode: the same work and the same parity as `encode_scalar`,
    /// with each multiply done by the two 16-entry nibble tables of its coefficient.
    pub fn encode_neon(&self, f: &Gf256, data: &[u8], shard_len: usize, parity: &mut [u8])
        requires
            self.wf(),
            data.len() == self.mu * self.omega * shard_len,
            old(parity).len() == self.mu * self.rho * shard_len,
        ensures
            is_shard_parity(
                self.mu as nat,
                self.omega as nat,
                self.rho as nat,
                self.generators(),
                data@,
                shard_len as nat,
                final(parity)@,
            ),
    {
        self.encode_shards(f, data, shard_len, parity, true)
    }
}

/// The parity shards are determined by the data: any two buffers that both hold the
/// parity of `data` are equal, so `encode_neon` and `encode_scalar` write byte-identical
/// parity.
pub proof fn lemma_shard_parity_unique(
    mu: nat,
    omega: nat,
    rho: nat,
    gen: Seq<Seq<Seq<u8>>>,
    data: Seq<u8>,
    shard_len: nat,
    p1: Seq<u8>,
    p2: Seq<u8>,
)
    requires
        is_shard_parity(mu, omega, rho, gen, data, shard_len, p1),
        is_shard_parity(mu, omega, rho, gen, data, shard_len, p2),
    ensures
        p1 == p2,
{
    assert forall|p: int| 0 <= p < p1.len() implies p1[p] == p2[p] by {
        let l = shard_len;
        assert(l > 0 && rho > 0) by (nonlinear_arith)
            requires
                0 <= p < mu * rho * l,
        ;
        let q = p / (l as int);
        let b = p % (l as int);
        let i = q / (rho as int);
        let r = q % (rho as int);
        vstd::arithmetic::div_mod::lemma_fundamental_div_mod(p, l as int);
        vstd::arithmetic::div_mod::lemma_fundamental_div_mod(q, rho as int);
        vstd::arithmetic::div_mod::lemma_div_pos_is_pos(p, l as int);
        vstd::arithmetic::div_mod::lemma_div_pos_is_pos(q, rho as int);
        assert(q * l == l * q && i * rho == rho * i) by (nonlinear_arith);
        assert(i < mu) by (nonlinear_arith)
            requires
                p == q * l + b,
                q == i * rho + r,
                0 <= b < l,
                0 <= r < rho,
                0 <= i,
                p < mu * rho * l,
        ;
        assert(p1[((i as nat * rho + r as nat) * l + b as nat) as int] == parity_byte(
            mu,
            omega,
            gen,
            data,
            l,
            i as nat,
            r as nat,
            b as nat,
        ));
        assert(p2[((i as nat * rho + r as nat) * l + b as nat) as int] == parity_byte(
            mu,
            omega,
            gen,
            data,
            l,
            i as nat,
            r as nat,
            b as nat,
        ));
    }
    assert(p1 =~= p2);
}

/// With one-byte shards the shard encoder reproduces the block-circulant encoding: the
/// parity it computes for a message is exactly the parity part of the codeword that
/// `BlockCirculant::encode` returns for that message.
pub proof fn lemma_unit_shards_match_encode(
    bc: &BlockCirculant,
    gen: Seq<Seq<Seq<u8>>>,
    msg: Seq<u8>,
    cw: Seq<u8>,
    parity: Seq<u8>,
)
    requires
        bc.wf(),
        bc.is_generator(gen),
        msg.len() == bc.dim_spec(),
        is_shard_parity(bc.mu as nat, bc.omega as nat, bc.rho as nat, gen, msg, 1, parity),
        cw.len() == bc.len_spec(),
        in_kernel(bc.parity_matrix(), cw, bc.len_spec()),
        cw.subrange(0, bc.dim_spec() as int) == msg,
    ensures
        parity == cw.subrange(bc.dim_spec() as int, bc.len_spec() as int),
{
    let mu = bc.mu as nat;
    let w = bc.omega as nat;
    let rho = bc.rho as nat;
    let k = bc.dim_spec();
    let n = bc.len_spec();
    let len = 2 * w + rho;
    crate::block_circulant::lemma_index_bounds(mu, w, rho, 0, 0);
    assert(parity.len() == mu * rho) by (nonlinear_arith)
        requires
            parity.len() == mu * rho * 1,
    ;
    let v = msg + parity;
    assert(v.len() == n);
    assert forall|i: nat| i < mu implies #[trigger] in_kernel(bc.local_h(i), gather(v, bc.support_spec(i)), len) by {
        crate::block_circulant::lemma_index_bounds(mu, w, rho, i, 0);
        bc.lemma_support(i);
        let x = local_data(mu, w, msg, 1, i, 0);
        let m = gen[i as int];
        let vecs = Seq::new(2 * w, |c: int| unit_vec(2 * w, c) + column_of(m, c));
        assert forall|c: int| 0 <= c < 2 * w implies #[trigger] in_kernel(bc.local_h(i), vecs[c], len) by {
            let ii = i as int;
            assert(in_kernel(
                bc.local_h(ii as nat),
                unit_vec((2 * bc.omega) as nat, c) + column_of(gen[ii], c),
                (2 * bc.omega + bc.rho) as nat,
            ));
            assert((2 * bc.omega) as nat == 2 * w);
            assert((2 * bc.omega + bc.rho) as nat == len);
        }
        lemma_lincomb_kernel(bc.local_h(i), vecs, x, 2 * w, len);
        let lc = lincomb(vecs, x, 2 * w, len);
        let g = gather(v, bc.support_spec(i));
        assert(g =~= lc) by {
            assert forall|j: int| 0 <= j < len implies g[j] == lc[j] by {
                let colj = Seq::new(2 * w, |c: int| vecs[c][j]);
                assert(lc[j] == dot(x, colj, 2 * w));
                if j < 2 * w {
                    assert forall|c: int| 0 <= c < 2 * w && c != j implies #[trigger] gf_mul(x[c], colj[c]) == 0 by {
                        assert(colj[c] == 0);
                        lemma_mul_zero(x[c]);
                    }
                    lemma_dot_single(x, colj, 2 * w, j);
                    assert(colj[j] == 1);
                    lemma_mul_one(x[j]);
                    let sp = bc.support_spec(i)[j];
                    assert(sp < k);
                    if j < w {
                        crate::block_circulant::lemma_index_bounds(mu, w, rho, bc.prev_spec(i), j as nat);
                    } else {
                        crate::block_circulant::lemma_index_bounds(mu, w, rho, i, (j - w) as nat);
                    }
                    assert(sp as nat == src_shard_spec(mu, w, i, j as nat));
                    assert(g[j] == v[sp as int]);
                    assert(v[sp as int] == msg[sp as int]);
                    assert(x[j] == msg[(src_shard_spec(mu, w, i, j as nat) * 1 + 0) as int]);
                } else {
                    let r = j - 2 * w;
                    assert(m.len() == rho);
                    assert(m[r].len() == 2 * w);
                    assert forall|c: int| 0 <= c < 2 * w implies colj[c] == m[r][c] by {
                        assert(vecs[c][j] == column_of(m, c)[r]);
                    }
                    crate::linalg::lemma_dot_ext(x, colj, x, m[r], 2 * w);
                    lemma_dot_comm(x, m[r], 2 * w);
                    crate::block_circulant::lemma_index_bounds(mu, w, rho, i, r as nat);
                    assert(bc.support_spec(i)[j] as int == mu * w + i * rho + r);
                    assert(g[j] == v[(mu * w + i * rho + r) as int]);
                    assert(v[(mu * w + i * rho + r) as int] == parity[(i * rho + r) as int]);
                    assert(parity[((i * rho + r as nat) * 1 + 0) as int] == parity_byte(
                        mu,
                        w,
                        gen,
                        msg,
                        1,
                        i,
                        r as nat,
                        0,
                    ));
                }
            }
        }
    }
    bc.lemma_parity_rows(v);
    assert(v.subrange(0, k as int) =~= msg);
    lemma_bc_systematic_unique(bc, v, cw);
    assert(parity =~= cw.subrange(k as int, n as int)) by {
        assert forall|t: int| 0 <= t < parity.len() implies parity[t] == cw.subrange(k as int, n as int)[t] by {
            assert(v[k + t] == parity[t]);
        }
    }
}

/// Byte `b` of each of the first `count` shards of a shard-major buffer with `shard_len`-byte
/// shards.
pub open spec fn byte_column(buf: Seq<u8>, shard_len: nat, b: nat, count: nat) -> Seq<u8> {
    Seq::new(count, |j: int| buf[j * shard_len + b])
}

/// The data shard feeding any column of any local code is one of the `mu*omega` data shards.
proof fn lemma_src_shard_bound(mu: nat, omega: nat, i: nat, c: nat)
    requires
        mu >= 1,
        i < mu,
        c < 2 * omega,
    ensures
        src_shard_spec(mu, omega, i, c) < mu * omega,
{
    if c < omega {
        let pv = ((i + mu - 1) as nat) % mu;
        vstd::arithmetic::div_mod::lemma_mod_pos_bound((i + mu - 1) as int, mu as int);
        crate::block_circulant::lemma_index_bounds(mu, omega, 0, pv, c);
    } else {
        crate::block_circulant::lemma_index_bounds(mu, omega, 0, i, (c - omega) as nat);
    }
}

/// The shard encoder is the block-circulant encoder applied byte by byte: for every shard
/// length and every byte offset `b`, byte `b` of the `mu*rho` parity shards is the parity
/// part of the block-circulant codeword whose message is byte `b` of the `mu*omega` data
/// shards.
pub proof fn lemma_shards_match_encode(
    bc: &BlockCirculant,
    gen: Seq<Seq<Seq<u8>>>,
    data: Seq<u8>,
    shard_len: nat,
    parity: Seq<u8>,
    b: nat,
    cw: Seq<u8>,
)
    requires
        bc.wf(),
        bc.is_generator(gen),
        data.len() == bc.mu * bc.omega * shard_len,
        is_shard_parity(bc.mu as nat, bc.omega as nat, bc.rho as nat, gen, data, shard_len, parity),
        b < shard_len,
        cw.len() == bc.len_spec(),
        in_kernel(bc.parity_matrix(), cw, bc.len_spec()),
        cw.subrange(0, bc.dim_spec() as int) == byte_column(data, shard_len, b, bc.dim_spec()),
    ensures
        byte_column(parity, shard_len, b, (bc.mu * bc.rho) as nat) == cw.subrange(
            bc.dim_spec() as int,
            bc.len_spec() as int,
        ),
{
    let mu = bc.mu as nat;
    let w = bc.omega as nat;
    let rho = bc.rho as nat;
    let l = shard_len;
    let k = bc.dim_spec();
    let msg = byte_column(data, l, b, k);
    let par = byte_column(parity, l, b, mu * rho);
    assert(par.len() == mu * rho * 1);
    assert forall|i: nat, r: nat, b1: nat| i < mu && r < rho && b1 < 1 implies #[trigger] par[((i * rho
        + r) * 1 + b1) as int] == parity_byte(mu, w, gen, msg, 1, i, r, b1) by {
        let q = i * rho + r;
        assert(q < mu * rho) by (nonlinear_arith)
            requires
                i < mu,
                r < rho,
                q == i * rho + r,
        ;
        assert(par[q as int] == parity[(q * l + b) as int]);
        assert(parity[((i * rho + r) * l + b) as int] == parity_byte(mu, w, gen, data, l, i, r, b));
        assert(local_data(mu, w, data, l, i, b) =~= local_data(mu, w, msg, 1, i, 0)) by {
            assert forall|c: int| 0 <= c < 2 * w implies local_data(mu, w, data, l, i, b)[c] == local_data(
                mu,
                w,
                msg,
                1,
                i,
                0,
            )[c] by {
                let src = src_shard_spec(mu, w, i, c as nat);
                lemma_src_shard_bound(mu, w, i, c as nat);
                assert(msg[src as int] == data[(src * l + b) as int]);
            }
        }
    }
    lemma_unit_shards_match_encode(bc, gen, msg, cw, par);
}

} // verus!
