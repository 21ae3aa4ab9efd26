//! Block-circulant local codes for data availability, overlap factor lambda = 2.
//!
//! The `k = mu*omega` message symbols form `mu` cyclic blocks `S_0 .. S_{mu-1}` of `omega`
//! symbols. Local code `i` is a GRS codeword `[ S_{i-1 mod mu} | S_i | P_i ]` of length
//! `2*omega + rho` whose `rho` parity symbols `P_i` are the systematic parity of the data
//! `(S_{i-1}, S_i)`; consecutive local codes overlap on the shared block `S_i`.
//!
//! Global coordinate order (length `n = mu*omega + mu*rho`):
//!   `[ S_0 .. S_{mu-1} (message, mu*omega) | P_0 .. P_{mu-1} (parity, mu*rho) ]`.
//! Every coordinate carries its own distinct evaluation point `g^index`; even and odd local
//! codes use the parity-check power windows starting at 0 and at `rho`.

use vstd::prelude::*;
use crate::gf256::{pow_g, Gf256};
use crate::grs::{
    copy_bytes, has_dependent_set, increasing, lemma_dependent_set_from_codeword,
    lemma_dependent_sets_from_weight, lemma_gather_weight, lemma_grs_parity_independent,
    lemma_recover_below_distance, lemma_vander_systematic_unique, lemma_vander_weight,
    lemma_support_list, lemma_weight_bound, lemma_weight_concat, lemma_weight_ext,
    lemma_weight_nonzero, lemma_weight_support, points_ok, recover_with, support_list,
    vandermonde, weight, Grs,
};
use crate::linalg::{
    agrees_outside, dot, gather, gather_cols, in_kernel, is_completion, lemma_scatter_entries,
    lemma_scattered_row_dot, positions_ok, rows_view, scatter, supported_in,
    uniquely_recoverable, wide_enough, zeros,
};

verus! {

/// A lambda = 2 block-circulant code with `mu` local codes.
pub struct BlockCirculant {
    pub mu: usize,
    pub omega: usize,
    pub rho: usize,
    /// One distinct evaluation point per global coordinate: `points[g] = g^g`.
    pub points: Vec<u8>,
}

pub(crate) proof fn lemma_index_bounds(mu: nat, omega: nat, rho: nat, i: nat, c: nat)
    by (nonlinear_arith)
    requires
        i < mu,
    ensures
        c < omega ==> i * omega + c < mu * omega,
        c < rho ==> mu * omega + i * rho + c < mu * (rho + omega),
        mu * (rho + omega) == mu * omega + mu * rho,
        i * rho + rho <= mu * rho,
        i * omega + omega <= mu * omega,
{
}

proof fn lemma_small_params(mu: nat, omega: nat, rho: nat)
    by (nonlinear_arith)
    requires
        mu >= 2,
        mu * (rho + omega) <= 255,
    ensures
        rho + omega <= 127,
        mu * omega <= 255,
        mu * rho <= 255,
{
}

impl BlockCirculant {
    /// Code length `n = mu*(rho + omega)`.
    pub open spec fn len_spec(&self) -> nat {
        (self.mu * (self.rho + self.omega)) as nat
    }

    /// Message length `k = mu*omega`.
    pub open spec fn dim_spec(&self) -> nat {
        (self.mu * self.omega) as nat
    }

    /// Parameters fit GF(2^8) and the points are `g^0 .. g^(n-1)`.
    pub open spec fn wf(&self) -> bool {
        &&& self.mu >= 2
        &&& self.mu % 2 == 0
        &&& self.len_spec() <= 255
        &&& self.points_wf()
    }

    /// The stored evaluation points are `g^0 .. g^(n-1)`, one per global coordinate.
    pub closed spec fn points_wf(&self) -> bool {
        &&& self.points@.len() == self.len_spec()
        &&& forall|g: int| 0 <= g < self.len_spec() ==> #[trigger] self.points@[g] == pow_g(g as nat)
    }

    /// The block before block `i`, cyclically.
    pub open spec fn prev_spec(&self, i: nat) -> nat {
        ((i + self.mu - 1) as nat) % (self.mu as nat)
    }

    /// Global coordinates of local code `i`: `[S_{i-1} | S_i | P_i]`.
    pub open spec fn support_spec(&self, i: nat) -> Seq<usize> {
        let w = self.omega as nat;
        Seq::new(
            (2 * w + self.rho) as nat,
            |c: int|
                if c < w {
                    (self.prev_spec(i) * w + c) as usize
                } else if c < 2 * w {
                    (i * w + (c - w)) as usize
                } else {
                    (self.mu * w + i * self.rho + (c - 2 * w)) as usize
                },
        )
    }

    /// Evaluation points of local code `i`.
    pub open spec fn local_points(&self, i: nat) -> Seq<u8> {
        self.support_spec(i).map_values(|g: usize| pow_g(g as nat))
    }

    /// Parity-check power window start of local code `i`: 0 for even `i`, `rho` for odd.
    pub open spec fn local_offset(&self, i: nat) -> nat {
        if i % 2 == 0 {
            0
        } else {
            self.rho as nat
        }
    }

    /// Parity-check matrix of local code `i` (`rho x (2*omega + rho)`).
    pub open spec fn local_h(&self, i: nat) -> Seq<Seq<u8>> {
        vandermonde(self.local_points(i), self.local_offset(i), self.rho as nat)
    }

    /// The global parity-check matrix `H_BC` (`mu*rho x n`): row `i*rho + r` is row `r` of
    /// local code `i`, placed on that code's global coordinates.
    pub open spec fn parity_matrix(&self) -> Seq<Seq<u8>> {
        Seq::new(
            (self.mu * self.rho) as nat,
            |row: int|
                scatter(
                    self.local_h((row / self.rho as int) as nat)[row % self.rho as int],
                    self.support_spec((row / self.rho as int) as nat),
                    self.len_spec(),
                ),
        )
    }

    /// Build a lambda = 2 block-circulant code; needs `mu >= 2` even and
    /// `n = mu*(rho + omega) <= 255` (distinct points of GF(2^8)).
    pub fn new(f: &Gf256, mu: usize, omega: usize, rho: usize) -> (bc: Self)
        requires
            mu >= 2,
            mu % 2 == 0,
            mu * (rho + omega) <= 255,
        ensures
            bc.wf(),
            bc.mu == mu,
            bc.omega == omega,
            bc.rho == rho,
    {
        proof {
            lemma_small_params(mu as nat, omega as nat, rho as nat);
        }
        let n = mu * (rho + omega);
        let mut points: Vec<u8> = Vec::new();
        let mut g: usize = 0;
        while g < n
            invariant
                g <= n,
                n <= 255,
                points@.len() == g,
                forall|t: int| 0 <= t < g ==> #[trigger] points@[t] == pow_g(t as nat),
            decreases n - g,
        {
            let p = f.exp_g(g);
            proof {
                assert(g % 255 == g || g == 255);
            }
            points.push(p);
            g += 1;
        }
        BlockCirculant { mu, omega, rho, points }
    }

    /// Code length `n = mu*(rho + omega)`.
    pub fn n(&self) -> (r: usize)
        requires
            self.wf(),
        ensures
            r == self.len_spec(),
    {
        proof {
            lemma_small_params(self.mu as nat, self.omega as nat, self.rho as nat);
        }
        self.mu * (self.rho + self.omega)
    }

    /// Message length `k = mu*omega`.
    pub fn k(&self) -> (r: usize)
        requires
            self.wf(),
        ensures
            r == self.dim_spec(),
    {
        proof {
            lemma_index_bounds(self.mu as nat, self.omega as nat, self.rho as nat, 0, 0);
        }
        self.mu * self.omega
    }

    /// The design distance `2*rho + 1`. It is the minimum distance of `H_BC` exactly when
    /// the code carries message symbols and no two neighbouring local codes hold a nonzero
    /// codeword of `2*rho` or fewer symbols (`lemma_bc_distance_exact`,
    /// `lemma_bc_distance_from_pairs`); when some neighbouring pair holds such a codeword,
    /// the minimum distance is at most `2*rho`.
    pub fn d_formula(&self) -> (r: usize)
        requires
            self.wf(),
        ensures
            r == 2 * self.rho + 1,
    {
        proof {
            assert(self.rho <= 255) by (nonlinear_arith)
                requires
                    self.mu >= 2,
                    self.mu * (self.rho + self.omega) <= 255,
            ;
        }
        2 * self.rho + 1
    }

    /// Global index of symbol `off` of message block `block`.
    fn msg_idx(&self, block: usize, off: usize) -> (r: usize)
        requires
            self.wf(),
            off < self.omega,
        ensures
            r == (block % self.mu) * self.omega + off,
            r < self.dim_spec(),
    {
        proof {
            lemma_index_bounds(
                self.mu as nat,
                self.omega as nat,
                self.rho as nat,
                (block % self.mu) as nat,
                off as nat,
            );
        }
        (block % self.mu) * self.omega + off
    }

    /// Global index of parity symbol `off` of local code `block`.
    fn par_idx(&self, block: usize, off: usize) -> (r: usize)
        requires
            self.wf(),
            block < self.mu,
            off < self.rho,
        ensures
            r == self.mu * self.omega + block * self.rho + off,
            self.dim_spec() <= r < self.len_spec(),
    {
        proof {
            lemma_index_bounds(
                self.mu as nat,
                self.omega as nat,
                self.rho as nat,
                block as nat,
                off as nat,
            );
        }
        self.mu * self.omega + block * self.rho + off
    }
}

proof fn lemma_block_pos_unique(w: nat, a: nat, x: nat, b: nat, y: nat)
    requires
        x < w,
        y < w,
        a * w + x == b * w + y,
    ensures
        a == b,
        x == y,
{
    vstd::arithmetic::div_mod::lemma_fundamental_div_mod_converse((a * w + x) as int, w as int, a as int, x as int);
    vstd::arithmetic::div_mod::lemma_fundamental_div_mod_converse((b * w + y) as int, w as int, b as int, y as int);
}

proof fn lemma_row_split(rho: nat, i: nat, r: nat)
    requires
        r < rho,
    ensures
        ((i * rho + r) as int) / (rho as int) == i,
        ((i * rho + r) as int) % (rho as int) == r,
{
    vstd::arithmetic::div_mod::lemma_fundamental_div_mod_converse((i * rho + r) as int, rho as int, i as int, r as int);
}

impl BlockCirculant {
    /// Facts about the coordinates of local code `i`: they are distinct, the first
    /// `2*omega` are message positions and the last `rho` are the parity block `i`.
    pub proof fn lemma_support(&self, i: nat)
        requires
            self.wf(),
            i < self.mu,
        ensures
            crate::linalg::positions_ok(self.support_spec(i), self.len_spec()),
            forall|c: int|
                0 <= c < 2 * self.omega ==> #[trigger] self.support_spec(i)[c] < self.dim_spec(),
            forall|c: int|
                2 * self.omega <= c < 2 * self.omega + self.rho ==> #[trigger] self.support_spec(i)[c]
                    >= self.dim_spec(),
            self.support_spec(i).len() == 2 * self.omega + self.rho,
            2 * self.omega + self.rho <= self.len_spec(),
            self.prev_spec(i) < self.mu,
            self.prev_spec(i) != i,
    {
        let w = self.omega as nat;
        let mu = self.mu as nat;
        let rho = self.rho as nat;
        let sp = self.support_spec(i);
        let pv = self.prev_spec(i);
        assert(pv < mu);
        if i == 0 {
            vstd::arithmetic::div_mod::lemma_fundamental_div_mod_converse((mu - 1) as int, mu as int, 0, (mu - 1) as int);
        } else {
            vstd::arithmetic::div_mod::lemma_fundamental_div_mod_converse((i + mu - 1) as int, mu as int, 1, (i - 1) as int);
        }
        assert(pv != i);
        assert(2 * w + rho <= mu * (rho + w)) by (nonlinear_arith)
            requires
                mu >= 2,
        ;
        assert forall|c: int| 0 <= c < sp.len() implies #[trigger] sp[c] < self.len_spec() && (c < 2
            * w ==> sp[c] < self.dim_spec()) && (c >= 2 * w ==> sp[c] >= self.dim_spec()) by {
            if c < w {
                lemma_index_bounds(mu, w, rho, pv, c as nat);
            } else if c < 2 * w {
                lemma_index_bounds(mu, w, rho, i, (c - w) as nat);
            } else {
                lemma_index_bounds(mu, w, rho, i, (c - 2 * w) as nat);
            }
        }
        assert forall|a: int, b: int| 0 <= a < sp.len() && 0 <= b < sp.len() && a != b implies sp[a]
            != sp[b] by {
            assert(sp[a] < self.len_spec() && (a < 2 * w ==> sp[a] < self.dim_spec()) && (a >= 2 * w
                ==> sp[a] >= self.dim_spec()));
            assert(sp[b] < self.len_spec() && (b < 2 * w ==> sp[b] < self.dim_spec()) && (b >= 2 * w
                ==> sp[b] >= self.dim_spec()));
            if a < 2 * w && b < 2 * w {
                let (ba, xa) = if a < w {
                    (pv, a as nat)
                } else {
                    (i, (a - w) as nat)
                };
                let (bb, xb) = if b < w {
                    (pv, b as nat)
                } else {
                    (i, (b - w) as nat)
                };
                lemma_index_bounds(mu, w, rho, pv, xa);
                lemma_index_bounds(mu, w, rho, i, xa);
                lemma_index_bounds(mu, w, rho, pv, xb);
                lemma_index_bounds(mu, w, rho, i, xb);
                assert(sp[a] as int == ba * w + xa);
                assert(sp[b] as int == bb * w + xb);
                if sp[a] == sp[b] {
                    lemma_block_pos_unique(w, ba, xa, bb, xb);
                }
            } else if a >= 2 * w && b >= 2 * w {
                lemma_index_bounds(mu, w, rho, i, (a - 2 * w) as nat);
                lemma_index_bounds(mu, w, rho, i, (b - 2 * w) as nat);
                assert(sp[a] as int == mu * w + i * rho + (a - 2 * w));
                assert(sp[b] as int == mu * w + i * rho + (b - 2 * w));
            }
        }
    }

    /// The points of a local code are distinct and nonzero.
    pub proof fn lemma_local_points_ok(&self, i: nat)
        requires
            self.wf(),
            i < self.mu,
        ensures
            points_ok(self.local_points(i), self.local_offset(i)),
            self.local_points(i).len() == 2 * self.omega + self.rho,
    {
        self.lemma_support(i);
        let sup = self.support_spec(i);
        let lp = self.local_points(i);
        assert(lp.no_duplicates()) by {
            assert forall|a: int, b: int| 0 <= a < lp.len() && 0 <= b < lp.len() && a != b implies lp[a]
                != lp[b] by {
                let ga = sup[a] as nat;
                let gb = sup[b] as nat;
                assert(ga != gb);
                crate::gf256::lemma_full_period(ga, gb, 0);
            }
        }
        assert forall|j: int| 0 <= j < lp.len() implies #[trigger] lp[j] != 0 by {
            crate::gf256::lemma_pow_g_period(sup[j] as nat);
        }
    }

    /// Ordered global coordinates of local code `i`: `[S_{i-1} | S_i | P_i]`.
    fn support(&self, i: usize) -> (s: Vec<usize>)
        requires
            self.wf(),
            i < self.mu,
        ensures
            s@ == self.support_spec(i as nat),
    {
        proof {
            self.lemma_support(i as nat);
            lemma_small_params(self.mu as nat, self.omega as nat, self.rho as nat);
        }
        let prev = if i == 0 {
            self.mu - 1
        } else {
            i - 1
        };
        proof {
            if i == 0 {
                vstd::arithmetic::div_mod::lemma_fundamental_div_mod_converse((self.mu - 1) as int, self.mu as int, 0, (self.mu - 1) as int);
            } else {
                vstd::arithmetic::div_mod::lemma_fundamental_div_mod_converse((i + self.mu - 1) as int, self.mu as int, 1, (i - 1) as int);
            }
        }
        let ghost sp = self.support_spec(i as nat);
        let mut s: Vec<usize> = Vec::new();
        let mut off: usize = 0;
        while off < self.omega
            invariant
                self.wf(),
                i < self.mu,
                prev == self.prev_spec(i as nat),
                prev < self.mu,
                sp == self.support_spec(i as nat),
                off <= self.omega,
                s@ == sp.subrange(0, off as int),
            decreases self.omega - off,
        {
            let g = self.msg_idx(prev, off);
            proof {
                vstd::arithmetic::div_mod::lemma_small_mod(prev as nat, self.mu as nat);
            }
            s.push(g);
            off += 1;
            proof {
                assert(s@ =~= sp.subrange(0, off as int));
            }
        }
        let mut off: usize = 0;
        while off < self.omega
            invariant
                self.wf(),
                i < self.mu,
                sp == self.support_spec(i as nat),
                off <= self.omega,
                s@ == sp.subrange(0, self.omega + off),
            decreases self.omega - off,
        {
            let g = self.msg_idx(i, off);
            proof {
                vstd::arithmetic::div_mod::lemma_small_mod(i as nat, self.mu as nat);
            }
            s.push(g);
            off += 1;
            proof {
                assert(s@ =~= sp.subrange(0, self.omega + off));
            }
        }
        let mut off: usize = 0;
        while off < self.rho
            invariant
                self.wf(),
                i < self.mu,
                sp == self.support_spec(i as nat),
                off <= self.rho,
                s@ == sp.subrange(0, 2 * self.omega + off),
            decreases self.rho - off,
        {
            let g = self.par_idx(i, off);
            s.push(g);
            off += 1;
            proof {
                assert(s@ =~= sp.subrange(0, 2 * self.omega + off));
            }
        }
        proof {
            assert(s@ =~= sp);
        }
        s
    }

    /// The local GRS `[2*omega + rho, 2*omega]` code `i` over its coordinates' points, with
    /// power window starting at 0 (even `i`) or `rho` (odd `i`); also its coordinates.
    fn local_code(&self, f: &Gf256, i: usize) -> (res: (Grs, Vec<usize>))
        requires
            self.wf(),
            i < self.mu,
        ensures
            res.0.wf(),
            res.0.n0 == 2 * self.omega + self.rho,
            res.0.k0 == 2 * self.omega,
            res.0.points() == self.local_points(i as nat),
            res.0.offset() == self.local_offset(i as nat),
            res.0.hmat() == self.local_h(i as nat),
            points_ok(res.0.points(), res.0.offset()),
            res.1@ == self.support_spec(i as nat),
    {
        let sup = self.support(i);
        proof {
            self.lemma_support(i as nat);
            lemma_small_params(self.mu as nat, self.omega as nat, self.rho as nat);
        }
        let ghost lp = self.local_points(i as nat);
        let mut pts: Vec<u8> = Vec::new();
        let mut c: usize = 0;
        while c < sup.len()
            invariant
                self.wf(),
                i < self.mu,
                sup@ == self.support_spec(i as nat),
                crate::linalg::positions_ok(sup@, self.len_spec()),
                lp == self.local_points(i as nat),
                c <= sup.len(),
                pts@ == lp.subrange(0, c as int),
            decreases sup.len() - c,
        {
            pts.push(self.points[sup[c]]);
            c += 1;
            proof {
                assert(pts@ =~= lp.subrange(0, c as int));
            }
        }
        proof {
            assert(pts@ =~= lp);
            self.lemma_local_points_ok(i as nat);
        }
        let offset = if i % 2 == 0 {
            0
        } else {
            self.rho
        };
        let g = Grs::with_points_offset(f, pts.as_slice(), 2 * self.omega, offset);
        (g, sup)
    }

    /// The global block-circulant parity-check matrix `H_BC` (`mu*rho x n`): row block `i`
    /// carries local code `i`'s `rho` checks on the coordinates `[S_{i-1}, S_i, P_i]`.
    pub fn parity_check(&self, f: &Gf256) -> (h: Vec<Vec<u8>>)
        requires
            self.wf(),
        ensures
            rows_view(h@) == self.parity_matrix(),
    {
        proof {
            lemma_small_params(self.mu as nat, self.omega as nat, self.rho as nat);
        }
        let n = self.n();
        let ghost pm = self.parity_matrix();
        let mut h: Vec<Vec<u8>> = Vec::new();
        let mut i: usize = 0;
        while i < self.mu
            invariant
                self.wf(),
                n == self.len_spec(),
                pm == self.parity_matrix(),
                i <= self.mu,
                h@.len() == i * self.rho,
                forall|q: int| 0 <= q < h@.len() ==> #[trigger] h@[q]@ == pm[q],
            decreases self.mu - i,
        {
            let (local, sup) = self.local_code(f, i);
            let hloc = local.h();
            proof {
                self.lemma_support(i as nat);
                lemma_index_bounds(self.mu as nat, self.omega as nat, self.rho as nat, i as nat, 0);
            }
            let mut r: usize = 0;
            while r < self.rho
                invariant
                    self.wf(),
                    i < self.mu,
                    n == self.len_spec(),
                    pm == self.parity_matrix(),
                    sup@ == self.support_spec(i as nat),
                    crate::linalg::positions_ok(sup@, n as nat),
                    rows_view(hloc@) == self.local_h(i as nat),
                    r <= self.rho,
                    h@.len() == i * self.rho + r,
                    i * self.rho + self.rho <= self.mu * self.rho,
                    forall|q: int| 0 <= q < h@.len() ==> #[trigger] h@[q]@ == pm[q],
                decreases self.rho - r,
            {
                let ghost hrow = self.local_h(i as nat)[r as int];
                assert(self.local_h(i as nat).len() == self.rho);
                assert(rows_view(hloc@)[r as int] == hloc@[r as int]@);
                assert(hrow == hloc@[r as int]@);
                assert(hrow.len() == self.local_points(i as nat).len());
                assert(hrow.len() == sup@.len());
                let mut row: Vec<u8> = vec![0u8; n];
                let mut c: usize = 0;
                assert(row@ =~= scatter(hrow.subrange(0, 0), sup@.subrange(0, 0), n as nat));
                while c < sup.len()
                    invariant
                        c <= sup.len(),
                        r < self.rho,
                        crate::linalg::positions_ok(sup@, n as nat),
                        hrow == hloc@[r as int]@,
                        r < hloc@.len(),
                        hrow.len() == sup@.len(),
                        row@.len() == n,
                        row@ == scatter(hrow.subrange(0, c as int), sup@.subrange(0, c as int), n as nat),
                    decreases sup.len() - c,
                {
                    let v = hloc[r][c];
                    row.set(sup[c], v);
                    c += 1;
                    proof {
                        let y2 = hrow.subrange(0, c as int);
                        let i2 = sup@.subrange(0, c as int);
                        assert(y2.drop_last() =~= hrow.subrange(0, c - 1));
                        assert(i2.drop_last() =~= sup@.subrange(0, c - 1));
                    }
                }
                proof {
                    assert(hrow.subrange(0, sup@.len() as int) =~= hrow);
                    assert(sup@.subrange(0, sup@.len() as int) =~= sup@);
                    lemma_row_split(self.rho as nat, i as nat, r as nat);
                    assert(h@.len() < self.mu * self.rho);
                    assert(row@ == pm[h@.len() as int]);
                }
                h.push(row);
                r += 1;
            }
            i += 1;
            proof {
                assert(h@.len() == i * self.rho) by (nonlinear_arith)
                    requires
                        h@.len() == (i - 1) * self.rho + self.rho,
                ;
            }
        }
        proof {
            assert(rows_view(h@) =~= pm);
        }
        h
    }
}

impl BlockCirculant {
    /// Parity symbol `off` of local code `i` sits in no other local code.
    proof fn lemma_parity_private(&self, i: nat, j: nat, off: nat)
        requires
            self.wf(),
            i < self.mu,
            j < self.mu,
            i != j,
            off < self.rho,
        ensures
            !self.support_spec(j).contains((self.mu * self.omega + i * self.rho + off) as usize),
    {
        let w = self.omega as nat;
        let mu = self.mu as nat;
        let rho = self.rho as nat;
        let p = mu * w + i * rho + off;
        self.lemma_support(j);
        lemma_index_bounds(mu, w, rho, i, off);
        if self.support_spec(j).contains(p as usize) {
            let c = choose|c: int|
                0 <= c < self.support_spec(j).len() && self.support_spec(j)[c] == p as usize;
            if c < 2 * w {
                assert(self.support_spec(j)[c] < self.dim_spec());
            } else {
                lemma_index_bounds(mu, w, rho, j, (c - 2 * w) as nat);
                assert(self.support_spec(j)[c] as int == mu * w + j * rho + (c - 2 * w));
                lemma_block_pos_unique(rho, i, off, j, (c - 2 * w) as nat);
            }
        }
    }

    /// A word satisfies `H_BC` exactly when each local code's coordinates form a codeword
    /// of that local code.
    pub proof fn lemma_parity_rows(&self, c: Seq<u8>)
        requires
            self.wf(),
            c.len() == self.len_spec(),
        ensures
            in_kernel(self.parity_matrix(), c, self.len_spec()) <==> forall|i: nat|
                i < self.mu ==> #[trigger] in_kernel(
                    self.local_h(i),
                    gather(c, self.support_spec(i)),
                    (2 * self.omega + self.rho) as nat,
                ),
    {
        let n = self.len_spec();
        let pm = self.parity_matrix();
        let len = (2 * self.omega + self.rho) as nat;
        let rho = self.rho as nat;
        assert forall|i: nat, r: nat| i < self.mu && r < rho implies dot(pm[(i * rho + r) as int], c, n)
            == dot(#[trigger] self.local_h(i)[r as int], gather(c, self.support_spec(i)), len) by {
            lemma_row_split(rho, i, r);
            lemma_index_bounds(self.mu as nat, self.omega as nat, rho, i, r);
            self.lemma_support(i);
            assert(pm[(i * rho + r) as int] == scatter(self.local_h(i)[r as int], self.support_spec(i), n));
            lemma_scattered_row_dot(self.local_h(i)[r as int], c, self.support_spec(i), n);
        }
        if in_kernel(pm, c, n) {
            assert forall|i: nat| i < self.mu implies #[trigger] in_kernel(
                self.local_h(i),
                gather(c, self.support_spec(i)),
                len,
            ) by {
                let lh = self.local_h(i);
                assert forall|r: int| 0 <= r < lh.len() implies #[trigger] dot(
                    lh[r],
                    gather(c, self.support_spec(i)),
                    len,
                ) == zeros(lh.len())[r] by {
                    lemma_index_bounds(self.mu as nat, self.omega as nat, rho, i, r as nat);
                    assert(dot(pm[(i * rho + r) as int], c, n) == zeros(pm.len())[(i * rho + r) as int]);
                    assert(dot(pm[(i * rho + r as nat) as int], c, n) == dot(
                        self.local_h(i)[r],
                        gather(c, self.support_spec(i)),
                        len,
                    ));
                }
            }
        }
        if forall|i: nat| i < self.mu ==> #[trigger] in_kernel(
            self.local_h(i),
            gather(c, self.support_spec(i)),
            len,
        ) {
            assert forall|q: int| 0 <= q < pm.len() implies #[trigger] dot(pm[q], c, n) == zeros(
                pm.len(),
            )[q] by {
                let i = (q / rho as int) as nat;
                let r = (q % rho as int) as nat;
                assert(i * rho + r == q) by (nonlinear_arith)
                    requires
                        rho > 0,
                        i == q / rho as int,
                        r == q % rho as int,
                        q >= 0,
                ;
                assert(i < self.mu) by (nonlinear_arith)
                    requires
                        i * rho + r == q,
                        q < self.mu * rho,
                        r >= 0,
                ;
                assert(in_kernel(self.local_h(i), gather(c, self.support_spec(i)), len));
                assert(dot(self.local_h(i)[r as int], gather(c, self.support_spec(i)), len) == zeros(
                    self.local_h(i).len(),
                )[r as int]);
            }
        }
    }

    /// Encode a message of length `k = mu*omega` into the block-circulant codeword of length
    /// `n`: the message followed by each local code's systematic parity.
    pub fn encode(&self, f: &Gf256, message: &[u8]) -> (cw: Vec<u8>)
        requires
            self.wf(),
            message.len() == self.dim_spec(),
        ensures
            cw@.len() == self.len_spec(),
            cw@.subrange(0, self.dim_spec() as int) == message@,
            in_kernel(self.parity_matrix(), cw@, self.len_spec()),
    {
        proof {
            lemma_small_params(self.mu as nat, self.omega as nat, self.rho as nat);
        }
        let k = self.k();
        let n = self.n();
        let w = self.omega;
        let ghost len = (2 * self.omega + self.rho) as nat;
        let mut cw = copy_bytes(message);
        proof {
            lemma_index_bounds(self.mu as nat, self.omega as nat, self.rho as nat, 0, 0);
            self.lemma_support(0);
        }
        let mut j = k;
        while j < n
            invariant
                k <= j <= n,
                cw@.len() == j,
                cw@.subrange(0, k as int) == message@,
            decreases n - j,
        {
            cw.push(0);
            j += 1;
            proof {
                assert(cw@.subrange(0, k as int) =~= message@);
            }
        }
        let mut i: usize = 0;
        while i < self.mu
            invariant
                self.wf(),
                k == self.dim_spec(),
                n == self.len_spec(),
                w == self.omega,
                len == 2 * self.omega + self.rho,
                message.len() == k,
                i <= self.mu,
                cw@.len() == n,
                cw@.subrange(0, k as int) == message@,
                forall|i2: nat|
                    i2 < i ==> #[trigger] in_kernel(self.local_h(i2), gather(cw@, self.support_spec(i2)), len),
            decreases self.mu - i,
        {
            let prev = if i == 0 {
                self.mu - 1
            } else {
                i - 1
            };
            let (local, _sup) = self.local_code(f, i);
            proof {
                self.lemma_support(i as nat);
                lemma_grs_parity_independent(&local);
                if i == 0 {
                    vstd::arithmetic::div_mod::lemma_fundamental_div_mod_converse((self.mu - 1) as int, self.mu as int, 0, (self.mu - 1) as int);
                } else {
                    vstd::arithmetic::div_mod::lemma_fundamental_div_mod_converse((i + self.mu - 1) as int, self.mu as int, 1, (i - 1) as int);
                }
                lemma_index_bounds(self.mu as nat, w as nat, self.rho as nat, prev as nat, 0);
                lemma_index_bounds(self.mu as nat, w as nat, self.rho as nat, i as nat, 0);
            }
            let ghost sp = self.support_spec(i as nat);
            let mut data: Vec<u8> = Vec::new();
            let mut e: usize = 0;
            while e < w
                invariant
                    e <= w,
                    w == self.omega,
                    prev == self.prev_spec(i as nat),
                    prev * w + w <= k,
                    message.len() == k,
                    sp == self.support_spec(i as nat),
                    data@.len() == e,
                    forall|t: int| 0 <= t < e ==> #[trigger] data@[t] == message@[sp[t] as int],
                decreases w - e,
            {
                data.push(message[prev * w + e]);
                e += 1;
            }
            let mut e: usize = 0;
            while e < w
                invariant
                    e <= w,
                    w == self.omega,
                    i < self.mu,
                    i * w + w <= k,
                    message.len() == k,
                    sp == self.support_spec(i as nat),
                    data@.len() == w + e,
                    forall|t: int| 0 <= t < w + e ==> #[trigger] data@[t] == message@[sp[t] as int],
                decreases w - e,
            {
                data.push(message[i * w + e]);
                e += 1;
            }
            let lc = local.encode_systematic(f, data.as_slice());
            let ghost before = cw@;
            let mut off: usize = 0;
            while off < self.rho
                invariant
                    self.wf(),
                    i < self.mu,
                    w == self.omega,
                    k == self.dim_spec(),
                    n == self.len_spec(),
                    off <= self.rho,
                    2 * w + self.rho <= n,
                    n <= 255,
                    lc@.len() == 2 * w + self.rho,
                    cw@.len() == n,
                    forall|t: int| 0 <= t < off ==> #[trigger] cw@[(self.mu * self.omega + i * self.rho + t) as int]
                        == lc@[2 * w + t],
                    forall|p: int|
                        0 <= p < n && !(self.mu * self.omega + i * self.rho <= p < self.mu * self.omega
                            + i * self.rho + off) ==> #[trigger] cw@[p] == before[p],
                decreases self.rho - off,
            {
                let pos = self.par_idx(i, off);
                cw.set(pos, lc[2 * w + off]);
                off += 1;
            }
            proof {
                let g = gather(cw@, sp);
                assert forall|p: int| 0 <= p < k implies #[trigger] cw@[p] == before[p] by {
                    lemma_index_bounds(self.mu as nat, w as nat, self.rho as nat, i as nat, 0);
                }
                assert(cw@.subrange(0, k as int) =~= message@) by {
                    assert forall|p: int| 0 <= p < k implies cw@.subrange(0, k as int)[p] == message@[p] by {
                        assert(before.subrange(0, k as int)[p] == message@[p]);
                    }
                }
                assert forall|c: int| 0 <= c < len implies #[trigger] g[c] == lc@[c] by {
                    if c < 2 * w {
                        assert(sp[c] < k);
                        assert(cw@[sp[c] as int] == before[sp[c] as int]);
                        assert(before[sp[c] as int] == before.subrange(0, k as int)[sp[c] as int]);
                        assert(data@[c] == message@[sp[c] as int]);
                        assert(lc@.subrange(0, 2 * w)[c] == data@[c]);
                    } else {
                        let t = c - 2 * w;
                        assert(sp[c] as int == self.mu * self.omega + i * self.rho + t);
                    }
                }
                assert(g =~= lc@);
                assert(local.is_codeword(lc@));
                assert forall|i2: nat| i2 < i + 1 implies #[trigger] in_kernel(
                    self.local_h(i2),
                    gather(cw@, self.support_spec(i2)),
                    len,
                ) by {
                    if i2 < i {
                        let sp2 = self.support_spec(i2);
                        self.lemma_support(i2);
                        assert(gather(cw@, sp2) =~= gather(before, sp2)) by {
                            assert forall|c: int| 0 <= c < sp2.len() implies gather(cw@, sp2)[c] == gather(
                                before,
                                sp2,
                            )[c] by {
                                let p = sp2[c] as int;
                                if self.mu * self.omega + i * self.rho <= p < self.mu * self.omega + i
                                    * self.rho + self.rho {
                                    let t = p - (self.mu * self.omega + i * self.rho);
                                    self.lemma_parity_private(i as nat, i2, t as nat);
                                    assert(sp2[c] == (self.mu * self.omega + i * self.rho + t) as usize);
                                }
                            }
                        }
                    }
                }
            }
            i += 1;
        }
        proof {
            self.lemma_parity_rows(cw@);
        }
        cw
    }

    /// Global erasure recovery by Gaussian elimination on `H_BC`: the unique codeword that
    /// agrees with `cw` outside `erased`, or `None` when the pattern is not correctable.
    pub fn recover(&self, f: &Gf256, cw: &[u8], erased: &[usize]) -> (r: Option<Vec<u8>>)
        requires
            self.wf(),
            cw.len() == self.len_spec(),
            forall|e: int| 0 <= e < erased.len() ==> #[trigger] erased[e] < self.len_spec(),
        ensures
            erased.len() == 0 ==> (r matches Some(c) && c@ == cw@),
            erased.len() > 0 ==> (r is Some <==> uniquely_recoverable(
                self.parity_matrix(),
                self.len_spec(),
                cw@,
                erased@,
            )),
            erased.len() > 0 ==> (r matches Some(c) ==> is_completion(
                self.parity_matrix(),
                self.len_spec(),
                cw@,
                erased@,
                c@,
            )),
    {
        if erased.len() == 0 {
            return Some(copy_bytes(cw));
        }
        let h = self.parity_check(f);
        let n = self.n();
        proof {
            assert forall|q: int| 0 <= q < rows_view(h@).len() implies #[trigger] rows_view(h@)[q].len()
                >= n by {
                let rho = self.rho as int;
                let i = (q / rho) as nat;
                assert(i < self.mu) by (nonlinear_arith)
                    requires
                        rho > 0,
                        i == q / rho,
                        0 <= q < self.mu * rho,
                ;
                self.lemma_support(i);
                let lh = self.local_h(i);
                assert(lh[q % rho].len() == self.support_spec(i).len());
                lemma_scatter_entries(lh[q % rho], self.support_spec(i), n as nat);
            }
        }
        recover_with(f, &h, n, cw, erased)
    }
}

/// The block-circulant encoding is the only codeword with the given message: a codeword of
/// `H_BC` is determined by its first `k` symbols.
pub proof fn lemma_bc_systematic_unique(bc: &BlockCirculant, c1: Seq<u8>, c2: Seq<u8>)
    requires
        bc.wf(),
        c1.len() == bc.len_spec(),
        c2.len() == bc.len_spec(),
        in_kernel(bc.parity_matrix(), c1, bc.len_spec()),
        in_kernel(bc.parity_matrix(), c2, bc.len_spec()),
        c1.subrange(0, bc.dim_spec() as int) == c2.subrange(0, bc.dim_spec() as int),
    ensures
        c1 == c2,
{
    bc.lemma_parity_rows(c1);
    bc.lemma_parity_rows(c2);
    lemma_index_bounds(bc.mu as nat, bc.omega as nat, bc.rho as nat, 0, 0);
    let n = bc.len_spec();
    let k = bc.dim_spec();
    let w = bc.omega as nat;
    let rho = bc.rho as nat;
    let mu = bc.mu as nat;
    assert forall|p: int| 0 <= p < n implies c1[p] == c2[p] by {
        if p < k {
            assert(c1[p] == c1.subrange(0, k as int)[p]);
            assert(c2[p] == c2.subrange(0, k as int)[p]);
        } else {
            let q = p - k;
            let i = (q / rho as int) as nat;
            let off = (q % rho as int) as nat;
            assert(i * rho + off == q && i < mu && off < rho) by (nonlinear_arith)
                requires
                    rho > 0,
                    i == q / rho as int,
                    off == q % rho as int,
                    0 <= q < n - k,
                    n - k == mu * rho,
            ;
            lemma_index_bounds(mu, w, rho, i, 0);
            bc.lemma_support(i);
            bc.lemma_local_points_ok(i);
            let sp = bc.support_spec(i);
            let g1 = gather(c1, sp);
            let g2 = gather(c2, sp);
            assert(g1.subrange(0, (2 * w) as int) =~= g2.subrange(0, (2 * w) as int)) by {
                assert forall|c: int| 0 <= c < 2 * w implies g1[c] == g2[c] by {
                    assert(sp[c] < k);
                    assert(c1[sp[c] as int] == c1.subrange(0, k as int)[sp[c] as int]);
                    assert(c2[sp[c] as int] == c2.subrange(0, k as int)[sp[c] as int]);
                }
            }
            assert(in_kernel(bc.local_h(i), gather(c1, bc.support_spec(i)), (2 * bc.omega + bc.rho) as nat));
            assert(in_kernel(bc.local_h(i), gather(c2, bc.support_spec(i)), (2 * bc.omega + bc.rho) as nat));
            lemma_vander_systematic_unique(
                bc.local_points(i),
                bc.local_offset(i),
                rho,
                (2 * w) as nat,
                g1,
                g2,
            );
            let c = 2 * w + off;
            assert(sp[c as int] as int == mu * w + i * rho + off);
            assert(g1[c as int] == g2[c as int]);
        }
    }
    assert(c1 =~= c2);
}

impl BlockCirculant {
    /// Every nonzero codeword has at least `rho + 1` nonzero symbols: each symbol lies in
    /// some local code, and a nonzero local codeword of an MDS code with `rho` checks has
    /// at least `rho + 1` of them.
    pub proof fn lemma_bc_weight(&self, x: Seq<u8>)
        requires
            self.wf(),
            x.len() == self.len_spec(),
            in_kernel(self.parity_matrix(), x, self.len_spec()),
            x != zeros(self.len_spec()),
        ensures
            weight(x, self.len_spec()) >= self.rho + 1,
    {
        let n = self.len_spec();
        let k = self.dim_spec();
        let mu = self.mu as nat;
        let w = self.omega as nat;
        let rho = self.rho as nat;
        let len = (2 * w + rho) as nat;
        let p = choose|p: int| 0 <= p < n && x[p] != zeros(n)[p];
        assert(exists|p: int| 0 <= p < n && x[p] != zeros(n)[p]) by {
            if !(exists|p: int| 0 <= p < n && x[p] != zeros(n)[p]) {
                assert(x =~= zeros(n));
            }
        }
        lemma_index_bounds(mu, w, rho, 0, 0);
        // the local code `i` and local column `e` holding global coordinate `p`
        let (i, e) = if p < k {
            assert(w > 0) by (nonlinear_arith)
                requires
                    0 <= p < mu * w,
            ;
            let i = (p / w as int) as nat;
            let off = p % w as int;
            vstd::arithmetic::div_mod::lemma_fundamental_div_mod(p, w as int);
            vstd::arithmetic::div_mod::lemma_div_pos_is_pos(p, w as int);
            assert(i < mu) by (nonlinear_arith)
                requires
                    p == w * i + off,
                    0 <= off,
                    p < mu * w,
            ;
            lemma_index_bounds(mu, w, rho, i, off as nat);
            assert(w * i == i * w) by (nonlinear_arith);
            (i, w + off)
        } else {
            let q = p - k;
            assert(rho > 0) by (nonlinear_arith)
                requires
                    0 <= q < mu * rho,
            ;
            let i = (q / rho as int) as nat;
            let off = q % rho as int;
            vstd::arithmetic::div_mod::lemma_fundamental_div_mod(q, rho as int);
            vstd::arithmetic::div_mod::lemma_div_pos_is_pos(q, rho as int);
            assert(i < mu) by (nonlinear_arith)
                requires
                    q == rho * i + off,
                    0 <= off,
                    q < mu * rho,
            ;
            lemma_index_bounds(mu, w, rho, i, off as nat);
            assert(rho * i == i * rho) by (nonlinear_arith);
            (i, 2 * w + off)
        };
        self.lemma_support(i);
        self.lemma_local_points_ok(i);
        let sup = self.support_spec(i);
        assert(sup[e] as int == p);
        let g = gather(x, sup);
        self.lemma_parity_rows(x);
        assert(in_kernel(self.local_h(i), g, len));
        assert(g != zeros(len)) by {
            assert(g[e] == x[p]);
            assert(zeros(len)[e] == 0);
            assert(zeros(n)[p] == 0);
        }
        lemma_vander_weight(self.local_points(i), self.local_offset(i), rho, g);
        lemma_gather_weight(x, n, sup);
    }

    /// No fewer than `rho + 1` columns of `H_BC` are linearly dependent.
    pub proof fn lemma_bc_distance(&self)
        requires
            self.wf(),
        ensures
            forall|t: nat| 1 <= t <= self.rho ==> !#[trigger] has_dependent_set(
                self.parity_matrix(),
                self.len_spec(),
                t,
            ),
    {
        let n = self.len_spec();
        let pm = self.parity_matrix();
        assert forall|x: Seq<u8>| #[trigger] in_kernel(pm, x, n) && x != zeros(n) implies weight(x, n)
            >= self.rho + 1 by {
            self.lemma_bc_weight(x);
        }
        lemma_dependent_sets_from_weight(pm, n, (self.rho + 1) as nat);
    }
}

/// No data loss up to `rho` erasures: if a block-circulant codeword loses at most `rho`
/// distinct symbols, it is the only codeword agreeing with what survives, so
/// `BlockCirculant::recover` returns exactly it.
pub proof fn lemma_bc_recovers_up_to_rho(
    bc: &BlockCirculant,
    c: Seq<u8>,
    cw: Seq<u8>,
    erased: Seq<usize>,
)
    requires
        bc.wf(),
        c.len() == bc.len_spec(),
        in_kernel(bc.parity_matrix(), c, bc.len_spec()),
        agrees_outside(c, cw, erased),
        positions_ok(erased, bc.len_spec()),
        erased.len() <= bc.rho,
    ensures
        uniquely_recoverable(bc.parity_matrix(), bc.len_spec(), cw, erased),
        is_completion(bc.parity_matrix(), bc.len_spec(), cw, erased, c),
{
    bc.lemma_bc_distance();
    lemma_recover_below_distance(
        bc.parity_matrix(),
        bc.len_spec(),
        (bc.rho + 1) as nat,
        c,
        cw,
        erased,
    );
}

impl BlockCirculant {
    /// The block after block `i`, cyclically.
    pub open spec fn next_spec(&self, i: nat) -> nat {
        (i + 1) % (self.mu as nat)
    }

    /// Local codes `a` and `b` are the same or neighbours (they may share coordinates).
    spec fn near(&self, a: nat, b: nat) -> bool {
        b == a || b == self.next_spec(a) || b == self.prev_spec(a)
    }

    /// Every nonzero symbol of `x` sits in local code `i` or in local code `i + 1`.
    pub open spec fn on_pair(&self, x: Seq<u8>, i: nat) -> bool {
        forall|j: int|
            0 <= j < x.len() && #[trigger] x[j] != 0 ==> self.support_spec(i).contains(j as usize)
                || self.support_spec(self.next_spec(i)).contains(j as usize)
    }

    /// Every nonzero codeword living on two neighbouring local codes has more than `2*rho`
    /// nonzero symbols.
    pub open spec fn pairs_heavy(&self) -> bool {
        forall|i: nat, x: Seq<u8>|
            #![trigger self.on_pair(x, i), in_kernel(self.parity_matrix(), x, self.len_spec())]
            i < self.mu && x.len() == self.len_spec() && in_kernel(
                self.parity_matrix(),
                x,
                self.len_spec(),
            ) && x != zeros(self.len_spec()) && self.on_pair(x, i) ==> weight(x, self.len_spec()) > 2
                * self.rho
    }

    /// The blocks before and after block `i`, without the modulus.
    proof fn lemma_prev_next(&self, i: nat)
        requires
            self.mu >= 2,
            i < self.mu,
        ensures
            self.prev_spec(i) == (if i == 0 {
                (self.mu - 1) as nat
            } else {
                (i - 1) as nat
            }),
            self.next_spec(i) == (if i + 1 == self.mu {
                0
            } else {
                i + 1
            }),
    {
        let mu = self.mu as int;
        if i == 0 {
            vstd::arithmetic::div_mod::lemma_fundamental_div_mod_converse(mu - 1, mu, 0, mu - 1);
        } else {
            vstd::arithmetic::div_mod::lemma_fundamental_div_mod_converse(i + mu - 1, mu, 1, i - 1);
        }
        if i + 1 == mu {
            vstd::arithmetic::div_mod::lemma_fundamental_div_mod_converse(mu, mu, 1, 0);
        } else {
            vstd::arithmetic::div_mod::lemma_fundamental_div_mod_converse((i + 1) as int, mu, 0, (i + 1) as int);
        }
    }

    /// Global coordinate `p` belongs to local code `i` exactly when it is a message symbol of
    /// block `i` or of the block before it, or a parity symbol of block `i`.
    proof fn lemma_support_contains(&self, i: nat, p: nat)
        requires
            self.wf(),
            i < self.mu,
            p < self.len_spec(),
        ensures
            self.support_spec(i).contains(p as usize) <==> ((p < self.dim_spec() && (p / (
            self.omega as nat) == i || p / (self.omega as nat) == self.prev_spec(i))) || (p
                >= self.dim_spec() && ((p - self.dim_spec()) as nat) / (self.rho as nat) == i)),
    {
        let w = self.omega as nat;
        let rho = self.rho as nat;
        let mu = self.mu as nat;
        let k = self.dim_spec();
        let n = self.len_spec();
        let sp = self.support_spec(i);
        let pv = self.prev_spec(i);
        self.lemma_support(i);
        lemma_index_bounds(mu, w, rho, 0, 0);
        if sp.contains(p as usize) {
            let c = choose|c: int| 0 <= c < sp.len() && sp[c] == p as usize;
            if c < w {
                lemma_index_bounds(mu, w, rho, pv, c as nat);
                vstd::arithmetic::div_mod::lemma_fundamental_div_mod_converse(p as int, w as int, pv as int, c);
            } else if c < 2 * w {
                lemma_index_bounds(mu, w, rho, i, (c - w) as nat);
                vstd::arithmetic::div_mod::lemma_fundamental_div_mod_converse(p as int, w as int, i as int, c - w);
            } else {
                lemma_index_bounds(mu, w, rho, i, (c - 2 * w) as nat);
                vstd::arithmetic::div_mod::lemma_fundamental_div_mod_converse(
                    p - k,
                    rho as int,
                    i as int,
                    c - 2 * w,
                );
            }
        }
        if p < k {
            assert(w > 0) by (nonlinear_arith)
                requires
                    p < mu * w,
            ;
            let q = p / w;
            let r = p % w;
            vstd::arithmetic::div_mod::lemma_fundamental_div_mod(p as int, w as int);
            vstd::arithmetic::div_mod::lemma_mod_pos_bound(p as int, w as int);
            assert(w * q == q * w) by (nonlinear_arith);
            if q == pv {
                assert(sp[r as int] == p as usize);
            } else if q == i {
                assert(sp[(w + r) as int] == p as usize);
            }
        } else {
            assert(rho > 0) by (nonlinear_arith)
                requires
                    p - k < mu * rho,
                    p >= k,
            ;
            let q = ((p - k) as nat) / rho;
            let r = ((p - k) as nat) % rho;
            vstd::arithmetic::div_mod::lemma_fundamental_div_mod((p - k) as int, rho as int);
            vstd::arithmetic::div_mod::lemma_mod_pos_bound((p - k) as int, rho as int);
            assert(rho * q == q * rho) by (nonlinear_arith);
            if q == i {
                assert(sp[(2 * w + r) as int] == p as usize);
            }
        }
    }

    /// Every global coordinate belongs to some local code.
    proof fn lemma_home_code(&self, p: nat) -> (i: nat)
        requires
            self.wf(),
            p < self.len_spec(),
        ensures
            i < self.mu,
            self.support_spec(i).contains(p as usize),
    {
        let w = self.omega as nat;
        let rho = self.rho as nat;
        let mu = self.mu as nat;
        let k = self.dim_spec();
        lemma_index_bounds(mu, w, rho, 0, 0);
        let i = if p < k {
            assert(w > 0) by (nonlinear_arith)
                requires
                    p < mu * w,
            ;
            let q = p / w;
            vstd::arithmetic::div_mod::lemma_fundamental_div_mod(p as int, w as int);
            vstd::arithmetic::div_mod::lemma_mod_pos_bound(p as int, w as int);
            assert(q < mu) by (nonlinear_arith)
                requires
                    p == w * q + p % w,
                    0 <= p % w,
                    p < mu * w,
            ;
            q
        } else {
            assert(rho > 0) by (nonlinear_arith)
                requires
                    p - k < mu * rho,
                    p >= k,
            ;
            let q = ((p - k) as nat) / rho;
            vstd::arithmetic::div_mod::lemma_fundamental_div_mod((p - k) as int, rho as int);
            vstd::arithmetic::div_mod::lemma_mod_pos_bound((p - k) as int, rho as int);
            assert(q < mu) by (nonlinear_arith)
                requires
                    p - k == rho * q + ((p - k) as nat) % rho,
                    0 <= ((p - k) as nat) % rho,
                    p - k < mu * rho,
            ;
            q
        };
        self.lemma_support_contains(i, p);
        i
    }

    /// Local codes that are not neighbours share no coordinate.
    proof fn lemma_far_codes_disjoint(&self, a: nat, b: nat, p: nat)
        requires
            self.wf(),
            a < self.mu,
            b < self.mu,
            !self.near(a, b),
            p < self.len_spec(),
        ensures
            !(self.support_spec(a).contains(p as usize) && self.support_spec(b).contains(p as usize)),
    {
        self.lemma_support_contains(a, p);
        self.lemma_support_contains(b, p);
        self.lemma_prev_next(a);
        self.lemma_prev_next(b);
    }
}

impl BlockCirculant {
    /// A nonzero symbol of `x` in local code `i` makes the local word of code `i` nonzero.
    proof fn lemma_active_at(&self, x: Seq<u8>, i: nat, p: int)
        requires
            self.wf(),
            i < self.mu,
            x.len() == self.len_spec(),
            0 <= p < x.len(),
            x[p] != 0,
            self.support_spec(i).contains(p as usize),
        ensures
            gather(x, self.support_spec(i)) != zeros((2 * self.omega + self.rho) as nat),
    {
        let sp = self.support_spec(i);
        let len = (2 * self.omega + self.rho) as nat;
        self.lemma_support(i);
        let c = choose|c: int| 0 <= c < sp.len() && sp[c] == p as usize;
        assert(gather(x, sp)[c] == x[p]);
        assert(zeros(len)[c] == 0);
    }

    /// A codeword that is nonzero on local code `i` has at least `rho + 1` nonzero symbols
    /// there (each local code is MDS).
    proof fn lemma_active_code_weight(&self, x: Seq<u8>, i: nat)
        requires
            self.wf(),
            i < self.mu,
            x.len() == self.len_spec(),
            in_kernel(self.parity_matrix(), x, self.len_spec()),
            gather(x, self.support_spec(i)) != zeros((2 * self.omega + self.rho) as nat),
        ensures
            weight(gather(x, self.support_spec(i)), (2 * self.omega + self.rho) as nat) >= self.rho + 1,
    {
        self.lemma_support(i);
        self.lemma_local_points_ok(i);
        self.lemma_parity_rows(x);
        assert(in_kernel(
            self.local_h(i),
            gather(x, self.support_spec(i)),
            (2 * self.omega + self.rho) as nat,
        ));
        lemma_vander_weight(
            self.local_points(i),
            self.local_offset(i),
            self.rho as nat,
            gather(x, self.support_spec(i)),
        );
    }

    /// Two local codes that are not neighbours count their nonzero symbols separately.
    proof fn lemma_weight_two_codes(&self, x: Seq<u8>, a: nat, b: nat)
        requires
            self.wf(),
            a < self.mu,
            b < self.mu,
            !self.near(a, b),
            x.len() == self.len_spec(),
        ensures
            weight(x, self.len_spec()) >= weight(
                gather(x, self.support_spec(a)),
                (2 * self.omega + self.rho) as nat,
            ) + weight(gather(x, self.support_spec(b)), (2 * self.omega + self.rho) as nat),
    {
        let n = self.len_spec();
        let len = (2 * self.omega + self.rho) as nat;
        let sa = self.support_spec(a);
        let sb = self.support_spec(b);
        let s = sa + sb;
        self.lemma_support(a);
        self.lemma_support(b);
        assert(positions_ok(s, n)) by {
            assert forall|e: int| 0 <= e < s.len() implies #[trigger] s[e] < n by {
                if e < len {
                    assert(s[e] == sa[e]);
                } else {
                    assert(s[e] == sb[e - len]);
                }
            }
            assert forall|e1: int, e2: int| 0 <= e1 < s.len() && 0 <= e2 < s.len() && e1 != e2 implies s[e1]
                != s[e2] by {
                if e1 < len && e2 < len {
                    assert(s[e1] == sa[e1] && s[e2] == sa[e2]);
                } else if e1 >= len && e2 >= len {
                    assert(s[e1] == sb[e1 - len] && s[e2] == sb[e2 - len]);
                } else if e1 < len {
                    assert(s[e1] == sa[e1] && s[e2] == sb[e2 - len]);
                    assert(sa.contains(s[e1]));
                    assert(sb.contains(s[e2]));
                    self.lemma_far_codes_disjoint(a, b, s[e1] as nat);
                } else {
                    assert(s[e2] == sa[e2] && s[e1] == sb[e1 - len]);
                    assert(sa.contains(s[e2]));
                    assert(sb.contains(s[e1]));
                    self.lemma_far_codes_disjoint(a, b, s[e2] as nat);
                }
            }
        }
        lemma_gather_weight(x, n, s);
        let g = gather(x, s);
        lemma_weight_concat(g, len, len);
        lemma_weight_ext(g, gather(x, sa), len);
        assert(g.subrange(len as int, (len + len) as int) =~= gather(x, sb));
    }

    /// A codeword of weight at most `2*rho` is nonzero on no two local codes that are not
    /// neighbours.
    proof fn lemma_far_codes_not_both_active(&self, x: Seq<u8>, a: nat, b: nat)
        requires
            self.wf(),
            a < self.mu,
            b < self.mu,
            !self.near(a, b),
            x.len() == self.len_spec(),
            in_kernel(self.parity_matrix(), x, self.len_spec()),
            weight(x, self.len_spec()) <= 2 * self.rho,
        ensures
            !(gather(x, self.support_spec(a)) != zeros((2 * self.omega + self.rho) as nat) && gather(
                x,
                self.support_spec(b),
            ) != zeros((2 * self.omega + self.rho) as nat)),
    {
        let len = (2 * self.omega + self.rho) as nat;
        if gather(x, self.support_spec(a)) != zeros(len) && gather(x, self.support_spec(b)) != zeros(
            len,
        ) {
            self.lemma_active_code_weight(x, a);
            self.lemma_active_code_weight(x, b);
            self.lemma_weight_two_codes(x, a, b);
        }
    }

    /// A nonzero codeword of weight at most `2*rho` lives on two neighbouring local codes.
    proof fn lemma_light_codeword_on_pair(&self, x: Seq<u8>) -> (i: nat)
        requires
            self.wf(),
            x.len() == self.len_spec(),
            in_kernel(self.parity_matrix(), x, self.len_spec()),
            x != zeros(self.len_spec()),
            weight(x, self.len_spec()) <= 2 * self.rho,
        ensures
            i < self.mu,
            self.on_pair(x, i),
    {
        let n = self.len_spec();
        assert(exists|p: int| 0 <= p < n && x[p] != zeros(n)[p]) by {
            if !(exists|p: int| 0 <= p < n && x[p] != zeros(n)[p]) {
                assert(x =~= zeros(n));
            }
        }
        let p0 = choose|p: int| 0 <= p < n && x[p] != zeros(n)[p];
        let i0 = self.lemma_home_code(p0 as nat);
        self.lemma_active_at(x, i0, p0);
        let pv = self.prev_spec(i0);
        let nx = self.next_spec(i0);
        self.lemma_prev_next(i0);
        self.lemma_prev_next(pv);
        if self.on_pair(x, i0) {
            i0
        } else if self.on_pair(x, pv) {
            pv
        } else {
            let p1 = choose|j: int|
                0 <= j < x.len() && #[trigger] x[j] != 0 && !(self.support_spec(i0).contains(
                    j as usize,
                ) || self.support_spec(nx).contains(j as usize));
            let p2 = choose|j: int|
                0 <= j < x.len() && #[trigger] x[j] != 0 && !(self.support_spec(pv).contains(
                    j as usize,
                ) || self.support_spec(self.next_spec(pv)).contains(j as usize));
            let j1 = self.lemma_home_code(p1 as nat);
            let j2 = self.lemma_home_code(p2 as nat);
            self.lemma_active_at(x, j1, p1);
            self.lemma_active_at(x, j2, p2);
            assert(self.next_spec(pv) == i0);
            if j1 != pv {
                self.lemma_far_codes_not_both_active(x, i0, j1);
            } else if j2 != nx {
                self.lemma_far_codes_not_both_active(x, i0, j2);
            } else {
                self.lemma_far_codes_not_both_active(x, pv, nx);
            }
            i0
        }
    }
}

impl BlockCirculant {
    /// With message symbols present, the first message symbol together with the parity
    /// blocks of local codes 0 and 1 gives `2*rho + 1` linearly dependent columns of `H_BC`:
    /// only the `2*rho` checks of those two local codes touch them.
    proof fn lemma_pair_window_dependent(&self)
        requires
            self.wf(),
            self.omega >= 1,
        ensures
            has_dependent_set(self.parity_matrix(), self.len_spec(), (2 * self.rho + 1) as nat),
    {
        let n = self.len_spec();
        let k = self.dim_spec();
        let mu = self.mu as nat;
        let w = self.omega as nat;
        let rho = self.rho as nat;
        let pm = self.parity_matrix();
        let t = (2 * rho + 1) as nat;
        lemma_index_bounds(mu, w, rho, 0, 0);
        assert(k >= 2 && 2 * rho <= mu * rho) by (nonlinear_arith)
            requires
                mu >= 2,
                w >= 1,
                k == mu * w,
        ;
        let s = Seq::new(t, |e: int| if e == 0 { 0usize } else { (k + e - 1) as usize });
        assert(increasing(s));
        assert forall|e: int| 0 <= e < t implies #[trigger] s[e] < n by {}
        let g = gather_cols(pm, s);
        assert forall|q: int, e: int| 2 * rho <= q < pm.len() && 0 <= e < t implies #[trigger] g[q][e]
            == 0 by {
            let j = (q / rho as int) as nat;
            let r = q % rho as int;
            vstd::arithmetic::div_mod::lemma_fundamental_div_mod(q, rho as int);
            vstd::arithmetic::div_mod::lemma_mod_pos_bound(q, rho as int);
            assert(2 <= j < mu) by (nonlinear_arith)
                requires
                    q == rho * j + r,
                    0 <= r < rho,
                    2 * rho <= q < mu * rho,
            ;
            self.lemma_support(j);
            self.lemma_prev_next(j);
            assert(pm[q] == scatter(self.local_h(j)[r], self.support_spec(j), n));
            lemma_scatter_entries(self.local_h(j)[r], self.support_spec(j), n);
            self.lemma_support_contains(j, s[e] as nat);
            if e >= 1 {
                let u = e - 1;
                vstd::arithmetic::div_mod::lemma_fundamental_div_mod(u, rho as int);
                vstd::arithmetic::div_mod::lemma_mod_pos_bound(u, rho as int);
                assert(u / (rho as int) < 2) by (nonlinear_arith)
                    requires
                        u == rho * (u / (rho as int)) + u % (rho as int),
                        0 <= u % (rho as int),
                        u < 2 * rho,
                ;
                assert(((s[e] - k) as nat) / rho == u / (rho as int));
            }
            assert(!self.support_spec(j).contains(s[e]));
        }
        let a = g.subrange(0, (2 * rho) as int);
        assert(wide_enough(a, t));
        let y = crate::linalg::lemma_wide_kernel(a, t);
        assert(in_kernel(g, y, t)) by {
            assert forall|q: int| 0 <= q < g.len() implies #[trigger] dot(g[q], y, t) == zeros(g.len())[q] by {
                if q < 2 * rho {
                    assert(g[q] == a[q]);
                    assert(dot(a[q], y, t) == zeros(a.len())[q]);
                } else {
                    assert forall|e: int| 0 <= e < t && e != -1 implies #[trigger] crate::gf256::gf_mul(
                        g[q][e],
                        y[e],
                    ) == 0 by {
                        assert(g[q][e] == 0);
                        crate::gf256::lemma_mul_zero(y[e]);
                    }
                    crate::linalg::lemma_dot_single(g[q], y, t, -1);
                }
            }
        }
        assert(crate::grs::dependent_cols(pm, s));
        assert(has_dependent_set(pm, n, t));
    }
}

impl BlockCirculant {
    /// A nonzero local word of a codeword supported on the two positions `s` holds both.
    proof fn lemma_active_holds_both(&self, x: Seq<u8>, j: nat, s: Seq<usize>)
        requires
            self.wf(),
            j < self.mu,
            x.len() == self.len_spec(),
            in_kernel(self.parity_matrix(), x, self.len_spec()),
            gather(x, self.support_spec(j)) != zeros((2 * self.omega + self.rho) as nat),
            positions_ok(s, self.len_spec()),
            s.len() == 2,
            supported_in(x, s),
            self.rho == 1,
        ensures
            self.support_spec(j).contains(s[0]),
            self.support_spec(j).contains(s[1]),
    {
        let n = self.len_spec();
        let sp = self.support_spec(j);
        self.lemma_support(j);
        self.lemma_active_code_weight(x, j);
        assert forall|e: int| 0 <= e < 2 implies sp.contains(#[trigger] s[e]) by {
            if !sp.contains(s[e]) {
                let o = 1 - e;
                let x2 = x.update(s[e] as int, 0u8);
                assert(gather(x2, sp) =~= gather(x, sp)) by {
                    assert forall|c: int| 0 <= c < sp.len() implies gather(x2, sp)[c] == gather(x, sp)[c] by {
                        assert(sp[c] != s[e]);
                    }
                }
                let so = seq![s[o]];
                assert(positions_ok(so, n));
                assert(supported_in(x2, so)) by {
                    assert forall|q: int| 0 <= q < x2.len() && !so.contains(q as usize) implies #[trigger] x2[q]
                        == 0 by {
                        if q != s[e] as int {
                            assert(so[0] == s[o]);
                            assert(!s.contains(q as usize)) by {
                                if s.contains(q as usize) {
                                    let t = choose|t: int| 0 <= t < s.len() && s[t] == q as usize;
                                    assert(t == 0 || t == 1);
                                }
                            }
                        }
                    }
                }
                lemma_weight_bound(x2, n, so);
                lemma_gather_weight(x2, n, sp);
            }
        }
    }

    /// With one parity symbol per local code, every nonzero codeword has at least 3 nonzero
    /// symbols.
    proof fn lemma_single_parity_weight(&self, x: Seq<u8>)
        requires
            self.wf(),
            self.rho == 1,
            x.len() == self.len_spec(),
            in_kernel(self.parity_matrix(), x, self.len_spec()),
            x != zeros(self.len_spec()),
        ensures
            weight(x, self.len_spec()) >= 3,
    {
        let n = self.len_spec();
        let k = self.dim_spec();
        let len = (2 * self.omega + self.rho) as nat;
        let pm = self.parity_matrix();
        lemma_index_bounds(self.mu as nat, self.omega as nat, 1, 0, 0);
        if weight(x, n) <= 2 {
            lemma_weight_support(x, n);
            lemma_support_list(x, n);
            let sl = support_list(x, n);
            assert(positions_ok(sl, n)) by {
                assert forall|a: int, b: int| 0 <= a < sl.len() && 0 <= b < sl.len() && a != b implies sl[a]
                    != sl[b] by {
                    if a < b {
                        assert(sl[a] < sl[b]);
                    } else {
                        assert(sl[b] < sl[a]);
                    }
                }
            }
            assert(supported_in(x, sl)) by {
                assert forall|j: int| 0 <= j < x.len() && !sl.contains(j as usize) implies #[trigger] x[j]
                    == 0 by {
                    if x[j] != 0 {
                        assert(sl.contains(j as usize));
                    }
                }
            }
            assert(exists|p: int| 0 <= p < n && x[p] != zeros(n)[p]) by {
                if !(exists|p: int| 0 <= p < n && x[p] != zeros(n)[p]) {
                    assert(x =~= zeros(n));
                }
            }
            let p0 = choose|p: int| 0 <= p < n && x[p] != zeros(n)[p];
            let i0 = self.lemma_home_code(p0 as nat);
            self.lemma_active_at(x, i0, p0);
            self.lemma_active_code_weight(x, i0);
            self.lemma_support(i0);
            lemma_gather_weight(x, n, self.support_spec(i0));
            assert(sl.len() == 2);
            let p = sl[0];
            let q = sl[1];
            assert(x[p as int] != 0 && x[q as int] != 0 && p < q);
            self.lemma_active_holds_both(x, i0, sl);
            // one of the two positions is a message symbol, shared with a neighbouring code
            self.lemma_support_contains(i0, p as nat);
            self.lemma_support_contains(i0, q as nat);
            let r = if (p as nat) < k {
                p
            } else {
                q
            };
            assert((r as nat) < k);
            self.lemma_prev_next(i0);
            let pv = self.prev_spec(i0);
            let nx = self.next_spec(i0);
            self.lemma_prev_next(pv);
            self.lemma_prev_next(nx);
            let a = if (r as nat) / (self.omega as nat) == i0 {
                i0
            } else {
                pv
            };
            let b = self.next_spec(a);
            self.lemma_prev_next(a);
            assert(b < self.mu && b != a && self.prev_spec(b) == a);
            self.lemma_support_contains(a, r as nat);
            self.lemma_support_contains(b, r as nat);
            if a == i0 {
                self.lemma_active_at(x, b, r as int);
                self.lemma_active_holds_both(x, b, sl);
            } else {
                self.lemma_active_at(x, a, r as int);
                self.lemma_active_holds_both(x, a, sl);
            }
            // the checks of codes `a` and `b` read the two positions as a 2 x 2 Vandermonde
            self.lemma_two_checks_independent(x, a, sl);
        }
    }

    /// With one parity symbol per local code, a word supported on two positions shared by
    /// neighbouring local codes `a` and `a + 1` satisfies both codes' checks only if it is
    /// zero there.
    proof fn lemma_two_checks_independent(&self, x: Seq<u8>, a: nat, s: Seq<usize>)
        requires
            self.wf(),
            self.rho == 1,
            a < self.mu,
            x.len() == self.len_spec(),
            in_kernel(self.parity_matrix(), x, self.len_spec()),
            positions_ok(s, self.len_spec()),
            s.len() == 2,
            supported_in(x, s),
            self.support_spec(a).contains(s[0]),
            self.support_spec(a).contains(s[1]),
            self.support_spec(self.next_spec(a)).contains(s[0]),
            self.support_spec(self.next_spec(a)).contains(s[1]),
        ensures
            x[s[0] as int] == 0,
    {
        let n = self.len_spec();
        let pm = self.parity_matrix();
        let b = self.next_spec(a);
        self.lemma_prev_next(a);
        let y = gather(x, s);
        lemma_scatter_entries(y, s, n);
        assert(scatter(y, s, n) =~= x) by {
            assert forall|j: int| 0 <= j < n implies scatter(y, s, n)[j] == x[j] by {
                if s.contains(j as usize) {
                    let e = choose|e: int| 0 <= e < s.len() && s[e] == j as usize;
                    assert(scatter(y, s, n)[s[e] as int] == y[e]);
                }
            }
        }
        crate::linalg::lemma_gather_kernel(pm, y, s, n);
        let g = gather_cols(pm, s);
        assert(in_kernel(g, y, 2));
        let pts = seq![pow_g(s[0] as nat), pow_g(s[1] as nat)];
        let v = vandermonde(pts, 0, 2);
        // row `i` of `H_BC` (one check per local code) at a position of code `i`
        assert forall|i: nat, e: int| #![trigger g[i as int][e]]
            (i == a || i == b) && 0 <= e < 2 implies g[i as int][e] == crate::gf256::gf_pow(
            pts[e],
            self.local_offset(i),
        ) by {
            let sp = self.support_spec(i);
            self.lemma_support(i);
            lemma_row_split(1, i, 0);
            assert(pm[i as int] == scatter(self.local_h(i)[0], sp, n));
            lemma_scatter_entries(self.local_h(i)[0], sp, n);
            assert(sp.contains(s[e]));
            let c = choose|c: int| 0 <= c < sp.len() && sp[c] == s[e];
            assert(pm[i as int][sp[c] as int] == self.local_h(i)[0][c]);
        }
        assert(in_kernel(v, y, 2)) by {
            assert forall|r: int| 0 <= r < v.len() implies #[trigger] dot(v[r], y, 2) == zeros(v.len())[r] by {
                let i = if self.local_offset(a) == r {
                    a
                } else {
                    b
                };
                assert(self.local_offset(i) == r);
                assert(v[r] =~= g[i as int]) by {
                    assert(g[i as int][0] == crate::gf256::gf_pow(pts[0], self.local_offset(i)));
                    assert(g[i as int][1] == crate::gf256::gf_pow(pts[1], self.local_offset(i)));
                }
                assert(dot(g[i as int], y, 2) == zeros(g.len())[i as int]);
            }
        }
        assert(points_ok(pts, 0)) by {
            crate::gf256::lemma_full_period(s[0] as nat, s[1] as nat, 0);
            assert(pts[0] != pts[1]);
        }
        let both = seq![0usize, 1usize];
        assert(positions_ok(both, 2));
        assert(supported_in(y, both)) by {
            assert(both.contains(0usize) && both[0] == 0usize);
            assert(both[1] == 1usize);
        }
        crate::grs::lemma_vandermonde(pts, 0, 2, y, both);
        assert(y[0] == zeros(2)[0]);
    }
}

/// Codes with a single parity symbol per local code have no light neighbouring pair: every
/// nonzero codeword has at least 3 nonzero symbols, so their minimum distance is exactly
/// `2*rho + 1 = 3` whenever they carry message symbols.
pub proof fn lemma_bc_single_parity_pairs_heavy(bc: &BlockCirculant)
    requires
        bc.wf(),
        bc.rho == 1,
    ensures
        bc.pairs_heavy(),
{
    let n = bc.len_spec();
    assert forall|i: nat, x: Seq<u8>|
        i < bc.mu && x.len() == n && #[trigger] in_kernel(bc.parity_matrix(), x, n) && x != zeros(n)
            && #[trigger] bc.on_pair(x, i) implies weight(x, n) > 2 * bc.rho by {
        bc.lemma_single_parity_weight(x);
    }
}

/// The block-circulant distance is decided on neighbouring pairs of local codes: no `2*rho`
/// or fewer columns of `H_BC` are linearly dependent (minimum distance at least
/// `2*rho + 1`) exactly when every nonzero codeword living on two neighbouring local codes
/// has more than `2*rho` nonzero symbols.
pub proof fn lemma_bc_distance_from_pairs(bc: &BlockCirculant)
    requires
        bc.wf(),
    ensures
        (forall|t: nat| 1 <= t <= 2 * bc.rho ==> !#[trigger] has_dependent_set(
            bc.parity_matrix(),
            bc.len_spec(),
            t,
        )) <==> bc.pairs_heavy(),
{
    let n = bc.len_spec();
    let pm = bc.parity_matrix();
    let rho = bc.rho as nat;
    if bc.pairs_heavy() {
        assert forall|x: Seq<u8>| #[trigger] in_kernel(pm, x, n) && x != zeros(n) implies weight(x, n)
            >= 2 * rho + 1 by {
            assert(x.len() == n);
            if weight(x, n) <= 2 * rho {
                let i = bc.lemma_light_codeword_on_pair(x);
                assert(bc.on_pair(x, i));
            }
        }
        lemma_dependent_sets_from_weight(pm, n, 2 * rho + 1);
    }
    if forall|t: nat| 1 <= t <= 2 * rho ==> !#[trigger] has_dependent_set(pm, n, t) {
        assert forall|i: nat, x: Seq<u8>|
            i < bc.mu && x.len() == n && #[trigger] in_kernel(pm, x, n) && x != zeros(n) && #[trigger] bc.on_pair(
                x,
                i,
            ) implies weight(x, n) > 2 * rho by {
            lemma_dependent_set_from_codeword(pm, n, x);
            let p = choose|p: int| 0 <= p < n && x[p] != zeros(n)[p];
            assert(exists|p: int| 0 <= p < n && x[p] != zeros(n)[p]) by {
                if !(exists|p: int| 0 <= p < n && x[p] != zeros(n)[p]) {
                    assert(x =~= zeros(n));
                }
            }
            lemma_weight_nonzero(x, n, p);
        }
    }
}

/// The block-circulant minimum distance is exactly `2*rho + 1` on every code that carries
/// message symbols and whose neighbouring pairs of local codes hold no nonzero codeword of
/// `2*rho` or fewer nonzero symbols: no `2*rho` or fewer columns of `H_BC` are linearly
/// dependent, and some `2*rho + 1` are.
pub proof fn lemma_bc_distance_exact(bc: &BlockCirculant)
    requires
        bc.wf(),
        bc.pairs_heavy(),
        bc.omega >= 1,
    ensures
        forall|t: nat| 1 <= t <= 2 * bc.rho ==> !#[trigger] has_dependent_set(
            bc.parity_matrix(),
            bc.len_spec(),
            t,
        ),
        has_dependent_set(bc.parity_matrix(), bc.len_spec(), (2 * bc.rho + 1) as nat),
{
    lemma_bc_distance_from_pairs(bc);
    bc.lemma_pair_window_dependent();
}

impl BlockCirculant {
    /// Whether the code reaches its design distance against erasures: true exactly when no
    /// two neighbouring local codes hold a nonzero codeword of `2*rho` or fewer symbols, that
    /// is when no `2*rho` or fewer columns of `H_BC` are linearly dependent, so that every
    /// pattern of at most `2*rho` erasures is recovered. It searches column subsets by
    /// increasing size, so it is meant for small codes.
    pub fn reaches_design_distance(&self, f: &Gf256) -> (b: bool)
        requires
            self.wf(),
        ensures
            b == self.pairs_heavy(),
    {
        let h = self.parity_check(f);
        let n = self.n();
        proof {
            lemma_small_params(self.mu as nat, self.omega as nat, self.rho as nat);
            assert forall|q: int| 0 <= q < rows_view(h@).len() implies #[trigger] rows_view(h@)[q].len()
                >= n by {
                let rho = self.rho as int;
                let i = (q / rho) as nat;
                assert(i < self.mu) by (nonlinear_arith)
                    requires
                        rho > 0,
                        i == q / rho,
                        0 <= q < self.mu * rho,
                ;
                self.lemma_support(i);
                let lh = self.local_h(i);
                assert(lh[q % rho].len() == self.support_spec(i).len());
                lemma_scatter_entries(lh[q % rho], self.support_spec(i), n as nat);
            }
            assert(h@.len() == self.parity_matrix().len());
            assert(2 * self.rho <= self.mu * self.rho) by (nonlinear_arith)
                requires
                    self.mu >= 2,
            ;
            lemma_bc_distance_from_pairs(self);
        }
        let d = crate::grs::min_distance_from_h(f, &h, n);
        proof {
            if d <= 2 * self.rho {
                assert(has_dependent_set(self.parity_matrix(), self.len_spec(), d as nat));
            }
        }
        d > 2 * self.rho
    }
}

/// No data loss up to `2*rho` erasures: when every nonzero codeword on two neighbouring
/// local codes has more than `2*rho` nonzero symbols, a block-circulant codeword that loses
/// at most `2*rho` distinct symbols is the only codeword agreeing with what survives, so
/// `BlockCirculant::recover` returns exactly it.
pub proof fn lemma_bc_recovers_up_to_2rho(
    bc: &BlockCirculant,
    c: Seq<u8>,
    cw: Seq<u8>,
    erased: Seq<usize>,
)
    requires
        bc.wf(),
        bc.pairs_heavy(),
        c.len() == bc.len_spec(),
        in_kernel(bc.parity_matrix(), c, bc.len_spec()),
        agrees_outside(c, cw, erased),
        positions_ok(erased, bc.len_spec()),
        erased.len() <= 2 * bc.rho,
    ensures
        uniquely_recoverable(bc.parity_matrix(), bc.len_spec(), cw, erased),
        is_completion(bc.parity_matrix(), bc.len_spec(), cw, erased, c),
{
    lemma_bc_distance_from_pairs(bc);
    lemma_recover_below_distance(
        bc.parity_matrix(),
        bc.len_spec(),
        (2 * bc.rho + 1) as nat,
        c,
        cw,
        erased,
    );
}

/// The unit vector of length `len` with a 1 at position `c`.
pub open spec fn unit_vec(len: nat, c: int) -> Seq<u8> {
    zeros(len).update(c, 1u8)
}

/// Column `c` of a matrix given by its rows.
pub open spec fn column_of(m: Seq<Seq<u8>>, c: int) -> Seq<u8> {
    Seq::new(m.len(), |r: int| m[r][c])
}

/// A nested `Vec` of matrices as a sequence of row sequences.
pub open spec fn matrices_view(g: Seq<Vec<Vec<u8>>>) -> Seq<Seq<Seq<u8>>> {
    g.map_values(|m: Vec<Vec<u8>>| rows_view(m@))
}

impl BlockCirculant {
    /// `gen` holds, for every local code `i`, its `rho x 2*omega` systematic generator:
    /// column `c` is the parity of the data word that is 1 at `c` and 0 elsewhere.
    pub open spec fn is_generator(&self, gen: Seq<Seq<Seq<u8>>>) -> bool {
        &&& gen.len() == self.mu
        &&& forall|i: int|
            0 <= i < self.mu ==> (#[trigger] gen[i]).len() == self.rho && forall|r: int|
                0 <= r < self.rho ==> (#[trigger] gen[i][r]).len() == 2 * self.omega
        &&& forall|i: int, c: int|
            0 <= i < self.mu && 0 <= c < 2 * self.omega ==> #[trigger] in_kernel(
                self.local_h(i as nat),
                unit_vec((2 * self.omega) as nat, c) + column_of(gen[i], c),
                (2 * self.omega + self.rho) as nat,
            )
    }

    /// The systematic generator matrices of all local codes (see `is_generator`).
    pub fn local_generators(&self, f: &Gf256) -> (gen: Vec<Vec<Vec<u8>>>)
        requires
            self.wf(),
        ensures
            self.is_generator(matrices_view(gen@)),
    {
        proof {
            lemma_small_params(self.mu as nat, self.omega as nat, self.rho as nat);
        }
        let two_w = 2 * self.omega;
        let ghost len = (2 * self.omega + self.rho) as nat;
        let mut gen: Vec<Vec<Vec<u8>>> = Vec::new();
        let mut i: usize = 0;
        while i < self.mu
            invariant
                self.wf(),
                two_w == 2 * self.omega,
                two_w + self.rho <= 255,
                len == two_w + self.rho,
                i <= self.mu,
                gen@.len() == i,
                forall|q: int|
                    0 <= q < i ==> (#[trigger] matrices_view(gen@)[q]).len() == self.rho && forall|r: int|
                        0 <= r < self.rho ==> (#[trigger] matrices_view(gen@)[q][r]).len() == two_w,
                forall|q: int, c: int|
                    0 <= q < i && 0 <= c < two_w ==> #[trigger] in_kernel(
                        self.local_h(q as nat),
                        unit_vec(two_w as nat, c) + column_of(matrices_view(gen@)[q], c),
                        len,
                    ),
            decreases self.mu - i,
        {
            let (local, _sup) = self.local_code(f, i);
            proof {
                lemma_grs_parity_independent(&local);
            }
            let mut cols: Vec<Vec<u8>> = Vec::new();
            let mut c: usize = 0;
            while c < two_w
                invariant
                    c <= two_w,
                    two_w == 2 * self.omega,
                    two_w + self.rho <= 255,
                    local.wf(),
                    local.parity_independent(),
                    local.k0 == two_w,
                    local.n0 == two_w + self.rho,
                    local.hmat() == self.local_h(i as nat),
                    cols@.len() == c,
                    forall|t: int| 0 <= t < c ==> (#[trigger] cols@[t])@.len() == two_w + self.rho,
                    forall|t: int|
                        0 <= t < c ==> (#[trigger] cols@[t])@.subrange(0, two_w as int) == unit_vec(
                            two_w as nat,
                            t,
                        ),
                    forall|t: int| 0 <= t < c ==> #[trigger] local.is_codeword(cols@[t]@),
                decreases two_w - c,
            {
                let mut data: Vec<u8> = vec![0u8; two_w];
                data.set(c, 1);
                proof {
                    assert(data@ =~= unit_vec(two_w as nat, c as int));
                }
                let lc = local.encode_systematic(f, data.as_slice());
                cols.push(lc);
                c += 1;
            }
            let mut m: Vec<Vec<u8>> = Vec::new();
            let mut r: usize = 0;
            while r < self.rho
                invariant
                    r <= self.rho,
                    two_w == 2 * self.omega,
                    two_w + self.rho <= 255,
                    cols@.len() == two_w,
                    forall|t: int| 0 <= t < two_w ==> (#[trigger] cols@[t])@.len() == two_w + self.rho,
                    m@.len() == r,
                    forall|q: int| 0 <= q < r ==> (#[trigger] m@[q])@.len() == two_w,
                    forall|q: int, t: int|
                        0 <= q < r && 0 <= t < two_w ==> #[trigger] m@[q]@[t] == cols@[t]@[two_w + q],
                decreases self.rho - r,
            {
                let mut row: Vec<u8> = Vec::new();
                let mut t: usize = 0;
                while t < two_w
                    invariant
                        t <= two_w,
                        r < self.rho,
                        two_w + self.rho <= 255,
                        cols@.len() == two_w,
                        forall|t: int| 0 <= t < two_w ==> (#[trigger] cols@[t])@.len() == two_w + self.rho,
                        row@.len() == t,
                        forall|u: int| 0 <= u < t ==> #[trigger] row@[u] == cols@[u]@[two_w + r],
                    decreases two_w - t,
                {
                    row.push(cols[t][two_w + r]);
                    t += 1;
                }
                m.push(row);
                r += 1;
            }
            proof {
                let mv = rows_view(m@);
                assert forall|c: int| 0 <= c < two_w implies #[trigger] in_kernel(
                    self.local_h(i as nat),
                    unit_vec(two_w as nat, c) + column_of(mv, c),
                    len,
                ) by {
                    let lc = cols@[c]@;
                    assert(unit_vec(two_w as nat, c) + column_of(mv, c) =~= lc) by {
                        assert forall|j: int| 0 <= j < len implies (unit_vec(two_w as nat, c) + column_of(
                            mv,
                            c,
                        ))[j] == lc[j] by {
                            if j < two_w {
                                assert(lc.subrange(0, two_w as int)[j] == lc[j]);
                            } else {
                                assert(mv[j - two_w] == m@[j - two_w]@);
                            }
                        }
                    }
                    assert(local.is_codeword(lc));
                }
            }
            let ghost old_gv = matrices_view(gen@);
            gen.push(m);
            proof {
                let gv = matrices_view(gen@);
                assert(gv =~= old_gv.push(rows_view(m@)));
                assert forall|r: int| 0 <= r < self.rho implies (#[trigger] rows_view(m@)[r]).len() == two_w by {
                    assert(rows_view(m@)[r] == m@[r]@);
                }
            }
            i += 1;
        }
        gen
    }
}

} // verus!
