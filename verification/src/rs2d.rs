//! 2D (product) Reed-Solomon code, the deployed data-availability baseline.
//!
//! A `k2 x k1` message grid is RS-encoded along rows (row code `C1 = RS[n1, k1]`) and then
//! along columns (column code `C2 = RS[n2, k2]`) into an `n2 x n1` grid, stored row-major.
//! As a linear code it has `n = n1*n2`, `k = k1*k2`, `d = (n1-k1+1)*(n2-k2+1)`.

use vstd::prelude::*;
use crate::gf256::{gf_mul, lemma_mul_comm, lemma_mul_zero, lemma_no_zero_divisors, Gf256};
use crate::grs::{
    copy_bytes, has_dependent_set, lemma_dependent_set_from_codeword,
    lemma_dependent_sets_from_weight, lemma_grs_parity_independent, lemma_recover_below_distance,
    lemma_vander_min_weight_codeword, lemma_vander_systematic_unique, lemma_vander_weight,
    lemma_weight_concat, lemma_weight_zeros, points_ok, recover_with, vandermonde, weight, Grs,
};
use crate::linalg::{
    agrees_outside, dot, gather, in_kernel, is_completion, lemma_dot_comm, lemma_dot_scale,
    lemma_lincomb_kernel, lemma_scatter_entries, lemma_scattered_row_dot, lincomb, place,
    positions_ok, rows_view, scatter, uniquely_recoverable, zeros,
};

verus! {

/// A square or rectangular product of two Reed-Solomon codes.
pub struct Rs2d {
    pub n1: usize,
    pub k1: usize,
    pub n2: usize,
    pub k2: usize,
    /// `C1 = RS[n1, k1]`, applied to every grid row.
    pub row_code: Grs,
    /// `C2 = RS[n2, k2]`, applied to every grid column.
    pub col_code: Grs,
}

proof fn lemma_grid(a: nat, b: nat, r: nat, c: nat)
    by (nonlinear_arith)
    requires
        r < a,
        c < b,
    ensures
        r * b + c < a * b,
        r * b + b <= a * b,
{
}

proof fn lemma_grid_unique(b: nat, r1: nat, c1: nat, r2: nat, c2: nat)
    requires
        c1 < b,
        c2 < b,
        r1 * b + c1 == r2 * b + c2,
    ensures
        r1 == r2,
        c1 == c2,
{
    vstd::arithmetic::div_mod::lemma_fundamental_div_mod_converse((r1 * b + c1) as int, b as int, r1 as int, c1 as int);
    vstd::arithmetic::div_mod::lemma_fundamental_div_mod_converse((r2 * b + c2) as int, b as int, r2 as int, c2 as int);
}

proof fn lemma_split(b: nat, q: int)
    requires
        b > 0,
        q >= 0,
    ensures
        (q / (b as int)) * b + q % (b as int) == q,
        0 <= q % (b as int),
        q % (b as int) < b,
        0 <= q / (b as int),
{
    vstd::arithmetic::div_mod::lemma_fundamental_div_mod(q, b as int);
    vstd::arithmetic::div_mod::lemma_div_pos_is_pos(q, b as int);
    let d = q / (b as int);
    assert(d * b == b * d) by (nonlinear_arith);
}

impl Rs2d {
    /// Code length `n = n1*n2`.
    pub open spec fn len_spec(&self) -> nat {
        (self.n1 * self.n2) as nat
    }

    /// Message length `k = k1*k2`.
    pub open spec fn dim_spec(&self) -> nat {
        (self.k1 * self.k2) as nat
    }

    /// Both component codes are well formed, over good points, with the stated sizes.
    pub open spec fn wf(&self) -> bool {
        &&& self.row_code.wf()
        &&& self.col_code.wf()
        &&& self.row_code.n0 == self.n1
        &&& self.row_code.k0 == self.k1
        &&& self.col_code.n0 == self.n2
        &&& self.col_code.k0 == self.k2
        &&& points_ok(self.row_code.points(), self.row_code.offset())
        &&& points_ok(self.col_code.points(), self.col_code.offset())
    }

    /// Grid coordinates of row `r`.
    pub open spec fn row_positions(&self, r: nat) -> Seq<usize> {
        Seq::new(self.n1 as nat, |c: int| (r * self.n1 + c) as usize)
    }

    /// Grid coordinates of column `c`.
    pub open spec fn col_positions(&self, c: nat) -> Seq<usize> {
        Seq::new(self.n2 as nat, |r: int| (r * self.n1 + c) as usize)
    }

    /// The product-code parity check: the `C1` checks on every grid row, then the `C2`
    /// checks on every grid column.
    pub open spec fn parity_matrix(&self) -> Seq<Seq<u8>> {
        let h1 = self.row_code.hmat();
        let h2 = self.col_code.hmat();
        let rho1 = h1.len();
        let rho2 = h2.len();
        Seq::new(
            (self.n2 * rho1) as nat,
            |q: int| scatter(h1[q % rho1 as int], self.row_positions((q / rho1 as int) as nat), self.len_spec()),
        ) + Seq::new(
            (self.n1 * rho2) as nat,
            |q: int| scatter(h2[q % rho2 as int], self.col_positions((q / rho2 as int) as nat), self.len_spec()),
        )
    }

    proof fn lemma_positions(&self, r: nat, c: nat)
        requires
            self.wf(),
        ensures
            r < self.n2 ==> positions_ok(self.row_positions(r), self.len_spec()),
            c < self.n1 ==> positions_ok(self.col_positions(c), self.len_spec()),
    {
        let rp = self.row_positions(r);
        let cp = self.col_positions(c);
        if r < self.n2 {
            assert forall|e: int| 0 <= e < rp.len() implies #[trigger] rp[e] < self.len_spec() by {
                lemma_grid(self.n2 as nat, self.n1 as nat, r, e as nat);
            }
            assert(self.n1 * self.n2 <= 255 * 255) by (nonlinear_arith)
                requires
                    self.n1 <= 255,
                    self.n2 <= 255,
            ;
            assert forall|a: int, b: int| 0 <= a < rp.len() && 0 <= b < rp.len() && a != b implies rp[a] != rp[b] by {
                lemma_grid(self.n2 as nat, self.n1 as nat, r, a as nat);
                lemma_grid(self.n2 as nat, self.n1 as nat, r, b as nat);
                assert(rp[a] as int == r * self.n1 + a);
                assert(rp[b] as int == r * self.n1 + b);
            }
        }
        if c < self.n1 {
            assert(self.n1 * self.n2 <= 255 * 255) by (nonlinear_arith)
                requires
                    self.n1 <= 255,
                    self.n2 <= 255,
            ;
            assert forall|e: int| 0 <= e < cp.len() implies #[trigger] cp[e] < self.len_spec() by {
                lemma_grid(self.n2 as nat, self.n1 as nat, e as nat, c);
            }
            assert forall|a: int, b: int| 0 <= a < cp.len() && 0 <= b < cp.len() && a != b implies cp[a] != cp[b] by {
                lemma_grid(self.n2 as nat, self.n1 as nat, a as nat, c);
                lemma_grid(self.n2 as nat, self.n1 as nat, b as nat, c);
                assert(cp[a] as int == a * self.n1 + c);
                assert(cp[b] as int == b * self.n1 + c);
                if cp[a] == cp[b] {
                    lemma_grid_unique(self.n1 as nat, a as nat, c, b as nat, c);
                }
            }
        }
    }

    /// A grid satisfies the product check exactly when every row is a `C1` codeword and
    /// every column a `C2` codeword.
    pub proof fn lemma_parity_rows(&self, x: Seq<u8>)
        requires
            self.wf(),
            x.len() == self.len_spec(),
        ensures
            in_kernel(self.parity_matrix(), x, self.len_spec()) <==> ((forall|r: nat|
                r < self.n2 ==> #[trigger] in_kernel(
                    self.row_code.hmat(),
                    gather(x, self.row_positions(r)),
                    self.n1 as nat,
                )) && (forall|c: nat|
                c < self.n1 ==> #[trigger] in_kernel(
                    self.col_code.hmat(),
                    gather(x, self.col_positions(c)),
                    self.n2 as nat,
                ))),
    {
        let n = self.len_spec();
        let pm = self.parity_matrix();
        let h1 = self.row_code.hmat();
        let h2 = self.col_code.hmat();
        let rho1 = h1.len();
        let rho2 = h2.len();
        let top = (self.n2 * rho1) as nat;
        assert(h1 == vandermonde(self.row_code.points(), self.row_code.offset(), self.row_code.rho as nat));
        assert(h2 == vandermonde(self.col_code.points(), self.col_code.offset(), self.col_code.rho as nat));
        assert forall|r: nat, t: nat| r < self.n2 && t < rho1 implies dot(#[trigger] pm[(r * rho1 + t) as int], x, n)
            == dot(h1[t as int], gather(x, self.row_positions(r)), self.n1 as nat) by {
            lemma_grid(self.n2 as nat, rho1, r, t);
            vstd::arithmetic::div_mod::lemma_fundamental_div_mod_converse((r * rho1 + t) as int, rho1 as int, r as int, t as int);
            self.lemma_positions(r, 0);
            assert(pm[(r * rho1 + t) as int] == scatter(h1[t as int], self.row_positions(r), n));
            lemma_scattered_row_dot(h1[t as int], x, self.row_positions(r), n);
        }
        assert forall|c: nat, t: nat| c < self.n1 && t < rho2 implies dot(#[trigger] pm[(top + c * rho2 + t) as int], x, n)
            == dot(h2[t as int], gather(x, self.col_positions(c)), self.n2 as nat) by {
            lemma_grid(self.n1 as nat, rho2, c, t);
            vstd::arithmetic::div_mod::lemma_fundamental_div_mod_converse((c * rho2 + t) as int, rho2 as int, c as int, t as int);
            self.lemma_positions(0, c);
            assert(pm[(top + c * rho2 + t) as int] == scatter(h2[t as int], self.col_positions(c), n));
            lemma_scattered_row_dot(h2[t as int], x, self.col_positions(c), n);
        }
        if in_kernel(pm, x, n) {
            assert forall|r: nat| r < self.n2 implies #[trigger] in_kernel(h1, gather(x, self.row_positions(r)), self.n1 as nat) by {
                assert forall|t: int| 0 <= t < h1.len() implies #[trigger] dot(h1[t], gather(x, self.row_positions(r)), self.n1 as nat)
                    == zeros(h1.len())[t] by {
                    lemma_grid(self.n2 as nat, rho1, r, t as nat);
                    assert(dot(pm[(r * rho1 + t) as int], x, n) == zeros(pm.len())[(r * rho1 + t) as int]);
                    assert(dot(pm[(r * rho1 + t as nat) as int], x, n) == dot(h1[t], gather(x, self.row_positions(r)), self.n1 as nat));
                }
            }
            assert forall|c: nat| c < self.n1 implies #[trigger] in_kernel(h2, gather(x, self.col_positions(c)), self.n2 as nat) by {
                assert forall|t: int| 0 <= t < h2.len() implies #[trigger] dot(h2[t], gather(x, self.col_positions(c)), self.n2 as nat)
                    == zeros(h2.len())[t] by {
                    lemma_grid(self.n1 as nat, rho2, c, t as nat);
                    assert(dot(pm[(top + c * rho2 + t) as int], x, n) == zeros(pm.len())[(top + c * rho2 + t) as int]);
                    assert(dot(pm[(top + c * rho2 + t as nat) as int], x, n) == dot(h2[t], gather(x, self.col_positions(c)), self.n2 as nat));
                }
            }
        }
        if (forall|r: nat| r < self.n2 ==> #[trigger] in_kernel(h1, gather(x, self.row_positions(r)), self.n1 as nat))
            && (forall|c: nat| c < self.n1 ==> #[trigger] in_kernel(h2, gather(x, self.col_positions(c)), self.n2 as nat)) {
            assert forall|q: int| 0 <= q < pm.len() implies #[trigger] dot(pm[q], x, n) == zeros(pm.len())[q] by {
                if q < top {
                    assert(rho1 > 0) by (nonlinear_arith)
                        requires
                            0 <= q < self.n2 * rho1,
                    ;
                    lemma_split(rho1, q);
                    let r = (q / rho1 as int) as nat;
                    let t = (q % rho1 as int) as nat;
                    assert(r < self.n2) by (nonlinear_arith)
                        requires
                            r * rho1 + t == q,
                            q < self.n2 * rho1,
                            t >= 0,
                    ;
                    assert(in_kernel(h1, gather(x, self.row_positions(r)), self.n1 as nat));
                    assert(dot(h1[t as int], gather(x, self.row_positions(r)), self.n1 as nat) == zeros(h1.len())[t as int]);
                    assert(pm[(r * rho1 + t) as int] == pm[q]);
                } else {
                    let q2 = q - top;
                    assert(rho2 > 0) by (nonlinear_arith)
                        requires
                            0 <= q2 < self.n1 * rho2,
                    ;
                    lemma_split(rho2, q2);
                    let c = (q2 / rho2 as int) as nat;
                    let t = (q2 % rho2 as int) as nat;
                    assert(c < self.n1) by (nonlinear_arith)
                        requires
                            c * rho2 + t == q2,
                            q2 < self.n1 * rho2,
                            t >= 0,
                    ;
                    assert(in_kernel(h2, gather(x, self.col_positions(c)), self.n2 as nat));
                    assert(dot(h2[t as int], gather(x, self.col_positions(c)), self.n2 as nat) == zeros(h2.len())[t as int]);
                    assert(pm[(top + c * rho2 + t) as int] == pm[q]);
                }
            }
        }
    }
}

impl Rs2d {
    /// Build the product `RS[n1, k1] x RS[n2, k2]` over the default points.
    pub fn new(f: &Gf256, n1: usize, k1: usize, n2: usize, k2: usize) -> (code: Self)
        requires
            k1 <= n1 <= 255,
            k2 <= n2 <= 255,
        ensures
            code.wf(),
            code.n1 == n1,
            code.k1 == k1,
            code.n2 == n2,
            code.k2 == k2,
    {
        Rs2d { n1, k1, n2, k2, row_code: Grs::new(f, n1, k1), col_code: Grs::new(f, n2, k2) }
    }

    /// Code length `n = n1*n2`.
    pub fn n(&self) -> (r: usize)
        requires
            self.wf(),
        ensures
            r == self.len_spec(),
    {
        proof {
            assert(self.n1 * self.n2 <= 255 * 255) by (nonlinear_arith)
                requires
                    self.n1 <= 255,
                    self.n2 <= 255,
            ;
        }
        self.n1 * self.n2
    }

    /// Message length `k = k1*k2`.
    pub fn k(&self) -> (r: usize)
        requires
            self.wf(),
        ensures
            r == self.dim_spec(),
    {
        proof {
            assert(self.k1 * self.k2 <= 255 * 255) by (nonlinear_arith)
                requires
                    self.k1 <= 255,
                    self.k2 <= 255,
            ;
        }
        self.k1 * self.k2
    }

    /// Product-code minimum distance `d = d1*d2 = (n1-k1+1)*(n2-k2+1)`.
    pub fn d_formula(&self) -> (r: usize)
        requires
            self.wf(),
        ensures
            r == (self.n1 - self.k1 + 1) * (self.n2 - self.k2 + 1),
    {
        proof {
            assert((self.n1 - self.k1 + 1) * (self.n2 - self.k2 + 1) <= 256 * 256) by (nonlinear_arith)
                requires
                    self.k1 <= self.n1 <= 255,
                    self.k2 <= self.n2 <= 255,
            ;
        }
        (self.n1 - self.k1 + 1) * (self.n2 - self.k2 + 1)
    }

    /// Row-major grid index of `(r, c)`.
    fn idx(&self, r: usize, c: usize) -> (i: usize)
        requires
            self.wf(),
            r < self.n2,
            c < self.n1,
        ensures
            i == r * self.n1 + c,
            i < self.len_spec(),
    {
        proof {
            lemma_grid(self.n2 as nat, self.n1 as nat, r as nat, c as nat);
            assert(self.n1 * self.n2 <= 255 * 255) by (nonlinear_arith)
                requires
                    self.n1 <= 255,
                    self.n2 <= 255,
            ;
        }
        r * self.n1 + c
    }

    /// Systematic encode of a `k2 x k1` message (row-major) into the `n2 x n1` codeword
    /// grid: every row is a `C1` codeword, every column a `C2` codeword, and the top-left
    /// `k2 x k1` block is the message.
    pub fn encode(&self, f: &Gf256, message: &[u8]) -> (grid: Vec<u8>)
        requires
            self.wf(),
            message.len() == self.dim_spec(),
        ensures
            grid@.len() == self.len_spec(),
            forall|r: int, c: int|
                0 <= r < self.k2 && 0 <= c < self.k1 ==> #[trigger] grid@[r * self.n1 + c] == message@[r
                    * self.k1 + c],
            in_kernel(self.parity_matrix(), grid@, self.len_spec()),
    {
        let n1 = self.n1;
        let k1 = self.k1;
        let n2 = self.n2;
        let k2 = self.k2;
        let n = self.n();
        proof {
            lemma_grs_parity_independent(&self.row_code);
            lemma_grs_parity_independent(&self.col_code);
            assert(k2 * n1 <= n2 * n1) by (nonlinear_arith)
                requires
                    k2 <= n2,
            ;
            assert(n2 * n1 <= 255 * 255) by (nonlinear_arith)
                requires
                    n1 <= 255,
                    n2 <= 255,
            ;
            assert(n1 * n2 == n2 * n1) by (nonlinear_arith);
            assert(self.k1 * self.k2 <= 255 * 255) by (nonlinear_arith)
                requires
                    self.k1 <= 255,
                    self.k2 <= 255,
            ;
        }
        // Stage 1: RS-encode each of the k2 message rows to width n1.
        let mut rows_encoded: Vec<u8> = Vec::new();
        let ghost mut rws: Seq<Seq<u8>> = Seq::empty();
        let mut r: usize = 0;
        while r < k2
            invariant
                self.wf(),
                n1 == self.n1,
                k1 == self.k1,
                k2 == self.k2,
                n2 == self.n2,
                self.row_code.parity_independent(),
                message.len() == k1 * k2,
                r <= k2,
                rows_encoded@.len() == r * n1,
                rws.len() == r,
                forall|q: int| 0 <= q < r ==> #[trigger] self.row_code.is_codeword(rws[q]),
                forall|q: int| 0 <= q < r ==> (#[trigger] rws[q]).len() == n1,
                forall|q: int, c: int|
                    0 <= q < r && 0 <= c < k1 ==> #[trigger] rws[q][c] == message@[q * k1 + c],
                forall|q: int, c: int|
                    0 <= q < r && 0 <= c < n1 ==> #[trigger] rows_encoded@[q * n1 + c] == rws[q][c],
            decreases k2 - r,
        {
            proof {
                assert(r * k1 + k1 <= k1 * k2) by (nonlinear_arith)
                    requires
                        r < k2,
                ;
            }
            let mut data: Vec<u8> = Vec::new();
            let mut c: usize = 0;
            while c < k1
                invariant
                    c <= k1,
                    r < k2,
                    r * k1 + k1 <= k1 * k2,
                    message.len() == k1 * k2,
                    data@.len() == c,
                    forall|t: int| 0 <= t < c ==> #[trigger] data@[t] == message@[r * k1 + t],
                decreases k1 - c,
            {
                data.push(message[r * k1 + c]);
                c += 1;
            }
            let cw = self.row_code.encode_systematic(f, data.as_slice());
            let ghost base = rows_encoded@;
            let mut c: usize = 0;
            while c < n1
                invariant
                    c <= n1,
                    cw@.len() == n1,
                    rows_encoded@.len() == r * n1 + c,
                    rows_encoded@.subrange(0, (r * n1) as int) == base,
                    forall|t: int| 0 <= t < c ==> #[trigger] rows_encoded@[r * n1 + t] == cw@[t],
                decreases n1 - c,
            {
                rows_encoded.push(cw[c]);
                c += 1;
                proof {
                    assert(rows_encoded@.subrange(0, (r * n1) as int) =~= base);
                }
            }
            proof {
                let old_rws = rws;
                rws = rws.push(cw@);
                assert forall|q: int, c: int| 0 <= q < r + 1 && 0 <= c < k1 implies #[trigger] rws[q][c]
                    == message@[q * k1 + c] by {
                    if q == r {
                        assert(cw@.subrange(0, k1 as int)[c] == data@[c]);
                    } else {
                        assert(rws[q] == old_rws[q]);
                    }
                }
                assert forall|q: int, c: int| 0 <= q < r + 1 && 0 <= c < n1 implies #[trigger] rows_encoded@[q
                    * n1 + c] == rws[q][c] by {
                    if q < r {
                        lemma_grid(r as nat, n1 as nat, q as nat, c as nat);
                        assert(rows_encoded@[q * n1 + c] == rows_encoded@.subrange(0, (r * n1) as int)[q * n1 + c]);
                        assert(rws[q] == old_rws[q]);
                    }
                }
                assert(rows_encoded@.len() == (r + 1) * n1) by (nonlinear_arith)
                    requires
                        rows_encoded@.len() == r * n1 + n1,
                ;
            }
            r += 1;
        }
        // Stage 2: RS-encode each of the n1 columns (height k2) to height n2.
        let mut grid: Vec<u8> = vec![0u8; n];
        let ghost mut cws: Seq<Seq<u8>> = Seq::empty();
        let mut c: usize = 0;
        while c < n1
            invariant
                self.wf(),
                n1 == self.n1,
                k1 == self.k1,
                k2 == self.k2,
                n2 == self.n2,
                n == self.len_spec(),
                self.col_code.parity_independent(),
                c <= n1,
                grid@.len() == n,
                rows_encoded@.len() == k2 * n1,
                k2 * n1 <= n2 * n1,
                n2 * n1 <= 255 * 255,
                n == n2 * n1,
                cws.len() == c,
                forall|q: int| 0 <= q < c ==> #[trigger] self.col_code.is_codeword(cws[q]),
                forall|q: int| 0 <= q < c ==> (#[trigger] cws[q]).len() == n2,
                forall|q: int, t: int|
                    0 <= q < c && 0 <= t < k2 ==> #[trigger] cws[q][t] == rows_encoded@[t * n1 + q],
                forall|q: int, t: int|
                    0 <= q < c && 0 <= t < n2 ==> #[trigger] grid@[t * n1 + q] == cws[q][t],
            decreases n1 - c,
        {
            let mut col: Vec<u8> = Vec::new();
            let mut t: usize = 0;
            while t < k2
                invariant
                    t <= k2,
                    c < n1,
                    rows_encoded@.len() == k2 * n1,
                    k2 * n1 <= 255 * 255,
                    col@.len() == t,
                    forall|u: int| 0 <= u < t ==> #[trigger] col@[u] == rows_encoded@[u * n1 + c],
                decreases k2 - t,
            {
                proof {
                    lemma_grid(k2 as nat, n1 as nat, t as nat, c as nat);
                }
                col.push(rows_encoded[t * n1 + c]);
                t += 1;
            }
            let cw = self.col_code.encode_systematic(f, col.as_slice());
            let mut t: usize = 0;
            while t < n2
                invariant
                    self.wf(),
                    n1 == self.n1,
                    n2 == self.n2,
                    n == self.len_spec(),
                    n == n2 * n1,
                    t <= n2,
                    c < n1,
                    cw@.len() == n2,
                    grid@.len() == n,
                    cws.len() == c,
                    forall|u: int| 0 <= u < t ==> #[trigger] grid@[u * n1 + c] == cw@[u],
                    forall|q: int, u: int|
                        0 <= q < c && 0 <= u < n2 ==> #[trigger] grid@[u * n1 + q] == cws[q][u],
                decreases n2 - t,
            {
                let pos = self.idx(t, c);
                let ghost old_grid = grid@;
                grid.set(pos, cw[t]);
                proof {
                    assert forall|q: int, u: int| 0 <= q < c && 0 <= u < n2 implies #[trigger] grid@[u * n1 + q]
                        == cws[q][u] by {
                        lemma_grid(n2 as nat, n1 as nat, u as nat, q as nat);
                        if u * n1 + q == t * n1 + c {
                            lemma_grid_unique(n1 as nat, u as nat, q as nat, t as nat, c as nat);
                        }
                        assert(grid@[u * n1 + q] == old_grid[u * n1 + q]);
                    }
                    assert forall|u: int| 0 <= u < t + 1 implies #[trigger] grid@[u * n1 + c] == cw@[u] by {
                        lemma_grid(n2 as nat, n1 as nat, u as nat, c as nat);
                        if u < t {
                            if u * n1 + c == t * n1 + c {
                                lemma_grid_unique(n1 as nat, u as nat, c as nat, t as nat, c as nat);
                            }
                            assert(grid@[u * n1 + c] == old_grid[u * n1 + c]);
                        }
                    }
                }
                t += 1;
            }
            proof {
                let old_cws = cws;
                cws = cws.push(cw@);
                assert forall|q: int, t: int| 0 <= q < c + 1 && 0 <= t < k2 implies #[trigger] cws[q][t]
                    == rows_encoded@[t * n1 + q] by {
                    if q == c {
                        assert(cw@.subrange(0, k2 as int)[t] == col@[t]);
                    } else {
                        assert(cws[q] == old_cws[q]);
                    }
                }
                assert forall|q: int, t: int| 0 <= q < c + 1 && 0 <= t < n2 implies #[trigger] grid@[t * n1 + q]
                    == cws[q][t] by {
                    if q < c {
                        assert(cws[q] == old_cws[q]);
                    }
                }
            }
            c += 1;
        }
        proof {
            let h1 = self.row_code.hmat();
            let h2 = self.col_code.hmat();
            let gv = grid@;
            // columns are C2 codewords
            assert forall|c: nat| c < n1 implies #[trigger] in_kernel(h2, gather(gv, self.col_positions(c)), n2 as nat) by {
                assert(gather(gv, self.col_positions(c)) =~= cws[c as int]) by {
                    assert forall|t: int| 0 <= t < n2 implies gather(gv, self.col_positions(c))[t] == cws[c as int][t] by {
                        lemma_grid(n2 as nat, n1 as nat, t as nat, c);
                        assert(self.col_positions(c)[t] as int == t * n1 + c);
                    }
                }
                assert(self.col_code.is_codeword(cws[c as int]));
            }
            // rows are C1 codewords: each check of C1, applied across the columns, is a C2
            // codeword whose data part vanishes, hence zero.
            assert forall|r: nat| r < n2 implies #[trigger] in_kernel(h1, gather(gv, self.row_positions(r)), n1 as nat) by {
                let row = gather(gv, self.row_positions(r));
                assert forall|t: int| 0 <= t < h1.len() implies #[trigger] dot(h1[t], row, n1 as nat) == zeros(h1.len())[t] by {
                    let z = lincomb(cws, h1[t], n1 as nat, n2 as nat);
                    assert forall|i: int| 0 <= i < n1 implies #[trigger] in_kernel(h2, cws[i], n2 as nat) by {
                        assert(self.col_code.is_codeword(cws[i]));
                    }
                    lemma_lincomb_kernel(h2, cws, h1[t], n1 as nat, n2 as nat);
                    assert forall|u: int| 0 <= u < n2 implies #[trigger] z[u] == dot(h1[t], gather(gv, self.row_positions(u as nat)), n1 as nat) by {
                        assert(Seq::new(n1 as nat, |i: int| cws[i][u]) =~= gather(gv, self.row_positions(u as nat))) by {
                            assert forall|i: int| 0 <= i < n1 implies cws[i][u] == gather(gv, self.row_positions(u as nat))[i] by {
                                lemma_grid(n2 as nat, n1 as nat, u as nat, i as nat);
                                assert(self.row_positions(u as nat)[i] as int == u * n1 + i);
                            }
                        }
                    }
                    assert forall|u: int| 0 <= u < k2 implies z[u] == 0 by {
                        assert(gather(gv, self.row_positions(u as nat)) =~= rws[u]) by {
                            assert forall|i: int| 0 <= i < n1 implies gather(gv, self.row_positions(u as nat))[i] == rws[u][i] by {
                                lemma_grid(n2 as nat, n1 as nat, u as nat, i as nat);
                                assert(self.row_positions(u as nat)[i] as int == u * n1 + i);
                                assert(cws[i][u] == rows_encoded@[u * n1 + i]);
                            }
                        }
                        assert(self.row_code.is_codeword(rws[u]));
                        assert(dot(h1[t], rws[u], n1 as nat) == zeros(h1.len())[t]);
                    }
                    let zz = zeros(n2 as nat);
                    assert(in_kernel(h2, zz, n2 as nat)) by {
                        assert forall|q: int| 0 <= q < h2.len() implies #[trigger] dot(h2[q], zz, n2 as nat) == zeros(h2.len())[q] by {
                            assert forall|j: int| 0 <= j < n2 && j != -1 implies #[trigger] crate::gf256::gf_mul(h2[q][j], zz[j]) == 0 by {
                                crate::gf256::lemma_mul_zero(h2[q][j]);
                            }
                            crate::linalg::lemma_dot_single(h2[q], zz, n2 as nat, -1);
                        }
                    }
                    assert(z.subrange(0, k2 as int) =~= zz.subrange(0, k2 as int));
                    lemma_vander_systematic_unique(
                        self.col_code.points(),
                        self.col_code.offset(),
                        self.col_code.rho as nat,
                        k2 as nat,
                        z,
                        zz,
                    );
                    assert(z[r as int] == 0);
                }
            }
            self.lemma_parity_rows(gv);
            assert forall|r: int, c: int| 0 <= r < k2 && 0 <= c < k1 implies #[trigger] gv[r * n1 + c] == message@[r * k1 + c] by {
                lemma_grid(n2 as nat, n1 as nat, r as nat, c as nat);
                assert(cws[c][r] == rows_encoded@[r * n1 + c]);
                assert(rws[r][c] == message@[r * k1 + c]);
            }
        }
        grid
    }
}

impl Rs2d {
    /// The grid coordinates of row `r` (or, with `by_row == false`, of column `r`).
    fn line_positions(&self, r: usize, by_row: bool) -> (pos: Vec<usize>)
        requires
            self.wf(),
            by_row ==> r < self.n2,
            !by_row ==> r < self.n1,
        ensures
            by_row ==> pos@ == self.row_positions(r as nat),
            !by_row ==> pos@ == self.col_positions(r as nat),
    {
        let len = if by_row { self.n1 } else { self.n2 };
        let mut pos: Vec<usize> = Vec::new();
        let mut e: usize = 0;
        while e < len
            invariant
                self.wf(),
                by_row ==> r < self.n2,
                !by_row ==> r < self.n1,
                len == (if by_row { self.n1 } else { self.n2 }),
                e <= len,
                pos@.len() == e,
                forall|t: int| 0 <= t < e ==> #[trigger] pos@[t] == (if by_row {
                    (r * self.n1 + t) as usize
                } else {
                    (t * self.n1 + r) as usize
                }),
            decreases len - e,
        {
            let p = if by_row { self.idx(r, e) } else { self.idx(e, r) };
            pos.push(p);
            e += 1;
        }
        proof {
            if by_row {
                assert(pos@ =~= self.row_positions(r as nat));
            } else {
                assert(pos@ =~= self.col_positions(r as nat));
            }
        }
        pos
    }

    /// The product parity-check matrix: for every grid row the `n1 - k1` checks of `C1`
    /// across it, then for every grid column the `n2 - k2` checks of `C2` down it.
    pub fn parity_check(&self) -> (h: Vec<Vec<u8>>)
        requires
            self.wf(),
        ensures
            rows_view(h@) == self.parity_matrix(),
    {
        let n = self.n();
        let h1 = self.row_code.h();
        let h2 = self.col_code.h();
        let ghost pm = self.parity_matrix();
        let ghost rho1 = self.row_code.hmat().len();
        let ghost rho2 = self.col_code.hmat().len();
        let ghost top = (self.n2 * rho1) as nat;
        proof {
            assert(self.row_code.hmat() == vandermonde(self.row_code.points(), self.row_code.offset(), self.row_code.rho as nat));
            assert(self.col_code.hmat() == vandermonde(self.col_code.points(), self.col_code.offset(), self.col_code.rho as nat));
        }
        let mut h: Vec<Vec<u8>> = Vec::new();
        let mut r: usize = 0;
        while r < self.n2
            invariant
                self.wf(),
                n == self.len_spec(),
                pm == self.parity_matrix(),
                rows_view(h1@) == self.row_code.hmat(),
                rho1 == h1@.len(),
                rho1 == self.row_code.rho,
                top == self.n2 * rho1,
                r <= self.n2,
                h@.len() == r * rho1,
                forall|q: int| 0 <= q < h@.len() ==> #[trigger] h@[q]@ == pm[q],
            decreases self.n2 - r,
        {
            let pos = self.line_positions(r, true);
            proof {
                self.lemma_positions(r as nat, 0);
            }
            let mut t: usize = 0;
            while t < h1.len()
                invariant
                    self.wf(),
                    n == self.len_spec(),
                    pm == self.parity_matrix(),
                    rows_view(h1@) == self.row_code.hmat(),
                    rho1 == h1@.len(),
                    rho1 == self.row_code.rho,
                    top == self.n2 * rho1,
                    r < self.n2,
                    pos@ == self.row_positions(r as nat),
                    positions_ok(pos@, n as nat),
                    t <= rho1,
                    h@.len() == r * rho1 + t,
                    forall|q: int| 0 <= q < h@.len() ==> #[trigger] h@[q]@ == pm[q],
                decreases rho1 - t,
            {
                proof {
                    assert(rows_view(h1@)[t as int] == h1@[t as int]@);
                    assert(h1@[t as int]@.len() == self.n1);
                }
                let row = place(h1[t].as_slice(), pos.as_slice(), n);
                proof {
                    lemma_grid(self.n2 as nat, rho1, r as nat, t as nat);
                    vstd::arithmetic::div_mod::lemma_fundamental_div_mod_converse(
                        (r * rho1 + t) as int,
                        rho1 as int,
                        r as int,
                        t as int,
                    );
                    assert(row@ == pm[(r * rho1 + t) as int]);
                }
                h.push(row);
                t += 1;
            }
            r += 1;
            proof {
                assert(h@.len() == r * rho1) by (nonlinear_arith)
                    requires
                        h@.len() == (r - 1) * rho1 + rho1,
                ;
            }
        }
        let mut c: usize = 0;
        while c < self.n1
            invariant
                self.wf(),
                n == self.len_spec(),
                pm == self.parity_matrix(),
                rows_view(h2@) == self.col_code.hmat(),
                rho2 == h2@.len(),
                rho2 == self.col_code.rho,
                rho1 == self.row_code.hmat().len(),
                rho2 == self.col_code.hmat().len(),
                top == self.n2 * rho1,
                c <= self.n1,
                h@.len() == top + c * rho2,
                forall|q: int| 0 <= q < h@.len() ==> #[trigger] h@[q]@ == pm[q],
            decreases self.n1 - c,
        {
            let pos = self.line_positions(c, false);
            proof {
                self.lemma_positions(0, c as nat);
            }
            let mut t: usize = 0;
            while t < h2.len()
                invariant
                    self.wf(),
                    n == self.len_spec(),
                    pm == self.parity_matrix(),
                    rows_view(h2@) == self.col_code.hmat(),
                    rho2 == h2@.len(),
                    rho2 == self.col_code.rho,
                    rho1 == self.row_code.hmat().len(),
                    rho2 == self.col_code.hmat().len(),
                    top == self.n2 * rho1,
                    c < self.n1,
                    pos@ == self.col_positions(c as nat),
                    positions_ok(pos@, n as nat),
                    t <= rho2,
                    h@.len() == top + c * rho2 + t,
                    forall|q: int| 0 <= q < h@.len() ==> #[trigger] h@[q]@ == pm[q],
                decreases rho2 - t,
            {
                proof {
                    assert(rows_view(h2@)[t as int] == h2@[t as int]@);
                    assert(h2@[t as int]@.len() == self.n2);
                }
                let row = place(h2[t].as_slice(), pos.as_slice(), n);
                proof {
                    lemma_grid(self.n1 as nat, rho2, c as nat, t as nat);
                    vstd::arithmetic::div_mod::lemma_fundamental_div_mod_converse(
                        (c * rho2 + t) as int,
                        rho2 as int,
                        c as int,
                        t as int,
                    );
                    assert(row@ == pm[(top + c * rho2 + t) as int]);
                }
                h.push(row);
                t += 1;
            }
            c += 1;
            proof {
                assert(h@.len() == top + c * rho2) by (nonlinear_arith)
                    requires
                        h@.len() == top + (c - 1) * rho2 + rho2,
                ;
            }
        }
        proof {
            assert(h@.len() == pm.len());
            assert(rows_view(h@) =~= pm);
        }
        h
    }
}

impl Rs2d {
    /// Erasure recovery by Gaussian elimination on the product parity check: the unique
    /// codeword that agrees with `cw` outside `erased`, or `None` when the pattern is not
    /// correctable.
    pub fn recover(&self, f: &Gf256, cw: &[u8], erased: &[usize]) -> (r: Option<Vec<u8>>)
        requires
            self.wf(),
            cw.len() == self.len_spec(),
            forall|e: int| 0 <= e < erased.len() ==> #[trigger] erased[e] < self.len_spec(),
        ensures
            erased.len() == 0 ==> (r matches Some(c) && c@ == cw@),
            erased.len() > 0 ==> (r is Some <==> uniquely_recoverable(
                self.parity_matrix(),
                self.len_spec(),
                cw@,
                erased@,
            )),
            erased.len() > 0 ==> (r matches Some(c) ==> is_completion(
                self.parity_matrix(),
                self.len_spec(),
                cw@,
                erased@,
                c@,
            )),
    {
        if erased.len() == 0 {
            return Some(copy_bytes(cw));
        }
        let h = self.parity_check();
        let n = self.n();
        proof {
            let pm = self.parity_matrix();
            let h1 = self.row_code.hmat();
            let h2 = self.col_code.hmat();
            let rho1 = h1.len();
            let rho2 = h2.len();
            let top = (self.n2 * rho1) as nat;
            assert(h1 == vandermonde(self.row_code.points(), self.row_code.offset(), self.row_code.rho as nat));
            assert(h2 == vandermonde(self.col_code.points(), self.col_code.offset(), self.col_code.rho as nat));
            assert forall|q: int| 0 <= q < pm.len() implies #[trigger] pm[q].len() >= n by {
                if q < top {
                    assert(rho1 > 0) by (nonlinear_arith)
                        requires
                            0 <= q < self.n2 * rho1,
                    ;
                    lemma_split(rho1, q);
                    let r = (q / rho1 as int) as nat;
                    let t = (q % rho1 as int) as nat;
                    assert(r < self.n2) by (nonlinear_arith)
                        requires
                            r * rho1 + t == q,
                            q < self.n2 * rho1,
                            t >= 0,
                    ;
                    self.lemma_positions(r, 0);
                    lemma_scatter_entries(h1[t as int], self.row_positions(r), n as nat);
                } else {
                    let q2 = q - top;
                    assert(rho2 > 0) by (nonlinear_arith)
                        requires
                            0 <= q2 < self.n1 * rho2,
                    ;
                    lemma_split(rho2, q2);
                    let c = (q2 / rho2 as int) as nat;
                    let t = (q2 % rho2 as int) as nat;
                    assert(c < self.n1) by (nonlinear_arith)
                        requires
                            c * rho2 + t == q2,
                            q2 < self.n1 * rho2,
                            t >= 0,
                    ;
                    self.lemma_positions(0, c);
                    lemma_scatter_entries(h2[t as int], self.col_positions(c), n as nat);
                }
            }
        }
        recover_with(f, &h, n, cw, erased)
    }
}

/// A product codeword is determined by its top-left `k2 x k1` message block: two grids that
/// pass the product check and agree there are equal.
pub proof fn lemma_rs2d_systematic_unique(code: &Rs2d, g1: Seq<u8>, g2: Seq<u8>)
    requires
        code.wf(),
        g1.len() == code.len_spec(),
        g2.len() == code.len_spec(),
        in_kernel(code.parity_matrix(), g1, code.len_spec()),
        in_kernel(code.parity_matrix(), g2, code.len_spec()),
        forall|r: int, c: int|
            0 <= r < code.k2 && 0 <= c < code.k1 ==> #[trigger] g1[r * code.n1 + c] == g2[r
                * code.n1 + c],
    ensures
        g1 == g2,
{
    let n1 = code.n1 as nat;
    let n2 = code.n2 as nat;
    let k1 = code.k1 as nat;
    let k2 = code.k2 as nat;
    assert(n2 * n1 <= 255 * 255 && n1 * n2 == n2 * n1) by (nonlinear_arith)
        requires
            n1 <= 255,
            n2 <= 255,
    ;
    code.lemma_parity_rows(g1);
    code.lemma_parity_rows(g2);
    lemma_grs_parity_independent(&code.row_code);
    lemma_grs_parity_independent(&code.col_code);
    // The first k2 rows agree: they are C1 codewords with the same data.
    assert forall|r: int, c: int| 0 <= r < k2 && 0 <= c < n1 implies #[trigger] g1[r * n1 + c] == g2[r
        * n1 + c] by {
        let a = gather(g1, code.row_positions(r as nat));
        let b = gather(g2, code.row_positions(r as nat));
        assert(in_kernel(code.row_code.hmat(), a, n1));
        assert(in_kernel(code.row_code.hmat(), b, n1));
        assert(a.subrange(0, k1 as int) =~= b.subrange(0, k1 as int)) by {
            assert forall|j: int| 0 <= j < k1 implies a.subrange(0, k1 as int)[j] == b.subrange(
                0,
                k1 as int,
            )[j] by {
                lemma_grid(n2, n1, r as nat, j as nat);
                assert(code.row_positions(r as nat)[j] as int == r * n1 + j);
            }
        }
        crate::grs::lemma_systematic_unique(&code.row_code, a, b);
        lemma_grid(n2, n1, r as nat, c as nat);
        assert(code.row_positions(r as nat)[c] as int == r * n1 + c);
        assert(a[c] == b[c]);
    }
    // Every column then agrees on its first k2 entries, so it agrees everywhere.
    assert forall|p: int| 0 <= p < g1.len() implies g1[p] == g2[p] by {
        assert(n1 > 0) by (nonlinear_arith)
            requires
                0 <= p < n1 * n2,
        ;
        lemma_split(n1, p);
        let r = p / (n1 as int);
        let c = p % (n1 as int);
        assert(r < n2) by (nonlinear_arith)
            requires
                r * n1 + c == p,
                p < n1 * n2,
                c >= 0,
        ;
        let a = gather(g1, code.col_positions(c as nat));
        let b = gather(g2, code.col_positions(c as nat));
        assert(in_kernel(code.col_code.hmat(), a, n2));
        assert(in_kernel(code.col_code.hmat(), b, n2));
        assert(a.subrange(0, k2 as int) =~= b.subrange(0, k2 as int)) by {
            assert forall|j: int| 0 <= j < k2 implies a.subrange(0, k2 as int)[j] == b.subrange(
                0,
                k2 as int,
            )[j] by {
                lemma_grid(n2, n1, j as nat, c as nat);
                assert(code.col_positions(c as nat)[j] as int == j * n1 + c);
                assert(g1[j * n1 + c] == g2[j * n1 + c]);
            }
        }
        crate::grs::lemma_systematic_unique(&code.col_code, a, b);
        assert(code.col_positions(c as nat)[r] as int == r * n1 + c);
        assert(a[r] == b[r]);
    }
    assert(g1 =~= g2);
}

/// Sum of the weights of the first `r` rows (each of width `n1`) of a row-major grid.
pub open spec fn row_weight_sum(x: Seq<u8>, n1: nat, r: nat) -> nat
    decreases r,
{
    if r == 0 {
        0
    } else {
        let q = (r - 1) as nat;
        row_weight_sum(x, n1, q) + weight(x.subrange((q * n1) as int, (q * n1 + n1) as int), n1)
    }
}

proof fn lemma_weight_by_rows(x: Seq<u8>, n1: nat, r: nat)
    requires
        r * n1 <= x.len(),
    ensures
        weight(x, r * n1) == row_weight_sum(x, n1, r),
    decreases r,
{
    if r > 0 {
        let q = (r - 1) as nat;
        assert(q * n1 + n1 == r * n1) by (nonlinear_arith)
            requires
                q == r - 1,
        ;
        assert(q * n1 <= r * n1) by (nonlinear_arith)
            requires
                q == r - 1,
        ;
        lemma_weight_by_rows(x, n1, q);
        lemma_weight_concat(x, q * n1, n1);
        assert(weight(x, r * n1) == weight(x, q * n1 + n1));
    } else {
        assert(r * n1 == 0) by (nonlinear_arith)
            requires
                r == 0,
        ;
    }
}

impl Rs2d {
    /// The minimum distance of the product code, `d = (n1-k1+1)*(n2-k2+1)`.
    pub open spec fn distance_spec(&self) -> nat {
        ((self.n1 - self.k1 + 1) * (self.n2 - self.k2 + 1)) as nat
    }

    /// Each of the first `r` rows is either zero or a nonzero `C1` codeword of weight at
    /// least `n1 - k1 + 1`; a nonzero entry of column `c0` in a row makes that row nonzero.
    proof fn lemma_rows_dominate(&self, x: Seq<u8>, c0: nat, r: nat)
        requires
            self.wf(),
            x.len() == self.len_spec(),
            in_kernel(self.parity_matrix(), x, self.len_spec()),
            c0 < self.n1,
            r <= self.n2,
        ensures
            row_weight_sum(x, self.n1 as nat, r) >= (self.row_code.rho + 1) * weight(
                gather(x, self.col_positions(c0)),
                r,
            ),
        decreases r,
    {
        let n1 = self.n1 as nat;
        let col = gather(x, self.col_positions(c0));
        let d1 = self.row_code.rho + 1;
        if r > 0 {
            let q = (r - 1) as nat;
            self.lemma_rows_dominate(x, c0, q);
            let wq = weight(col, q);
            let ind: nat = if col[q as int] != 0 { 1 } else { 0 };
            assert(weight(col, r) == wq + ind);
            let row = gather(x, self.row_positions(q));
            lemma_grid(self.n2 as nat, n1, q, 0);
            assert(self.n1 * self.n2 <= 255 * 255 && self.n2 * self.n1 == self.n1 * self.n2) by (nonlinear_arith)
                requires
                    self.n1 <= 255,
                    self.n2 <= 255,
            ;
            assert(row =~= x.subrange((q * n1) as int, (q * n1 + n1) as int)) by {
                assert forall|j: int| 0 <= j < n1 implies row[j] == x.subrange((q * n1) as int, (q * n1 + n1) as int)[j] by {
                    lemma_grid(self.n2 as nat, n1, q, j as nat);
                    assert(self.row_positions(q)[j] as int == q * n1 + j);
                }
            }
            let rw = weight(row, n1);
            if col[q as int] != 0 {
                self.lemma_parity_rows(x);
                assert(in_kernel(self.row_code.hmat(), row, n1));
                lemma_grid(self.n2 as nat, n1, q, c0);
                assert(self.col_positions(c0)[q as int] as int == q * n1 + c0);
                assert(self.row_positions(q)[c0 as int] as int == q * n1 + c0);
                assert(row[c0 as int] == col[q as int]);
                assert(row != zeros(n1)) by {
                    assert(zeros(n1)[c0 as int] == 0);
                }
                lemma_vander_weight(
                    self.row_code.points(),
                    self.row_code.offset(),
                    self.row_code.rho as nat,
                    row,
                );
            }
            assert(row_weight_sum(x, n1, r) == row_weight_sum(x, n1, q) + rw);
            assert(ind == 1 ==> rw >= d1);
            assert(d1 * (wq + ind) == d1 * wq + d1 * ind) by (nonlinear_arith);
            assert(ind == 0 ==> d1 * ind == 0) by (nonlinear_arith);
            assert(ind == 1 ==> d1 * ind == d1) by (nonlinear_arith);
        } else {
            assert(d1 * weight(col, r) == 0) by (nonlinear_arith)
                requires
                    weight(col, r) == 0,
            ;
        }
    }

    /// The product code has minimum distance `d1 * d2`: every nonzero grid that passes the
    /// product check has at least `(n1-k1+1)*(n2-k2+1)` nonzero symbols.
    pub proof fn lemma_rs2d_weight(&self, x: Seq<u8>)
        requires
            self.wf(),
            x.len() == self.len_spec(),
            in_kernel(self.parity_matrix(), x, self.len_spec()),
            x != zeros(self.len_spec()),
        ensures
            weight(x, self.len_spec()) >= self.distance_spec(),
    {
        let n = self.len_spec();
        let n1 = self.n1 as nat;
        let n2 = self.n2 as nat;
        let p = choose|p: int| 0 <= p < n && x[p] != zeros(n)[p];
        assert(exists|p: int| 0 <= p < n && x[p] != zeros(n)[p]) by {
            if !(exists|p: int| 0 <= p < n && x[p] != zeros(n)[p]) {
                assert(x =~= zeros(n));
            }
        }
        assert(n1 > 0) by (nonlinear_arith)
            requires
                0 <= p < n1 * n2,
        ;
        lemma_split(n1, p);
        let r0 = (p / (n1 as int)) as nat;
        let c0 = (p % (n1 as int)) as nat;
        assert(r0 < n2) by (nonlinear_arith)
            requires
                r0 * n1 + c0 == p,
                p < n1 * n2,
        ;
        assert(self.n1 * self.n2 <= 255 * 255 && n2 * n1 == n1 * n2) by (nonlinear_arith)
            requires
                self.n1 <= 255,
                self.n2 <= 255,
        ;
        let col = gather(x, self.col_positions(c0));
        self.lemma_parity_rows(x);
        assert(in_kernel(self.col_code.hmat(), col, n2));
        assert(self.col_positions(c0)[r0 as int] as int == r0 * n1 + c0);
        assert(col[r0 as int] == x[p]);
        assert(col != zeros(n2)) by {
            assert(zeros(n2)[r0 as int] == 0);
            assert(zeros(n)[p] == 0);
        }
        lemma_vander_weight(self.col_code.points(), self.col_code.offset(), self.col_code.rho as nat, col);
        self.lemma_rows_dominate(x, c0, n2);
        lemma_weight_by_rows(x, n1, n2);
        let d1 = self.row_code.rho + 1;
        let d2 = self.col_code.rho + 1;
        let w = weight(col, n2);
        assert(d1 * w >= d1 * d2) by (nonlinear_arith)
            requires
                w >= d2,
                d1 >= 1,
        ;
    }

    /// No fewer than `d = (n1-k1+1)*(n2-k2+1)` columns of the product parity check are
    /// linearly dependent.
    pub proof fn lemma_rs2d_distance(&self)
        requires
            self.wf(),
        ensures
            forall|t: nat|
                1 <= t < self.distance_spec() ==> !#[trigger] has_dependent_set(
                    self.parity_matrix(),
                    self.len_spec(),
                    t,
                ),
    {
        let n = self.len_spec();
        let pm = self.parity_matrix();
        assert(self.n1 * self.n2 <= 255 * 255) by (nonlinear_arith)
            requires
                self.n1 <= 255,
                self.n2 <= 255,
        ;
        assert forall|x: Seq<u8>| #[trigger] in_kernel(pm, x, n) && x != zeros(n) implies weight(x, n)
            >= self.distance_spec() by {
            self.lemma_rs2d_weight(x);
        }
        lemma_dependent_sets_from_weight(pm, n, self.distance_spec());
    }
}

/// No data loss below the distance: if a product codeword loses fewer than
/// `d = (n1-k1+1)*(n2-k2+1)` distinct symbols, it is the only codeword agreeing with what
/// survives, so `Rs2d::recover` returns exactly it.
pub proof fn lemma_rs2d_recovers_below_distance(
    code: &Rs2d,
    grid: Seq<u8>,
    cw: Seq<u8>,
    erased: Seq<usize>,
)
    requires
        code.wf(),
        grid.len() == code.len_spec(),
        in_kernel(code.parity_matrix(), grid, code.len_spec()),
        agrees_outside(grid, cw, erased),
        positions_ok(erased, code.len_spec()),
        erased.len() < code.distance_spec(),
    ensures
        uniquely_recoverable(code.parity_matrix(), code.len_spec(), cw, erased),
        is_completion(code.parity_matrix(), code.len_spec(), cw, erased, grid),
{
    code.lemma_rs2d_distance();
    assert(code.n1 * code.n2 <= 255 * 255) by (nonlinear_arith)
        requires
            code.n1 <= 255,
            code.n2 <= 255,
    ;
    lemma_recover_below_distance(
        code.parity_matrix(),
        code.len_spec(),
        code.distance_spec(),
        grid,
        cw,
        erased,
    );
}

/// The grid `c2 (x) c1` with `n2` rows and `n1` columns: entry `(r, c)` is `c2[r] * c1[c]`.
pub open spec fn tensor(c1: Seq<u8>, c2: Seq<u8>, n1: nat, n2: nat) -> Seq<u8> {
    Seq::new(n1 * n2, |p: int| gf_mul(c2[p / (n1 as int)], c1[p % (n1 as int)]))
}

/// Scaling by a nonzero constant keeps the weight; scaling by zero clears it.
proof fn lemma_scaled_weight(k: u8, x: Seq<u8>, y: Seq<u8>, n: nat)
    requires
        forall|j: int| 0 <= j < n ==> #[trigger] y[j] == gf_mul(k, x[j]),
    ensures
        weight(y, n) == (if k != 0 { weight(x, n) } else { 0 }),
    decreases n,
{
    if n > 0 {
        lemma_scaled_weight(k, x, y, (n - 1) as nat);
        lemma_no_zero_divisors(k, x[n - 1]);
    }
}

impl Rs2d {
    proof fn lemma_tensor_entry(&self, c1: Seq<u8>, c2: Seq<u8>, r: nat, c: nat)
        requires
            self.wf(),
            r < self.n2,
            c < self.n1,
        ensures
            (r * self.n1 + c) < self.len_spec(),
            tensor(c1, c2, self.n1 as nat, self.n2 as nat)[r * self.n1 + c] == gf_mul(c2[r as int], c1[c as int]),
    {
        lemma_grid(self.n2 as nat, self.n1 as nat, r, c);
        assert(self.n2 * self.n1 == self.n1 * self.n2) by (nonlinear_arith);
        vstd::arithmetic::div_mod::lemma_fundamental_div_mod_converse(
            (r * self.n1 + c) as int,
            self.n1 as int,
            r as int,
            c as int,
        );
    }

    /// The tensor of a `C1` codeword and a `C2` codeword is a product codeword of weight
    /// `wt(c1) * wt(c2)`.
    proof fn lemma_tensor_codeword(&self, c1: Seq<u8>, c2: Seq<u8>)
        requires
            self.wf(),
            c1.len() == self.n1,
            c2.len() == self.n2,
            in_kernel(self.row_code.hmat(), c1, self.n1 as nat),
            in_kernel(self.col_code.hmat(), c2, self.n2 as nat),
        ensures
            in_kernel(self.parity_matrix(), tensor(c1, c2, self.n1 as nat, self.n2 as nat), self.len_spec()),
            weight(tensor(c1, c2, self.n1 as nat, self.n2 as nat), self.len_spec()) == weight(c1, self.n1 as nat)
                * weight(c2, self.n2 as nat),
    {
        let n1 = self.n1 as nat;
        let n2 = self.n2 as nat;
        let t = tensor(c1, c2, n1, n2);
        let h1 = self.row_code.hmat();
        let h2 = self.col_code.hmat();
        assert(n1 * n2 <= 255 * 255 && n2 * n1 == n1 * n2) by (nonlinear_arith)
            requires
                n1 <= 255,
                n2 <= 255,
        ;
        // every row is a multiple of c1, every column a multiple of c2
        assert forall|r: nat| r < n2 implies #[trigger] in_kernel(h1, gather(t, self.row_positions(r)), n1) by {
            let row = gather(t, self.row_positions(r));
            assert forall|j: int| 0 <= j < n1 implies #[trigger] row[j] == gf_mul(c1[j], c2[r as int]) by {
                self.lemma_tensor_entry(c1, c2, r, j as nat);
                assert(self.row_positions(r)[j] as int == r * n1 + j);
                lemma_mul_comm(c2[r as int], c1[j]);
            }
            assert forall|q: int| 0 <= q < h1.len() implies #[trigger] dot(h1[q], row, n1) == zeros(h1.len())[q] by {
                lemma_dot_scale(c1, row, c2[r as int], h1[q], n1);
                lemma_dot_comm(h1[q], row, n1);
                lemma_dot_comm(h1[q], c1, n1);
                assert(dot(h1[q], c1, n1) == zeros(h1.len())[q]);
                lemma_mul_zero(c2[r as int]);
            }
        }
        assert forall|c: nat| c < n1 implies #[trigger] in_kernel(h2, gather(t, self.col_positions(c)), n2) by {
            let col = gather(t, self.col_positions(c));
            assert forall|j: int| 0 <= j < n2 implies #[trigger] col[j] == gf_mul(c2[j], c1[c as int]) by {
                self.lemma_tensor_entry(c1, c2, j as nat, c);
                assert(self.col_positions(c)[j] as int == j * n1 + c);
            }
            assert forall|q: int| 0 <= q < h2.len() implies #[trigger] dot(h2[q], col, n2) == zeros(h2.len())[q] by {
                lemma_dot_scale(c2, col, c1[c as int], h2[q], n2);
                lemma_dot_comm(h2[q], col, n2);
                lemma_dot_comm(h2[q], c2, n2);
                assert(dot(h2[q], c2, n2) == zeros(h2.len())[q]);
                lemma_mul_zero(c1[c as int]);
            }
        }
        self.lemma_parity_rows(t);
        // weight: row r contributes wt(c1) when c2[r] != 0
        self.lemma_tensor_rows(c1, c2, n2);
        lemma_weight_by_rows(t, n1, n2);
    }

    proof fn lemma_tensor_rows(&self, c1: Seq<u8>, c2: Seq<u8>, r: nat)
        requires
            self.wf(),
            c1.len() == self.n1,
            r <= self.n2,
        ensures
            row_weight_sum(tensor(c1, c2, self.n1 as nat, self.n2 as nat), self.n1 as nat, r) == weight(
                c1,
                self.n1 as nat,
            ) * weight(c2, r),
        decreases r,
    {
        let n1 = self.n1 as nat;
        let t = tensor(c1, c2, n1, self.n2 as nat);
        let w1 = weight(c1, n1);
        if r > 0 {
            let q = (r - 1) as nat;
            self.lemma_tensor_rows(c1, c2, q);
            assert(self.n1 * self.n2 <= 255 * 255 && self.n2 * self.n1 == self.n1 * self.n2) by (nonlinear_arith)
                requires
                    self.n1 <= 255,
                    self.n2 <= 255,
            ;
            if n1 > 0 {
                lemma_grid(self.n2 as nat, n1, q, (n1 - 1) as nat);
            }
            assert(q * n1 + n1 <= self.n2 * n1) by (nonlinear_arith)
                requires
                    q < self.n2,
            ;
            let row = t.subrange((q * n1) as int, (q * n1 + n1) as int);
            assert forall|j: int| 0 <= j < n1 implies #[trigger] row[j] == gf_mul(c2[q as int], c1[j]) by {
                self.lemma_tensor_entry(c1, c2, q, j as nat);
            }
            lemma_scaled_weight(c2[q as int], c1, row, n1);
            let ind: nat = if c2[q as int] != 0 { 1 } else { 0 };
            assert(weight(c2, r) == weight(c2, q) + ind);
            assert(w1 * (weight(c2, q) + ind) == w1 * weight(c2, q) + w1 * ind) by (nonlinear_arith);
            assert(ind == 0 ==> w1 * ind == 0) by (nonlinear_arith);
            assert(ind == 1 ==> w1 * ind == w1) by (nonlinear_arith);
        } else {
            assert(w1 * weight(c2, 0) == 0) by (nonlinear_arith)
                requires
                    weight(c2, 0) == 0,
            ;
        }
    }
}

/// The product code's minimum distance is exactly `d = (n1-k1+1)*(n2-k2+1)` (when both
/// component codes carry data): no fewer than `d` columns of the product check are
/// dependent, and some `d` are (the support of the tensor of two minimum-weight codewords).
pub proof fn lemma_rs2d_distance_exact(code: &Rs2d)
    requires
        code.wf(),
        code.k1 >= 1,
        code.k2 >= 1,
    ensures
        forall|t: nat|
            1 <= t < code.distance_spec() ==> !#[trigger] has_dependent_set(
                code.parity_matrix(),
                code.len_spec(),
                t,
            ),
        has_dependent_set(code.parity_matrix(), code.len_spec(), code.distance_spec()),
{
    code.lemma_rs2d_distance();
    let n = code.len_spec();
    let pm = code.parity_matrix();
    let c1 = lemma_vander_min_weight_codeword(
        code.row_code.points(),
        code.row_code.offset(),
        code.row_code.rho as nat,
    );
    let c2 = lemma_vander_min_weight_codeword(
        code.col_code.points(),
        code.col_code.offset(),
        code.col_code.rho as nat,
    );
    assert(code.row_code.hmat() == vandermonde(code.row_code.points(), code.row_code.offset(), code.row_code.rho as nat));
    assert(code.col_code.hmat() == vandermonde(code.col_code.points(), code.col_code.offset(), code.col_code.rho as nat));
    code.lemma_tensor_codeword(c1, c2);
    let t = tensor(c1, c2, code.n1 as nat, code.n2 as nat);
    assert(code.n1 * code.n2 <= 255 * 255) by (nonlinear_arith)
        requires
            code.n1 <= 255,
            code.n2 <= 255,
    ;
    let d = code.distance_spec();
    assert(d >= 1) by (nonlinear_arith)
        requires
            d == (code.n1 - code.k1 + 1) * (code.n2 - code.k2 + 1),
            code.k1 <= code.n1,
            code.k2 <= code.n2,
    ;
    assert(t != zeros(n)) by {
        if t == zeros(n) {
            lemma_weight_zeros(n);
        }
    }
    lemma_dependent_set_from_codeword(pm, n, t);
}

} // verus!
