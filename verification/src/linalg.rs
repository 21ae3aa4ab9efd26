//! Linear algebra over GF(2^8): dot products, linear systems and their solution sets.
//!
//! A matrix is a sequence of rows; only the first `cols` entries of each row take part.
//! These definitions are the model against which Gaussian elimination in `grs` is proved.

use vstd::prelude::*;
use crate::gf256::{
    gf_mul, lemma_inverse_exists, lemma_mul_assoc, lemma_mul_cancel, lemma_mul_comm,
    lemma_mul_distrib, lemma_mul_distrib_left, lemma_mul_one, lemma_mul_zero,
};

verus! {

/// The rows of a `Vec<Vec<u8>>`, each as a sequence.
pub open spec fn rows_view(a: Seq<Vec<u8>>) -> Seq<Seq<u8>> {
    a.map_values(|r: Vec<u8>| r@)
}

/// The all-zero vector of length `n`.
pub open spec fn zeros(n: nat) -> Seq<u8> {
    Seq::new(n, |i: int| 0u8)
}

/// Pointwise sum (XOR) of two vectors of length `n`.
pub open spec fn vadd(x: Seq<u8>, z: Seq<u8>, n: nat) -> Seq<u8> {
    Seq::new(n, |i: int| x[i] ^ z[i])
}

/// `sum_{j < n} row[j] * x[j]` over GF(2^8).
pub open spec fn dot(row: Seq<u8>, x: Seq<u8>, n: nat) -> u8
    decreases n,
{
    if n == 0 {
        0
    } else {
        dot(row, x, (n - 1) as nat) ^ gf_mul(row[n - 1], x[n - 1])
    }
}

/// `x` (of length `cols`) solves `a x = b`, using the first `cols` columns of `a`.
pub open spec fn is_solution(a: Seq<Seq<u8>>, b: Seq<u8>, x: Seq<u8>, cols: nat) -> bool {
    &&& x.len() == cols
    &&& forall|r: int| 0 <= r < a.len() ==> #[trigger] dot(a[r], x, cols) == b[r]
}

/// `a x = b` has exactly one solution.
pub open spec fn has_unique_solution(a: Seq<Seq<u8>>, b: Seq<u8>, cols: nat) -> bool {
    exists|x: Seq<u8>|
        #[trigger] is_solution(a, b, x, cols) && forall|y: Seq<u8>|
            #[trigger] is_solution(a, b, y, cols) ==> y == x
}

/// `x` lies in the kernel of `a` (first `cols` columns).
pub open spec fn in_kernel(a: Seq<Seq<u8>>, x: Seq<u8>, cols: nat) -> bool {
    is_solution(a, zeros(a.len()), x, cols)
}

/// The first `cols` columns of `a` are linearly independent: only the zero vector is
/// in the kernel.
pub open spec fn kernel_trivial(a: Seq<Seq<u8>>, cols: nat) -> bool {
    forall|x: Seq<u8>| #[trigger] in_kernel(a, x, cols) ==> x == zeros(cols)
}

/// Two systems have the same solutions.
pub open spec fn same_solutions(
    a: Seq<Seq<u8>>,
    b: Seq<u8>,
    a2: Seq<Seq<u8>>,
    b2: Seq<u8>,
    cols: nat,
) -> bool {
    forall|x: Seq<u8>| #[trigger] is_solution(a, b, x, cols) <==> is_solution(a2, b2, x, cols)
}

/// Every row has at least `cols` entries.
pub open spec fn wide_enough(a: Seq<Seq<u8>>, cols: nat) -> bool {
    forall|r: int| 0 <= r < a.len() ==> #[trigger] a[r].len() >= cols
}

// ---------------------------------------------------------------------------
// XOR facts.
// ---------------------------------------------------------------------------

pub proof fn lemma_xor_facts(a: u8, b: u8, c: u8, d: u8)
    ensures
        a ^ 0 == a,
        0 ^ a == a,
        a ^ a == 0,
        a ^ b == b ^ a,
        (a ^ b) ^ c == a ^ (b ^ c),
        (a ^ b) ^ (c ^ d) == (a ^ c) ^ (b ^ d),
        (a ^ b == c) <==> (a == b ^ c),
        (a ^ b == 0) <==> (a == b),
{
    assert(a ^ 0 == a) by (bit_vector);
    assert(0 ^ a == a) by (bit_vector);
    assert(a ^ a == 0) by (bit_vector);
    assert(a ^ b == b ^ a) by (bit_vector);
    assert((a ^ b) ^ c == a ^ (b ^ c)) by (bit_vector);
    assert((a ^ b) ^ (c ^ d) == (a ^ c) ^ (b ^ d)) by (bit_vector);
    assert((a ^ b == c) <==> (a == b ^ c)) by (bit_vector);
    assert((a ^ b == 0) <==> (a == b)) by (bit_vector);
}

// ---------------------------------------------------------------------------
// Dot-product lemmas.
// ---------------------------------------------------------------------------

/// The dot product sees only the first `n` entries.
pub proof fn lemma_dot_ext(r1: Seq<u8>, x1: Seq<u8>, r2: Seq<u8>, x2: Seq<u8>, n: nat)
    requires
        forall|j: int| 0 <= j < n ==> r1[j] == r2[j] && x1[j] == x2[j],
    ensures
        dot(r1, x1, n) == dot(r2, x2, n),
    decreases n,
{
    if n > 0 {
        lemma_dot_ext(r1, x1, r2, x2, (n - 1) as nat);
    }
}

/// Row combination: `dot(r1 + k*r2, x) == dot(r1, x) + k * dot(r2, x)`.
pub proof fn lemma_dot_combine(r1: Seq<u8>, r2: Seq<u8>, r3: Seq<u8>, k: u8, x: Seq<u8>, n: nat)
    requires
        forall|j: int| 0 <= j < n ==> #[trigger] r3[j] == r1[j] ^ gf_mul(k, r2[j]),
    ensures
        dot(r3, x, n) == dot(r1, x, n) ^ gf_mul(k, dot(r2, x, n)),
    decreases n,
{
    if n == 0 {
        lemma_mul_zero(k);
        lemma_xor_facts(0, 0, 0, 0);
    } else {
        let m = (n - 1) as nat;
        lemma_dot_combine(r1, r2, r3, k, x, m);
        let j = m as int;
        lemma_mul_distrib_left(r1[j], gf_mul(k, r2[j]), x[j]);
        lemma_mul_assoc(k, r2[j], x[j]);
        lemma_mul_distrib(k, dot(r2, x, m), gf_mul(r2[j], x[j]));
        lemma_xor_facts(
            dot(r1, x, m),
            gf_mul(k, dot(r2, x, m)),
            gf_mul(r1[j], x[j]),
            gf_mul(k, gf_mul(r2[j], x[j])),
        );
    }
}

/// Row scaling: `dot(k*r, x) == k * dot(r, x)`.
pub proof fn lemma_dot_scale(r1: Seq<u8>, r2: Seq<u8>, k: u8, x: Seq<u8>, n: nat)
    requires
        forall|j: int| 0 <= j < n ==> #[trigger] r2[j] == gf_mul(r1[j], k),
    ensures
        dot(r2, x, n) == gf_mul(k, dot(r1, x, n)),
    decreases n,
{
    if n == 0 {
        lemma_mul_zero(k);
    } else {
        let m = (n - 1) as nat;
        lemma_dot_scale(r1, r2, k, x, m);
        let j = m as int;
        lemma_mul_comm(r1[j], k);
        lemma_mul_assoc(k, r1[j], x[j]);
        lemma_mul_distrib(k, dot(r1, x, m), gf_mul(r1[j], x[j]));
    }
}

/// Linearity in the vector: `dot(r, x + z) == dot(r, x) + dot(r, z)`.
pub proof fn lemma_dot_vadd(r: Seq<u8>, x: Seq<u8>, z: Seq<u8>, w: Seq<u8>, n: nat)
    requires
        forall|j: int| 0 <= j < n ==> #[trigger] w[j] == x[j] ^ z[j],
    ensures
        dot(r, w, n) == dot(r, x, n) ^ dot(r, z, n),
    decreases n,
{
    if n == 0 {
        lemma_xor_facts(0, 0, 0, 0);
    } else {
        let m = (n - 1) as nat;
        lemma_dot_vadd(r, x, z, w, m);
        let j = m as int;
        lemma_mul_distrib(r[j], x[j], z[j]);
        lemma_xor_facts(dot(r, x, m), dot(r, z, m), gf_mul(r[j], x[j]), gf_mul(r[j], z[j]));
    }
}

/// A dot product whose terms vanish except at index `i` equals that term.
pub proof fn lemma_dot_single(r: Seq<u8>, x: Seq<u8>, n: nat, i: int)
    requires
        forall|j: int| 0 <= j < n && j != i ==> #[trigger] gf_mul(r[j], x[j]) == 0,
    ensures
        dot(r, x, n) == (if 0 <= i < n {
            gf_mul(r[i], x[i])
        } else {
            0u8
        }),
    decreases n,
{
    if n > 0 {
        let m = (n - 1) as nat;
        lemma_dot_single(r, x, m, i);
        lemma_xor_facts(dot(r, x, m), gf_mul(r[m as int], x[m as int]), 0, 0);
        lemma_xor_facts(gf_mul(r[m as int], x[m as int]), 0, 0, 0);
    }
}

/// A dot product whose terms vanish except at two indices with equal terms is zero.
pub proof fn lemma_dot_pair(r: Seq<u8>, x: Seq<u8>, n: nat, i1: int, i2: int)
    requires
        0 <= i1 < n,
        0 <= i2 < n,
        i1 != i2,
        gf_mul(r[i1], x[i1]) == gf_mul(r[i2], x[i2]),
        forall|j: int| 0 <= j < n && j != i1 && j != i2 ==> #[trigger] gf_mul(r[j], x[j]) == 0,
    ensures
        dot(r, x, n) == 0,
    decreases n,
{
    let m = (n - 1) as nat;
    let t = gf_mul(r[m as int], x[m as int]);
    if m as int == i1 {
        lemma_dot_single(r, x, m, i2);
        lemma_xor_facts(t, 0, 0, 0);
    } else if m as int == i2 {
        lemma_dot_single(r, x, m, i1);
        lemma_xor_facts(t, 0, 0, 0);
    } else {
        lemma_dot_pair(r, x, m, i1, i2);
        lemma_xor_facts(0, 0, 0, 0);
    }
}

// ---------------------------------------------------------------------------
// Elementary row operations preserve the solution set.
// ---------------------------------------------------------------------------

/// Exchanging two equations.
pub proof fn lemma_swap_rows(a: Seq<Seq<u8>>, b: Seq<u8>, i: int, j: int, cols: nat)
    requires
        0 <= i < a.len(),
        0 <= j < a.len(),
        a.len() == b.len(),
    ensures
        same_solutions(
            a,
            b,
            a.update(i, a[j]).update(j, a[i]),
            b.update(i, b[j]).update(j, b[i]),
            cols,
        ),
{
    let a2 = a.update(i, a[j]).update(j, a[i]);
    let b2 = b.update(i, b[j]).update(j, b[i]);
    assert forall|x: Seq<u8>| #[trigger] is_solution(a, b, x, cols) <==> is_solution(
        a2,
        b2,
        x,
        cols,
    ) by {
        if is_solution(a, b, x, cols) {
            assert forall|r: int| 0 <= r < a2.len() implies #[trigger] dot(a2[r], x, cols)
                == b2[r] by {
                if r == j {
                    assert(dot(a[i], x, cols) == b[i]);
                } else if r == i {
                    assert(dot(a[j], x, cols) == b[j]);
                } else {
                    assert(dot(a[r], x, cols) == b[r]);
                }
            }
        }
        if is_solution(a2, b2, x, cols) {
            assert forall|r: int| 0 <= r < a.len() implies #[trigger] dot(a[r], x, cols)
                == b[r] by {
                if r == j {
                    assert(dot(a2[i], x, cols) == b2[i]);
                } else if r == i {
                    assert(dot(a2[j], x, cols) == b2[j]);
                } else {
                    assert(dot(a2[r], x, cols) == b2[r]);
                }
            }
        }
    }
}

/// Multiplying one equation by a nonzero constant.
pub proof fn lemma_scale_row(
    a: Seq<Seq<u8>>,
    b: Seq<u8>,
    p: int,
    row: Seq<u8>,
    k: u8,
    cols: nat,
)
    requires
        0 <= p < a.len(),
        a.len() == b.len(),
        k != 0,
        forall|c: int| 0 <= c < cols ==> #[trigger] row[c] == gf_mul(a[p][c], k),
    ensures
        same_solutions(a, b, a.update(p, row), b.update(p, gf_mul(b[p], k)), cols),
{
    let a2 = a.update(p, row);
    let b2 = b.update(p, gf_mul(b[p], k));
    assert forall|x: Seq<u8>| #[trigger] is_solution(a, b, x, cols) <==> is_solution(
        a2,
        b2,
        x,
        cols,
    ) by {
        lemma_dot_scale(a[p], row, k, x, cols);
        lemma_mul_comm(b[p], k);
        if dot(row, x, cols) == b2[p] {
            lemma_mul_cancel(k, dot(a[p], x, cols), b[p]);
        }
        if is_solution(a, b, x, cols) {
            assert forall|r: int| 0 <= r < a2.len() implies #[trigger] dot(a2[r], x, cols)
                == b2[r] by {
                assert(dot(a[r], x, cols) == b[r]);
            }
        }
        if is_solution(a2, b2, x, cols) {
            assert forall|r: int| 0 <= r < a.len() implies #[trigger] dot(a[r], x, cols)
                == b[r] by {
                assert(dot(a2[r], x, cols) == b2[r]);
            }
        }
    }
}

/// Adding a multiple of equation `p` to a different equation `r`.
pub proof fn lemma_combine_rows(
    a: Seq<Seq<u8>>,
    b: Seq<u8>,
    r: int,
    p: int,
    row: Seq<u8>,
    k: u8,
    cols: nat,
)
    requires
        0 <= p < a.len(),
        0 <= r < a.len(),
        r != p,
        a.len() == b.len(),
        forall|c: int| 0 <= c < cols ==> #[trigger] row[c] == a[r][c] ^ gf_mul(k, a[p][c]),
    ensures
        same_solutions(a, b, a.update(r, row), b.update(r, b[r] ^ gf_mul(k, b[p])), cols),
{
    let a2 = a.update(r, row);
    let b2 = b.update(r, b[r] ^ gf_mul(k, b[p]));
    assert forall|x: Seq<u8>| #[trigger] is_solution(a, b, x, cols) <==> is_solution(
        a2,
        b2,
        x,
        cols,
    ) by {
        lemma_dot_combine(a[r], a[p], row, k, x, cols);
        let dr = dot(a[r], x, cols);
        let dp = dot(a[p], x, cols);
        if is_solution(a, b, x, cols) {
            assert(dr == b[r] && dp == b[p]);
            assert forall|q: int| 0 <= q < a2.len() implies #[trigger] dot(a2[q], x, cols)
                == b2[q] by {
                assert(dot(a[q], x, cols) == b[q]);
            }
        }
        if is_solution(a2, b2, x, cols) {
            assert(dot(a2[p], x, cols) == b2[p]);
            assert(dp == b[p]);
            assert(dot(a2[r], x, cols) == b2[r]);
            lemma_xor_facts(dr, gf_mul(k, dp), b[r], 0);
            assert((dr ^ gf_mul(k, dp)) ^ gf_mul(k, dp) == dr ^ (gf_mul(k, dp) ^ gf_mul(k, dp)))
                by {
                lemma_xor_facts(dr, gf_mul(k, dp), gf_mul(k, dp), 0);
            }
            lemma_xor_facts(gf_mul(k, dp), 0, 0, 0);
            lemma_xor_facts(dr, 0, 0, 0);
            lemma_xor_facts(b[r], gf_mul(k, dp), gf_mul(k, dp), 0);
            lemma_xor_facts(b[r], 0, 0, 0);
            assert forall|q: int| 0 <= q < a.len() implies #[trigger] dot(a[q], x, cols)
                == b[q] by {
                assert(dot(a2[q], x, cols) == b2[q]);
            }
        }
    }
}

/// A system that has a solution `x` and a nonzero kernel vector `z` has no unique solution.
pub proof fn lemma_not_unique(a: Seq<Seq<u8>>, b: Seq<u8>, z: Seq<u8>, cols: nat)
    requires
        in_kernel(a, z, cols),
        z != zeros(cols),
        a.len() == b.len(),
    ensures
        !has_unique_solution(a, b, cols),
{
    if has_unique_solution(a, b, cols) {
        let x = choose|x: Seq<u8>|
            #[trigger] is_solution(a, b, x, cols) && forall|y: Seq<u8>|
                #[trigger] is_solution(a, b, y, cols) ==> y == x;
        let y = vadd(x, z, cols);
        assert forall|r: int| 0 <= r < a.len() implies #[trigger] dot(a[r], y, cols) == b[r] by {
            lemma_dot_vadd(a[r], x, z, y, cols);
            assert(dot(a[r], x, cols) == b[r]);
            assert(dot(a[r], z, cols) == zeros(a.len())[r]);
            lemma_xor_facts(b[r], 0, 0, 0);
        }
        assert(is_solution(a, b, y, cols));
        assert(y == x);
        assert forall|j: int| 0 <= j < cols implies z[j] == zeros(cols)[j] by {
            assert(y[j] == x[j]);
            lemma_xor_facts(x[j], z[j], x[j], 0);
            lemma_xor_facts(x[j], 0, 0, 0);
            assert(x[j] ^ z[j] == x[j]);
            assert((x[j] ^ z[j] == x[j]) <==> (x[j] == z[j] ^ x[j]));
            lemma_xor_facts(z[j], x[j], 0, 0);
            assert(z[j] ^ x[j] == x[j] ^ z[j]);
            assert(z[j] ^ x[j] == x[j]);
            lemma_xor_facts(z[j], x[j], x[j], 0);
            assert((z[j] ^ x[j]) ^ x[j] == z[j] ^ (x[j] ^ x[j]));
            lemma_xor_facts(z[j], 0, 0, 0);
        }
        assert(z =~= zeros(cols));
    }
}

/// Having the same solutions is transitive.
pub proof fn lemma_same_solutions_trans(
    a1: Seq<Seq<u8>>,
    b1: Seq<u8>,
    a2: Seq<Seq<u8>>,
    b2: Seq<u8>,
    a3: Seq<Seq<u8>>,
    b3: Seq<u8>,
    cols: nat,
)
    requires
        same_solutions(a1, b1, a2, b2, cols),
        same_solutions(a2, b2, a3, b3, cols),
    ensures
        same_solutions(a1, b1, a3, b3, cols),
{
    assert forall|x: Seq<u8>| #[trigger] is_solution(a1, b1, x, cols) <==> is_solution(
        a3,
        b3,
        x,
        cols,
    ) by {
        assert(is_solution(a1, b1, x, cols) <==> is_solution(a2, b2, x, cols));
        assert(is_solution(a2, b2, x, cols) <==> is_solution(a3, b3, x, cols));
    }
}

// ---------------------------------------------------------------------------
// Column subsets and supports.
// ---------------------------------------------------------------------------

/// The columns `idx[0], idx[1], ...` of `h`, in that order.
pub open spec fn gather_cols(h: Seq<Seq<u8>>, idx: Seq<usize>) -> Seq<Seq<u8>> {
    Seq::new(h.len(), |i: int| Seq::new(idx.len(), |e: int| h[i][idx[e] as int]))
}

/// The length-`n` vector holding `y[e]` at position `idx[e]` and zero elsewhere.
pub open spec fn scatter(y: Seq<u8>, idx: Seq<usize>, n: nat) -> Seq<u8>
    decreases idx.len(),
{
    if idx.len() == 0 {
        zeros(n)
    } else {
        scatter(y.drop_last(), idx.drop_last(), n).update(idx.last() as int, y[idx.len() - 1])
    }
}

/// Build `scatter(y, idx, n)`: a zero vector of length `n` with `y[e]` written at `idx[e]`.
pub(crate) fn place(y: &[u8], idx: &[usize], n: usize) -> (row: Vec<u8>)
    requires
        positions_ok(idx@, n as nat),
        y.len() == idx.len(),
    ensures
        row@ == scatter(y@, idx@, n as nat),
{
    let mut row: Vec<u8> = vec![0u8; n];
    let mut c: usize = 0;
    assert(row@ =~= scatter(y@.subrange(0, 0), idx@.subrange(0, 0), n as nat));
    while c < idx.len()
        invariant
            c <= idx.len(),
            y.len() == idx.len(),
            positions_ok(idx@, n as nat),
            row@.len() == n,
            row@ == scatter(y@.subrange(0, c as int), idx@.subrange(0, c as int), n as nat),
        decreases idx.len() - c,
    {
        row.set(idx[c], y[c]);
        c += 1;
        proof {
            assert(y@.subrange(0, c as int).drop_last() =~= y@.subrange(0, c - 1));
            assert(idx@.subrange(0, c as int).drop_last() =~= idx@.subrange(0, c - 1));
        }
    }
    proof {
        assert(y@.subrange(0, idx.len() as int) =~= y@);
        assert(idx@.subrange(0, idx.len() as int) =~= idx@);
    }
    row
}

/// `x` vanishes outside the positions listed in `idx`.
pub open spec fn supported_in(x: Seq<u8>, idx: Seq<usize>) -> bool {
    forall|j: int| 0 <= j < x.len() && !idx.contains(j as usize) ==> #[trigger] x[j] == 0
}

/// All positions of `idx` are distinct and below `n`.
pub open spec fn positions_ok(idx: Seq<usize>, n: nat) -> bool {
    &&& idx.no_duplicates()
    &&& forall|e: int| 0 <= e < idx.len() ==> #[trigger] idx[e] < n
}

pub proof fn lemma_scatter_entries(y: Seq<u8>, idx: Seq<usize>, n: nat)
    requires
        positions_ok(idx, n),
        y.len() == idx.len(),
    ensures
        scatter(y, idx, n).len() == n,
        forall|e: int| 0 <= e < idx.len() ==> #[trigger] scatter(y, idx, n)[idx[e] as int] == y[e],
        supported_in(scatter(y, idx, n), idx),
    decreases idx.len(),
{
    if idx.len() > 0 {
        let i2 = idx.drop_last();
        let y2 = y.drop_last();
        assert(positions_ok(i2, n)) by {
            assert forall|a: int, b: int| 0 <= a < b < i2.len() implies i2[a] != i2[b] by {
                assert(idx[a] != idx[b]);
            }
        }
        lemma_scatter_entries(y2, i2, n);
        let s2 = scatter(y2, i2, n);
        let k = idx.last() as int;
        assert forall|e: int| 0 <= e < idx.len() implies #[trigger] scatter(y, idx, n)[idx[e] as int]
            == y[e] by {
            if e < idx.len() - 1 {
                assert(idx[e] != idx.last());
                assert(i2[e] == idx[e]);
                assert(s2[i2[e] as int] == y2[e]);
            }
        }
        assert forall|j: int|
            0 <= j < n && !idx.contains(j as usize) implies #[trigger] scatter(y, idx, n)[j] == 0 by {
            if i2.contains(j as usize) {
                let e = choose|e: int| 0 <= e < i2.len() && i2[e] == j as usize;
                assert(idx[e] == j as usize);
            }
            assert(j != k);
        }
    }
}

/// Scattering commutes with the dot product: `h_row . scatter(y) == gather(h_row) . y`.
pub proof fn lemma_scatter_dot(row: Seq<u8>, y: Seq<u8>, idx: Seq<usize>, n: nat)
    requires
        positions_ok(idx, n),
        y.len() == idx.len(),
    ensures
        dot(row, scatter(y, idx, n), n) == dot(
            Seq::new(idx.len(), |e: int| row[idx[e] as int]),
            y,
            idx.len(),
        ),
    decreases idx.len(),
{
    let g = Seq::new(idx.len(), |e: int| row[idx[e] as int]);
    if idx.len() == 0 {
        assert forall|j: int| 0 <= j < n && j != -1 implies #[trigger] gf_mul(
            row[j],
            zeros(n)[j],
        ) == 0 by {
            lemma_mul_zero(row[j]);
        }
        lemma_dot_single(row, zeros(n), n, -1);
    } else {
        let i2 = idx.drop_last();
        let y2 = y.drop_last();
        assert(positions_ok(i2, n)) by {
            assert forall|a: int, b: int| 0 <= a < b < i2.len() implies i2[a] != i2[b] by {
                assert(idx[a] != idx[b]);
            }
        }
        lemma_scatter_dot(row, y2, i2, n);
        lemma_scatter_entries(y2, i2, n);
        let s2 = scatter(y2, i2, n);
        let m = (idx.len() - 1) as int;
        let k = idx.last() as int;
        let v = y[m];
        let z = zeros(n).update(k, v);
        let w = scatter(y, idx, n);
        assert(!i2.contains(k as usize)) by {
            if i2.contains(k as usize) {
                let e = choose|e: int| 0 <= e < i2.len() && i2[e] == k as usize;
                assert(idx[e] == idx[m]);
            }
        }
        assert(s2[k] == 0);
        assert forall|j: int| 0 <= j < n implies #[trigger] w[j] == s2[j] ^ z[j] by {
            lemma_xor_facts(s2[j], 0, 0, 0);
            lemma_xor_facts(v, 0, 0, 0);
        }
        lemma_dot_vadd(row, s2, z, w, n);
        assert forall|j: int| 0 <= j < n && j != k implies #[trigger] gf_mul(row[j], z[j]) == 0 by {
            lemma_mul_zero(row[j]);
        }
        lemma_dot_single(row, z, n, k);
        let g2 = Seq::new(i2.len(), |e: int| row[i2[e] as int]);
        lemma_dot_ext(g2, y2, g, y, m as nat);
    }
}

/// A vector in the kernel of the gathered columns scatters into the kernel of the matrix.
pub proof fn lemma_gather_kernel(h: Seq<Seq<u8>>, y: Seq<u8>, idx: Seq<usize>, n: nat)
    requires
        positions_ok(idx, n),
        y.len() == idx.len(),
    ensures
        in_kernel(gather_cols(h, idx), y, idx.len()) <==> in_kernel(h, scatter(y, idx, n), n),
{
    lemma_scatter_entries(y, idx, n);
    let g = gather_cols(h, idx);
    assert forall|i: int| 0 <= i < h.len() implies #[trigger] dot(h[i], scatter(y, idx, n), n)
        == dot(g[i], y, idx.len()) by {
        lemma_scatter_dot(h[i], y, idx, n);
        assert(g[i] =~= Seq::new(idx.len(), |e: int| h[i][idx[e] as int]));
    }
    if in_kernel(g, y, idx.len()) {
        assert forall|i: int| 0 <= i < h.len() implies #[trigger] dot(
            h[i],
            scatter(y, idx, n),
            n,
        ) == zeros(h.len())[i] by {
            assert(dot(g[i], y, idx.len()) == zeros(g.len())[i]);
        }
    }
    if in_kernel(h, scatter(y, idx, n), n) {
        assert forall|i: int| 0 <= i < g.len() implies #[trigger] dot(g[i], y, idx.len()) == zeros(
            g.len(),
        )[i] by {
            assert(dot(h[i], scatter(y, idx, n), n) == zeros(h.len())[i]);
        }
    }
}

/// Two dot products with equal terms are equal.
pub proof fn lemma_dot_terms(r1: Seq<u8>, x1: Seq<u8>, r2: Seq<u8>, x2: Seq<u8>, n: nat)
    requires
        forall|j: int| 0 <= j < n ==> #[trigger] gf_mul(r1[j], x1[j]) == gf_mul(r2[j], x2[j]),
    ensures
        dot(r1, x1, n) == dot(r2, x2, n),
    decreases n,
{
    if n > 0 {
        lemma_dot_terms(r1, x1, r2, x2, (n - 1) as nat);
    }
}

// ---------------------------------------------------------------------------
// Codewords and erasure recovery.
// ---------------------------------------------------------------------------

/// `c` agrees with `cw` at every position not listed in `erased`.
pub open spec fn agrees_outside(c: Seq<u8>, cw: Seq<u8>, erased: Seq<usize>) -> bool {
    &&& c.len() == cw.len()
    &&& forall|j: int| 0 <= j < cw.len() && !erased.contains(j as usize) ==> #[trigger] c[j] == cw[j]
}

/// `c` is a codeword of the code with parity-check matrix `h` (length `n`) that agrees with
/// the received word `cw` outside the erased positions.
pub open spec fn is_completion(
    h: Seq<Seq<u8>>,
    n: nat,
    cw: Seq<u8>,
    erased: Seq<usize>,
    c: Seq<u8>,
) -> bool {
    &&& in_kernel(h, c, n)
    &&& agrees_outside(c, cw, erased)
}

/// The erased positions are distinct and exactly one codeword agrees with `cw` outside them.
pub open spec fn uniquely_recoverable(
    h: Seq<Seq<u8>>,
    n: nat,
    cw: Seq<u8>,
    erased: Seq<usize>,
) -> bool {
    &&& erased.no_duplicates()
    &&& exists|c: Seq<u8>|
        #[trigger] is_completion(h, n, cw, erased, c) && forall|c2: Seq<u8>|
            #[trigger] is_completion(h, n, cw, erased, c2) ==> c2 == c
}

/// Kernel vectors add.
pub proof fn lemma_kernel_add(h: Seq<Seq<u8>>, x: Seq<u8>, z: Seq<u8>, n: nat)
    requires
        in_kernel(h, x, n),
        in_kernel(h, z, n),
    ensures
        in_kernel(h, vadd(x, z, n), n),
{
    assert forall|i: int| 0 <= i < h.len() implies #[trigger] dot(h[i], vadd(x, z, n), n) == zeros(
        h.len(),
    )[i] by {
        lemma_dot_vadd(h[i], x, z, vadd(x, z, n), n);
        assert(dot(h[i], x, n) == zeros(h.len())[i]);
        assert(dot(h[i], z, n) == zeros(h.len())[i]);
        lemma_xor_facts(0, 0, 0, 0);
    }
}

/// The values of `c` at the positions `idx`.
pub open spec fn gather(c: Seq<u8>, idx: Seq<usize>) -> Seq<u8> {
    Seq::new(idx.len(), |e: int| c[idx[e] as int])
}

/// The dot product is symmetric.
pub proof fn lemma_dot_comm(a: Seq<u8>, b: Seq<u8>, n: nat)
    ensures
        dot(a, b, n) == dot(b, a, n),
    decreases n,
{
    if n > 0 {
        lemma_dot_comm(a, b, (n - 1) as nat);
        lemma_mul_comm(a[n - 1], b[n - 1]);
    }
}

/// A row supported on the positions `idx` meets `x` only there.
pub proof fn lemma_scattered_row_dot(y: Seq<u8>, x: Seq<u8>, idx: Seq<usize>, n: nat)
    requires
        positions_ok(idx, n),
        y.len() == idx.len(),
    ensures
        dot(scatter(y, idx, n), x, n) == dot(y, gather(x, idx), idx.len()),
{
    lemma_dot_comm(scatter(y, idx, n), x, n);
    lemma_scatter_dot(x, y, idx, n);
    assert(gather(x, idx) =~= Seq::new(idx.len(), |e: int| x[idx[e] as int]));
    lemma_dot_comm(gather(x, idx), y, idx.len());
}

/// Entry `j` of the linear combination `sum_{i < m} coeffs[i] * vecs[i]`.
pub open spec fn lincomb(vecs: Seq<Seq<u8>>, coeffs: Seq<u8>, m: nat, n: nat) -> Seq<u8> {
    Seq::new(n, |j: int| dot(coeffs, Seq::new(m, |i: int| vecs[i][j]), m))
}

/// Linear combinations of kernel vectors are kernel vectors.
pub proof fn lemma_lincomb_kernel(h: Seq<Seq<u8>>, vecs: Seq<Seq<u8>>, coeffs: Seq<u8>, m: nat, n: nat)
    requires
        forall|i: int| 0 <= i < m ==> #[trigger] in_kernel(h, vecs[i], n),
    ensures
        in_kernel(h, lincomb(vecs, coeffs, m, n), n),
    decreases m,
{
    let lc = lincomb(vecs, coeffs, m, n);
    if m == 0 {
        assert forall|q: int| 0 <= q < h.len() implies #[trigger] dot(h[q], lc, n) == zeros(h.len())[q] by {
            assert forall|j: int| 0 <= j < n && j != -1 implies #[trigger] gf_mul(h[q][j], lc[j]) == 0 by {
                lemma_mul_zero(h[q][j]);
            }
            lemma_dot_single(h[q], lc, n, -1);
        }
    } else {
        let m1 = (m - 1) as nat;
        lemma_lincomb_kernel(h, vecs, coeffs, m1, n);
        let prev = lincomb(vecs, coeffs, m1, n);
        let k = coeffs[m1 as int];
        let v = vecs[m1 as int];
        let sv = Seq::new(n, |j: int| gf_mul(v[j], k));
        assert forall|j: int| 0 <= j < n implies #[trigger] lc[j] == prev[j] ^ sv[j] by {
            let col = Seq::new(m, |i: int| vecs[i][j]);
            let col1 = Seq::new(m1, |i: int| vecs[i][j]);
            lemma_dot_ext(coeffs, col, coeffs, col1, m1);
            lemma_mul_comm(k, v[j]);
        }
        assert forall|q: int| 0 <= q < h.len() implies #[trigger] dot(h[q], lc, n) == zeros(h.len())[q] by {
            lemma_dot_vadd(h[q], prev, sv, lc, n);
            assert(dot(h[q], prev, n) == zeros(h.len())[q]);
            assert(in_kernel(h, v, n));
            assert(dot(h[q], v, n) == zeros(h.len())[q]);
            lemma_dot_comm(h[q], sv, n);
            lemma_dot_scale(v, sv, k, h[q], n);
            lemma_dot_comm(v, h[q], n);
            lemma_mul_zero(k);
            lemma_xor_facts(0, 0, 0, 0);
        }
    }
}

/// More unknowns than equations: a homogeneous system with fewer rows than columns has a
/// nonzero solution.
pub proof fn lemma_wide_kernel(a: Seq<Seq<u8>>, n: nat) -> (x: Seq<u8>)
    requires
        wide_enough(a, n),
        a.len() < n,
    ensures
        in_kernel(a, x, n),
        x != zeros(n),
    decreases n,
{
    let m = a.len();
    let last = (n - 1) as int;
    if forall|i: int| 0 <= i < m ==> #[trigger] a[i][last] == 0 {
        let x = zeros(n).update(last, 1u8);
        assert forall|i: int| 0 <= i < m implies #[trigger] dot(a[i], x, n) == zeros(m)[i] by {
            assert forall|j: int| 0 <= j < n && j != last implies #[trigger] gf_mul(a[i][j], x[j]) == 0 by {
                lemma_mul_zero(a[i][j]);
            }
            lemma_dot_single(a[i], x, n, last);
            lemma_mul_zero(x[last]);
        }
        assert(x[last] != zeros(n)[last]);
        x
    } else {
        let p = choose|i: int| 0 <= i < m && a[i][last] != 0;
        let ap = a[p];
        let piv = ap[last];
        let inv = lemma_inverse_exists(piv);
        let b = Seq::new(
            m,
            |i: int| Seq::new(n, |j: int| a[i][j] ^ gf_mul(gf_mul(a[i][last], inv), ap[j])),
        );
        let c = Seq::new((m - 1) as nat, |t: int| if t < p { b[t] } else { b[t + 1] });
        assert(wide_enough(c, (n - 1) as nat));
        let y = lemma_wide_kernel(c, (n - 1) as nat);
        let d = dot(ap, y, (n - 1) as nat);
        let v = gf_mul(inv, d);
        let x = y.push(v);
        // the pivot row vanishes on x
        assert(dot(ap, x, n) == 0) by {
            lemma_dot_ext(ap, x, ap, y, (n - 1) as nat);
            lemma_mul_assoc(piv, inv, d);
            lemma_mul_one(d);
            lemma_xor_facts(d, 0, 0, 0);
        }
        assert forall|i: int| 0 <= i < m implies #[trigger] dot(a[i], x, n) == zeros(m)[i] by {
            if i != p {
                let k = gf_mul(a[i][last], inv);
                let bi = b[i];
                // column `last` of the combined row is zero
                assert(bi[last] == 0) by {
                    lemma_mul_assoc(a[i][last], inv, piv);
                    lemma_mul_comm(inv, piv);
                    lemma_mul_one(a[i][last]);
                    lemma_xor_facts(a[i][last], 0, 0, 0);
                }
                let t = if i < p { i } else { i - 1 };
                assert(c[t] == bi);
                assert(dot(c[t], y, (n - 1) as nat) == zeros(c.len())[t]);
                lemma_dot_ext(bi, x, bi, y, (n - 1) as nat);
                lemma_mul_zero(v);
                lemma_xor_facts(0, 0, 0, 0);
                assert(dot(bi, x, n) == 0);
                lemma_dot_combine(a[i], ap, bi, k, x, n);
                lemma_mul_zero(k);
                lemma_xor_facts(dot(a[i], x, n), 0, 0, 0);
            }
        }
        assert(x != zeros(n)) by {
            let j = choose|j: int| 0 <= j < y.len() && y[j] != zeros((n - 1) as nat)[j];
            assert(exists|j: int| 0 <= j < y.len() && y[j] != zeros((n - 1) as nat)[j]) by {
                if !(exists|j: int| 0 <= j < y.len() && y[j] != zeros((n - 1) as nat)[j]) {
                    assert(y =~= zeros((n - 1) as nat));
                }
            }
            assert(x[j] == y[j]);
            assert(x[j] != zeros(n)[j]);
        }
        x
    }
}

} // verus!
