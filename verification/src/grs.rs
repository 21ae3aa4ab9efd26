//! Generalized Reed-Solomon (GRS) codes and GF(2^8) Gaussian elimination.
//!
//! A GRS [n0, k0, rho+1] code (rho = n0 - k0) is given by a rho x n0 Vandermonde
//! parity-check matrix over n0 distinct evaluation points, `H[i][j] = points[j]^(offset+i)`.
//! A vector `c` is a codeword iff `H c = 0`. Positions `0..k0` carry data, `k0..n0` parity.

use vstd::prelude::*;
use crate::gf256::{gf_mul, gf_pow, lemma_mul_zero, pow_g, Gf256};
use crate::linalg::{
    dot, has_unique_solution, in_kernel, is_solution, kernel_trivial, lemma_combine_rows,
    lemma_dot_pair, lemma_dot_single, lemma_dot_vadd, lemma_not_unique, lemma_scale_row,
    lemma_same_solutions_trans, lemma_swap_rows, lemma_xor_facts, rows_view, same_solutions,
    vadd, wide_enough, zeros, agrees_outside, gather_cols, is_completion, lemma_scatter_dot,
    lemma_scatter_entries, positions_ok, scatter, uniquely_recoverable, lemma_dot_combine,
    lemma_dot_terms, lemma_gather_kernel, supported_in, gather, lemma_wide_kernel,
};

verus! {

// ---------------------------------------------------------------------------
// Elementary row operations on an augmented system held in `Vec`s.
// ---------------------------------------------------------------------------

/// Exchange rows `i` and `j` of `a` and entries `i` and `j` of `b`.
fn swap_rows(a: &mut [Vec<u8>], b: &mut [u8], i: usize, j: usize)
    requires
        i < old(a).len(),
        j < old(a).len(),
        i != j,
        old(a).len() == old(b).len(),
    ensures
        final(a)@ == old(a)@.update(i as int, old(a)@[j as int]).update(j as int, old(a)@[i as int]),
        final(b)@ == old(b)@.update(i as int, old(b)@[j as int]).update(j as int, old(b)@[i as int]),
{
    let mut tmp: Vec<u8> = Vec::new();
    std::mem::swap(&mut a[i], &mut tmp);
    std::mem::swap(&mut a[j], &mut tmp);
    std::mem::swap(&mut a[i], &mut tmp);
    let bi = b[i];
    let bj = b[j];
    b[i] = bj;
    b[j] = bi;
}

/// Multiply row `p` of the system by `k` on the columns `col..cols`.
fn scale_row(
    f: &Gf256,
    a: &mut [Vec<u8>],
    b: &mut [u8],
    p: usize,
    col: usize,
    cols: usize,
    k: u8,
)
    requires
        p < old(a).len(),
        old(a).len() == old(b).len(),
        col <= cols,
        old(a)@[p as int]@.len() >= cols,
    ensures
        final(a)@.len() == old(a)@.len(),
        final(b)@ == old(b)@.update(p as int, gf_mul(old(b)@[p as int], k)),
        forall|r: int| 0 <= r < old(a)@.len() && r != p ==> final(a)@[r] == old(a)@[r],
        final(a)@[p as int]@.len() == old(a)@[p as int]@.len(),
        forall|c: int|
            0 <= c < final(a)@[p as int]@.len() ==> #[trigger] final(a)@[p as int]@[c] == (if col
                <= c < cols {
                gf_mul(old(a)@[p as int]@[c], k)
            } else {
                old(a)@[p as int]@[c]
            }),
{
    let mut row: Vec<u8> = Vec::new();
    std::mem::swap(&mut a[p], &mut row);
    let ghost orig = row@;
    let mut c = col;
    while c < cols
        invariant
            col <= c <= cols,
            row@.len() == orig.len(),
            orig.len() >= cols,
            forall|j: int|
                0 <= j < orig.len() ==> #[trigger] row@[j] == (if col <= j < c {
                    gf_mul(orig[j], k)
                } else {
                    orig[j]
                }),
        decreases cols - c,
    {
        let v = f.mul(row[c], k);
        row.set(c, v);
        c += 1;
    }
    std::mem::swap(&mut a[p], &mut row);
    let bp = f.mul(b[p], k);
    b[p] = bp;
}

/// Add `k` times row `p` to row `r` (`r != p`) on the columns `col..cols`.
fn combine_rows(
    f: &Gf256,
    a: &mut [Vec<u8>],
    b: &mut [u8],
    r: usize,
    p: usize,
    col: usize,
    cols: usize,
    k: u8,
)
    requires
        r < old(a).len(),
        p < old(a).len(),
        r != p,
        old(a).len() == old(b).len(),
        col <= cols,
        old(a)@[p as int]@.len() >= cols,
        old(a)@[r as int]@.len() >= cols,
    ensures
        final(a)@.len() == old(a)@.len(),
        final(b)@ == old(b)@.update(
            r as int,
            old(b)@[r as int] ^ gf_mul(k, old(b)@[p as int]),
        ),
        forall|q: int| 0 <= q < old(a)@.len() && q != r ==> final(a)@[q] == old(a)@[q],
        final(a)@[r as int]@.len() == old(a)@[r as int]@.len(),
        forall|c: int|
            0 <= c < final(a)@[r as int]@.len() ==> #[trigger] final(a)@[r as int]@[c] == (if col
                <= c < cols {
                old(a)@[r as int]@[c] ^ gf_mul(k, old(a)@[p as int]@[c])
            } else {
                old(a)@[r as int]@[c]
            }),
{
    let mut row: Vec<u8> = Vec::new();
    std::mem::swap(&mut a[r], &mut row);
    let ghost orig = row@;
    let ghost prow = a@[p as int]@;
    let mut c = col;
    while c < cols
        invariant
            col <= c <= cols,
            row@.len() == orig.len(),
            orig.len() >= cols,
            a@.len() == old(a)@.len(),
            p < a@.len(),
            a@[p as int]@ == prow,
            prow.len() >= cols,
            forall|j: int|
                0 <= j < orig.len() ==> #[trigger] row@[j] == (if col <= j < c {
                    orig[j] ^ gf_mul(k, prow[j])
                } else {
                    orig[j]
                }),
        decreases cols - c,
    {
        let t = f.mul(k, a[p][c]);
        let v = crate::gf256::add(row[c], t);
        row.set(c, v);
        c += 1;
    }
    std::mem::swap(&mut a[r], &mut row);
    let t = f.mul(k, b[p]);
    let br = crate::gf256::add(b[r], t);
    b[r] = br;
}

} // verus!

verus! {

/// Number of columns below `n` without a pivot.
pub open spec fn count_free(wp: Seq<usize>, n: nat) -> nat
    decreases n,
{
    if n == 0 {
        0
    } else {
        count_free(wp, (n - 1) as nat) + (if wp[n - 1] == usize::MAX {
            1nat
        } else {
            0nat
        })
    }
}

proof fn lemma_count_free_prefix(w1: Seq<usize>, w2: Seq<usize>, n: nat)
    requires
        forall|c: int| 0 <= c < n ==> w1[c] == w2[c],
    ensures
        count_free(w1, n) == count_free(w2, n),
    decreases n,
{
    if n > 0 {
        lemma_count_free_prefix(w1, w2, (n - 1) as nat);
    }
}

proof fn lemma_count_free_zero(wp: Seq<usize>, n: nat)
    ensures
        count_free(wp, n) == 0 <==> forall|c: int| 0 <= c < n ==> wp[c] != usize::MAX,
    decreases n,
{
    if n > 0 {
        lemma_count_free_zero(wp, (n - 1) as nat);
        if count_free(wp, n) == 0 {
            assert forall|c: int| 0 <= c < n implies wp[c] != usize::MAX by {
                if c < n - 1 {
                } else {
                }
            }
        }
    }
}

proof fn lemma_count_free_tail(wp: Seq<usize>, from: nat, n: nat)
    requires
        from <= n,
        forall|c: int| from <= c < n ==> wp[c] == usize::MAX,
    ensures
        count_free(wp, n) == count_free(wp, from) + (n - from),
    decreases n,
{
    if n > from {
        lemma_count_free_tail(wp, from, (n - 1) as nat);
    }
}

/// Gauss-Jordan state after eliminating the first `col` columns: pivot `p < rank` sits in
/// row `p` and column `pc[p]` with entry 1, every other row is zero in each pivot column,
/// rows from `rank` on are zero in the first `col` columns, and `wp[c]` names the pivot row
/// of column `c` (or `usize::MAX` when column `c` has no pivot).
pub open spec fn reduced(
    a: Seq<Seq<u8>>,
    cols: nat,
    col: nat,
    rank: nat,
    pc: Seq<int>,
    wp: Seq<usize>,
) -> bool {
    &&& pc.len() == rank
    &&& wp.len() == cols
    &&& rank <= a.len()
    &&& rank <= usize::MAX
    &&& rank <= col <= cols
    &&& count_free(wp, col) + rank == col
    &&& forall|p: int| 0 <= p < rank ==> 0 <= #[trigger] pc[p] < col
    &&& forall|p: int| 0 <= p < rank ==> wp[#[trigger] pc[p]] == p
    &&& forall|c: int|
        0 <= c < cols ==> (#[trigger] wp[c] == usize::MAX || (wp[c] < rank && pc[wp[c] as int]
            == c))
    &&& forall|c: int| col <= c < cols ==> #[trigger] wp[c] == usize::MAX
    &&& forall|p: int| 0 <= p < rank ==> #[trigger] a[p][pc[p]] == 1
    &&& forall|p: int, r: int|
        #![trigger a[r][pc[p]]]
        0 <= p < rank && 0 <= r < a.len() && r != p ==> a[r][pc[p]] == 0
    &&& forall|r: int, c: int|
        #![trigger a[r][c]]
        rank <= r < a.len() && 0 <= c < col ==> a[r][c] == 0
}

/// Gauss-Jordan elimination of the first `cols` columns of `[a | b]`, in place.
fn reduce(f: &Gf256, a: &mut [Vec<u8>], b: &mut [u8], cols: usize) -> (res: (
    Vec<usize>,
    usize,
    Ghost<Seq<int>>,
))
    requires
        old(a).len() == old(b).len(),
        wide_enough(rows_view(old(a)@), cols as nat),
    ensures
        final(a).len() == old(a).len(),
        final(b).len() == old(b).len(),
        wide_enough(rows_view(final(a)@), cols as nat),
        same_solutions(
            rows_view(old(a)@),
            old(b)@,
            rows_view(final(a)@),
            final(b)@,
            cols as nat,
        ),
        same_solutions(
            rows_view(old(a)@),
            zeros(old(a).len() as nat),
            rows_view(final(a)@),
            zeros(old(a).len() as nat),
            cols as nat,
        ),
        reduced(rows_view(final(a)@), cols as nat, cols as nat, res.1 as nat, res.2@, res.0@),
{
    let rows = a.len();
    let ghost a0 = rows_view(a@);
    let ghost b0 = b@;
    let ghost zr = zeros(rows as nat);
    let mut wp: Vec<usize> = vec![usize::MAX; cols];
    let mut pr: usize = 0;
    let mut col: usize = 0;
    let ghost mut pc: Seq<int> = Seq::empty();
    assert(reduced(rows_view(a@), cols as nat, 0, 0, pc, wp@));
    assert forall|r: int| 0 <= r < rows implies #[trigger] a@[r]@.len() >= cols by {
        assert(rows_view(a@)[r] == a@[r]@);
    }
    assert(same_solutions(a0, b0, rows_view(a@), b@, cols as nat));
    assert(same_solutions(a0, zr, rows_view(a@), zr, cols as nat));
    while col < cols && pr < rows
        invariant
            rows == a.len(),
            rows == b.len(),
            col <= cols,
            a0.len() == rows,
            zr == zeros(rows as nat),
            forall|r: int| 0 <= r < rows ==> #[trigger] a@[r]@.len() >= cols,
            same_solutions(a0, b0, rows_view(a@), b@, cols as nat),
            same_solutions(a0, zr, rows_view(a@), zr, cols as nat),
            reduced(rows_view(a@), cols as nat, col as nat, pr as nat, pc, wp@),
        decreases cols - col,
    {
        let ghost av = rows_view(a@);
        let mut sel = pr;
        while sel < rows && a[sel][col] == 0
            invariant
                pr <= sel <= rows,
                col < cols,
                rows == a.len(),
                forall|r: int| 0 <= r < rows ==> #[trigger] a@[r]@.len() >= cols,
                forall|q: int| pr <= q < sel ==> #[trigger] a@[q]@[col as int] == 0,
            decreases rows - sel,
        {
            sel += 1;
        }
        if sel < rows {
            if sel != pr {
                let ghost a1 = rows_view(a@);
                let ghost b1 = b@;
                swap_rows(a, b, sel, pr);
                proof {
                    lemma_swap_rows(a1, b1, sel as int, pr as int, cols as nat);
                    lemma_swap_rows(a1, zr, sel as int, pr as int, cols as nat);
                    assert(rows_view(a@) =~= a1.update(sel as int, a1[pr as int]).update(
                        pr as int,
                        a1[sel as int],
                    ));
                    assert(zr.update(sel as int, zr[pr as int]).update(pr as int, zr[sel as int])
                        =~= zr);
                    lemma_same_solutions_trans(a0, b0, a1, b1, rows_view(a@), b@, cols as nat);
                    lemma_same_solutions_trans(a0, zr, a1, zr, rows_view(a@), zr, cols as nat);
                }
            }
            let ghost a2 = rows_view(a@);
            let ghost b2 = b@;
            proof {
                assert(a2[pr as int][col as int] != 0);
                assert forall|p: int, q: int|
                    #![trigger a2[q][pc[p]]]
                    0 <= p < pr && 0 <= q < rows && q != p implies a2[q][pc[p]] == 0 by {
                    if sel != pr && q == sel {
                        assert(av[pr as int][pc[p]] == 0);
                    } else if sel != pr && q == pr {
                        assert(av[sel as int][pc[p]] == 0);
                    } else {
                        assert(av[q][pc[p]] == 0);
                    }
                }
                assert forall|q: int, c: int|
                    #![trigger a2[q][c]]
                    pr <= q < rows && 0 <= c < col implies a2[q][c] == 0 by {
                    if sel != pr && q == sel {
                        assert(av[pr as int][c] == 0);
                    } else if sel != pr && q == pr {
                        assert(av[sel as int][c] == 0);
                    } else {
                        assert(av[q][c] == 0);
                    }
                }
                assert forall|p: int| 0 <= p < pr implies #[trigger] a2[p][pc[p]] == 1 by {
                    assert(av[p][pc[p]] == 1);
                }
            }
            let pv = a[pr][col];
            let inv = f.inv(pv);
            proof {
                lemma_mul_zero(pv);
            }
            scale_row(f, a, b, pr, col, cols, inv);
            let ghost a3 = rows_view(a@);
            let ghost b3 = b@;
            let ghost prow = a3[pr as int];
            proof {
                assert forall|c: int| 0 <= c < cols implies #[trigger] prow[c] == gf_mul(
                    a2[pr as int][c],
                    inv,
                ) by {
                    if c < col {
                        assert(a2[pr as int][c] == 0);
                        lemma_mul_zero(inv);
                    }
                }
                assert(a3 =~= a2.update(pr as int, prow));
                lemma_scale_row(a2, b2, pr as int, prow, inv, cols as nat);
                lemma_scale_row(a2, zr, pr as int, prow, inv, cols as nat);
                lemma_mul_zero(inv);
                assert(zr.update(pr as int, gf_mul(zr[pr as int], inv)) =~= zr);
                lemma_same_solutions_trans(a0, b0, a2, b2, a3, b3, cols as nat);
                lemma_same_solutions_trans(a0, zr, a2, zr, a3, zr, cols as nat);
                assert(prow[col as int] == 1);
                assert forall|c: int| 0 <= c < col implies #[trigger] prow[c] == 0 by {
                    assert(a2[pr as int][c] == 0);
                }
            }
            let mut r: usize = 0;
            while r < rows
                invariant
                    rows == a.len(),
                    rows == b.len(),
                    r <= rows,
                    pr < rows,
                    col < cols,
                    a3.len() == rows,
                    b3.len() == rows,
                            zr == zeros(rows as nat),
                    forall|q: int| 0 <= q < rows ==> #[trigger] a@[q]@.len() >= cols,
                    rows_view(a@)[pr as int] == prow,
                    b@[pr as int] == b3[pr as int],
                    prow == a3[pr as int],
                    prow[col as int] == 1,
                    forall|c: int| 0 <= c < col ==> #[trigger] prow[c] == 0,
                    forall|q: int| r <= q < rows ==> #[trigger] rows_view(a@)[q] == a3[q],
                    forall|q: int| r <= q < rows ==> #[trigger] b@[q] == b3[q],
                    forall|q: int|
                        0 <= q < r && q != pr ==> #[trigger] rows_view(a@)[q][col as int] == 0,
                    forall|q: int, c: int|
                        #![trigger rows_view(a@)[q][c]]
                        0 <= q < r && 0 <= c < col ==> rows_view(a@)[q][c] == a3[q][c],
                    same_solutions(a0, b0, rows_view(a@), b@, cols as nat),
                    same_solutions(a0, zr, rows_view(a@), zr, cols as nat),
                decreases rows - r,
            {
                proof {
                    assert(rows_view(a@)[r as int] == a3[r as int]);
                }
                if r != pr {
                    let factor = a[r][col];
                    if factor != 0 {
                        let ghost a5 = rows_view(a@);
                        let ghost b5 = b@;
                        combine_rows(f, a, b, r, pr, col, cols, factor);
                        proof {
                            let nrow = rows_view(a@)[r as int];
                            assert forall|c: int| 0 <= c < cols implies #[trigger] nrow[c]
                                == a5[r as int][c] ^ gf_mul(factor, a5[pr as int][c]) by {
                                if c < col {
                                    lemma_mul_zero(factor);
                                    lemma_xor_facts(a5[r as int][c], 0, 0, 0);
                                }
                            }
                            assert(rows_view(a@) =~= a5.update(r as int, nrow));
                            lemma_combine_rows(a5, b5, r as int, pr as int, nrow, factor, cols as nat);
                            lemma_combine_rows(a5, zr, r as int, pr as int, nrow, factor, cols as nat);
                            lemma_mul_zero(factor);
                            lemma_xor_facts(0, 0, 0, 0);
                            assert(zr.update(r as int, zr[r as int] ^ gf_mul(factor, zr[pr as int]))
                                =~= zr);
                            lemma_same_solutions_trans(a0, b0, a5, b5, rows_view(a@), b@, cols as nat);
                            lemma_same_solutions_trans(a0, zr, a5, zr, rows_view(a@), zr, cols as nat);
                            crate::gf256::lemma_mul_one(factor);
                            lemma_xor_facts(factor, 0, 0, 0);
                            assert(nrow[col as int] == 0);
                            assert forall|c: int| 0 <= c < col implies #[trigger] nrow[c]
                                == a3[r as int][c] by {
                                assert(nrow[c] == a5[r as int][c] ^ gf_mul(factor, prow[c]));
                                assert(a5[r as int] == a3[r as int]);
                            }
                            assert forall|q: int| r < q < rows implies #[trigger] rows_view(a@)[q]
                                == a3[q] by {
                                assert(rows_view(a@)[q] == a5[q]);
                            }
                            assert forall|q: int| r < q < rows implies #[trigger] b@[q] == b3[q] by {
                                assert(b@[q] == b5[q]);
                            }
                        }
                    }
                }
                r += 1;
            }
            let ghost a4 = rows_view(a@);
            proof {
                let pc2 = pc.push(col as int);
                assert forall|p: int| 0 <= p < pr + 1 implies #[trigger] a4[p][pc2[p]] == 1 by {
                    if p < pr {
                        assert(a2[p][pc[p]] == 1);
                        assert(a3[p] == a2[p]);
                        assert(pc2[p] == pc[p]);
                        assert(a4[p][pc[p]] == a3[p][pc[p]]);
                    }
                }
                assert forall|p: int, q: int|
                    #![trigger a4[q][pc2[p]]]
                    0 <= p < pr + 1 && 0 <= q < rows && q != p implies a4[q][pc2[p]] == 0 by {
                    if p < pr {
                        assert(pc2[p] == pc[p]);
                        if q == pr {
                            assert(a2[pr as int][pc[p]] == 0);
                        } else {
                            assert(a2[q][pc[p]] == 0);
                            assert(a3[q] == a2[q]);
                            assert(a4[q][pc[p]] == a3[q][pc[p]]);
                        }
                    }
                }
                assert forall|q: int, c: int|
                    #![trigger a4[q][c]]
                    pr + 1 <= q < rows && 0 <= c < col + 1 implies a4[q][c] == 0 by {
                    if c < col {
                        assert(a2[q][c] == 0);
                        assert(a3[q] == a2[q]);
                        assert(a4[q][c] == a3[q][c]);
                    }
                }
            }
            let ghost wp_old = wp@;
            wp.set(col, pr);
            proof {
                lemma_count_free_prefix(wp_old, wp@, col as nat);
                pc = pc.push(col as int);
            }
            pr += 1;
        } else {
            proof {
                assert forall|q: int, c: int|
                    #![trigger av[q][c]]
                    pr <= q < rows && 0 <= c < col + 1 implies av[q][c] == 0 by {
                    if c == col {
                        assert(a@[q]@[col as int] == 0);
                    }
                }
            }
        }
        col += 1;
    }
    proof {
        let av = rows_view(a@);
        lemma_count_free_tail(wp@, col as nat, cols as nat);
        assert forall|q: int, c: int|
            #![trigger av[q][c]]
            pr <= q < rows && 0 <= c < cols implies av[q][c] == 0 by {
        }
    }
    (wp, pr, Ghost(pc))
}

} // verus!

verus! {

/// In a reduced system, a column without a pivot gives a nonzero kernel vector.
proof fn lemma_free_column(
    a: Seq<Seq<u8>>,
    cols: nat,
    rank: nat,
    pc: Seq<int>,
    wp: Seq<usize>,
    fc: int,
) -> (z: Seq<u8>)
    requires
        reduced(a, cols, cols, rank, pc, wp),
        wide_enough(a, cols),
        0 <= fc < cols,
        wp[fc] == usize::MAX,
    ensures
        in_kernel(a, z, cols),
        z != zeros(cols),
{
    let z = Seq::new(
        cols,
        |c: int|
            if c == fc {
                1u8
            } else if wp[c] != usize::MAX {
                a[wp[c] as int][fc]
            } else {
                0u8
            },
    );
    assert forall|r: int| 0 <= r < a.len() implies #[trigger] dot(a[r], z, cols) == zeros(
        a.len(),
    )[r] by {
        if r < rank {
            let i1 = pc[r];
            assert(wp[i1] == r);
            crate::gf256::lemma_mul_one(a[r][fc]);
            assert(a[r][i1] == 1);
            assert forall|j: int| 0 <= j < cols && j != i1 && j != fc implies #[trigger] gf_mul(
                a[r][j],
                z[j],
            ) == 0 by {
                if wp[j] != usize::MAX {
                    let p = wp[j] as int;
                    assert(pc[p] == j);
                    assert(a[r][pc[p]] == 0);
                    lemma_mul_zero(z[j]);
                } else {
                    lemma_mul_zero(a[r][j]);
                }
            }
            assert(i1 != fc);
            assert(z[i1] == a[r][fc]);
            assert(z[fc] == 1);
            lemma_dot_pair(a[r], z, cols, i1, fc);
        } else {
            assert forall|j: int| 0 <= j < cols && j != -1 implies #[trigger] gf_mul(
                a[r][j],
                z[j],
            ) == 0 by {
                assert(a[r][j] == 0);
                lemma_mul_zero(z[j]);
            }
            lemma_dot_single(a[r], z, cols, -1);
        }
    }
    assert(z[fc] != zeros(cols)[fc]);
    z
}

/// In a reduced system where every column has a pivot, pivot row `p` reads off `x[pc[p]]`.
proof fn lemma_pivot_row_dot(
    a: Seq<Seq<u8>>,
    cols: nat,
    rank: nat,
    pc: Seq<int>,
    wp: Seq<usize>,
    x: Seq<u8>,
    p: int,
)
    requires
        reduced(a, cols, cols, rank, pc, wp),
        wide_enough(a, cols),
        forall|c: int| 0 <= c < cols ==> #[trigger] wp[c] != usize::MAX,
        0 <= p < rank,
    ensures
        dot(a[p], x, cols) == x[pc[p]],
{
    assert forall|j: int| 0 <= j < cols && j != pc[p] implies #[trigger] gf_mul(a[p][j], x[j])
        == 0 by {
        assert(wp[j] != usize::MAX);
        let q = wp[j] as int;
        assert(pc[q] == j);
        assert(a[p][pc[q]] == 0);
        lemma_mul_zero(x[j]);
    }
    lemma_dot_single(a[p], x, cols, pc[p]);
    crate::gf256::lemma_mul_one(x[pc[p]]);
}

/// Rows of a reduced system below the rank vanish on the first `cols` columns.
proof fn lemma_zero_row_dot(
    a: Seq<Seq<u8>>,
    cols: nat,
    rank: nat,
    pc: Seq<int>,
    wp: Seq<usize>,
    x: Seq<u8>,
    r: int,
)
    requires
        reduced(a, cols, cols, rank, pc, wp),
        rank <= r < a.len(),
    ensures
        dot(a[r], x, cols) == 0,
{
    assert forall|j: int| 0 <= j < cols && j != -1 implies #[trigger] gf_mul(a[r][j], x[j])
        == 0 by {
        assert(a[r][j] == 0);
        lemma_mul_zero(x[j]);
    }
    lemma_dot_single(a[r], x, cols, -1);
}

/// Solve the linear system `a x = b` over GF(2^8) by Gauss-Jordan elimination, where `a`
/// has `b.len()` rows and `cols` columns (each row has at least `cols` entries; only the
/// first `cols` are used). Returns `Some(x)` exactly when the system has a unique solution,
/// and then `x` is that solution. `a` and `b` are used as scratch space: on return they hold
/// an equivalent (reduced) system.
pub fn solve(f: &Gf256, a: &mut [Vec<u8>], b: &mut [u8], cols: usize) -> (res: Option<
    Vec<u8>,
>)
    requires
        old(a).len() == old(b).len(),
        wide_enough(rows_view(old(a)@), cols as nat),
    ensures
        final(a).len() == old(a).len(),
        final(b).len() == old(b).len(),
        wide_enough(rows_view(final(a)@), cols as nat),
        same_solutions(
            rows_view(old(a)@),
            old(b)@,
            rows_view(final(a)@),
            final(b)@,
            cols as nat,
        ),
        res is Some <==> has_unique_solution(rows_view(old(a)@), old(b)@, cols as nat),
        res matches Some(x) ==> is_solution(rows_view(old(a)@), old(b)@, x@, cols as nat),
        old(a).len() <= cols && kernel_trivial(rows_view(old(a)@), cols as nat) ==> res is Some,
{
    let rows = a.len();
    let ghost a0 = rows_view(a@);
    let ghost b0 = b@;
    let ghost zr = zeros(rows as nat);
    let (wp, rank, Ghost(pc)) = reduce(f, a, b, cols);
    let ghost av = rows_view(a@);
    let ghost bv = b@;
    assert(av.len() == rows);
    let mut c: usize = 0;
    while c < cols
        invariant
            c <= cols,
            wp@.len() == cols,
            forall|j: int| 0 <= j < c ==> #[trigger] wp@[j] != usize::MAX,
            av == rows_view(a@),
            bv == b@,
            a.len() == rows,
            b.len() == rows,
            old(a).len() == rows,
            old(b).len() == rows,
            a0 == rows_view(old(a)@),
            b0 == old(b)@,
            wide_enough(av, cols as nat),
            av.len() == rows,
            a0.len() == rows,
            b0.len() == rows,
            zr == zeros(rows as nat),
            reduced(av, cols as nat, cols as nat, rank as nat, pc, wp@),
            wide_enough(av, cols as nat),
            same_solutions(a0, b0, av, bv, cols as nat),
            same_solutions(a0, zr, av, zr, cols as nat),
        decreases cols - c,
    {
        if wp[c] == usize::MAX {
            proof {
                let z = lemma_free_column(av, cols as nat, rank as nat, pc, wp@, c as int);
                assert(is_solution(av, zr, z, cols as nat));
                assert(in_kernel(a0, z, cols as nat));
                lemma_not_unique(a0, b0, z, cols as nat);
            }
            return None;
        }
        c += 1;
    }
    proof {
        lemma_count_free_zero(wp@, cols as nat);
    }
    let mut r = rank;
    while r < rows
        invariant
            rank <= r <= rows,
            rank == cols,
            rows == b.len(),
            rows == a.len(),
            old(a).len() == rows,
            old(b).len() == rows,
            a0 == rows_view(old(a)@),
            b0 == old(b)@,
            wide_enough(av, cols as nat),
            forall|j: int| 0 <= j < cols ==> #[trigger] wp@[j] != usize::MAX,
            av == rows_view(a@),
            bv == b@,
            a.len() == rows,
            b.len() == rows,
            old(a).len() == rows,
            old(b).len() == rows,
            a0 == rows_view(old(a)@),
            b0 == old(b)@,
            wide_enough(av, cols as nat),
            av.len() == rows,
            a0.len() == rows,
            b0.len() == rows,
            forall|q: int| rank <= q < r ==> #[trigger] bv[q] == 0,
            reduced(av, cols as nat, cols as nat, rank as nat, pc, wp@),
            same_solutions(a0, b0, av, bv, cols as nat),
        decreases rows - r,
    {
        if b[r] != 0 {
            proof {
                if has_unique_solution(a0, b0, cols as nat) {
                    let x = choose|x: Seq<u8>|
                        #[trigger] is_solution(a0, b0, x, cols as nat) && forall|y: Seq<u8>|
                            #[trigger] is_solution(a0, b0, y, cols as nat) ==> y == x;
                    assert(is_solution(av, bv, x, cols as nat));
                    lemma_zero_row_dot(av, cols as nat, rank as nat, pc, wp@, x, r as int);
                    assert(dot(av[r as int], x, cols as nat) == bv[r as int]);
                }
            }
            return None;
        }
        r += 1;
    }
    let mut x: Vec<u8> = Vec::new();
    let mut c: usize = 0;
    while c < cols
        invariant
            c <= cols,
            x@.len() == c,
            wp@.len() == cols,
            rank <= rows,
            rows == b.len(),
            bv == b@,
            forall|j: int| 0 <= j < cols ==> #[trigger] wp@[j] != usize::MAX,
            forall|j: int| 0 <= j < cols ==> #[trigger] wp@[j] < rank,
            forall|j: int| 0 <= j < c ==> #[trigger] x@[j] == bv[wp@[j] as int],
        decreases cols - c,
    {
        x.push(b[wp[c]]);
        c += 1;
    }
    proof {
        let xs = x@;
        assert forall|q: int| 0 <= q < av.len() implies #[trigger] dot(av[q], xs, cols as nat)
            == bv[q] by {
            if q < rank {
                lemma_pivot_row_dot(av, cols as nat, rank as nat, pc, wp@, xs, q);
                assert(wp@[pc[q]] == q);
            } else {
                lemma_zero_row_dot(av, cols as nat, rank as nat, pc, wp@, xs, q);
            }
        }
        assert(is_solution(av, bv, xs, cols as nat));
        assert(is_solution(a0, b0, xs, cols as nat));
        assert forall|y: Seq<u8>| #[trigger] is_solution(a0, b0, y, cols as nat) implies y
            == xs by {
            assert(is_solution(av, bv, y, cols as nat));
            assert forall|j: int| 0 <= j < cols implies y[j] == xs[j] by {
                let p = wp@[j] as int;
                assert(pc[p] == j);
                lemma_pivot_row_dot(av, cols as nat, rank as nat, pc, wp@, y, p);
                assert(dot(av[p], y, cols as nat) == bv[p]);
            }
            assert(y =~= xs);
        }
        assert(has_unique_solution(a0, b0, cols as nat));
    }
    Some(x)
}

/// A fresh copy of `v`.
pub(crate) fn copy_bytes(v: &[u8]) -> (r: Vec<u8>)
    ensures
        r@ == v@,
{
    let mut r: Vec<u8> = Vec::new();
    let mut i: usize = 0;
    while i < v.len()
        invariant
            i <= v.len(),
            r@ == v@.subrange(0, i as int),
        decreases v.len() - i,
    {
        r.push(v[i]);
        i += 1;
    }
    assert(r@ =~= v@);
    r
}

/// Number of columns of a matrix given by its rows: the length of its first row.
pub open spec fn mat_cols(m: Seq<Seq<u8>>) -> nat {
    if m.len() == 0 {
        0
    } else {
        m[0].len()
    }
}

/// Rank of a matrix over GF(2^8) (rows as given, as many columns as the first row has),
/// by Gaussian elimination: the largest number of linearly independent columns. Some
/// `r` distinct columns are independent, any more than `r` are dependent, and `r` equals
/// the number of columns exactly when all columns are independent.
pub fn rank(f: &Gf256, mat: &[Vec<u8>]) -> (r: usize)
    requires
        wide_enough(rows_view(mat@), mat_cols(rows_view(mat@))),
    ensures
        r <= mat.len(),
        r <= mat_cols(rows_view(mat@)),
        has_independent_set(rows_view(mat@), mat_cols(rows_view(mat@)), r as nat),
        forall|s: Seq<usize>|
            s.len() > r && positions_ok(s, mat_cols(rows_view(mat@))) ==> #[trigger] dependent_cols(
                rows_view(mat@),
                s,
            ),
        r == mat_cols(rows_view(mat@)) <==> kernel_trivial(
            rows_view(mat@),
            mat_cols(rows_view(mat@)),
        ),
{
    let rows = mat.len();
    let ghost m = rows_view(mat@);
    if rows == 0 {
        proof {
            assert forall|x: Seq<u8>| #[trigger] in_kernel(m, x, 0) implies x == zeros(0) by {
                assert(x =~= zeros(0));
            }
            let e = Seq::<usize>::empty();
            assert(kernel_trivial(gather_cols(m, e), 0)) by {
                assert forall|x: Seq<u8>| #[trigger] in_kernel(gather_cols(m, e), x, 0) implies x == zeros(0) by {
                    assert(x =~= zeros(0));
                }
            }
            assert(positions_ok(e, 0));
            assert forall|s: Seq<usize>| s.len() > 0 && positions_ok(s, 0) implies #[trigger] dependent_cols(m, s) by {
                assert(s[0] < 0);
            }
        }
        return 0;
    }
    let cols = mat[0].len();
    assert(m[0] == mat@[0]@);
    let mut a: Vec<Vec<u8>> = Vec::new();
    let mut b: Vec<u8> = Vec::new();
    let mut i: usize = 0;
    while i < rows
        invariant
            i <= rows,
            rows == mat.len(),
            m == rows_view(mat@),
            a@.len() == i,
            b@ == zeros(i as nat),
            forall|q: int| 0 <= q < i ==> #[trigger] a@[q]@ == m[q],
        decreases rows - i,
    {
        a.push(copy_bytes(mat[i].as_slice()));
        b.push(0);
        i += 1;
        proof {
            assert(b@ =~= zeros(i as nat));
        }
    }
    assert(rows_view(a@) =~= m);
    let ghost zr = zeros(rows as nat);
    let (wp, rk, Ghost(pc)) = reduce(f, a.as_mut_slice(), b.as_mut_slice(), cols);
    proof {
        let av = rows_view(a@);
        if rk == cols {
            lemma_count_free_tail(wp@, cols as nat, cols as nat);
            lemma_count_free_zero(wp@, cols as nat);
            assert forall|x: Seq<u8>| #[trigger] in_kernel(m, x, cols as nat) implies x == zeros(
                cols as nat,
            ) by {
                assert(is_solution(av, zr, x, cols as nat));
                assert forall|j: int| 0 <= j < cols implies x[j] == zeros(cols as nat)[j] by {
                    let p = wp@[j] as int;
                    assert(pc[p] == j);
                    lemma_pivot_row_dot(av, cols as nat, rk as nat, pc, wp@, x, p);
                    assert(dot(av[p], x, cols as nat) == zr[p]);
                }
                assert(x =~= zeros(cols as nat));
            }
        } else {
            lemma_count_free_zero(wp@, cols as nat);
            let fc = choose|c: int| 0 <= c < cols && wp@[c] == usize::MAX;
            let z = lemma_free_column(av, cols as nat, rk as nat, pc, wp@, fc);
            assert(is_solution(av, zr, z, cols as nat));
            assert(in_kernel(m, z, cols as nat));
        }
        lemma_rank_columns(m, av, cols as nat, rk as nat, pc, wp@);
    }
    rk
}

/// In a reduced form `av` (with the same kernel as `m`) of rank `rk`, the pivot columns
/// are independent columns of `m`, and any more than `rk` columns of `m` are dependent.
proof fn lemma_rank_columns(
    m: Seq<Seq<u8>>,
    av: Seq<Seq<u8>>,
    cols: nat,
    rk: nat,
    pc: Seq<int>,
    wp: Seq<usize>,
)
    requires
        reduced(av, cols, cols, rk, pc, wp),
        cols <= usize::MAX,
        wide_enough(av, cols),
        wide_enough(m, cols),
        av.len() == m.len(),
        same_solutions(m, zeros(m.len()), av, zeros(m.len()), cols),
    ensures
        has_independent_set(m, cols, rk),
        forall|s: Seq<usize>| s.len() > rk && positions_ok(s, cols) ==> #[trigger] dependent_cols(m, s),
{
    let zr = zeros(m.len());
    // The pivot columns are independent.
    let piv = Seq::new(rk, |p: int| pc[p] as usize);
    assert forall|p: int| 0 <= p < rk implies #[trigger] piv[p] as int == pc[p] by {
        assert(0 <= pc[p] < cols);
    }
    assert(positions_ok(piv, cols)) by {
        assert forall|a: int, b: int| 0 <= a < piv.len() && 0 <= b < piv.len() && a != b implies piv[a]
            != piv[b] by {
            assert(wp[pc[a]] == a);
            assert(wp[pc[b]] == b);
            assert(piv[a] as int == pc[a]);
            assert(piv[b] as int == pc[b]);
        }
        assert forall|e: int| 0 <= e < piv.len() implies #[trigger] piv[e] < cols by {
            assert(piv[e] as int == pc[e]);
        }
    }
    assert(kernel_trivial(gather_cols(m, piv), rk)) by {
        assert forall|y: Seq<u8>| #[trigger] in_kernel(gather_cols(m, piv), y, rk) implies y == zeros(rk) by {
            lemma_gather_kernel(m, y, piv, cols);
            lemma_scatter_entries(y, piv, cols);
            let x = scatter(y, piv, cols);
            assert(is_solution(av, zr, x, cols));
            assert forall|c: int| 0 <= c < cols && wp[c] == usize::MAX implies #[trigger] x[c] == 0 by {
                if piv.contains(c as usize) {
                    let e = choose|e: int| 0 <= e < piv.len() && piv[e] == c as usize;
                    assert(piv[e] as int == pc[e]);
                    assert(pc[e] == c);
                    assert(wp[pc[e]] == e);
                }
            }
            assert forall|p: int| 0 <= p < rk implies y[p] == zeros(rk)[p] by {
                lemma_pivot_row_reads(av, cols, rk, pc, wp, x, p);
                assert(dot(av[p], x, cols) == zr[p]);
                assert(x[piv[p] as int] == y[p]);
                assert(piv[p] as int == pc[p]);
            }
            assert(y =~= zeros(rk));
        }
    }
    // Any more columns are dependent: below row `rk` the reduced form is zero.
    assert forall|s: Seq<usize>| s.len() > rk && positions_ok(s, cols) implies #[trigger] dependent_cols(m, s) by {
        let g = gather_cols(av, s);
        let top = g.take(rk as int);
        assert(wide_enough(top, s.len()));
        let y = lemma_wide_kernel(top, s.len());
        assert(in_kernel(g, y, s.len())) by {
            assert forall|r: int| 0 <= r < g.len() implies #[trigger] dot(g[r], y, s.len()) == zeros(g.len())[r] by {
                if r < rk {
                    assert(top[r] == g[r]);
                    assert(dot(top[r], y, s.len()) == zeros(top.len())[r]);
                } else {
                    assert forall|j: int| 0 <= j < s.len() && j != -1 implies #[trigger] gf_mul(g[r][j], y[j])
                        == 0 by {
                        assert(g[r][j] == av[r][s[j] as int]);
                        lemma_mul_zero(y[j]);
                    }
                    lemma_dot_single(g[r], y, s.len(), -1);
                }
            }
        }
        lemma_gather_kernel(av, y, s, cols);
        lemma_gather_kernel(m, y, s, cols);
        assert(is_solution(m, zr, scatter(y, s, cols), cols));
    }
}

/// In a reduced system, pivot row `p` reads off `x[pc[p]]` when `x` vanishes on the columns
/// without a pivot.
proof fn lemma_pivot_row_reads(
    a: Seq<Seq<u8>>,
    cols: nat,
    rank: nat,
    pc: Seq<int>,
    wp: Seq<usize>,
    x: Seq<u8>,
    p: int,
)
    requires
        reduced(a, cols, cols, rank, pc, wp),
        wide_enough(a, cols),
        forall|c: int| 0 <= c < cols && wp[c] == usize::MAX ==> #[trigger] x[c] == 0,
        0 <= p < rank,
    ensures
        dot(a[p], x, cols) == x[pc[p]],
{
    assert forall|j: int| 0 <= j < cols && j != pc[p] implies #[trigger] gf_mul(a[p][j], x[j])
        == 0 by {
        if wp[j] != usize::MAX {
            let q = wp[j] as int;
            assert(pc[q] == j);
            assert(a[p][pc[q]] == 0);
            lemma_mul_zero(x[j]);
        } else {
            assert(x[j] == 0);
            lemma_mul_zero(a[p][j]);
        }
    }
    lemma_dot_single(a[p], x, cols, pc[p]);
    crate::gf256::lemma_mul_one(x[pc[p]]);
}

// ---------------------------------------------------------------------------
// Erasure recovery against an arbitrary parity-check matrix.
// ---------------------------------------------------------------------------

/// The received word with its erased positions zeroed.
pub open spec fn known_part(cw: Seq<u8>, erased: Seq<usize>) -> Seq<u8> {
    Seq::new(cw.len(), |j: int| if erased.contains(j as usize) { 0u8 } else { cw[j] })
}

/// The received word with the erased positions filled by `y` (in the order of `erased`).
pub open spec fn fill(cw: Seq<u8>, erased: Seq<usize>, y: Seq<u8>) -> Seq<u8> {
    vadd(known_part(cw, erased), scatter(y, erased, cw.len()), cw.len())
}

/// The syndrome of the known part: what the erased columns must reproduce.
pub open spec fn syndrome(h: Seq<Seq<u8>>, cw: Seq<u8>, erased: Seq<usize>, n: nat) -> Seq<u8> {
    Seq::new(h.len(), |i: int| dot(h[i], known_part(cw, erased), n))
}

proof fn lemma_fill(h: Seq<Seq<u8>>, n: nat, cw: Seq<u8>, erased: Seq<usize>, y: Seq<u8>)
    requires
        n <= usize::MAX,
        positions_ok(erased, n),
        cw.len() == n,
        y.len() == erased.len(),
    ensures
        agrees_outside(fill(cw, erased, y), cw, erased),
        forall|e: int|
            0 <= e < erased.len() ==> #[trigger] fill(cw, erased, y)[erased[e] as int] == y[e],
        gather(fill(cw, erased, y), erased) == y,
        in_kernel(h, fill(cw, erased, y), n) <==> is_solution(
            gather_cols(h, erased),
            syndrome(h, cw, erased, n),
            y,
            erased.len(),
        ),
{
    let kp = known_part(cw, erased);
    let sc = scatter(y, erased, n);
    let fl = fill(cw, erased, y);
    lemma_scatter_entries(y, erased, n);
    assert forall|e: int| 0 <= e < erased.len() implies #[trigger] fl[erased[e] as int] == y[e] by {
        assert(erased.contains(erased[e]));
        lemma_xor_facts(y[e], 0, 0, 0);
    }
    assert forall|j: int| 0 <= j < cw.len() && !erased.contains(j as usize) implies #[trigger] fl[j]
        == cw[j] by {
        lemma_xor_facts(cw[j], 0, 0, 0);
    }
    assert(gather(fl, erased) =~= y);
    let g = gather_cols(h, erased);
    let syn = syndrome(h, cw, erased, n);
    assert forall|i: int| 0 <= i < h.len() implies #[trigger] dot(h[i], fl, n) == syn[i] ^ dot(
        g[i],
        y,
        erased.len(),
    ) by {
        lemma_dot_vadd(h[i], kp, sc, fl, n);
        lemma_scatter_dot(h[i], y, erased, n);
        assert(g[i] =~= Seq::new(erased.len(), |e: int| h[i][erased[e] as int]));
    }
    if in_kernel(h, fl, n) {
        assert forall|i: int| 0 <= i < g.len() implies #[trigger] dot(g[i], y, erased.len())
            == syn[i] by {
            assert(dot(h[i], fl, n) == zeros(h.len())[i]);
            lemma_xor_facts(syn[i], dot(g[i], y, erased.len()), 0, 0);
        }
    }
    if is_solution(g, syn, y, erased.len()) {
        assert forall|i: int| 0 <= i < h.len() implies #[trigger] dot(h[i], fl, n) == zeros(
            h.len(),
        )[i] by {
            assert(dot(g[i], y, erased.len()) == syn[i]);
            lemma_xor_facts(syn[i], syn[i], 0, 0);
        }
    }
}

proof fn lemma_fill_gather(n: nat, cw: Seq<u8>, erased: Seq<usize>, c: Seq<u8>)
    requires
        n <= usize::MAX,
        positions_ok(erased, n),
        cw.len() == n,
        agrees_outside(c, cw, erased),
    ensures
        fill(cw, erased, gather(c, erased)) == c,
{
    let y = gather(c, erased);
    let fl = fill(cw, erased, y);
    lemma_scatter_entries(y, erased, n);
    assert forall|j: int| 0 <= j < n implies #[trigger] fl[j] == c[j] by {
        if erased.contains(j as usize) {
            let e = choose|e: int| 0 <= e < erased.len() && erased[e] == j as usize;
            assert(scatter(y, erased, n)[erased[e] as int] == y[e]);
            lemma_xor_facts(c[j], 0, 0, 0);
        } else {
            lemma_xor_facts(cw[j], 0, 0, 0);
        }
    }
    assert(fl =~= c);
}

/// Erasure positions listed twice make the filling ambiguous.
proof fn lemma_duplicate_not_unique(g: Seq<Seq<u8>>, b: Seq<u8>, erased: Seq<usize>, h: Seq<Seq<u8>>)
    requires
        !erased.no_duplicates(),
        g == gather_cols(h, erased),
        b.len() == g.len(),
    ensures
        !has_unique_solution(g, b, erased.len()),
{
    let (e1, e2) = choose|e1: int, e2: int|
        0 <= e1 < erased.len() && 0 <= e2 < erased.len() && e1 != e2 && erased[e1] == erased[e2];
    let m = erased.len();
    let z = zeros(m).update(e1, 1u8).update(e2, 1u8);
    assert forall|i: int| 0 <= i < g.len() implies #[trigger] dot(g[i], z, m) == zeros(g.len())[i] by {
        crate::gf256::lemma_mul_one(g[i][e1]);
        crate::gf256::lemma_mul_one(g[i][e2]);
        assert forall|j: int| 0 <= j < m && j != e1 && j != e2 implies #[trigger] gf_mul(
            g[i][j],
            z[j],
        ) == 0 by {
            lemma_mul_zero(g[i][j]);
        }
        lemma_dot_pair(g[i], z, m, e1, e2);
    }
    assert(z[e1] != zeros(m)[e1]);
    lemma_not_unique(g, b, z, m);
}

/// Erasure recovery by Gaussian elimination on the erased columns of a parity-check matrix
/// `h` (each row at least `n` long) for words of length `n`: returns the unique codeword that
/// agrees with `cw` outside `erased`, or `None` when there is not exactly one (or when a
/// position is listed twice). With nothing erased, `cw` itself is returned.
pub(crate) fn recover_with(
    f: &Gf256,
    h: &Vec<Vec<u8>>,
    n: usize,
    cw: &[u8],
    erased: &[usize],
) -> (r: Option<Vec<u8>>)
    requires
        wide_enough(rows_view(h@), n as nat),
        cw.len() == n,
        forall|e: int| 0 <= e < erased.len() ==> #[trigger] erased[e] < n,
    ensures
        erased.len() == 0 ==> (r matches Some(c) && c@ == cw@),
        erased.len() > 0 ==> (r is Some <==> uniquely_recoverable(
            rows_view(h@),
            n as nat,
            cw@,
            erased@,
        )),
        erased.len() > 0 ==> (r matches Some(c) ==> is_completion(
            rows_view(h@),
            n as nat,
            cw@,
            erased@,
            c@,
        )),
        erased.len() == h.len() && erased@.no_duplicates() && kernel_trivial(
            gather_cols(rows_view(h@), erased@),
            erased.len() as nat,
        ) ==> r is Some,
{
    if erased.len() == 0 {
        return Some(copy_bytes(cw));
    }
    let ghost hv = rows_view(h@);
    let ghost ev = erased@;
    let ghost kp = known_part(cw@, ev);
    let rows = h.len();
    let m = erased.len();
    let mut is_erased: Vec<bool> = vec![false; n];
    let mut k: usize = 0;
    while k < m
        invariant
            k <= m,
            m == erased.len(),
            is_erased@.len() == n,
            forall|e: int| 0 <= e < erased.len() ==> #[trigger] erased[e] < n,
            forall|j: int|
                0 <= j < n ==> (#[trigger] is_erased@[j] <==> erased@.subrange(0, k as int).contains(
                    j as usize,
                )),
        decreases m - k,
    {
        let e = erased[k];
        is_erased.set(e, true);
        proof {
            assert forall|j: int| 0 <= j < n implies (#[trigger] is_erased@[j]
                <==> erased@.subrange(0, k + 1).contains(j as usize)) by {
                if erased@.subrange(0, k as int).contains(j as usize) {
                    let w = choose|w: int|
                        0 <= w < k && erased@.subrange(0, k as int)[w] == j as usize;
                    assert(erased@.subrange(0, k + 1)[w] == j as usize);
                }
                let s1 = erased@.subrange(0, k + 1);
                if s1.contains(j as usize) {
                    let w = choose|w: int| 0 <= w < s1.len() && s1[w] == j as usize;
                    if w < k {
                        assert(erased@.subrange(0, k as int)[w] == j as usize);
                    }
                }
                if j == e as int {
                    assert(erased@.subrange(0, k + 1)[k as int] == e);
                }
            }
        }
        k += 1;
    }
    assert(erased@.subrange(0, m as int) =~= ev);
    let mut a: Vec<Vec<u8>> = Vec::new();
    let mut b: Vec<u8> = Vec::new();
    let mut i: usize = 0;
    while i < rows
        invariant
            i <= rows,
            rows == h.len(),
            m == erased.len(),
            ev == erased@,
            hv == rows_view(h@),
            kp == known_part(cw@, ev),
            cw.len() == n,
            is_erased@.len() == n,
            wide_enough(hv, n as nat),
            forall|e: int| 0 <= e < erased.len() ==> #[trigger] erased[e] < n,
            forall|j: int| 0 <= j < n ==> (#[trigger] is_erased@[j] <==> ev.contains(j as usize)),
            a@.len() == i,
            b@.len() == i,
            forall|q: int| 0 <= q < i ==> #[trigger] a@[q]@ == gather_cols(hv, ev)[q],
            forall|q: int| 0 <= q < i ==> #[trigger] b@[q] == syndrome(hv, cw@, ev, n as nat)[q],
        decreases rows - i,
    {
        assert(hv[i as int] == h@[i as int]@);
        let mut row: Vec<u8> = Vec::new();
        let mut e: usize = 0;
        while e < m
            invariant
                e <= m,
                m == erased.len(),
                i < rows,
                rows == h.len(),
                hv == rows_view(h@),
                wide_enough(hv, n as nat),
                forall|e: int| 0 <= e < erased.len() ==> #[trigger] erased[e] < n,
                row@.len() == e,
                hv[i as int] == h@[i as int]@,
                forall|t: int| 0 <= t < e ==> #[trigger] row@[t] == hv[i as int][erased@[t] as int],
            decreases m - e,
        {
            row.push(h[i][erased[e]]);
            e += 1;
        }
        let mut acc: u8 = 0;
        let mut j: usize = 0;
        while j < n
            invariant
                j <= n,
                i < rows,
                rows == h.len(),
                hv == rows_view(h@),
                wide_enough(hv, n as nat),
                cw.len() == n,
                is_erased@.len() == n,
                kp == known_part(cw@, ev),
                forall|j: int| 0 <= j < n ==> (#[trigger] is_erased@[j] <==> ev.contains(j as usize)),
                acc == dot(hv[i as int], kp, j as nat),
            decreases n - j,
        {
            proof {
                lemma_mul_zero(hv[i as int][j as int]);
                lemma_xor_facts(acc, 0, 0, 0);
            }
            if !is_erased[j] {
                let t = f.mul(h[i][j], cw[j]);
                acc = crate::gf256::add(acc, t);
            }
            j += 1;
        }
        proof {
            assert(row@ =~= gather_cols(hv, ev)[i as int]);
        }
        a.push(row);
        b.push(acc);
        i += 1;
    }
    let ghost g = gather_cols(hv, ev);
    let ghost syn = syndrome(hv, cw@, ev, n as nat);
    assert(rows_view(a@) =~= g);
    assert(b@ =~= syn);
    assert(wide_enough(g, m as nat));
    let sol = solve(f, a.as_mut_slice(), b.as_mut_slice(), m);
    proof {
        if ev.no_duplicates() {
            assert(positions_ok(ev, n as nat));
            // unique solution <==> unique completion
            if has_unique_solution(g, syn, m as nat) {
                let y = choose|y: Seq<u8>|
                    #[trigger] is_solution(g, syn, y, m as nat) && forall|y2: Seq<u8>|
                        #[trigger] is_solution(g, syn, y2, m as nat) ==> y2 == y;
                lemma_fill(hv, n as nat, cw@, ev, y);
                let c = fill(cw@, ev, y);
                assert(is_completion(hv, n as nat, cw@, ev, c));
                assert forall|c2: Seq<u8>| #[trigger] is_completion(hv, n as nat, cw@, ev, c2) implies c2
                    == c by {
                    lemma_fill_gather(n as nat, cw@, ev, c2);
                    lemma_fill(hv, n as nat, cw@, ev, gather(c2, ev));
                    assert(is_solution(g, syn, gather(c2, ev), m as nat));
                }
                assert(uniquely_recoverable(hv, n as nat, cw@, ev));
            }
            if uniquely_recoverable(hv, n as nat, cw@, ev) {
                let c = choose|c: Seq<u8>|
                    #[trigger] is_completion(hv, n as nat, cw@, ev, c) && forall|c2: Seq<u8>|
                        #[trigger] is_completion(hv, n as nat, cw@, ev, c2) ==> c2 == c;
                lemma_fill_gather(n as nat, cw@, ev, c);
                let y = gather(c, ev);
                lemma_fill(hv, n as nat, cw@, ev, y);
                assert(is_solution(g, syn, y, m as nat));
                assert forall|y2: Seq<u8>| #[trigger] is_solution(g, syn, y2, m as nat) implies y2
                    == y by {
                    lemma_fill(hv, n as nat, cw@, ev, y2);
                    assert(is_completion(hv, n as nat, cw@, ev, fill(cw@, ev, y2)));
                }
                assert(has_unique_solution(g, syn, m as nat));
            }
        } else {
            lemma_duplicate_not_unique(g, syn, ev, hv);
        }
    }
    match sol {
        None => None,
        Some(y) => {
            proof {
                if !ev.no_duplicates() {
                    lemma_duplicate_not_unique(g, syn, ev, hv);
                }
                assert(positions_ok(ev, n as nat));
                lemma_fill(hv, n as nat, cw@, ev, y@);
            }
            let ghost target = fill(cw@, ev, y@);
            let mut out = copy_bytes(cw);
            let mut e: usize = 0;
            while e < m
                invariant
                    e <= m,
                    m == erased.len(),
                    ev == erased@,
                    y@.len() == m,
                    out@.len() == n,
                    cw.len() == n,
                    positions_ok(ev, n as nat),
                    agrees_outside(target, cw@, ev),
                    forall|t: int| 0 <= t < m ==> #[trigger] target[ev[t] as int] == y@[t],
                    forall|t: int| 0 <= t < e ==> #[trigger] out@[ev[t] as int] == y@[t],
                    forall|j: int|
                        0 <= j < n && !ev.subrange(0, e as int).contains(j as usize) ==> #[trigger] out@[j]
                            == cw@[j],
                decreases m - e,
            {
                let pos = erased[e];
                out.set(pos, y[e]);
                proof {
                    assert forall|t: int| 0 <= t < e + 1 implies #[trigger] out@[ev[t] as int] == y@[t] by {
                        if t < e {
                            assert(ev[t] != ev[e as int]);
                        }
                    }
                    assert forall|j: int|
                        0 <= j < n && !ev.subrange(0, e + 1).contains(j as usize) implies #[trigger] out@[j]
                            == cw@[j] by {
                        assert(ev.subrange(0, e + 1)[e as int] == pos);
                        if ev.subrange(0, e as int).contains(j as usize) {
                            let w = choose|w: int|
                                0 <= w < e && ev.subrange(0, e as int)[w] == j as usize;
                            assert(ev.subrange(0, e + 1)[w] == j as usize);
                        }
                    }
                }
                e += 1;
            }
            proof {
                assert(ev.subrange(0, m as int) =~= ev);
                assert forall|j: int| 0 <= j < n implies #[trigger] out@[j] == target[j] by {
                    if ev.contains(j as usize) {
                        let t = choose|t: int| 0 <= t < m && ev[t] == j as usize;
                        assert(out@[ev[t] as int] == y@[t]);
                    }
                }
                assert(out@ =~= target);
            }
            Some(out)
        },
    }
}

// ---------------------------------------------------------------------------
// Vandermonde parity checks.
// ---------------------------------------------------------------------------

/// Row `r` of the shifted Vandermonde matrix over `pts`: `pts[j]^(off + r)`.
pub open spec fn vander_row(pts: Seq<u8>, off: nat, r: nat) -> Seq<u8> {
    Seq::new(pts.len(), |j: int| gf_pow(pts[j], off + r))
}

/// The `rows x pts.len()` shifted Vandermonde matrix `V[r][j] = pts[j]^(off + r)`.
pub open spec fn vandermonde(pts: Seq<u8>, off: nat, rows: nat) -> Seq<Seq<u8>> {
    Seq::new(rows, |r: int| vander_row(pts, off, r as nat))
}

/// Distinct evaluation points, all nonzero unless the power window starts at 0.
pub open spec fn points_ok(pts: Seq<u8>, off: nat) -> bool {
    &&& pts.no_duplicates()
    &&& off == 0 || forall|j: int| 0 <= j < pts.len() ==> #[trigger] pts[j] != 0
}

proof fn lemma_gf_pow_nonzero(a: u8, e: nat)
    requires
        a != 0 || e == 0,
    ensures
        gf_pow(a, e) != 0,
    decreases e,
{
    if e > 0 {
        lemma_gf_pow_nonzero(a, (e - 1) as nat);
        crate::gf256::lemma_no_zero_divisors(gf_pow(a, (e - 1) as nat), a);
    }
}

proof fn lemma_vander_shift(pts: Seq<u8>, off: nat, r: nat, x: Seq<u8>, q: u8)
    ensures
        dot(
            vander_row(pts, off, r),
            Seq::new(pts.len(), |j: int| gf_mul(x[j], pts[j] ^ q)),
            pts.len(),
        ) == dot(vander_row(pts, off, r + 1), x, pts.len()) ^ gf_mul(
            q,
            dot(vander_row(pts, off, r), x, pts.len()),
        ),
{
    let n = pts.len();
    let vr = vander_row(pts, off, r);
    let vr1 = vander_row(pts, off, r + 1);
    let x2 = Seq::new(pts.len(), |j: int| gf_mul(x[j], pts[j] ^ q));
    let comb = Seq::new(n, |j: int| vr1[j] ^ gf_mul(q, vr[j]));
    lemma_dot_combine(vr1, vr, comb, q, x, n);
    assert forall|j: int| 0 <= j < n implies #[trigger] gf_mul(comb[j], x[j]) == gf_mul(
        vr[j],
        x2[j],
    ) by {
        let p = pts[j];
        let pw = gf_pow(p, off + r);
        let d = p ^ q;
        assert(vr1[j] == gf_mul(pw, p));
        crate::gf256::lemma_mul_comm(q, pw);
        crate::gf256::lemma_mul_distrib(pw, p, q);
        assert(comb[j] == gf_mul(pw, d));
        crate::gf256::lemma_mul_assoc(pw, d, x[j]);
        crate::gf256::lemma_mul_comm(d, x[j]);
    }
    lemma_dot_terms(comb, x, vr, x2, n);
}

/// Any `s.len() <= rows` columns of a shifted Vandermonde matrix over good points are
/// linearly independent: a kernel vector supported on them is zero.
pub proof fn lemma_vandermonde(pts: Seq<u8>, off: nat, rows: nat, x: Seq<u8>, s: Seq<usize>)
    requires
        points_ok(pts, off),
        pts.len() <= usize::MAX,
        positions_ok(s, pts.len()),
        s.len() <= rows,
        x.len() == pts.len(),
        supported_in(x, s),
        in_kernel(vandermonde(pts, off, rows), x, pts.len()),
    ensures
        x == zeros(pts.len()),
    decreases s.len(),
{
    let n = pts.len();
    if s.len() == 0 {
        assert forall|j: int| 0 <= j < n implies x[j] == zeros(n)[j] by {
            assert(!s.contains(j as usize));
        }
        assert(x =~= zeros(n));
    } else {
        let m = (s.len() - 1) as int;
        let jm = s.last() as int;
        let q = pts[jm];
        let s2 = s.drop_last();
        let x2 = Seq::new(n, |j: int| gf_mul(x[j], pts[j] ^ q));
        let v = vandermonde(pts, off, rows);
        let v2 = vandermonde(pts, off, (rows - 1) as nat);
        assert(positions_ok(s2, n)) by {
            assert forall|a: int, b: int| 0 <= a < b < s2.len() implies s2[a] != s2[b] by {
                assert(s[a] != s[b]);
            }
        }
        assert forall|j: int| 0 <= j < n && !s2.contains(j as usize) implies #[trigger] x2[j] == 0 by {
            if j == jm {
                lemma_xor_facts(q, 0, 0, 0);
                lemma_mul_zero(x[j]);
            } else {
                assert(!s.contains(j as usize)) by {
                    if s.contains(j as usize) {
                        let e = choose|e: int| 0 <= e < s.len() && s[e] == j as usize;
                        if e < m {
                            assert(s2[e] == j as usize);
                        }
                    }
                }
                assert(x[j] == 0);
                lemma_mul_zero(pts[j] ^ q);
            }
        }
        assert forall|r: int| 0 <= r < v2.len() implies #[trigger] dot(v2[r], x2, n) == zeros(
            v2.len(),
        )[r] by {
            lemma_vander_shift(pts, off, r as nat, x, q);
            assert(v2[r] == vander_row(pts, off, r as nat));
            assert(v[r] == vander_row(pts, off, r as nat));
            assert(v[r + 1] == vander_row(pts, off, (r + 1) as nat));
            assert(dot(v[r], x, n) == zeros(v.len())[r]);
            assert(dot(v[r + 1], x, n) == zeros(v.len())[r + 1]);
            lemma_mul_zero(q);
            lemma_xor_facts(0, 0, 0, 0);
        }
        lemma_vandermonde(pts, off, (rows - 1) as nat, x2, s2);
        // x vanishes everywhere but at jm
        assert forall|j: int| 0 <= j < n && j != jm implies #[trigger] x[j] == 0 by {
            if s.contains(j as usize) {
                let e = choose|e: int| 0 <= e < s.len() && s[e] == j as usize;
                assert(e != m);
                assert(pts[j] != q) by {
                    assert(pts[j] != pts[jm]);
                }
                assert(pts[j] ^ q != 0) by {
                    lemma_xor_facts(pts[j], q, 0, 0);
                }
                assert(x2[j] == zeros(n)[j]);
                crate::gf256::lemma_no_zero_divisors(x[j], pts[j] ^ q);
            }
        }
        // row 0 reads off x[jm] * q^off
        let v0 = vander_row(pts, off, 0);
        assert(v[0] == v0);
        assert(dot(v[0], x, n) == zeros(v.len())[0]);
        assert forall|j: int| 0 <= j < n && j != jm implies #[trigger] gf_mul(v0[j], x[j]) == 0 by {
            lemma_mul_zero(v0[j]);
        }
        lemma_dot_single(v0, x, n, jm);
        lemma_gf_pow_nonzero(q, off);
        crate::gf256::lemma_no_zero_divisors(v0[jm], x[jm]);
        assert(x =~= zeros(n));
    }
}

/// The columns `idx` (at most `rows` of them) of a Vandermonde matrix over good points are
/// linearly independent.
pub proof fn lemma_vandermonde_columns(pts: Seq<u8>, off: nat, rows: nat, idx: Seq<usize>)
    requires
        points_ok(pts, off),
        pts.len() <= usize::MAX,
        positions_ok(idx, pts.len()),
        idx.len() <= rows,
    ensures
        kernel_trivial(gather_cols(vandermonde(pts, off, rows), idx), idx.len()),
{
    let n = pts.len();
    let v = vandermonde(pts, off, rows);
    assert forall|y: Seq<u8>| #[trigger] in_kernel(gather_cols(v, idx), y, idx.len()) implies y
        == zeros(idx.len()) by {
        lemma_gather_kernel(v, y, idx, n);
        lemma_scatter_entries(y, idx, n);
        lemma_vandermonde(pts, off, rows, scatter(y, idx, n), idx);
        assert forall|e: int| 0 <= e < idx.len() implies y[e] == zeros(idx.len())[e] by {
            assert(scatter(y, idx, n)[idx[e] as int] == y[e]);
        }
        assert(y =~= zeros(idx.len()));
    }
}

// ---------------------------------------------------------------------------
// GRS codes.
// ---------------------------------------------------------------------------

/// A GRS/RS code given by a `rho x n0` shifted-Vandermonde parity check over distinct points.
/// Positions `0..k0` are data, `k0..n0` parity.
pub struct Grs {
    pub n0: usize,
    pub k0: usize,
    pub rho: usize,
    /// `h[r][j] = points[j]^(offset + r)`.
    pub h: Vec<Vec<u8>>,
    /// The evaluation points, one per coordinate.
    pub pts: Ghost<Seq<u8>>,
    /// The first power of the parity-check window.
    pub off: Ghost<nat>,
}

/// The positions `from, from + 1, ..., to - 1`.
pub open spec fn position_range(from: nat, to: nat) -> Seq<usize> {
    Seq::new((to - from) as nat, |e: int| (from + e) as usize)
}

impl Grs {
    /// The parity-check matrix.
    pub open spec fn hmat(&self) -> Seq<Seq<u8>> {
        rows_view(self.h@)
    }

    /// The evaluation points, one per coordinate.
    pub open spec fn points(&self) -> Seq<u8> {
        self.pts@
    }

    /// The first power of the parity-check window.
    pub open spec fn offset(&self) -> nat {
        self.off@
    }

    /// Dimensions agree and the parity check is the shifted Vandermonde matrix over
    /// distinct points.
    pub open spec fn wf(&self) -> bool {
        &&& self.k0 <= self.n0 <= 255
        &&& self.rho == self.n0 - self.k0
        &&& self.points().len() == self.n0
        &&& self.points().no_duplicates()
        &&& self.hmat() == vandermonde(self.points(), self.offset(), self.rho as nat)
    }

    /// `c` is a codeword: `H c = 0` (for a well-formed code, `n0` is the number of points).
    pub open spec fn is_codeword(&self, c: Seq<u8>) -> bool {
        in_kernel(self.hmat(), c, self.points().len())
    }

    /// The last `rho` (parity) columns of `H` are linearly independent, so every data word
    /// has exactly one systematic codeword.
    pub open spec fn parity_independent(&self) -> bool {
        let n = self.points().len();
        let rho = self.hmat().len();
        kernel_trivial(gather_cols(self.hmat(), position_range((n - rho) as nat, n)), rho)
    }

    /// Build a GRS code over the `n0` distinct points `g^0 .. g^(n0-1)`.
    pub fn new(f: &Gf256, n0: usize, k0: usize) -> (g: Self)
        requires
            k0 <= n0 <= 255,
        ensures
            g.wf(),
            g.n0 == n0,
            g.k0 == k0,
            g.offset() == 0,
            points_ok(g.points(), g.offset()),
            forall|j: int| 0 <= j < n0 ==> #[trigger] g.points()[j] == pow_g(j as nat),
    {
        let mut points: Vec<u8> = Vec::new();
        let mut j: usize = 0;
        while j < n0
            invariant
                j <= n0,
                n0 <= 255,
                points@.len() == j,
                forall|t: int| 0 <= t < j ==> #[trigger] points@[t] == pow_g(t as nat),
            decreases n0 - j,
        {
            let p = f.exp_g(j);
            proof {
                assert(j % 255 == j || j == 255);
            }
            points.push(p);
            j += 1;
        }
        proof {
            assert forall|a: int, b: int|
                0 <= a < points@.len() && 0 <= b < points@.len() && a != b implies points@[a]
                != points@[b] by {
                crate::gf256::lemma_full_period(a as nat, b as nat, 0);
            }
        }
        Grs::with_points(f, points.as_slice(), k0)
    }

    /// Build a GRS code over distinct `points` with parity-check powers `0 .. rho-1`.
    pub fn with_points(f: &Gf256, points: &[u8], k0: usize) -> (g: Self)
        requires
            points.len() <= 255,
            k0 <= points.len(),
            points@.no_duplicates(),
        ensures
            g.wf(),
            g.n0 == points.len(),
            g.k0 == k0,
            g.points() == points@,
            g.offset() == 0,
    {
        Grs::with_points_offset(f, points, k0, 0)
    }

    /// Build a GRS code over distinct `points` whose parity-check rows use the shifted power
    /// window `offset .. offset + rho - 1`: `H[r][j] = points[j]^(offset + r)`.
    pub fn with_points_offset(f: &Gf256, points: &[u8], k0: usize, offset: usize) -> (g: Self)
        requires
            points.len() <= 255,
            k0 <= points.len(),
            points@.no_duplicates(),
            offset + (points.len() - k0) <= usize::MAX,
        ensures
            g.wf(),
            g.n0 == points.len(),
            g.k0 == k0,
            g.points() == points@,
            g.offset() == offset,
    {
        let n0 = points.len();
        let rho = n0 - k0;
        let ghost v = vandermonde(points@, offset as nat, rho as nat);
        let mut h: Vec<Vec<u8>> = Vec::new();
        let mut r: usize = 0;
        while r < rho
            invariant
                r <= rho,
                rho == n0 - k0,
                n0 == points.len(),
                offset + rho <= usize::MAX,
                v == vandermonde(points@, offset as nat, rho as nat),
                h@.len() == r,
                forall|q: int| 0 <= q < r ==> #[trigger] h@[q]@ == v[q],
            decreases rho - r,
        {
            let mut row: Vec<u8> = Vec::new();
            let mut j: usize = 0;
            while j < n0
                invariant
                    j <= n0,
                    r < rho,
                    n0 == points.len(),
                    offset + rho <= usize::MAX,
                    row@.len() == j,
                    forall|t: int| 0 <= t < j ==> #[trigger] row@[t] == gf_pow(
                        points@[t],
                        (offset + r) as nat,
                    ),
                decreases n0 - j,
            {
                let mut acc: u8 = 1;
                let mut t: usize = 0;
                while t < offset + r
                    invariant
                        t <= offset + r,
                        r < rho,
                        offset + rho <= usize::MAX,
                        j < n0,
                        n0 == points.len(),
                        acc == gf_pow(points@[j as int], t as nat),
                    decreases offset + r - t,
                {
                    acc = f.mul(acc, points[j]);
                    t += 1;
                }
                row.push(acc);
                j += 1;
            }
            proof {
                assert(row@ =~= v[r as int]);
            }
            h.push(row);
            r += 1;
        }
        proof {
            assert(rows_view(h@) =~= v);
        }
        Grs { n0, k0, rho, h, pts: Ghost(points@), off: Ghost(offset as nat) }
    }

    /// The full parity-check matrix (`rho x n0`).
    pub fn h(&self) -> (r: &[Vec<u8>])
        ensures
            rows_view(r@) == self.hmat(),
    {
        self.h.as_slice()
    }

    /// Column `j` of `H` (length `rho`): one coordinate's parity signature.
    pub fn column(&self, j: usize) -> (r: Vec<u8>)
        requires
            self.wf(),
            j < self.n0,
        ensures
            r@ == Seq::new(self.rho as nat, |i: int| self.hmat()[i][j as int]),
    {
        let mut r: Vec<u8> = Vec::new();
        let mut i: usize = 0;
        while i < self.h.len()
            invariant
                self.wf(),
                j < self.n0,
                i <= self.h@.len(),
                r@.len() == i,
                forall|t: int| 0 <= t < i ==> #[trigger] r@[t] == self.hmat()[t][j as int],
            decreases self.h@.len() - i,
        {
            assert(self.hmat()[i as int] == self.h@[i as int]@);
            assert(self.hmat().len() == self.h@.len());
            assert(vandermonde(self.points(), self.offset(), self.rho as nat).len() == self.rho);
            assert(i < self.rho);
            assert(self.hmat()[i as int] == vander_row(self.points(), self.offset(), i as nat));
            r.push(self.h[i][j]);
            i += 1;
        }
        proof {
            assert(self.h@.len() == self.hmat().len());
            assert(r@ =~= Seq::new(self.rho as nat, |i: int| self.hmat()[i][j as int]));
        }
        r
    }

    /// Erasure recovery: given a word `cw` (erased positions may hold anything) and the
    /// erased positions, return the unique codeword agreeing with `cw` elsewhere, or `None`
    /// when the pattern is not correctable. With nothing erased, `cw` is returned.
    pub fn recover(&self, f: &Gf256, cw: &[u8], erased: &[usize]) -> (r: Option<Vec<u8>>)
        requires
            self.wf(),
            cw.len() == self.n0,
            forall|e: int| 0 <= e < erased.len() ==> #[trigger] erased[e] < self.n0,
        ensures
            erased.len() == 0 ==> (r matches Some(c) && c@ == cw@),
            erased.len() > 0 ==> (r is Some <==> uniquely_recoverable(
                self.hmat(),
                self.n0 as nat,
                cw@,
                erased@,
            )),
            erased.len() > 0 ==> (r matches Some(c) ==> is_completion(
                self.hmat(),
                self.n0 as nat,
                cw@,
                erased@,
                c@,
            )),
            erased.len() == self.rho && erased@.no_duplicates() && kernel_trivial(
                gather_cols(self.hmat(), erased@),
                erased.len() as nat,
            ) ==> r is Some,
    {
        recover_with(f, &self.h, self.n0, cw, erased)
    }

    /// Systematic encode: the codeword of length `n0` whose first `k0` symbols are `data`
    /// (the `rho` parity symbols are solved for).
    pub fn encode_systematic(&self, f: &Gf256, data: &[u8]) -> (cw: Vec<u8>)
        requires
            self.wf(),
            self.parity_independent(),
            data.len() == self.k0,
        ensures
            cw@.len() == self.n0,
            cw@.subrange(0, self.k0 as int) == data@,
            self.is_codeword(cw@),
    {
        let n0 = self.n0;
        let k0 = self.k0;
        let mut erased: Vec<usize> = Vec::new();
        let mut e: usize = k0;
        while e < n0
            invariant
                k0 <= e <= n0,
                erased@ == position_range(k0 as nat, e as nat),
            decreases n0 - e,
        {
            erased.push(e);
            e += 1;
            proof {
                assert(erased@ =~= position_range(k0 as nat, e as nat));
            }
        }
        let mut cw: Vec<u8> = copy_bytes(data);
        let mut j: usize = k0;
        while j < n0
            invariant
                k0 <= j <= n0,
                cw@.len() == j,
                cw@.subrange(0, k0 as int) == data@,
            decreases n0 - j,
        {
            cw.push(0);
            j += 1;
            proof {
                assert(cw@.subrange(0, k0 as int) =~= data@);
            }
        }
        proof {
            let pr = position_range(k0 as nat, n0 as nat);
            assert(pr.no_duplicates()) by {
                assert forall|a: int, b: int| 0 <= a < b < pr.len() implies pr[a] != pr[b] by {}
            }
            assert(self.h@.len() == self.rho);
        }
        let r = recover_with(f, &self.h, n0, cw.as_slice(), erased.as_slice());
        match r {
            Some(c) => {
                proof {
                    if n0 > k0 {
                        assert forall|t: int| 0 <= t < k0 implies c@[t] == data@[t] by {
                            assert(!erased@.contains(t as usize));
                            assert(c@[t] == cw@[t]);
                            assert(cw@.subrange(0, k0 as int)[t] == cw@[t]);
                        }
                    }
                    assert(c@.subrange(0, k0 as int) =~= data@);
                }
                c
            },
            None => cw,
        }
    }
}

/// MDS property of GRS codes: for a codeword `c` and any `<= rho` distinct erased
/// positions, `c` is the only codeword agreeing with the received word outside them, so
/// `recover` returns exactly `c`.
pub proof fn lemma_grs_recovers_up_to_rho(g: &Grs, c: Seq<u8>, cw: Seq<u8>, erased: Seq<usize>)
    requires
        g.wf(),
        points_ok(g.points(), g.offset()),
        g.is_codeword(c),
        agrees_outside(c, cw, erased),
        positions_ok(erased, g.n0 as nat),
        erased.len() <= g.rho,
    ensures
        uniquely_recoverable(g.hmat(), g.n0 as nat, cw, erased),
        is_completion(g.hmat(), g.n0 as nat, cw, erased, c),
{
    let n = g.n0 as nat;
    let h = g.hmat();
    assert(is_completion(h, n, cw, erased, c));
    assert forall|c2: Seq<u8>| #[trigger] is_completion(h, n, cw, erased, c2) implies c2 == c by {
        let d = vadd(c, c2, n);
        crate::linalg::lemma_kernel_add(h, c, c2, n);
        assert forall|j: int| 0 <= j < d.len() && !erased.contains(j as usize) implies #[trigger] d[j]
            == 0 by {
            lemma_xor_facts(c[j], 0, 0, 0);
        }
        lemma_vandermonde(g.points(), g.offset(), g.rho as nat, d, erased);
        assert forall|j: int| 0 <= j < n implies c2[j] == c[j] by {
            assert(d[j] == zeros(n)[j]);
            lemma_xor_facts(c[j], c2[j], 0, 0);
        }
        assert(c2 =~= c);
    }
}

/// GRS codes over good points have independent parity columns, so systematic encoding
/// always succeeds.
pub proof fn lemma_grs_parity_independent(g: &Grs)
    requires
        g.wf(),
        points_ok(g.points(), g.offset()),
    ensures
        g.parity_independent(),
{
    let pr = position_range(g.k0 as nat, g.n0 as nat);
    assert(positions_ok(pr, g.n0 as nat)) by {
        assert forall|a: int, b: int| 0 <= a < b < pr.len() implies pr[a] != pr[b] by {}
    }
    lemma_vandermonde_columns(g.points(), g.offset(), g.rho as nat, pr);
}

// ---------------------------------------------------------------------------
// Minimum distance from a parity-check matrix.
// ---------------------------------------------------------------------------

/// Strictly increasing positions.
pub open spec fn increasing(s: Seq<usize>) -> bool {
    forall|a: int, b: int| 0 <= a < b < s.len() ==> s[a] < s[b]
}

/// `a` comes no later than `b` in lexicographic order.
pub open spec fn lex_le(a: Seq<usize>, b: Seq<usize>) -> bool {
    a == b || exists|i: int|
        #![trigger a.subrange(0, i), b.subrange(0, i)]
        0 <= i < a.len() && i < b.len() && a.subrange(0, i) == b.subrange(0, i) && a[i] < b[i]
}

/// The columns `idx` of `h` are linearly dependent.
pub open spec fn dependent_cols(h: Seq<Seq<u8>>, idx: Seq<usize>) -> bool {
    !kernel_trivial(gather_cols(h, idx), idx.len())
}

/// Some `t` distinct columns (positions below `n`) of `h` are linearly independent.
pub open spec fn has_independent_set(h: Seq<Seq<u8>>, n: nat, t: nat) -> bool {
    exists|s: Seq<usize>|
        #![trigger gather_cols(h, s)]
        s.len() == t && positions_ok(s, n) && kernel_trivial(gather_cols(h, s), t)
}

/// Some `t` columns (positions below `n`) of `h` are linearly dependent; equivalently some
/// nonzero codeword has weight at most `t`.
pub open spec fn has_dependent_set(h: Seq<Seq<u8>>, n: nat, t: nat) -> bool {
    exists|s: Seq<usize>|
        #![trigger dependent_cols(h, s)]
        s.len() == t && increasing(s) && (forall|e: int| 0 <= e < t ==> #[trigger] s[e] < n)
            && dependent_cols(h, s)
}

/// `s` (of length `t`) continues the first `depth` positions of `prefix` with positions
/// from `start` on, strictly increasing and below `n`.
pub open spec fn extends(
    s: Seq<usize>,
    prefix: Seq<usize>,
    depth: nat,
    start: nat,
    n: nat,
    t: nat,
) -> bool {
    &&& s.len() == t
    &&& depth <= t
    &&& s.subrange(0, depth as int) == prefix.subrange(0, depth as int)
    &&& increasing(s)
    &&& (depth < t ==> s[depth as int] >= start)
    &&& forall|e: int| 0 <= e < t ==> #[trigger] s[e] < n
}

/// The submatrix of `h` on the columns `idx`, built row by row.
fn gather_matrix(h: &[Vec<u8>], n0: usize, idx: &Vec<usize>) -> (sub: Vec<Vec<u8>>)
    requires
        wide_enough(rows_view(h@), n0 as nat),
        forall|e: int| 0 <= e < idx.len() ==> #[trigger] idx[e] < n0,
    ensures
        rows_view(sub@) == gather_cols(rows_view(h@), idx@),
{
    let ghost hv = rows_view(h@);
    let mut sub: Vec<Vec<u8>> = Vec::new();
    let mut i: usize = 0;
    while i < h.len()
        invariant
            i <= h.len(),
            hv == rows_view(h@),
            wide_enough(hv, n0 as nat),
            forall|e: int| 0 <= e < idx.len() ==> #[trigger] idx[e] < n0,
            sub@.len() == i,
            forall|q: int| 0 <= q < i ==> #[trigger] sub@[q]@ == gather_cols(hv, idx@)[q],
        decreases h.len() - i,
    {
        assert(hv[i as int] == h@[i as int]@);
        let mut row: Vec<u8> = Vec::new();
        let mut e: usize = 0;
        while e < idx.len()
            invariant
                e <= idx.len(),
                i < h.len(),
                hv == rows_view(h@),
                hv[i as int] == h@[i as int]@,
                wide_enough(hv, n0 as nat),
                forall|e: int| 0 <= e < idx.len() ==> #[trigger] idx[e] < n0,
                row@.len() == e,
                forall|t: int| 0 <= t < e ==> #[trigger] row@[t] == hv[i as int][idx@[t] as int],
            decreases idx.len() - e,
        {
            row.push(h[i][idx[e]]);
            e += 1;
        }
        proof {
            assert(row@ =~= gather_cols(hv, idx@)[i as int]);
        }
        sub.push(row);
        i += 1;
    }
    assert(rows_view(sub@) =~= gather_cols(hv, idx@));
    sub
}

/// Depth-first search over strictly increasing column subsets of size `idx.len()` that
/// continue `idx[..depth]` with positions from `start` below `n0`: is some such subset
/// linearly dependent? When it is, `idx` is left holding one.
fn subset_has_dependent(
    f: &Gf256,
    h: &[Vec<u8>],
    n0: usize,
    idx: &mut Vec<usize>,
    start: usize,
    depth: usize,
) -> (found: bool)
    requires
        wide_enough(rows_view(h@), n0 as nat),
        depth <= old(idx).len(),
        increasing(old(idx)@.subrange(0, depth as int)),
        forall|e: int| 0 <= e < depth ==> #[trigger] old(idx)@[e] < n0,
        forall|e: int| 0 <= e < depth ==> #[trigger] old(idx)@[e] < start,
    ensures
        final(idx)@.len() == old(idx)@.len(),
        final(idx)@.subrange(0, depth as int) == old(idx)@.subrange(0, depth as int),
        found == exists|s: Seq<usize>|
            #![trigger dependent_cols(rows_view(h@), s)]
            extends(s, old(idx)@, depth as nat, start as nat, n0 as nat, old(idx)@.len())
                && dependent_cols(rows_view(h@), s),
        found ==> extends(final(idx)@, old(idx)@, depth as nat, start as nat, n0 as nat, old(idx)@.len())
            && dependent_cols(rows_view(h@), final(idx)@),
        found ==> forall|s: Seq<usize>|
            #![trigger dependent_cols(rows_view(h@), s)]
            extends(s, old(idx)@, depth as nat, start as nat, n0 as nat, old(idx)@.len())
                && dependent_cols(rows_view(h@), s) ==> lex_le(final(idx)@, s),
    decreases old(idx)@.len() - depth,
{
    let ghost hv = rows_view(h@);
    let ghost t = idx@.len();
    let ghost pre = idx@;
    if depth == idx.len() {
        let sub = gather_matrix(h, n0, idx);
        proof {
            assert(pre.subrange(0, depth as int) =~= pre);
            if hv.len() == 0 {
                assert(rows_view(sub@).len() == 0);
            } else {
                assert(rows_view(sub@)[0] == gather_cols(hv, pre)[0]);
            }
        }
        let subs = sub.as_slice();
        let r = rank(f, subs);
        let found = r < idx.len();
        proof {
            let g = gather_cols(hv, pre);
            assert(subs@ == sub@);
            if hv.len() == 0 {
                // no rows: every vector is in the kernel
                if t > 0 {
                    let one = zeros(t).update(0, 1u8);
                    assert(in_kernel(g, one, t));
                    assert(one[0] != zeros(t)[0]);
                } else {
                    assert forall|x: Seq<u8>| #[trigger] in_kernel(g, x, t) implies x == zeros(t) by {
                        assert(x =~= zeros(t));
                    }
                }
            }
            assert(extends(pre, pre, depth as nat, start as nat, n0 as nat, t));
            assert forall|s: Seq<usize>|
                extends(s, pre, depth as nat, start as nat, n0 as nat, t) implies s == pre by {
                assert(s.subrange(0, depth as int) =~= s);
            }
            assert(found == dependent_cols(hv, pre));
            assert forall|s: Seq<usize>|
                #![trigger dependent_cols(hv, s)]
                extends(s, pre, depth as nat, start as nat, n0 as nat, t) && dependent_cols(hv, s)
                    implies lex_le(idx@, s) by {
                assert(s.subrange(0, depth as int) =~= s);
            }
        }
        return found;
    }
    let mut j = start;
    while j < n0
        invariant
            start <= j <= n0 || (start > n0 && j == start),
            depth < idx.len(),
            idx@.len() == t,
            t == pre.len(),
            pre == old(idx)@,
            idx@.subrange(0, depth as int) == pre.subrange(0, depth as int),
            hv == rows_view(h@),
            wide_enough(hv, n0 as nat),
            increasing(pre.subrange(0, depth as int)),
            forall|e: int| 0 <= e < depth ==> #[trigger] pre[e] < n0,
            forall|e: int| 0 <= e < depth ==> #[trigger] pre[e] < start,
            forall|s: Seq<usize>|
                #![trigger dependent_cols(hv, s)]
                extends(s, pre, depth as nat, start as nat, n0 as nat, t) && s[depth as int] < j
                    ==> !dependent_cols(hv, s),
        decreases n0 - j,
    {
        idx.set(depth, j);
        let ghost pre2 = idx@;
        proof {
            let p21 = pre2.subrange(0, depth + 1);
            assert(increasing(p21)) by {
                assert forall|a: int, b: int| 0 <= a < b < p21.len() implies #[trigger] p21[a]
                    < #[trigger] p21[b] by {
                    if b < depth {
                        assert(pre.subrange(0, depth as int)[a] < pre.subrange(0, depth as int)[b]);
                        assert(pre2[a] == pre.subrange(0, depth as int)[a]);
                        assert(pre2[b] == pre.subrange(0, depth as int)[b]);
                    } else {
                        assert(pre2[a] == pre.subrange(0, depth as int)[a]);
                        assert(pre[a] < start);
                    }
                }
            }
            assert forall|e: int| 0 <= e < depth + 1 implies #[trigger] pre2[e] < n0 by {
                if e < depth {
                    assert(pre2[e] == pre.subrange(0, depth as int)[e]);
                }
            }
            assert forall|e: int| 0 <= e < depth + 1 implies #[trigger] pre2[e] < j + 1 by {
                if e < depth {
                    assert(pre2[e] == pre.subrange(0, depth as int)[e]);
                }
            }
        }
        let found = subset_has_dependent(f, h, n0, idx, j + 1, depth + 1);
        if found {
            proof {
                let s = idx@;
                assert(s.subrange(0, depth as int) =~= pre.subrange(0, depth as int)) by {
                    assert forall|e: int| 0 <= e < depth implies s[e] == pre[e] by {
                        assert(s.subrange(0, depth + 1)[e] == pre2.subrange(0, depth + 1)[e]);
                        assert(pre2[e] == pre.subrange(0, depth as int)[e]);
                    }
                }
                assert(s[depth as int] == j) by {
                    assert(s.subrange(0, depth + 1)[depth as int] == pre2.subrange(0, depth + 1)[depth as int]);
                }
                assert(extends(s, pre, depth as nat, start as nat, n0 as nat, t));
                assert forall|s2: Seq<usize>|
                    #![trigger dependent_cols(hv, s2)]
                    extends(s2, pre, depth as nat, start as nat, n0 as nat, t) && dependent_cols(hv, s2)
                        implies lex_le(s, s2) by {
                    if s2[depth as int] < j {
                    } else if s2[depth as int] == j {
                        assert(s2.subrange(0, depth + 1) =~= pre2.subrange(0, depth + 1)) by {
                            assert forall|e: int| 0 <= e < depth + 1 implies s2[e] == pre2[e] by {
                                if e < depth {
                                    assert(s2.subrange(0, depth as int)[e] == pre.subrange(0, depth as int)[e]);
                                    assert(pre2[e] == pre.subrange(0, depth as int)[e]);
                                }
                            }
                        }
                        if depth + 1 < t {
                            assert(s2[depth + 1] > s2[depth as int]);
                        }
                        assert(extends(s2, pre2, (depth + 1) as nat, (j + 1) as nat, n0 as nat, t));
                    } else {
                        assert(s.subrange(0, depth as int) =~= s2.subrange(0, depth as int));
                        assert(s[depth as int] < s2[depth as int]);
                    }
                }
            }
            return true;
        }
        proof {
            assert forall|s: Seq<usize>|
                #![trigger dependent_cols(hv, s)]
                extends(s, pre, depth as nat, start as nat, n0 as nat, t) && s[depth as int] < j + 1
                    implies !dependent_cols(hv, s) by {
                if s[depth as int] == j {
                    assert(s.subrange(0, depth + 1) =~= pre2.subrange(0, depth + 1)) by {
                        assert forall|e: int| 0 <= e < depth + 1 implies s[e] == pre2[e] by {
                            if e < depth {
                                assert(s.subrange(0, depth as int)[e] == pre.subrange(0, depth as int)[e]);
                                assert(pre2[e] == pre.subrange(0, depth as int)[e]);
                            }
                        }
                    }
                    if depth + 1 < t {
                        assert(s[depth + 1] > s[depth as int]);
                    }
                    assert(extends(s, pre2, (depth + 1) as nat, (j + 1) as nat, n0 as nat, t));
                }
            }
        }
        j += 1;
    }
    proof {
        assert forall|s: Seq<usize>|
            #![trigger dependent_cols(hv, s)]
            extends(s, pre, depth as nat, start as nat, n0 as nat, t) implies !dependent_cols(hv, s) by {
            assert(s[depth as int] < n0);
        }
    }
    false
}

/// Empirical minimum distance of the code with parity-check matrix `h` (length `n0`): the
/// smallest number `d` of linearly dependent columns, searched for `d` up to `rows + 1` by
/// increasing size (so intended for small codes). Every erasure pattern of fewer than `d`
/// positions is recoverable.
pub fn min_distance_from_h(f: &Gf256, h: &[Vec<u8>], n0: usize) -> (d: usize)
    requires
        wide_enough(rows_view(h@), n0 as nat),
        h.len() < usize::MAX,
    ensures
        1 <= d <= h.len() + 1,
        forall|t: nat| 1 <= t < d ==> !#[trigger] has_dependent_set(rows_view(h@), n0 as nat, t),
        d <= h.len() ==> has_dependent_set(rows_view(h@), n0 as nat, d as nat),
{
    let rho = h.len();
    let upper = rho + 1;
    let mut t: usize = 1;
    while t <= upper
        invariant
            1 <= t <= upper + 1,
            upper == h.len() + 1,
            upper < usize::MAX || t <= upper,
            wide_enough(rows_view(h@), n0 as nat),
            forall|u: nat| 1 <= u < t ==> !#[trigger] has_dependent_set(rows_view(h@), n0 as nat, u),
        decreases upper + 1 - t,
    {
        let mut idx: Vec<usize> = vec![0usize; t];
        let ghost pre = idx@;
        proof {
            assert(increasing(pre.subrange(0, 0)));
        }
        let found = subset_has_dependent(f, h, n0, &mut idx, 0, 0);
        proof {
            let hv = rows_view(h@);
            assert forall|s: Seq<usize>|
                s.len() == t && increasing(s) && (forall|e: int| 0 <= e < t ==> #[trigger] s[e] < n0)
                    implies #[trigger] extends(s, pre, 0, 0, n0 as nat, t as nat) by {
                assert(s.subrange(0, 0) =~= pre.subrange(0, 0));
            }
            if found {
                let s = idx@;
                assert(has_dependent_set(hv, n0 as nat, t as nat));
            } else {
                if has_dependent_set(hv, n0 as nat, t as nat) {
                    let s = choose|s: Seq<usize>|
                        #![trigger dependent_cols(hv, s)]
                        s.len() == t && increasing(s) && (forall|e: int|
                            0 <= e < t ==> #[trigger] s[e] < n0) && dependent_cols(hv, s);
                    assert(extends(s, pre, 0, 0, n0 as nat, t as nat));
                }
            }
        }
        if found {
            return t;
        }
        if t == upper {
            return upper;
        }
        t += 1;
    }
    upper
}

/// A smallest linearly dependent set of columns of `h` (length `n0`), searched by increasing
/// size up to `rows + 1`: the support of a minimum-weight codeword, and the first such set
/// in lexicographic order. Returns an empty vector when no set of at most `rows + 1`
/// columns is dependent.
pub fn min_weight_support(f: &Gf256, h: &[Vec<u8>], n0: usize) -> (s: Vec<usize>)
    requires
        wide_enough(rows_view(h@), n0 as nat),
        h.len() < usize::MAX,
    ensures
        s.len() <= h.len() + 1,
        s.len() > 0 ==> increasing(s@) && (forall|e: int| 0 <= e < s.len() ==> #[trigger] s@[e] < n0)
            && dependent_cols(rows_view(h@), s@),
        s.len() > 0 ==> forall|s2: Seq<usize>|
            #![trigger dependent_cols(rows_view(h@), s2)]
            s2.len() == s.len() && increasing(s2) && (forall|e: int| 0 <= e < s2.len() ==> #[trigger] s2[e] < n0)
                && dependent_cols(rows_view(h@), s2) ==> lex_le(s@, s2),
        forall|t: nat|
            1 <= t <= h.len() + 1 && (s.len() == 0 || t < s.len()) ==> !#[trigger] has_dependent_set(
                rows_view(h@),
                n0 as nat,
                t,
            ),
{
    let rho = h.len();
    let upper = rho + 1;
    let mut t: usize = 1;
    while t <= upper
        invariant
            1 <= t <= upper + 1,
            upper == h.len() + 1,
            wide_enough(rows_view(h@), n0 as nat),
            forall|u: nat| 1 <= u < t ==> !#[trigger] has_dependent_set(rows_view(h@), n0 as nat, u),
        decreases upper + 1 - t,
    {
        let mut idx: Vec<usize> = vec![0usize; t];
        let ghost pre = idx@;
        proof {
            assert(increasing(pre.subrange(0, 0)));
        }
        let found = subset_has_dependent(f, h, n0, &mut idx, 0, 0);
        proof {
            let hv = rows_view(h@);
            assert forall|s: Seq<usize>|
                s.len() == t && increasing(s) && (forall|e: int| 0 <= e < t ==> #[trigger] s[e] < n0)
                    implies #[trigger] extends(s, pre, 0, 0, n0 as nat, t as nat) by {
                assert(s.subrange(0, 0) =~= pre.subrange(0, 0));
            }
            if !found {
                if has_dependent_set(hv, n0 as nat, t as nat) {
                    let s = choose|s: Seq<usize>|
                        #![trigger dependent_cols(hv, s)]
                        s.len() == t && increasing(s) && (forall|e: int|
                            0 <= e < t ==> #[trigger] s[e] < n0) && dependent_cols(hv, s);
                    assert(extends(s, pre, 0, 0, n0 as nat, t as nat));
                }
            } else {
                assert forall|s2: Seq<usize>|
                    #![trigger dependent_cols(hv, s2)]
                    s2.len() == idx@.len() && increasing(s2) && (forall|e: int|
                        0 <= e < s2.len() ==> #[trigger] s2[e] < n0) && dependent_cols(hv, s2) implies lex_le(
                    idx@,
                    s2,
                ) by {
                    assert(extends(s2, pre, 0, 0, n0 as nat, t as nat));
                }
            }
        }
        if found {
            return idx;
        }
        if t == upper {
            return Vec::new();
        }
        t += 1;
    }
    Vec::new()
}

/// The positions below `n` where `x` is nonzero, in increasing order.
pub open spec fn support_list(x: Seq<u8>, n: nat) -> Seq<usize>
    decreases n,
{
    if n == 0 {
        Seq::empty()
    } else {
        let rest = support_list(x, (n - 1) as nat);
        if x[n - 1] != 0 {
            rest.push((n - 1) as usize)
        } else {
            rest
        }
    }
}

/// The support list is increasing, lists exactly the nonzero positions below `n`.
pub proof fn lemma_support_list(x: Seq<u8>, n: nat)
    requires
        n <= usize::MAX,
    ensures
        increasing(support_list(x, n)),
        forall|e: int|
            0 <= e < support_list(x, n).len() ==> #[trigger] support_list(x, n)[e] < n && x[support_list(
                x,
                n,
            )[e] as int] != 0,
        forall|j: int| 0 <= j < n && x[j] != 0 ==> #[trigger] support_list(x, n).contains(j as usize),
    decreases n,
{
    if n > 0 {
        lemma_support_list(x, (n - 1) as nat);
        let rest = support_list(x, (n - 1) as nat);
        if x[n - 1] != 0 {
            let s = rest.push((n - 1) as usize);
            assert forall|j: int| 0 <= j < n && x[j] != 0 implies #[trigger] s.contains(j as usize) by {
                if j < n - 1 {
                    assert(rest.contains(j as usize));
                    let e = choose|e: int| 0 <= e < rest.len() && rest[e] == j as usize;
                    assert(s[e] == j as usize);
                } else {
                    assert(s[rest.len() as int] == j as usize);
                }
            }
        } else {
            assert forall|j: int| 0 <= j < n && x[j] != 0 implies #[trigger] rest.contains(j as usize) by {
                if j < n - 1 {
                    assert(rest.contains(j as usize));
                }
            }
        }
    }
}

/// Hamming weight of the first `n` symbols of `x`.
pub open spec fn weight(x: Seq<u8>, n: nat) -> nat
    decreases n,
{
    if n == 0 {
        0
    } else {
        weight(x, (n - 1) as nat) + (if x[n - 1] != 0 { 1nat } else { 0nat })
    }
}

/// The weight is the length of the support list.
pub proof fn lemma_weight_support(x: Seq<u8>, n: nat)
    ensures
        weight(x, n) == support_list(x, n).len(),
    decreases n,
{
    if n > 0 {
        lemma_weight_support(x, (n - 1) as nat);
    }
}

/// The weight only depends on the first `n` symbols.
pub proof fn lemma_weight_ext(x1: Seq<u8>, x2: Seq<u8>, n: nat)
    requires
        forall|j: int| 0 <= j < n ==> #[trigger] x1[j] == x2[j],
    ensures
        weight(x1, n) == weight(x2, n),
    decreases n,
{
    if n > 0 {
        lemma_weight_ext(x1, x2, (n - 1) as nat);
        assert(x1[n - 1] == x2[n - 1]);
    }
}

/// Splitting the first `a + m` symbols into the first `a` and the next `m`.
pub proof fn lemma_weight_concat(x: Seq<u8>, a: nat, m: nat)
    requires
        a + m <= x.len(),
    ensures
        weight(x, a + m) == weight(x, a) + weight(x.subrange(a as int, (a + m) as int), m),
    decreases m,
{
    if m > 0 {
        let m1 = (m - 1) as nat;
        lemma_weight_concat(x, a, m1);
        let s = x.subrange(a as int, (a + m) as int);
        let s1 = x.subrange(a as int, (a + m1) as int);
        lemma_weight_ext(s, s1, m1);
        assert(s[m - 1] == x[a + m - 1]);
        assert((a + m - 1) as nat == a + m1);
    }
}

/// A word vanishing outside the distinct positions `s` has weight at most `s.len()`.
pub proof fn lemma_weight_bound(x: Seq<u8>, n: nat, s: Seq<usize>)
    requires
        n <= usize::MAX,
        x.len() == n,
        positions_ok(s, n),
        supported_in(x, s),
    ensures
        weight(x, n) <= s.len(),
{
    lemma_weight_support(x, n);
    lemma_support_list(x, n);
    let sl = support_list(x, n);
    assert(sl.no_duplicates()) by {
        assert forall|a: int, b: int| 0 <= a < sl.len() && 0 <= b < sl.len() && a != b implies sl[a]
            != sl[b] by {
            if a < b {
                assert(sl[a] < sl[b]);
            } else {
                assert(sl[b] < sl[a]);
            }
        }
    }
    assert(sl.to_set().subset_of(s.to_set())) by {
        assert forall|p: usize| sl.to_set().contains(p) implies s.to_set().contains(p) by {
            let e = choose|e: int| 0 <= e < sl.len() && sl[e] == p;
            assert(x[p as int] != 0);
        }
    }
    sl.unique_seq_to_set();
    s.unique_seq_to_set();
    vstd::seq_lib::seq_to_set_is_finite(s);
    vstd::set_lib::lemma_len_subset(sl.to_set(), s.to_set());
}

/// Reading `x` at distinct positions cannot see more nonzero symbols than `x` has.
pub proof fn lemma_gather_weight(x: Seq<u8>, n: nat, s: Seq<usize>)
    requires
        n <= usize::MAX,
        s.len() <= usize::MAX,
        x.len() == n,
        positions_ok(s, n),
    ensures
        weight(gather(x, s), s.len()) <= weight(x, n),
{
    let g = gather(x, s);
    let m = s.len();
    lemma_weight_support(g, m);
    lemma_weight_support(x, n);
    lemma_support_list(g, m);
    lemma_support_list(x, n);
    let sg = support_list(g, m);
    let sx = support_list(x, n);
    assert(sg.no_duplicates()) by {
        assert forall|a: int, b: int| 0 <= a < sg.len() && 0 <= b < sg.len() && a != b implies sg[a]
            != sg[b] by {
            if a < b {
                assert(sg[a] < sg[b]);
            } else {
                assert(sg[b] < sg[a]);
            }
        }
    }
    assert(sx.no_duplicates()) by {
        assert forall|a: int, b: int| 0 <= a < sx.len() && 0 <= b < sx.len() && a != b implies sx[a]
            != sx[b] by {
            if a < b {
                assert(sx[a] < sx[b]);
            } else {
                assert(sx[b] < sx[a]);
            }
        }
    }
    let f = |e: usize| s[e as int];
    let a = sg.to_set();
    let b = sx.to_set();
    vstd::seq_lib::seq_to_set_is_finite(sg);
    vstd::seq_lib::seq_to_set_is_finite(sx);
    assert(vstd::relations::injective_on(f, a)) by {
        assert forall|e1: usize, e2: usize| a.contains(e1) && a.contains(e2) && #[trigger] f(e1) == #[trigger] f(e2)
            implies e1 == e2 by {
            let i1 = choose|i: int| 0 <= i < sg.len() && sg[i] == e1;
            let i2 = choose|i: int| 0 <= i < sg.len() && sg[i] == e2;
            assert(e1 < m && e2 < m);
        }
    }
    vstd::set_lib::lemma_map_size(a, a.map(f), f);
    assert(a.map(f).subset_of(b)) by {
        assert forall|q: usize| a.map(f).contains(q) implies b.contains(q) by {
            let e = choose|e: usize| a.contains(e) && f(e) == q;
            let i = choose|i: int| 0 <= i < sg.len() && sg[i] == e;
            assert(e < m);
            assert(g[e as int] != 0);
            let j = s[e as int] as int;
            assert(x[j] != 0);
            assert(sx.contains(j as usize));
        }
    }
    vstd::set_lib::lemma_len_subset(a.map(f), b);
    sg.unique_seq_to_set();
    sx.unique_seq_to_set();
}

/// A nonzero word has positive weight.
pub proof fn lemma_weight_nonzero(x: Seq<u8>, n: nat, j: int)
    requires
        0 <= j < n,
        x[j] != 0,
    ensures
        weight(x, n) >= 1,
    decreases n,
{
    if j < n - 1 {
        lemma_weight_nonzero(x, (n - 1) as nat, j);
    }
}

/// GRS codes are MDS: a nonzero codeword of the `rows`-row Vandermonde check over good
/// points has at least `rows + 1` nonzero symbols.
pub proof fn lemma_vander_weight(pts: Seq<u8>, off: nat, rows: nat, x: Seq<u8>)
    requires
        points_ok(pts, off),
        pts.len() <= usize::MAX,
        x.len() == pts.len(),
        in_kernel(vandermonde(pts, off, rows), x, pts.len()),
        x != zeros(pts.len()),
    ensures
        weight(x, pts.len()) >= rows + 1,
{
    let n = pts.len();
    lemma_weight_support(x, n);
    lemma_support_list(x, n);
    let sl = support_list(x, n);
    assert(positions_ok(sl, n)) by {
        assert forall|a: int, b: int| 0 <= a < sl.len() && 0 <= b < sl.len() && a != b implies sl[a]
            != sl[b] by {
            if a < b {
                assert(sl[a] < sl[b]);
            } else {
                assert(sl[b] < sl[a]);
            }
        }
    }
    assert(supported_in(x, sl)) by {
        assert forall|j: int| 0 <= j < x.len() && !sl.contains(j as usize) implies #[trigger] x[j] == 0 by {
            if x[j] != 0 {
                assert(sl.contains(j as usize));
            }
        }
    }
    if sl.len() <= rows {
        lemma_vandermonde(pts, off, rows, x, sl);
    }
}

/// GRS codes reach their distance: over good points with at least `rows + 1` of them,
/// some codeword of the `rows`-row Vandermonde check has exactly `rows + 1` nonzero
/// symbols.
pub proof fn lemma_vander_min_weight_codeword(pts: Seq<u8>, off: nat, rows: nat) -> (x: Seq<u8>)
    requires
        points_ok(pts, off),
        pts.len() <= usize::MAX,
        pts.len() >= rows + 1,
    ensures
        in_kernel(vandermonde(pts, off, rows), x, pts.len()),
        x != zeros(pts.len()),
        weight(x, pts.len()) == rows + 1,
{
    let n = pts.len();
    let v = vandermonde(pts, off, rows);
    let s = position_range(0, rows + 1);
    assert(positions_ok(s, n)) by {
        assert forall|a: int, b: int| 0 <= a < s.len() && 0 <= b < s.len() && a != b implies s[a] != s[b] by {}
    }
    let g = gather_cols(v, s);
    assert(wide_enough(g, rows + 1));
    let y = crate::linalg::lemma_wide_kernel(g, rows + 1);
    lemma_gather_kernel(v, y, s, n);
    lemma_scatter_entries(y, s, n);
    let x = scatter(y, s, n);
    assert(x != zeros(n)) by {
        let e = choose|e: int| 0 <= e < y.len() && y[e] != zeros(rows + 1)[e];
        assert(exists|e: int| 0 <= e < y.len() && y[e] != zeros(rows + 1)[e]) by {
            if !(exists|e: int| 0 <= e < y.len() && y[e] != zeros(rows + 1)[e]) {
                assert(y =~= zeros(rows + 1));
            }
        }
        assert(x[s[e] as int] == y[e]);
        assert(zeros(n)[s[e] as int] == 0);
    }
    lemma_weight_bound(x, n, s);
    lemma_vander_weight(pts, off, rows, x);
    x
}

/// The zero word has weight zero.
pub proof fn lemma_weight_zeros(n: nat)
    ensures
        weight(zeros(n), n) == 0,
    decreases n,
{
    lemma_weight_zeros_prefix(n, n);
}

proof fn lemma_weight_zeros_prefix(n: nat, m: nat)
    requires
        m <= n,
    ensures
        weight(zeros(n), m) == 0,
    decreases m,
{
    if m > 0 {
        lemma_weight_zeros_prefix(n, (m - 1) as nat);
    }
}

/// The support of a nonzero kernel vector of weight `w` is a dependent set of `w` columns.
pub proof fn lemma_dependent_set_from_codeword(h: Seq<Seq<u8>>, n: nat, x: Seq<u8>)
    requires
        n <= usize::MAX,
        x.len() == n,
        in_kernel(h, x, n),
        x != zeros(n),
    ensures
        has_dependent_set(h, n, weight(x, n)),
{
    lemma_weight_support(x, n);
    lemma_support_list(x, n);
    let s = support_list(x, n);
    assert(positions_ok(s, n)) by {
        assert forall|a: int, b: int| 0 <= a < s.len() && 0 <= b < s.len() && a != b implies s[a] != s[b] by {
            if a < b {
                assert(s[a] < s[b]);
            } else {
                assert(s[b] < s[a]);
            }
        }
    }
    let p = choose|p: int| 0 <= p < n && x[p] != zeros(n)[p];
    assert(exists|p: int| 0 <= p < n && x[p] != zeros(n)[p]) by {
        if !(exists|p: int| 0 <= p < n && x[p] != zeros(n)[p]) {
            assert(x =~= zeros(n));
        }
    }
    assert(s.contains(p as usize));
    let y = gather(x, s);
    lemma_scatter_entries(y, s, n);
    assert(scatter(y, s, n) =~= x) by {
        assert forall|j: int| 0 <= j < n implies scatter(y, s, n)[j] == x[j] by {
            if s.contains(j as usize) {
                let e = choose|e: int| 0 <= e < s.len() && s[e] == j as usize;
                assert(scatter(y, s, n)[s[e] as int] == y[e]);
            } else {
                if x[j] != 0 {
                    assert(s.contains(j as usize));
                }
            }
        }
    }
    lemma_gather_kernel(h, y, s, n);
    assert(y != zeros(s.len())) by {
        let e = choose|e: int| 0 <= e < s.len() && s[e] == p as usize;
        assert(y[e] == x[p]);
        assert(zeros(s.len())[e] == 0);
    }
    assert(dependent_cols(h, s));
    assert(increasing(s) && (forall|e: int| 0 <= e < s.len() ==> #[trigger] s[e] < n));
}

/// A weight bound on the codewords bounds the dependent column sets: when every nonzero
/// kernel vector of `h` has at least `d` nonzero symbols, no fewer than `d` columns of `h`
/// are linearly dependent.
pub proof fn lemma_dependent_sets_from_weight(h: Seq<Seq<u8>>, n: nat, d: nat)
    requires
        n <= usize::MAX,
        forall|x: Seq<u8>| #[trigger] in_kernel(h, x, n) && x != zeros(n) ==> weight(x, n) >= d,
    ensures
        forall|t: nat| 1 <= t < d ==> !#[trigger] has_dependent_set(h, n, t),
{
    assert forall|t: nat| 1 <= t < d implies !#[trigger] has_dependent_set(h, n, t) by {
        if has_dependent_set(h, n, t) {
            let s = choose|s: Seq<usize>|
                #![trigger dependent_cols(h, s)]
                s.len() == t && increasing(s) && (forall|e: int| 0 <= e < t ==> #[trigger] s[e] < n)
                    && dependent_cols(h, s);
            assert(positions_ok(s, n)) by {
                assert forall|a: int, b: int| 0 <= a < s.len() && 0 <= b < s.len() && a != b implies s[a]
                    != s[b] by {
                    if a < b {
                        assert(s[a] < s[b]);
                    } else {
                        assert(s[b] < s[a]);
                    }
                }
            }
            let g = gather_cols(h, s);
            let y = choose|y: Seq<u8>| #[trigger] in_kernel(g, y, s.len()) && y != zeros(s.len());
            assert(in_kernel(g, y, s.len()));
            let e = choose|e: int| 0 <= e < y.len() && y[e] != zeros(s.len())[e];
            assert(exists|e: int| 0 <= e < y.len() && y[e] != zeros(s.len())[e]) by {
                if !(exists|e: int| 0 <= e < y.len() && y[e] != zeros(s.len())[e]) {
                    assert(y =~= zeros(s.len()));
                }
            }
            lemma_gather_kernel(h, y, s, n);
            lemma_scatter_entries(y, s, n);
            let x = scatter(y, s, n);
            assert(x != zeros(n)) by {
                assert(x[s[e] as int] == y[e]);
                assert(zeros(n)[s[e] as int] == 0);
            }
            lemma_weight_bound(x, n, s);
        }
    }
}

/// Below the minimum distance nothing is lost: when no `t < d` columns of `h` are dependent
/// and fewer than `d` distinct positions of a codeword `c` are erased, `c` is the only
/// codeword agreeing with the received word elsewhere (so the decoders return exactly `c`).
pub proof fn lemma_recover_below_distance(
    h: Seq<Seq<u8>>,
    n: nat,
    d: nat,
    c: Seq<u8>,
    cw: Seq<u8>,
    erased: Seq<usize>,
)
    requires
        n <= usize::MAX,
        forall|t: nat| 1 <= t < d ==> !#[trigger] has_dependent_set(h, n, t),
        in_kernel(h, c, n),
        agrees_outside(c, cw, erased),
        positions_ok(erased, n),
        erased.len() < d,
    ensures
        uniquely_recoverable(h, n, cw, erased),
        is_completion(h, n, cw, erased, c),
{
    assert(is_completion(h, n, cw, erased, c));
    assert forall|c2: Seq<u8>| #[trigger] is_completion(h, n, cw, erased, c2) implies c2 == c by {
        let dd = vadd(c, c2, n);
        crate::linalg::lemma_kernel_add(h, c, c2, n);
        lemma_support_list(dd, n);
        let sl = support_list(dd, n);
        if sl.len() > 0 {
            assert(sl.no_duplicates()) by {
                assert forall|a: int, b: int| 0 <= a < sl.len() && 0 <= b < sl.len() && a != b implies sl[a]
                    != sl[b] by {
                    if a < b {
                        assert(sl[a] < sl[b]);
                    } else {
                        assert(sl[b] < sl[a]);
                    }
                }
            }
            assert(sl.to_set().subset_of(erased.to_set())) by {
                assert forall|p: usize| sl.to_set().contains(p) implies erased.to_set().contains(p) by {
                    let e = choose|e: int| 0 <= e < sl.len() && sl[e] == p;
                    let j = p as int;
                    assert(dd[j] != 0);
                    if !erased.contains(p) {
                        assert(c[j] == cw[j]);
                        assert(c2[j] == cw[j]);
                        lemma_xor_facts(c[j], 0, 0, 0);
                    }
                }
            }
            sl.unique_seq_to_set();
            erased.unique_seq_to_set();
            vstd::seq_lib::seq_to_set_is_finite(erased);
            vstd::set_lib::lemma_len_subset(sl.to_set(), erased.to_set());
            assert(positions_ok(sl, n));
            let y = gather(dd, sl);
            lemma_scatter_entries(y, sl, n);
            let sc = scatter(y, sl, n);
            assert forall|j: int| 0 <= j < n implies sc[j] == dd[j] by {
                if sl.contains(j as usize) {
                    let e = choose|e: int| 0 <= e < sl.len() && sl[e] == j as usize;
                    assert(sc[sl[e] as int] == y[e]);
                } else {
                    assert(sc[j] == 0);
                }
            }
            assert(sc =~= dd);
            lemma_gather_kernel(h, y, sl, n);
            assert(y[0] != zeros(sl.len())[0]);
            assert(dependent_cols(h, sl));
            assert(has_dependent_set(h, n, sl.len()));
        }
        assert forall|j: int| 0 <= j < n implies c2[j] == c[j] by {
            if dd[j] != 0 {
                assert(sl.contains(j as usize));
            }
            lemma_xor_facts(c[j], c2[j], 0, 0);
        }
        assert(c2 =~= c);
    }
}

/// At the distance boundary nothing can be recovered: when the columns of `h` at the
/// erased positions are linearly dependent, a second codeword agrees with `c` outside
/// them, so the pattern is not uniquely recoverable (the decoders return `None`).
pub proof fn lemma_dependent_erasure_not_recoverable(
    h: Seq<Seq<u8>>,
    n: nat,
    c: Seq<u8>,
    cw: Seq<u8>,
    erased: Seq<usize>,
)
    requires
        c.len() == n,
        in_kernel(h, c, n),
        agrees_outside(c, cw, erased),
        positions_ok(erased, n),
        dependent_cols(h, erased),
    ensures
        !uniquely_recoverable(h, n, cw, erased),
{
    let g = gather_cols(h, erased);
    let y = choose|y: Seq<u8>| #[trigger] in_kernel(g, y, erased.len()) && y != zeros(erased.len());
    assert(in_kernel(g, y, erased.len()));
    assert(y.len() == erased.len());
    let e = choose|e: int| 0 <= e < y.len() && y[e] != zeros(erased.len())[e];
    assert(exists|e: int| 0 <= e < y.len() && y[e] != zeros(erased.len())[e]) by {
        if !(exists|e: int| 0 <= e < y.len() && y[e] != zeros(erased.len())[e]) {
            assert(y =~= zeros(erased.len()));
        }
    }
    lemma_gather_kernel(h, y, erased, n);
    lemma_scatter_entries(y, erased, n);
    let z = scatter(y, erased, n);
    let c2 = vadd(c, z, n);
    crate::linalg::lemma_kernel_add(h, c, z, n);
    assert(is_completion(h, n, cw, erased, c));
    assert(is_completion(h, n, cw, erased, c2)) by {
        assert forall|j: int| 0 <= j < cw.len() && !erased.contains(j as usize) implies #[trigger] c2[j]
            == cw[j] by {
            assert(z[j] == 0);
            lemma_xor_facts(c[j], 0, 0, 0);
        }
    }
    assert(c2 != c) by {
        let p = erased[e] as int;
        assert(z[p] == y[e]);
        let a = c[p];
        let b = z[p];
        assert(b != 0 ==> a ^ b != a) by (bit_vector);
        assert(c2[p] != c[p]);
    }
}

/// Erasure-correctability is column independence: for a codeword `c`, the received word
/// `cw` agreeing with `c` outside the distinct positions `erased` is uniquely recoverable
/// exactly when the columns of `h` at those positions are linearly independent.
pub proof fn lemma_recoverable_iff_independent(
    h: Seq<Seq<u8>>,
    n: nat,
    c: Seq<u8>,
    cw: Seq<u8>,
    erased: Seq<usize>,
)
    requires
        n <= usize::MAX,
        c.len() == n,
        in_kernel(h, c, n),
        agrees_outside(c, cw, erased),
        positions_ok(erased, n),
    ensures
        uniquely_recoverable(h, n, cw, erased) <==> !dependent_cols(h, erased),
        is_completion(h, n, cw, erased, c),
{
    if dependent_cols(h, erased) {
        lemma_dependent_erasure_not_recoverable(h, n, c, cw, erased);
    } else {
        assert(is_completion(h, n, cw, erased, c));
        assert forall|c2: Seq<u8>| #[trigger] is_completion(h, n, cw, erased, c2) implies c2 == c by {
            let dd = vadd(c, c2, n);
            crate::linalg::lemma_kernel_add(h, c, c2, n);
            let y = gather(dd, erased);
            lemma_scatter_entries(y, erased, n);
            let sc = scatter(y, erased, n);
            assert forall|j: int| 0 <= j < n implies sc[j] == dd[j] by {
                if erased.contains(j as usize) {
                    let e = choose|e: int| 0 <= e < erased.len() && erased[e] == j as usize;
                    assert(sc[erased[e] as int] == y[e]);
                } else {
                    assert(sc[j] == 0);
                    assert(c[j] == cw[j]);
                    assert(c2[j] == cw[j]);
                    lemma_xor_facts(c[j], 0, 0, 0);
                }
            }
            assert(sc =~= dd);
            lemma_gather_kernel(h, y, erased, n);
            assert(y == zeros(erased.len()));
            assert forall|j: int| 0 <= j < n implies c2[j] == c[j] by {
                if erased.contains(j as usize) {
                    let e = choose|e: int| 0 <= e < erased.len() && erased[e] == j as usize;
                    assert(y[e] == dd[erased[e] as int]);
                    assert(y[e] == zeros(erased.len())[e]);
                    assert(erased[e] as int == j);
                    assert(dd[j] == 0);
                } else {
                    assert(c2[j] == cw[j]);
                }
                lemma_xor_facts(c[j], c2[j], 0, 0);
            }
            assert(c2 =~= c);
        }
    }
}

/// GRS codes are MDS with distance exactly `rho + 1`: no `rho` or fewer columns of the
/// parity check are dependent, and (when the code carries data) some `rho + 1` are.
pub proof fn lemma_grs_distance_exact(g: &Grs)
    requires
        g.wf(),
        points_ok(g.points(), g.offset()),
        g.k0 >= 1,
    ensures
        forall|t: nat| 1 <= t <= g.rho ==> !#[trigger] has_dependent_set(g.hmat(), g.n0 as nat, t),
        has_dependent_set(g.hmat(), g.n0 as nat, (g.rho + 1) as nat),
{
    let n = g.n0 as nat;
    let h = g.hmat();
    assert forall|x: Seq<u8>| #[trigger] in_kernel(h, x, n) && x != zeros(n) implies weight(x, n) >= g.rho + 1 by {
        lemma_vander_weight(g.points(), g.offset(), g.rho as nat, x);
    }
    lemma_dependent_sets_from_weight(h, n, (g.rho + 1) as nat);
    let x = lemma_vander_min_weight_codeword(g.points(), g.offset(), g.rho as nat);
    lemma_dependent_set_from_codeword(h, n, x);
}

/// Systematic codewords are determined by their data: two codewords of a GRS code with
/// independent parity columns that agree on the first `k0` symbols are equal.
pub proof fn lemma_systematic_unique(g: &Grs, c1: Seq<u8>, c2: Seq<u8>)
    requires
        g.wf(),
        g.parity_independent(),
        g.is_codeword(c1),
        g.is_codeword(c2),
        c1.subrange(0, g.k0 as int) == c2.subrange(0, g.k0 as int),
    ensures
        c1 == c2,
{
    let n = g.n0 as nat;
    let h = g.hmat();
    let pr = position_range(g.k0 as nat, n);
    let dd = vadd(c1, c2, n);
    crate::linalg::lemma_kernel_add(h, c1, c2, n);
    assert(positions_ok(pr, n)) by {
        assert forall|a: int, b: int| 0 <= a < b < pr.len() implies pr[a] != pr[b] by {}
    }
    let y = gather(dd, pr);
    lemma_scatter_entries(y, pr, n);
    let sc = scatter(y, pr, n);
    assert forall|j: int| 0 <= j < n implies sc[j] == dd[j] by {
        if j >= g.k0 {
            let e = j - g.k0;
            assert(pr[e] as int == j);
            assert(sc[pr[e] as int] == y[e]);
        } else {
            assert(!pr.contains(j as usize));
            assert(c1[j] == c1.subrange(0, g.k0 as int)[j]);
            assert(c2[j] == c2.subrange(0, g.k0 as int)[j]);
            lemma_xor_facts(c1[j], c2[j], 0, 0);
        }
    }
    assert(sc =~= dd);
    lemma_gather_kernel(h, y, pr, n);
    assert(y == zeros(g.rho as nat));
    assert forall|j: int| 0 <= j < n implies c1[j] == c2[j] by {
        if j >= g.k0 {
            let e = j - g.k0;
            assert(y[e] == dd[pr[e] as int]);
            assert(pr[e] as int == j);
        }
        assert(dd[j] == 0) by {
            if j < g.k0 {
                assert(c1[j] == c1.subrange(0, g.k0 as int)[j]);
                assert(c2[j] == c2.subrange(0, g.k0 as int)[j]);
                lemma_xor_facts(c1[j], c2[j], 0, 0);
            }
        }
        lemma_xor_facts(c1[j], c2[j], 0, 0);
    }
    assert(c1 =~= c2);
}

/// Over good points, a codeword of the `rows`-row Vandermonde check of length
/// `k0 + rows` is determined by its first `k0` symbols.
pub proof fn lemma_vander_systematic_unique(
    pts: Seq<u8>,
    off: nat,
    rows: nat,
    k0: nat,
    c1: Seq<u8>,
    c2: Seq<u8>,
)
    requires
        points_ok(pts, off),
        pts.len() <= usize::MAX,
        pts.len() == k0 + rows,
        in_kernel(vandermonde(pts, off, rows), c1, pts.len()),
        in_kernel(vandermonde(pts, off, rows), c2, pts.len()),
        c1.subrange(0, k0 as int) == c2.subrange(0, k0 as int),
    ensures
        c1 == c2,
{
    let n = pts.len();
    let h = vandermonde(pts, off, rows);
    let pr = position_range(k0, n);
    let dd = vadd(c1, c2, n);
    crate::linalg::lemma_kernel_add(h, c1, c2, n);
    assert(positions_ok(pr, n)) by {
        assert forall|a: int, b: int| 0 <= a < b < pr.len() implies pr[a] != pr[b] by {}
    }
    assert forall|j: int| 0 <= j < dd.len() && !pr.contains(j as usize) implies #[trigger] dd[j] == 0 by {
        if j >= k0 {
            assert(pr[j - k0] == j as usize);
        }
        assert(c1[j] == c1.subrange(0, k0 as int)[j]);
        assert(c2[j] == c2.subrange(0, k0 as int)[j]);
        lemma_xor_facts(c1[j], c2[j], 0, 0);
    }
    lemma_vandermonde(pts, off, rows, dd, pr);
    assert forall|j: int| 0 <= j < n implies c1[j] == c2[j] by {
        assert(dd[j] == zeros(n)[j]);
        lemma_xor_facts(c1[j], c2[j], 0, 0);
    }
    assert(c1 =~= c2);
}

} // verus!
