# circ_das

Block-circulant local codes (overlap factor 2) and two-dimensional Reed-Solomon product
codes over GF(2^8) for blockchain data availability, with a coded-Merkle-tree sampler and
its soundness arithmetic, written in Verus.

Layout:

- `src/gf256.rs`: the field GF(2^8) modulo `0x11d`, table-driven, proved against a
  shift-and-add definition of the product; field laws.
- `src/linalg.rs`: matrices over GF(2^8) as sequences, kernels, supports, linear
  combinations.
- `src/grs.rs`: Gauss-Jordan elimination (`solve`, `rank`), generalized Reed-Solomon
  codes (MDS proof of the Vandermonde check), erasure recovery and the minimum-distance
  search.
- `src/block_circulant.rs`: the block-circulant code, its global parity check, encoder,
  decoder and local generator matrices. The minimum distance is at least `rho + 1` on
  every code, and it is exactly `2*rho + 1` (every pattern of `2*rho` erasures recovers)
  precisely when no two neighbouring local codes hold a nonzero codeword of `2*rho` or
  fewer symbols; this holds for every code with `rho = 1`, and
  `reaches_design_distance` decides it for a given code. Some codes miss it, for instance
  `(mu, omega, rho) = (4, 2, 2)` and `(32, 3, 2)`.
- `src/rs2d.rs`: the product code `RS[n1,k1] x RS[n2,k2]`, with a proof that its minimum
  distance is exactly `(n1-k1+1)(n2-k2+1)`.
- `src/das.rs`: the Merkle commitment, openings, the sampler and `required_samples`.
- `src/bignum.rs`: exact big-number arithmetic used by `required_samples`.
- `src/neon.rs`: the shard encoder with the 256-entry-table and the split-nibble kernels.
- `app/`: the floating-point helpers (code rates, detection probability).
