mod bignum;
pub mod block_circulant;
pub mod das;
pub mod gf256;
pub mod grs;
pub mod linalg;
pub mod neon;
pub mod rs2d;
