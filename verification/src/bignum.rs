//! Unbounded natural numbers as little-endian vectors of 32-bit limbs, with just the
//! operations the sample-count search needs: multiplication by a machine word and `<=`.

use vstd::prelude::*;
use vstd::arithmetic::power::pow;

verus! {

/// The limb base, `2^32`.
pub open spec fn limb_base() -> int {
    0x1_0000_0000
}

/// Limb `i` of `a`, zero past the end.
pub open spec fn limb(a: Seq<u32>, i: int) -> int {
    if 0 <= i < a.len() {
        a[i] as int
    } else {
        0
    }
}

/// The value of the lowest `k` limbs of `a`.
pub open spec fn prefix_value(a: Seq<u32>, k: nat) -> int
    decreases k,
{
    if k == 0 {
        0
    } else {
        prefix_value(a, (k - 1) as nat) + limb(a, k - 1) * pow(limb_base(), (k - 1) as nat)
    }
}

/// The number that the limbs `a` stand for.
pub open spec fn value(a: Seq<u32>) -> int {
    prefix_value(a, a.len())
}

proof fn lemma_pow_step(k: nat)
    ensures
        pow(limb_base(), k + 1) == pow(limb_base(), k) * limb_base(),
        pow(limb_base(), k) > 0,
{
    vstd::arithmetic::power::lemma_pow_adds(limb_base(), k, 1);
    vstd::arithmetic::power::lemma_pow1(limb_base());
    vstd::arithmetic::power::lemma_pow_positive(limb_base(), k);
}

/// The lowest `k` limbs hold a value in `0 .. B^k`.
proof fn lemma_prefix_bound(a: Seq<u32>, k: nat)
    ensures
        0 <= prefix_value(a, k) < pow(limb_base(), k),
    decreases k,
{
    if k == 0 {
        vstd::arithmetic::power::lemma_pow0(limb_base());
    } else {
        let k1 = (k - 1) as nat;
        lemma_prefix_bound(a, k1);
        lemma_pow_step(k1);
        let p = pow(limb_base(), k1);
        let l = limb(a, k - 1);
        let v = prefix_value(a, k1);
        assert(0 <= v + l * p < p * limb_base()) by (nonlinear_arith)
            requires
                0 <= v < p,
                0 <= l < limb_base(),
                p > 0,
        ;
    }
}

/// Limbs past the end are zero, so they add nothing.
proof fn lemma_prefix_past_end(a: Seq<u32>, k: nat)
    requires
        k >= a.len(),
    ensures
        prefix_value(a, k) == value(a),
    decreases k,
{
    if k > a.len() {
        lemma_prefix_past_end(a, (k - 1) as nat);
    }
}

/// The value of the lowest `k` limbs depends on those limbs only.
proof fn lemma_prefix_ext(a: Seq<u32>, b: Seq<u32>, k: nat)
    requires
        forall|i: int| 0 <= i < k ==> limb(a, i) == limb(b, i),
    ensures
        prefix_value(a, k) == prefix_value(b, k),
    decreases k,
{
    if k > 0 {
        lemma_prefix_ext(a, b, (k - 1) as nat);
    }
}

/// `a * m` for a machine word `m`.
pub fn mul_small(a: &Vec<u32>, m: u64) -> (r: Vec<u32>)
    ensures
        value(r@) == value(a@) * m,
{
    let mut r: Vec<u32> = Vec::new();
    let mut carry: u128 = 0;
    let mut i: usize = 0;
    while i < a.len()
        invariant
            i <= a.len(),
            r@.len() == i,
            carry < 0x1_0000_0000_0000_0000,
            prefix_value(r@, i as nat) + carry * pow(limb_base(), i as nat) == prefix_value(a@, i as nat)
                * m,
        decreases a.len() - i,
    {
        let ai128: u128 = a[i] as u128;
        let m128: u128 = m as u128;
        proof {
            assert(ai128 * m128 <= 0xffff_ffff * 0xffff_ffff_ffff_ffff) by (nonlinear_arith)
                requires
                    ai128 <= 0xffff_ffff,
                    m128 <= 0xffff_ffff_ffff_ffff,
            ;
        }
        let t: u128 = ai128 * m128 + carry;
        proof {
            assert(t & 0xffff_ffffu128 <= 0xffff_ffffu128) by (bit_vector);
        }
        let lo: u32 = (t & 0xffff_ffffu128) as u32;
        let hi: u128 = t >> 32u128;
        proof {
            let ai = a[i as int] as int;
            assert(t == ai * m + carry);
            assert(t & 0xffff_ffffu128 == t % 0x1_0000_0000u128) by (bit_vector);
            assert(t >> 32u128 == t / 0x1_0000_0000u128) by (bit_vector);
            assert(t < 0x1_0000_0000_0000_0000_0000_0000) by (nonlinear_arith)
                requires
                    t == ai * m + carry,
                    0 <= ai < 0x1_0000_0000,
                    m < 0x1_0000_0000_0000_0000,
                    carry < 0x1_0000_0000_0000_0000,
            ;
            assert(lo as int + hi * limb_base() == t);
            assert(hi < 0x1_0000_0000_0000_0000);
            let old_r = r@;
            let new_r = old_r.push(lo);
            lemma_prefix_ext(new_r, old_r, i as nat);
            lemma_pow_step(i as nat);
            let p = pow(limb_base(), i as nat);
            let pr = prefix_value(old_r, i as nat);
            let pa = prefix_value(a@, i as nat);
            assert(pr + lo * p + hi * (p * limb_base()) == (pa + ai * p) * m) by (nonlinear_arith)
                requires
                    pr + carry * p == pa * m,
                    lo + hi * limb_base() == ai * m + carry,
            ;
        }
        r.push(lo);
        carry = hi;
        i += 1;
    }
    while carry > 0
        invariant
            prefix_value(r@, r@.len()) + carry * pow(limb_base(), r@.len()) == value(a@) * m,
        decreases carry,
    {
        proof {
            assert(carry & 0xffff_ffffu128 <= 0xffff_ffffu128) by (bit_vector);
        }
        let lo: u32 = (carry & 0xffff_ffffu128) as u32;
        let hi: u128 = carry >> 32u128;
        proof {
            assert(carry & 0xffff_ffffu128 == carry % 0x1_0000_0000u128) by (bit_vector);
            assert(carry >> 32u128 == carry / 0x1_0000_0000u128) by (bit_vector);
            assert(lo as int + hi * limb_base() == carry);
            assert(hi < carry);
            let old_r = r@;
            let len = old_r.len();
            let new_r = old_r.push(lo);
            lemma_prefix_ext(new_r, old_r, len);
            lemma_pow_step(len);
            let p = pow(limb_base(), len);
            let pr = prefix_value(old_r, len);
            assert(pr + lo * p + hi * (p * limb_base()) == pr + carry * p) by (nonlinear_arith)
                requires
                    lo + hi * limb_base() == carry,
            ;
        }
        r.push(lo);
        carry = hi;
    }
    r
}

/// Whether `value(a) <= value(b)`, by subtracting `a` from `b` limb by limb and looking
/// at the final borrow.
pub fn le(a: &Vec<u32>, b: &Vec<u32>) -> (r: bool)
    ensures
        r == (value(a@) <= value(b@)),
{
    let len = if a.len() < b.len() {
        b.len()
    } else {
        a.len()
    };
    let mut borrow: u64 = 0;
    let ghost mut diff: int = 0;
    let mut i: usize = 0;
    proof {
        vstd::arithmetic::power::lemma_pow0(limb_base());
    }
    while i < len
        invariant
            i <= len,
            len >= a@.len(),
            len >= b@.len(),
            borrow <= 1,
            0 <= diff < pow(limb_base(), i as nat),
            diff - borrow * pow(limb_base(), i as nat) == prefix_value(b@, i as nat) - prefix_value(
                a@,
                i as nat,
            ),
        decreases len - i,
    {
        let ai: u64 = if i < a.len() {
            a[i] as u64
        } else {
            0
        };
        let bi: u64 = if i < b.len() {
            b[i] as u64
        } else {
            0
        };
        let dl: u64;
        let nb: u64;
        if bi >= ai + borrow {
            dl = bi - ai - borrow;
            nb = 0;
        } else {
            dl = bi + 0x1_0000_0000u64 - ai - borrow;
            nb = 1;
        }
        proof {
            assert(ai == limb(a@, i as int));
            assert(bi == limb(b@, i as int));
            lemma_pow_step(i as nat);
            let p = pow(limb_base(), i as nat);
            let pa = prefix_value(a@, i as nat);
            let pb = prefix_value(b@, i as nat);
            assert(dl as int - nb * limb_base() == bi - ai - borrow);
            assert(0 <= dl < limb_base());
            assert(0 <= diff + dl * p < p * limb_base()) by (nonlinear_arith)
                requires
                    0 <= diff < p,
                    0 <= dl < limb_base(),
                    p > 0,
            ;
            assert((diff + dl * p) - nb * (p * limb_base()) == (pb + bi * p) - (pa + ai * p)) by (nonlinear_arith)
                requires
                    diff - borrow * p == pb - pa,
                    dl - nb * limb_base() == bi - ai - borrow,
            ;
            diff = diff + dl * p;
        }
        borrow = nb;
        i += 1;
    }
    proof {
        lemma_prefix_past_end(a@, len as nat);
        lemma_prefix_past_end(b@, len as nat);
    }
    borrow == 0
}

/// `2^e` as limbs.
pub fn pow2_big(e: u32) -> (r: Vec<u32>)
    ensures
        value(r@) == pow(2, e as nat),
{
    let mut r: Vec<u32> = vec![1u32];
    let mut i: u32 = 0;
    proof {
        vstd::arithmetic::power::lemma_pow0(2);
        vstd::arithmetic::power::lemma_pow0(limb_base());
        assert(value(r@) == prefix_value(r@, 0) + 1 * pow(limb_base(), 0));
    }
    while i < e
        invariant
            i <= e,
            value(r@) == pow(2, i as nat),
        decreases e - i,
    {
        r = mul_small(&r, 2);
        proof {
            vstd::arithmetic::power::lemma_pow_adds(2, i as nat, 1);
            vstd::arithmetic::power::lemma_pow1(2);
        }
        i += 1;
    }
    r
}

} // verus!
