//! Coded-Merkle-tree data-availability sampling (DAS) and its soundness arithmetic.
//!
//! A light client trusts a short commitment (a Merkle root over the `n` encoded symbols)
//! and queries a few random symbols with Merkle openings. If more than `n - d` symbols are
//! present, the global erasure decoder reconstructs the block. A producer that withholds a
//! minimum-weight codeword support (`d` symbols) escapes `s` independent uniform samples
//! with probability `((n-d)/n)^s`; `required_samples` finds the least `s` that pushes this
//! below `2^-lambda`.
//!
//! The digest is a compact 64-bit avalanche hash (FNV-1a followed by the splitmix64
//! finaliser). It binds each symbol to its position and separates leaves from internal
//! nodes by a domain tag; a production deployment would use a collision-resistant hash.

use vstd::prelude::*;
use vstd::arithmetic::power::pow;
use crate::bignum::{le, mul_small, pow2_big, value};

verus! {

/// A Merkle digest.
pub type Digest = u64;

/// FNV-1a offset basis.
pub const FNV_OFFSET: u64 = 0xcbf2_9ce4_8422_2325u64;

/// FNV-1a prime.
pub const FNV_PRIME: u64 = 0x0000_0100_0000_01b3u64;

/// One FNV-1a round: xor in the byte, then multiply by the prime modulo `2^64`.
pub open spec fn fnv_round(h: u64, b: u8) -> u64 {
    vstd::wrapping::u64_specs::wrapping_mul(h ^ (b as u64), FNV_PRIME)
}

/// FNV-1a of a byte string.
pub open spec fn fnv1a_spec(bytes: Seq<u8>) -> u64
    decreases bytes.len(),
{
    if bytes.len() == 0 {
        FNV_OFFSET
    } else {
        fnv_round(fnv1a_spec(bytes.drop_last()), bytes.last())
    }
}

/// The splitmix64 finaliser.
pub open spec fn splitmix_spec(z: u64) -> u64 {
    let z1: u64 = vstd::wrapping::u64_specs::wrapping_add(z, 0x9e37_79b9_7f4a_7c15u64);
    let z2: u64 = vstd::wrapping::u64_specs::wrapping_mul(z1 ^ (z1 >> 30u64), 0xbf58_476d_1ce4_e5b9u64);
    let z3: u64 = vstd::wrapping::u64_specs::wrapping_mul(z2 ^ (z2 >> 27u64), 0x94d0_49bb_1331_11ebu64);
    z3 ^ (z3 >> 31u64)
}

/// The eight little-endian bytes of `x`.
pub open spec fn le_bytes(x: u64) -> Seq<u8> {
    Seq::new(8, |i: int| ((x >> ((8 * i) as u64)) & 0xffu64) as u8)
}

/// Digest of leaf `index` holding `symbol`: domain tag `0x00`, the index as eight
/// little-endian bytes, then the symbol.
#[verifier::opaque]
pub open spec fn leaf_digest_spec(index: usize, symbol: u8) -> Digest {
    splitmix_spec(fnv1a_spec(seq![0u8] + le_bytes(index as u64) + seq![symbol]))
}

/// Digest of an internal node over the ordered pair `(left, right)`: domain tag `0x01`,
/// then both children as little-endian bytes.
#[verifier::opaque]
pub open spec fn node_digest_spec(left: Digest, right: Digest) -> Digest {
    splitmix_spec(fnv1a_spec(seq![1u8] + le_bytes(left) + le_bytes(right)))
}

/// The low byte of `y` is `y mod 256`.
proof fn lemma_low_byte(y: u64)
    ensures
        (y & 0xffu64) == y % 256,
{
    assert((y & 0xffu64) == y % 256) by (bit_vector);
}

/// A leaf digest binds the whole index: it is the hash of the ten-byte message made of the
/// tag `0x00`, the eight base-256 digits of the index from the least significant one (digit
/// `b` is `index / 2^(8b) mod 256`), and the symbol.
pub proof fn lemma_leaf_digest_message(index: usize, symbol: u8, m: Seq<u8>)
    requires
        m.len() == 10,
        m[0] == 0,
        forall|b: int|
            0 <= b < 8 ==> #[trigger] m[b + 1] as nat == (index as nat / vstd::arithmetic::power2::pow2(
                (8 * b) as nat,
            )) % 256,
        m[9] == symbol,
    ensures
        leaf_digest_spec(index, symbol) == splitmix_spec(fnv1a_spec(m)),
{
    let x = index as u64;
    assert(x as nat == index as nat);
    let e = seq![0u8] + le_bytes(x) + seq![symbol];
    assert forall|b: int| 0 <= b < 8 implies #[trigger] le_bytes(x)[b] == m[b + 1] by {
        let sh = (8 * b) as u64;
        vstd::bits::lemma_u64_shr_is_div(x, sh);
        lemma_low_byte(x >> sh);
    }
    assert(e =~= m) by {
        assert forall|j: int| 0 <= j < 10 implies e[j] == m[j] by {
            if 1 <= j < 9 {
                assert(e[j] == le_bytes(x)[j - 1]);
                assert(m[(j - 1) + 1] == m[j]);
            }
        }
    }
    reveal(leaf_digest_spec);
}

/// FNV-1a over a byte slice.
fn fnv1a(bytes: &[u8]) -> (h: u64)
    ensures
        h == fnv1a_spec(bytes@),
{
    let mut h: u64 = FNV_OFFSET;
    let mut i: usize = 0;
    while i < bytes.len()
        invariant
            i <= bytes.len(),
            h == fnv1a_spec(bytes@.subrange(0, i as int)),
        decreases bytes.len() - i,
    {
        proof {
            assert(bytes@.subrange(0, i + 1).drop_last() =~= bytes@.subrange(0, i as int));
        }
        h = h ^ (bytes[i] as u64);
        h = h.wrapping_mul(FNV_PRIME);
        i += 1;
    }
    proof {
        assert(bytes@.subrange(0, bytes.len() as int) =~= bytes@);
    }
    h
}

/// The splitmix64 finaliser: strong avalanche, so single-bit input changes scatter.
fn splitmix(z: u64) -> (r: u64)
    ensures
        r == splitmix_spec(z),
{
    let z1: u64 = z.wrapping_add(0x9e37_79b9_7f4a_7c15u64);
    let z2: u64 = (z1 ^ (z1 >> 30u64)).wrapping_mul(0xbf58_476d_1ce4_e5b9u64);
    let z3: u64 = (z2 ^ (z2 >> 27u64)).wrapping_mul(0x94d0_49bb_1331_11ebu64);
    z3 ^ (z3 >> 31u64)
}

/// Append the eight little-endian bytes of `x` to `buf`.
fn push_le_bytes(buf: &mut Vec<u8>, x: u64)
    ensures
        final(buf)@ == old(buf)@ + le_bytes(x),
{
    let ghost start = buf@;
    let mut i: u64 = 0;
    while i < 8
        invariant
            i <= 8,
            buf@ == start + le_bytes(x).subrange(0, i as int),
        decreases 8 - i,
    {
        let b: u8 = ((x >> (8 * i)) & 0xffu64) as u8;
        buf.push(b);
        proof {
            assert(le_bytes(x).subrange(0, i + 1) =~= le_bytes(x).subrange(0, i as int).push(b));
        }
        i += 1;
    }
    proof {
        assert(le_bytes(x).subrange(0, 8) =~= le_bytes(x));
    }
}

/// Leaf digest: binds both the coordinate index and the symbol byte.
fn leaf_digest(index: usize, symbol: u8) -> (d: Digest)
    ensures
        d == leaf_digest_spec(index, symbol),
{
    let mut buf: Vec<u8> = Vec::new();
    buf.push(0u8);
    push_le_bytes(&mut buf, index as u64);
    buf.push(symbol);
    proof {
        assert(buf@ =~= seq![0u8] + le_bytes(index as u64) + seq![symbol]);
        reveal(leaf_digest_spec);
    }
    splitmix(fnv1a(buf.as_slice()))
}

/// Internal node digest of an ordered pair, with a tag distinct from leaves.
fn node_digest(left: Digest, right: Digest) -> (d: Digest)
    ensures
        d == node_digest_spec(left, right),
{
    let mut buf: Vec<u8> = Vec::new();
    buf.push(1u8);
    push_le_bytes(&mut buf, left);
    push_le_bytes(&mut buf, right);
    proof {
        assert(buf@ =~= seq![1u8] + le_bytes(left) + le_bytes(right));
        reveal(node_digest_spec);
    }
    splitmix(fnv1a(buf.as_slice()))
}

/// One step of a Merkle opening: a sibling digest and which side it sits on.
#[derive(Clone, Copy, Debug, PartialEq, Eq, Structural)]
pub struct ProofStep {
    /// The sibling's digest.
    pub sibling: Digest,
    /// `true` if the sibling is the right child (so the running hash is the left one).
    pub sibling_is_right: bool,
}

/// The level above `cur`: consecutive pairs are hashed together and an unpaired last node
/// is carried up unchanged.
pub open spec fn next_level(cur: Seq<Digest>) -> Seq<Digest> {
    Seq::new(
        ((cur.len() + 1) / 2) as nat,
        |j: int|
            if 2 * j + 1 < cur.len() {
                node_digest_spec(cur[2 * j], cur[2 * j + 1])
            } else {
                cur[2 * j]
            },
    )
}

/// All levels from `cur` up to the single root.
pub open spec fn levels_from(cur: Seq<Digest>) -> Seq<Seq<Digest>>
    decreases cur.len(),
{
    if cur.len() <= 1 {
        seq![cur]
    } else {
        seq![cur] + levels_from(next_level(cur))
    }
}

/// The leaf digests of `symbols`.
pub open spec fn leaves_spec(symbols: Seq<u8>) -> Seq<Digest> {
    Seq::new(symbols.len(), |i: int| leaf_digest_spec(i as usize, symbols[i]))
}

/// The levels of the Merkle tree over `symbols`: leaves first, root level last.
pub open spec fn merkle_levels(symbols: Seq<u8>) -> Seq<Seq<Digest>> {
    levels_from(leaves_spec(symbols))
}

/// The Merkle root committing to `symbols`.
pub open spec fn merkle_root(symbols: Seq<u8>) -> Digest {
    merkle_levels(symbols).last()[0]
}

/// The sibling of node `idx` within level `cur`, if it has one.
pub open spec fn sibling_step(cur: Seq<Digest>, idx: nat) -> Seq<ProofStep> {
    if idx % 2 == 0 {
        if idx + 1 < cur.len() {
            seq![ProofStep { sibling: cur[idx + 1int], sibling_is_right: true }]
        } else {
            Seq::empty()
        }
    } else {
        seq![ProofStep { sibling: cur[idx - 1int], sibling_is_right: false }]
    }
}

/// The opening steps for node `idx` of level `level` and every level above it.
pub open spec fn path_from(levels: Seq<Seq<Digest>>, level: nat, idx: nat) -> Seq<ProofStep>
    decreases levels.len() - level,
{
    if level + 1 >= levels.len() {
        Seq::empty()
    } else {
        sibling_step(levels[level as int], idx) + path_from(levels, level + 1, idx / 2)
    }
}

/// The authentication path of leaf `index` in the tree over `symbols`.
pub open spec fn opening_spec(symbols: Seq<u8>, index: nat) -> Seq<ProofStep> {
    path_from(merkle_levels(symbols), 0, index)
}

/// Hash `h` one step up with the sibling of `step`.
pub open spec fn climb(h: Digest, step: ProofStep) -> Digest {
    if step.sibling_is_right {
        node_digest_spec(h, step.sibling)
    } else {
        node_digest_spec(step.sibling, h)
    }
}

/// The digest reached from `h` by climbing every step of `path`.
pub open spec fn fold_path(h: Digest, path: Seq<ProofStep>) -> Digest
    decreases path.len(),
{
    if path.len() == 0 {
        h
    } else {
        fold_path(climb(h, path[0]), path.drop_first())
    }
}

/// Each level is built from the one below it, and the last one is a single root.
#[verifier::opaque]
pub open spec fn well_leveled(lv: Seq<Seq<Digest>>) -> bool {
    &&& lv.len() >= 1
    &&& lv.last().len() == 1
    &&& forall|l: int| 1 <= l < lv.len() ==> #[trigger] lv[l] == next_level(lv[l - 1])
}

/// Level `l` of well-formed levels is built from level `l - 1`.
pub proof fn lemma_level_link(lv: Seq<Seq<Digest>>, l: int)
    requires
        well_leveled(lv),
        1 <= l < lv.len(),
    ensures
        lv[l] == next_level(lv[l - 1]),
        lv.len() >= 1,
        lv.last().len() == 1,
{
    reveal(well_leveled);
}

/// The levels built from a nonempty `cur` start with `cur` and are well formed.
pub proof fn lemma_levels_shape(cur: Seq<Digest>)
    requires
        cur.len() >= 1,
    ensures
        levels_from(cur).len() >= 1,
        levels_from(cur)[0] == cur,
        levels_from(cur).last().len() == 1,
        well_leveled(levels_from(cur)),
    decreases cur.len(),
{
    reveal(well_leveled);
    if cur.len() > 1 {
        let nx = next_level(cur);
        lemma_levels_shape(nx);
        let rest = levels_from(nx);
        let all = levels_from(cur);
        assert(all == seq![cur] + rest);
        assert forall|l: int| 1 <= l < all.len() implies #[trigger] all[l] == next_level(all[l - 1]) by {
            assert(all[l] == rest[l - 1]);
            if l > 1 {
                assert(all[l - 1] == rest[l - 2]);
                lemma_level_link(rest, l - 1);
            } else {
                assert(rest[0] == nx);
            }
        }
    }
}

/// Climbing a concatenated path climbs the first part, then the second.
pub proof fn lemma_fold_concat(h: Digest, a: Seq<ProofStep>, b: Seq<ProofStep>)
    ensures
        fold_path(h, a + b) == fold_path(fold_path(h, a), b),
    decreases a.len(),
{
    if a.len() > 0 {
        assert((a + b).drop_first() =~= a.drop_first() + b);
        assert((a + b)[0] == a[0]);
        lemma_fold_concat(climb(h, a[0]), a.drop_first(), b);
    } else {
        assert(a + b =~= b);
    }
}

/// Climbing past the sibling of node `idx` gives its parent in the next level.
proof fn lemma_climb_sibling(c: Seq<Digest>, idx: nat)
    requires
        idx < c.len(),
    ensures
        fold_path(c[idx as int], sibling_step(c, idx)) == next_level(c)[(idx / 2) as int],
{
    let here = sibling_step(c, idx);
    let j = idx / 2;
    let nx = next_level(c);
    reveal_with_fuel(fold_path, 2);
    if idx % 2 == 0 {
        assert(2 * j == idx);
        if idx + 1 < c.len() {
            assert(here.drop_first() =~= Seq::<ProofStep>::empty());
            assert(fold_path(c[idx as int], here) == climb(c[idx as int], here[0]));
            assert(nx[j as int] == node_digest_spec(c[2 * j as int], c[2 * j as int + 1]));
        } else {
            assert(here =~= Seq::<ProofStep>::empty());
            assert(nx[j as int] == c[2 * j as int]);
        }
    } else {
        assert(2 * j + 1 == idx);
        assert(here.drop_first() =~= Seq::<ProofStep>::empty());
        assert(fold_path(c[idx as int], here) == climb(c[idx as int], here[0]));
        assert(nx[j as int] == node_digest_spec(c[2 * j as int], c[2 * j as int + 1]));
    }
}

/// Climbing the opening of node `idx` of level `l` reaches the root.
pub proof fn lemma_path_reaches_root(lv: Seq<Seq<Digest>>, l: nat, idx: nat)
    requires
        well_leveled(lv),
        l < lv.len(),
        idx < lv[l as int].len(),
    ensures
        fold_path(lv[l as int][idx as int], path_from(lv, l, idx)) == lv.last()[0],
    decreases lv.len() - l,
{
    if l + 1 < lv.len() {
        let c = lv[l as int];
        let j = idx / 2;
        lemma_level_link(lv, l + 1int);
        let here = sibling_step(c, idx);
        let rest = path_from(lv, l + 1, j);
        assert(path_from(lv, l, idx) == here + rest);
        lemma_fold_concat(c[idx as int], here, rest);
        lemma_climb_sibling(c, idx);
        lemma_path_reaches_root(lv, l + 1, j);
    } else {
        lemma_level_link_last(lv);
        assert(path_from(lv, l, idx) =~= Seq::<ProofStep>::empty());
    }
}

/// The last of well-formed levels holds a single root.
proof fn lemma_level_link_last(lv: Seq<Seq<Digest>>)
    requires
        well_leveled(lv),
    ensures
        lv.len() >= 1,
        lv.last().len() == 1,
{
    reveal(well_leveled);
}

/// A coded Merkle tree over the `n` encoded symbols.
///
/// Odd levels carry the last (unpaired) node up unchanged, so openings are a list of real
/// siblings and no power-of-two padding is needed.
pub struct MerkleTree {
    /// `levels[0]` holds the leaf digests; the last level holds only the root.
    levels: Vec<Vec<Digest>>,
    /// The committed symbols.
    syms: Ghost<Seq<u8>>,
}

impl MerkleTree {
    #[verifier::type_invariant]
    spec fn inv(self) -> bool {
        &&& self.syms@.len() >= 1
        &&& self.syms@.len() <= usize::MAX
        &&& self.levels@.map_values(|l: Vec<Digest>| l@) == merkle_levels(self.syms@)
    }

    /// The symbols this tree commits to.
    pub closed spec fn symbols(&self) -> Seq<u8> {
        self.syms@
    }
}

/// Completeness of openings: for every committed word and every position, climbing the
/// opening of that position from the committed symbol's leaf digest reaches the root, so
/// `verify_opening(root, index, symbols[index], open(index))` accepts.
pub proof fn lemma_opening_verifies(symbols: Seq<u8>, index: nat)
    requires
        symbols.len() <= usize::MAX,
        index < symbols.len(),
    ensures
        fold_path(leaf_digest_spec(index as usize, symbols[index as int]), opening_spec(symbols, index))
            == merkle_root(symbols),
{
    let leaves = leaves_spec(symbols);
    lemma_levels_shape(leaves);
    lemma_path_reaches_root(levels_from(leaves), 0, index);
}

/// The level above `cur` (pairs hashed, an odd tail carried up unchanged).
fn next_level_exec(cur: &Vec<Digest>) -> (nx: Vec<Digest>)
    ensures
        nx@ == next_level(cur@),
{
    let len = cur.len();
    let m = len / 2 + len % 2;
    let mut nx: Vec<Digest> = Vec::new();
    let mut j: usize = 0;
    while j < m
        invariant
            len == cur@.len(),
            m == (len + 1) / 2,
            j <= m,
            nx@ == next_level(cur@).subrange(0, j as int),
        decreases m - j,
    {
        if 2 * j + 1 < len {
            let d = node_digest(cur[2 * j], cur[2 * j + 1]);
            nx.push(d);
        } else {
            nx.push(cur[2 * j]);
        }
        j += 1;
        proof {
            assert(nx@ =~= next_level(cur@).subrange(0, j as int));
        }
    }
    proof {
        assert(next_level(cur@).subrange(0, m as int) =~= next_level(cur@));
    }
    nx
}

/// The digest views of the stored levels.
pub open spec fn level_views(levels: Seq<Vec<Digest>>) -> Seq<Seq<Digest>> {
    levels.map_values(|l: Vec<Digest>| l@)
}

impl MerkleTree {
    /// Commit to `symbols` (the `n` encoded coordinates).
    pub fn commit(symbols: &[u8]) -> (t: Self)
        requires
            symbols.len() >= 1,
        ensures
            t.symbols() == symbols@,
    {
        let mut leaves: Vec<Digest> = Vec::new();
        let mut i: usize = 0;
        while i < symbols.len()
            invariant
                i <= symbols.len(),
                leaves@ == leaves_spec(symbols@).subrange(0, i as int),
            decreases symbols.len() - i,
        {
            let d = leaf_digest(i, symbols[i]);
            leaves.push(d);
            i += 1;
            proof {
                assert(leaves@ =~= leaves_spec(symbols@).subrange(0, i as int));
            }
        }
        proof {
            assert(leaves@ =~= leaves_spec(symbols@));
        }
        let ghost all = merkle_levels(symbols@);
        let mut levels: Vec<Vec<Digest>> = Vec::new();
        levels.push(leaves);
        proof {
            assert(level_views(levels@).drop_last() + levels_from(level_views(levels@).last()) =~= all);
        }
        while levels[levels.len() - 1].len() > 1
            invariant
                levels@.len() >= 1,
                all == merkle_levels(symbols@),
                level_views(levels@).drop_last() + levels_from(level_views(levels@).last()) == all,
            decreases levels@.last()@.len(),
        {
            let nx = next_level_exec(&levels[levels.len() - 1]);
            let ghost before = level_views(levels@);
            let ghost cur = before.last();
            levels.push(nx);
            proof {
                assert(levels_from(cur) == seq![cur] + levels_from(next_level(cur)));
                assert(level_views(levels@) =~= before.push(nx@));
                assert(level_views(levels@).drop_last() =~= before);
                assert(before.drop_last() + seq![cur] =~= before);
                assert(level_views(levels@).drop_last() + levels_from(level_views(levels@).last())
                    =~= before.drop_last() + levels_from(cur));
            }
        }
        proof {
            let v = level_views(levels@);
            assert(levels_from(v.last()) == seq![v.last()]);
            assert(v.drop_last() + seq![v.last()] =~= v);
        }
        MerkleTree { levels, syms: Ghost(symbols@) }
    }

    /// Number of committed symbols (leaves).
    pub fn len(&self) -> (r: usize)
        ensures
            r == self.symbols().len(),
    {
        proof {
            use_type_invariant(self);
            lemma_levels_shape(leaves_spec(self.syms@));
            assert(level_views(self.levels@)[0] == self.levels@[0]@);
        }
        self.levels[0].len()
    }

    /// Whether no symbol is committed; never the case, since `commit` needs one symbol.
    pub fn is_empty(&self) -> (r: bool)
        ensures
            r == (self.symbols().len() == 0),
            !r,
    {
        proof {
            use_type_invariant(self);
            lemma_levels_shape(leaves_spec(self.syms@));
            assert(level_views(self.levels@)[0] == self.levels@[0]@);
        }
        self.levels[0].len() == 0
    }

    /// The commitment: the Merkle root.
    pub fn root(&self) -> (r: Digest)
        ensures
            r == merkle_root(self.symbols()),
    {
        proof {
            use_type_invariant(self);
            lemma_levels_shape(leaves_spec(self.syms@));
            let v = level_views(self.levels@);
            assert(v.last() == self.levels@[self.levels@.len() - 1]@);
        }
        let top = &self.levels[self.levels.len() - 1];
        top[top.len() - 1]
    }

    /// Authentication path proving that `symbols[index]` sits under `root()`.
    pub fn open(&self, index: usize) -> (path: Vec<ProofStep>)
        requires
            index < self.symbols().len(),
        ensures
            path@ == opening_spec(self.symbols(), index as nat),
    {
        let ghost lv = level_views(self.levels@);
        let ghost target = path_from(lv, 0, index as nat);
        proof {
            use_type_invariant(self);
            lemma_levels_shape(leaves_spec(self.syms@));
            assert(lv[0] == leaves_spec(self.syms@));
        }
        let mut path: Vec<ProofStep> = Vec::new();
        let mut idx: usize = index;
        let mut level: usize = 0;
        proof {
            assert(path@ + path_from(lv, 0, index as nat) =~= target);
        }
        while level < self.levels.len() - 1
            invariant
                lv == level_views(self.levels@),
                lv.len() == self.levels@.len(),
                well_leveled(lv),
                level < lv.len(),
                idx < lv[level as int].len(),
                path@ + path_from(lv, level as nat, idx as nat) == target,
            decreases lv.len() - level,
        {
            let cur = &self.levels[level];
            proof {
                lemma_path_step(lv, level as nat, idx as nat);
            }
            let ghost step = sibling_step(lv[level as int], idx as nat);
            let ghost before = path@;
            if idx % 2 == 0 {
                if idx + 1 < cur.len() {
                    path.push(ProofStep { sibling: cur[idx + 1], sibling_is_right: true });
                }
            } else {
                path.push(ProofStep { sibling: cur[idx - 1], sibling_is_right: false });
            }
            proof {
                let rest = path_from(lv, (level + 1) as nat, (idx / 2) as nat);
                assert(path@ =~= before + step);
                assert(before + (step + rest) =~= (before + step) + rest);
            }
            idx = idx / 2;
            level = level + 1;
        }
        proof {
            assert(path_from(lv, level as nat, idx as nat) =~= Seq::<ProofStep>::empty());
            assert(path@ + Seq::<ProofStep>::empty() =~= path@);
        }
        path
    }
}

/// One level of an opening: the sibling step, then the opening of the parent.
proof fn lemma_path_step(lv: Seq<Seq<Digest>>, level: nat, idx: nat)
    requires
        well_leveled(lv),
        level + 1 < lv.len(),
        idx < lv[level as int].len(),
    ensures
        path_from(lv, level, idx) == sibling_step(lv[level as int], idx) + path_from(lv, level + 1, idx / 2),
        idx / 2 < lv[level + 1int].len(),
{
    lemma_level_link(lv, level + 1int);
}

/// Verify a Merkle opening against a commitment `root`: recompute the root from
/// `(index, symbol)` and `path`, and compare.
pub fn verify_opening(root: Digest, index: usize, symbol: u8, path: &[ProofStep]) -> (ok: bool)
    ensures
        ok == (fold_path(leaf_digest_spec(index, symbol), path@) == root),
{
    let mut h = leaf_digest(index, symbol);
    let ghost start = h;
    let mut i: usize = 0;
    proof {
        assert(path@.subrange(0, path@.len() as int) =~= path@);
    }
    while i < path.len()
        invariant
            i <= path@.len(),
            fold_path(h, path@.subrange(i as int, path@.len() as int)) == fold_path(start, path@),
        decreases path@.len() - i,
    {
        let step = path[i];
        let ghost rest = path@.subrange(i as int, path@.len() as int);
        h = if step.sibling_is_right {
            node_digest(h, step.sibling)
        } else {
            node_digest(step.sibling, h)
        };
        proof {
            assert(rest[0] == step);
            assert(rest.drop_first() =~= path@.subrange(i + 1, path@.len() as int));
        }
        i += 1;
    }
    proof {
        assert(path@.subrange(i as int, path@.len() as int) =~= Seq::<ProofStep>::empty());
    }
    h == root
}

// --- Sampling --------------------------------------------------------------

/// The LCG multiplier.
pub const LCG_MUL: u64 = 6_364_136_223_846_793_005u64;

/// The LCG increment.
pub const LCG_INC: u64 = 1_442_695_040_888_963_407u64;

/// One step of the sampler's linear congruential generator (mod `2^64`).
pub open spec fn lcg_step(x: u64) -> u64 {
    vstd::wrapping::u64_specs::wrapping_add(vstd::wrapping::u64_specs::wrapping_mul(x, LCG_MUL), LCG_INC)
}

/// The generator state after `k` steps from `seed`.
pub open spec fn lcg_state(seed: u64, k: nat) -> u64
    decreases k,
{
    if k == 0 {
        seed
    } else {
        lcg_step(lcg_state(seed, (k - 1) as nat))
    }
}

/// The output drawn from a state: its top 31 bits.
pub open spec fn lcg_output(state: u64) -> u64 {
    state >> 33u64
}

/// A small reproducible PRNG (an LCG read through its top bits) for the sampler.
pub struct SampleRng(u64);

impl SampleRng {
    /// The generator state.
    pub closed spec fn state(&self) -> u64 {
        self.0
    }

    /// Seed the stream.
    pub fn new(seed: u64) -> (r: Self)
        ensures
            r.state() == seed,
    {
        SampleRng(seed)
    }

    /// Step the generator and return its output.
    fn next_u64(&mut self) -> (r: u64)
        ensures
            final(self).state() == lcg_step(old(self).state()),
            r == lcg_output(final(self).state()),
    {
        self.0 = self.0.wrapping_mul(LCG_MUL).wrapping_add(LCG_INC);
        self.0 >> 33u64
    }

    /// An index in `0..n`: the next output reduced modulo `n`.
    pub fn index(&mut self, n: usize) -> (i: usize)
        requires
            n > 0,
        ensures
            final(self).state() == lcg_step(old(self).state()),
            i as int == (lcg_output(final(self).state()) as int) % (n as int),
    {
        let x = self.next_u64();
        proof {
            let st = self.0;
            assert(st >> 33u64 <= 0x7fff_ffffu64) by (bit_vector);
        }
        (x as usize) % n
    }
}

/// Draw `s` symbol indices independently and uniformly from `0..n` (with replacement):
/// draw `t` is the `t+1`-th generator output reduced modulo `n`.
pub fn sample(rng: &mut SampleRng, n: usize, s: usize) -> (q: Vec<usize>)
    requires
        s > 0 ==> n > 0,
    ensures
        q@.len() == s,
        final(rng).state() == lcg_state(old(rng).state(), s as nat),
        forall|t: int|
            0 <= t < s ==> #[trigger] q@[t] as int == (lcg_output(lcg_state(old(rng).state(), (t + 1) as nat))
                as int) % (n as int),
{
    let ghost seed = rng.state();
    let mut q: Vec<usize> = Vec::new();
    let mut t: usize = 0;
    while t < s
        invariant
            t <= s,
            s > 0 ==> n > 0,
            q@.len() == t,
            rng.state() == lcg_state(seed, t as nat),
            forall|u: int|
                0 <= u < t ==> #[trigger] q@[u] as int == (lcg_output(lcg_state(seed, (u + 1) as nat)) as int)
                    % (n as int),
        decreases s - t,
    {
        let i = rng.index(n);
        q.push(i);
        t += 1;
    }
    q
}

/// A block is available (globally recoverable) iff strictly more than `n - d` symbols are
/// present, i.e. at most `d - 1` are missing.
pub fn is_available(n: usize, present_count: usize, d: usize) -> (r: bool)
    requires
        d <= n,
    ensures
        r == (present_count > n - d),
{
    present_count > n - d
}

// --- Soundness arithmetic ----------------------------------------------------

/// After `s` independent uniform samples, a withheld set of `d` of the `n` symbols is
/// missed with probability `((n-d)/n)^s`; this says that probability is at most `2^-lambda`.
pub open spec fn miss_within(n: nat, d: nat, lambda: nat, s: nat) -> bool {
    pow(n - d, s) * pow(2, lambda) <= pow(n as int, s)
}

proof fn lemma_pow_base_mono(x: int, y: int, e: nat)
    requires
        0 <= x <= y,
    ensures
        0 <= pow(x, e) <= pow(y, e),
    decreases e,
{
    reveal(pow);
    if e > 0 {
        lemma_pow_base_mono(x, y, (e - 1) as nat);
        let px = pow(x, (e - 1) as nat);
        let py = pow(y, (e - 1) as nat);
        assert(0 <= x * px <= y * py) by (nonlinear_arith)
            requires
                0 <= x <= y,
                0 <= px <= py,
        ;
    }
}

/// Bernoulli: `(a+b)^c >= a^c + c*b*a^(c-1)` for `c >= 1`.
proof fn lemma_bernoulli(a: nat, b: nat, c: nat)
    requires
        c >= 1,
    ensures
        pow((a + b) as int, c) >= pow(a as int, c) + c * b * pow(a as int, (c - 1) as nat),
    decreases c,
{
    reveal(pow);
    if c > 1 {
        let c1 = (c - 1) as nat;
        lemma_bernoulli(a, b, c1);
        lemma_pow_base_mono(0, a as int, (c1 - 1) as nat);
        lemma_pow_base_mono(0, a as int, c1);
        let p = pow((a + b) as int, c1);
        let q = pow(a as int, c1);
        let q1 = pow(a as int, (c1 - 1) as nat);
        assert(q == a * q1);
        assert((a + b) * p >= a * q + c * b * q) by (nonlinear_arith)
            requires
                p >= q + c1 * b * q1,
                q == a * q1,
                c == c1 + 1,
                q1 >= 0,
                a >= 0,
                b >= 0,
        ;
    } else {
        assert(pow((a + b) as int, 0) == 1);
        assert(pow(a as int, 0) == 1);
    }
}

/// Once reached, the soundness target stays reached with more samples.
pub proof fn lemma_miss_monotone(n: nat, d: nat, lambda: nat, s: nat, t: nat)
    requires
        d <= n,
        s <= t,
        miss_within(n, d, lambda, s),
    ensures
        miss_within(n, d, lambda, t),
    decreases t - s,
{
    if s < t {
        lemma_miss_monotone(n, d, lambda, s, (t - 1) as nat);
        let t1 = (t - 1) as nat;
        reveal(pow);
        lemma_pow_base_mono(0, (n - d) as int, t1);
        lemma_pow_base_mono(0, 2, lambda);
        let a = pow(n - d, t1);
        let b = pow(n as int, t1);
        let l = pow(2, lambda);
        assert((n - d) * a * l <= n * b) by (nonlinear_arith)
            requires
                a * l <= b,
                0 <= n - d <= n,
                a >= 0,
                l >= 0,
        ;
        assert(pow(n - d, t) == (n - d) * a);
        assert(pow(n as int, t) == n * b);
    }
}

/// A sample count that always suffices: `lambda * ((n-d)/d + 1)`.
pub open spec fn samples_bound(n: nat, d: nat, lambda: nat) -> nat {
    lambda * (((n - d) as nat) / d + 1)
}

/// `lambda * ((n-d)/d + 1)` samples always suffice: with `c = (n-d)/d + 1`, Bernoulli
/// gives `n^c >= 2 * (n-d)^c`.
pub proof fn lemma_samples_bound(n: nat, d: nat, lambda: nat)
    requires
        1 <= d < n,
    ensures
        miss_within(n, d, lambda, samples_bound(n, d, lambda)),
{
    let a = (n - d) as nat;
    let c = a / d + 1;
    assert(c * d >= a) by (nonlinear_arith)
        requires
            c == a / d + 1,
            d >= 1,
    ;
    lemma_bernoulli(a, d, c);
    lemma_pow_base_mono(0, a as int, (c - 1) as nat);
    let q1 = pow(a as int, (c - 1) as nat);
    let q = pow(a as int, c);
    reveal(pow);
    assert(q == a * q1);
    assert(pow(n as int, c) >= 2 * q) by (nonlinear_arith)
        requires
            pow(n as int, c) >= q + c * d * q1,
            c * d >= a,
            q == a * q1,
            q1 >= 0,
    ;
    lemma_pow_base_mono(0, a as int, c);
    lemma_pow_base_mono(2 * q, pow(n as int, c), lambda);
    vstd::arithmetic::power::lemma_pow_distributes(2, q, lambda);
    vstd::arithmetic::power::lemma_pow_multiplies(a as int, c, lambda);
    vstd::arithmetic::power::lemma_pow_multiplies(n as int, c, lambda);
    assert(c * lambda == lambda * c) by (nonlinear_arith);
    assert(pow(2, lambda) * pow(q, lambda) == pow(a as int, lambda * c) * pow(2, lambda)) by (nonlinear_arith)
        requires
            pow(q, lambda) == pow(a as int, c * lambda),
            c * lambda == lambda * c,
    ;
}

/// A larger relative distance never needs more samples: when `(n2-d2)/n2 <= (n1-d1)/n1`,
/// any sample count that reaches the target for `(n1, d1)` reaches it for `(n2, d2)`, so
/// the least count for `(n2, d2)` is at most the least count for `(n1, d1)`.
pub proof fn lemma_samples_monotone(n1: nat, d1: nat, n2: nat, d2: nat, lambda: nat, s1: nat, s2: nat)
    requires
        d1 < n1,
        d2 < n2,
        (n2 - d2) * n1 <= (n1 - d1) * n2,
        miss_within(n1, d1, lambda, s1),
        forall|t: nat| t < s2 ==> !#[trigger] miss_within(n2, d2, lambda, t),
    ensures
        s2 <= s1,
{
    let a1 = (n1 - d1) as int;
    let a2 = (n2 - d2) as int;
    lemma_pow_base_mono(a2 * n1, a1 * n2, s1);
    vstd::arithmetic::power::lemma_pow_distributes(a2, n1 as int, s1);
    vstd::arithmetic::power::lemma_pow_distributes(a1, n2 as int, s1);
    lemma_pow_base_mono(0, 2, lambda);
    lemma_pow_base_mono(0, a1, s1);
    lemma_pow_base_mono(0, a2, s1);
    vstd::arithmetic::power::lemma_pow_positive(n1 as int, s1);
    let p1 = pow(n1 as int, s1);
    let p2 = pow(n2 as int, s1);
    let q1 = pow(a1, s1);
    let q2 = pow(a2, s1);
    let l = pow(2, lambda);
    lemma_pow_base_mono(0, n2 as int, s1);
    assert(q2 * l <= p2) by (nonlinear_arith)
        requires
            q2 * p1 <= q1 * p2,
            q1 * l <= p1,
            p1 > 0,
            l >= 0,
            q2 >= 0,
            p2 >= 0,
    ;
    assert(miss_within(n2, d2, lambda, s1));
}

/// Smallest sample count `s` that drives the worst-case soundness error below
/// `2^-lambda`: the least `s` with `((n-d)/n)^s <= 2^-lambda`, against a producer
/// withholding a minimum unrecoverable set of size `d`. If `d >= n` a single sample always
/// detects, so the answer is `1`. The answer must fit in a `usize`, that is the target is
/// reached within `usize::MAX` samples (by `lemma_samples_bound` and `lemma_miss_monotone`,
/// this holds whenever `lambda * ((n-d)/d + 1)` fits).
pub fn required_samples(n: usize, d: usize, lambda: u32) -> (s: usize)
    requires
        n > 0,
        d > 0,
        d < n ==> miss_within(n as nat, d as nat, lambda as nat, usize::MAX as nat),
    ensures
        d >= n ==> s == 1,
        d < n ==> miss_within(n as nat, d as nat, lambda as nat, s as nat),
        d < n ==> forall|t: nat| t < s ==> !#[trigger] miss_within(n as nat, d as nat, lambda as nat, t),
{
    if d >= n {
        return 1;
    }
    let ghost bound: nat = usize::MAX as nat;
    proof {
        vstd::arithmetic::power::lemma_pow0((n - d) as int);
        vstd::arithmetic::power::lemma_pow0(n as int);
        vstd::arithmetic::power::lemma_pow0(crate::bignum::limb_base());
    }
    let nd: u64 = (n - d) as u64;
    let nn: u64 = n as u64;
    let mut lhs = pow2_big(lambda);
    let mut rhs: Vec<u32> = vec![1u32];
    let mut s: usize = 0;
    proof {
        assert(value(rhs@) == crate::bignum::prefix_value(rhs@, 0) + 1 * pow(crate::bignum::limb_base(), 0));
    }
    while !le(&lhs, &rhs)
        invariant
            d < n,
            nd == n - d,
            nn == n,
            bound == usize::MAX,
            miss_within(n as nat, d as nat, lambda as nat, bound),
            s <= bound,
            value(lhs@) == pow(n - d, s as nat) * pow(2, lambda as nat),
            value(rhs@) == pow(n as int, s as nat),
            forall|t: nat| t < s ==> !#[trigger] miss_within(n as nat, d as nat, lambda as nat, t),
        decreases bound - s,
    {
        proof {
            assert(!miss_within(n as nat, d as nat, lambda as nat, s as nat));
            if s >= bound {
                lemma_miss_monotone(n as nat, d as nat, lambda as nat, bound, s as nat);
            }
            reveal(pow);
            let a = pow(n - d, s as nat);
            let l = pow(2, lambda as nat);
            assert(a * l * nd == (nd * a) * l) by (nonlinear_arith);
            assert(pow(n - d, (s + 1) as nat) == nd * a);
            assert(pow(n as int, (s + 1) as nat) == n * pow(n as int, s as nat));
        }
        lhs = mul_small(&lhs, nd);
        rhs = mul_small(&rhs, nn);
        s += 1;
    }
    s
}

} // verus!
