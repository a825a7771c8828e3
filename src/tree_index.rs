use vstd::prelude::*;
use vstd::arithmetic::power2::{
    pow2, lemma_pow2_adds, lemma_pow2_pos, lemma_pow2_unfold, lemma_pow2_strictly_increases,
    lemma2_to64,
};
use vstd::arithmetic::div_mod::lemma_multiply_divide_lt;
use vstd::arithmetic::mul::lemma_mul_is_commutative;
use vstd::bits::{lemma_u32_shr_is_div, lemma_u64_shl_is_mul};

verus! {

/// The tallest tree this library builds: leaves are numbered by `u32`.
pub const MAX_HEIGHT: u32 = 31;

/// `h` is the height of the tree for `n` blocks: the least `h` with `n <= 2^h`.
pub open spec fn is_height_for(n: nat, h: nat) -> bool {
    n <= pow2(h) && (h == 0 || pow2((h - 1) as nat) < n)
}

/// Heap index of the bucket at `level` (0 is the root) on the path from the
/// root to `leaf`, in a tree of the given height.
pub open spec fn bucket_index(leaf: int, level: int, height: int) -> int {
    pow2(level as nat) - 1 + leaf / (pow2((height - level) as nat) as int)
}

/// Number of buckets in a complete tree of the given height.
pub open spec fn tree_size(height: nat) -> nat {
    (pow2(height + 1) - 1) as nat
}

/// The bucket at `level` of any path lies in that level's index range, and
/// so inside the tree.
pub proof fn lemma_index_range(leaf: int, level: int, height: int)
    requires
        0 <= level <= height,
        0 <= leaf < pow2(height as nat),
    ensures
        0 <= pow2(level as nat) - 1 <= bucket_index(leaf, level, height),
        bucket_index(leaf, level, height) < pow2((level + 1) as nat) - 1,
        bucket_index(leaf, level, height) < tree_size(height as nat),
{
    let d = pow2((height - level) as nat) as int;
    let p = pow2(level as nat) as int;
    lemma_pow2_pos((height - level) as nat);
    lemma_pow2_pos(level as nat);
    lemma_pow2_adds(level as nat, (height - level) as nat);
    assert(level as nat + (height - level) as nat == height as nat);
    lemma_mul_is_commutative(p, d);
    lemma_multiply_divide_lt(leaf, d, p);
    assert(leaf / d >= 0) by (nonlinear_arith)
        requires
            leaf >= 0,
            d > 0,
    ;
    lemma_pow2_unfold((level + 1) as nat);
    if level < height {
        lemma_pow2_strictly_increases((level + 1) as nat, (height + 1) as nat);
    }
}

/// Buckets at different levels of paths are different buckets.
pub proof fn lemma_levels_differ(leaf1: int, leaf2: int, l1: int, l2: int, height: int)
    requires
        0 <= l1 <= height,
        0 <= l2 <= height,
        l1 != l2,
        0 <= leaf1 < pow2(height as nat),
        0 <= leaf2 < pow2(height as nat),
    ensures
        bucket_index(leaf1, l1, height) != bucket_index(leaf2, l2, height),
{
    lemma_index_range(leaf1, l1, height);
    lemma_index_range(leaf2, l2, height);
    if l1 < l2 {
        if l1 + 1 < l2 {
            lemma_pow2_strictly_increases((l1 + 1) as nat, l2 as nat);
        }
    } else {
        if l2 + 1 < l1 {
            lemma_pow2_strictly_increases((l2 + 1) as nat, l1 as nat);
        }
    }
}

/// The least height whose leaves number at least `n`.
pub fn tree_height_for(n: u32) -> (h: u32)
    requires
        1 <= n <= pow2(MAX_HEIGHT as nat),
    ensures
        h <= MAX_HEIGHT,
        is_height_for(n as nat, h as nat),
{
    proof {
        lemma2_to64();
    }
    let mut h: u32 = 0;
    let mut p: u64 = 1;
    while p < n as u64
        invariant
            h <= MAX_HEIGHT,
            p == pow2(h as nat),
            h == 0 || pow2((h - 1) as nat) < n,
            1 <= n <= pow2(MAX_HEIGHT as nat),
            pow2(MAX_HEIGHT as nat) == 0x8000_0000,
        decreases MAX_HEIGHT - h,
    {
        proof {
            if h >= MAX_HEIGHT {
                if h > MAX_HEIGHT {
                    lemma_pow2_strictly_increases(MAX_HEIGHT as nat, h as nat);
                }
                assert(false);
            }
            lemma_pow2_unfold((h + 1) as nat);
        }
        h = h + 1;
        p = p * 2;
    }
    h
}

/// Computes [`bucket_index`] with shifts.
pub fn bucket_index_exec(leaf: u32, level: u32, height: u32) -> (r: usize)
    requires
        level <= height <= MAX_HEIGHT,
        leaf < pow2(height as nat),
        tree_size(height as nat) <= usize::MAX,
    ensures
        r == bucket_index(leaf as int, level as int, height as int),
        r < tree_size(height as nat),
{
    proof {
        lemma_u32_shr_is_div(leaf, (height - level) as u32);
        lemma2_to64();
        if level < MAX_HEIGHT {
            lemma_pow2_strictly_increases(level as nat, MAX_HEIGHT as nat);
        }
        lemma_u64_shl_is_mul(1, level as u64);
        lemma_index_range(leaf as int, level as int, height as int);
    }
    let path: u32 = leaf >> (height - level);
    let base: u64 = (1u64 << level as u64) - 1;
    (base + path as u64) as usize
}

} // verus!
