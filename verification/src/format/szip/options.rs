//! The cost of each way to code a block, and the choice between them.
//!
//! A block can be split at bit `k` of each sample (a fundamental sequence for
//! the high part, plain bits for the low part), coded in pairs (the second
//! extension), or stored as it is.

use vstd::arithmetic::div_mod::lemma_div_denominator;
use vstd::arithmetic::power2::{lemma_pow2_pos, lemma_pow2_unfold, pow2};
use vstd::bits::lemma_u32_shr_is_div;
use vstd::prelude::*;

verus! {

/// `x` without its low `k` bits.
pub open spec fn high_part(x: u32, k: nat) -> nat {
    x as nat / pow2(k)
}

/// Total of the high parts of `s` above bit `k`.
pub open spec fn high_sum(s: Seq<u32>, k: nat) -> nat
    decreases s.len(),
{
    if s.len() == 0 {
        0
    } else {
        high_sum(s.drop_last(), k) + high_part(s.last(), k)
    }
}

/// Number of bits that splitting the samples `s` at bit `k` takes.
pub open spec fn split_cost(s: Seq<u32>, k: nat) -> nat {
    high_sum(s, k) + s.len() * (k + 1)
}

/// Whether `k` is the cheapest split position up to `kmax`, and of the
/// cheapest ones the nearest to `prev_k`.
pub open spec fn is_best_split(s: Seq<u32>, prev_k: nat, kmax: nat, k: nat) -> bool {
    &&& k <= kmax
    &&& forall|j: nat| j <= kmax ==> split_cost(s, k) <= #[trigger] split_cost(s, j)
    &&& forall|j: nat|
        j <= kmax && #[trigger] split_cost(s, j) == split_cost(s, k) ==> distance(k, prev_k)
            <= distance(j, prev_k)
}

/// Distance between two split positions.
pub open spec fn distance(a: nat, b: nat) -> nat {
    if a <= b {
        (b - a) as nat
    } else {
        (a - b) as nat
    }
}

/// The cheapest split position up to `kmax`, ties going to the one nearest to
/// `prev_k`.
pub open spec fn best_split(s: Seq<u32>, prev_k: nat, kmax: nat) -> nat {
    choose|k: nat| is_best_split(s, prev_k, kmax, k)
}

/// The number that stands for a pair of samples in the second extension.
pub open spec fn pair_code(a: u32, b: u32) -> nat {
    ((a + b) * (a + b + 1) / 2 + b) as nat
}

/// Bits that the first `n` pairs of `block` take in the second extension.
pub open spec fn pair_bits(block: Seq<u32>, n: nat) -> nat
    decreases n,
{
    if n == 0 {
        0
    } else {
        pair_bits(block, (n - 1) as nat) + pair_code(block[2 * n - 2], block[2 * n - 1]) + 1
    }
}

/// Number of bits that the second extension takes.
pub open spec fn pair_cost(block: Seq<u32>) -> nat {
    1 + pair_bits(block, block.len() / 2)
}

proof fn lemma_high_part_step(x: u32, k: nat)
    ensures
        high_part(x, k + 1) == high_part(x, k) / 2,
{
    lemma_pow2_pos(k);
    lemma_pow2_unfold(k + 1);
    lemma_div_denominator(x as int, pow2(k) as int, 2);
}

/// The high parts shrink by ever smaller amounts as `k` grows, and by at least
/// what is left.
proof fn lemma_high_sum_step(s: Seq<u32>, k: nat)
    ensures
        2 * high_sum(s, k + 1) <= high_sum(s, k),
        high_sum(s, k + 1) - high_sum(s, k + 2) <= high_sum(s, k) - high_sum(s, k + 1),
    decreases s.len(),
{
    if s.len() > 0 {
        lemma_high_sum_step(s.drop_last(), k);
        lemma_high_part_step(s.last(), k);
        lemma_high_part_step(s.last(), k + 1);
    }
}

/// What one more low bit costs (or saves, when negative).
spec fn slope(s: Seq<u32>, k: nat) -> int {
    split_cost(s, k + 1) - split_cost(s, k)
}

proof fn lemma_slope(s: Seq<u32>, k: nat)
    ensures
        slope(s, k) == s.len() - (high_sum(s, k) - high_sum(s, k + 1)),
        slope(s, k) <= slope(s, k + 1),
        high_sum(s, k) < s.len() ==> slope(s, k) > 0,
        high_sum(s, k + 1) >= s.len() ==> slope(s, k) <= 0,
{
    lemma_high_sum_step(s, k);
    let n = s.len();
    assert(n * (k + 1 + 1) == n * (k + 1) + n) by (nonlinear_arith);
    assert(n * (k + 2 + 1) == n * (k + 1 + 1) + n) by (nonlinear_arith);
}

proof fn lemma_slope_grows(s: Seq<u32>, a: nat, b: nat)
    requires
        a <= b,
    ensures
        slope(s, a) <= slope(s, b),
    decreases b - a,
{
    if a < b {
        lemma_slope_grows(s, a, (b - 1) as nat);
        lemma_slope(s, (b - 1) as nat);
    }
}

proof fn lemma_cost_above(s: Seq<u32>, k: nat, j: nat)
    requires
        k <= j,
        slope(s, k) >= 0,
    ensures
        split_cost(s, j) >= split_cost(s, k),
        j > k && slope(s, k) > 0 ==> split_cost(s, j) > split_cost(s, k),
    decreases j - k,
{
    if k < j {
        lemma_cost_above(s, k, (j - 1) as nat);
        lemma_slope_grows(s, k, (j - 1) as nat);
    }
}

proof fn lemma_cost_below(s: Seq<u32>, k: nat, j: nat)
    requires
        j <= k,
        k > 0 ==> slope(s, (k - 1) as nat) <= 0,
    ensures
        split_cost(s, j) >= split_cost(s, k),
        j < k && slope(s, (k - 1) as nat) < 0 ==> split_cost(s, j) > split_cost(s, k),
    decreases k - j,
{
    if j < k {
        if k > 1 {
            lemma_slope(s, (k - 2) as nat);
        }
        lemma_cost_below(s, (k - 1) as nat, j);
    }
}

/// A position where the cost stops falling on both sides, on the side of
/// `prev_k` strictly, is the best one.
proof fn lemma_is_best(s: Seq<u32>, prev_k: nat, kmax: nat, k: nat)
    requires
        k <= kmax,
        k < kmax ==> slope(s, k) >= 0,
        k > 0 ==> slope(s, (k - 1) as nat) <= 0,
        k > prev_k ==> slope(s, (k - 1) as nat) < 0,
        k < prev_k ==> slope(s, k) > 0,
    ensures
        is_best_split(s, prev_k, kmax, k),
{
    assert forall|j: nat| j <= kmax implies split_cost(s, k) <= #[trigger] split_cost(s, j) by {
        if j < k {
            lemma_cost_below(s, k, j);
        } else if j > k {
            lemma_cost_above(s, k, j);
        }
    }
    assert forall|j: nat|
        j <= kmax && #[trigger] split_cost(s, j) == split_cost(s, k) implies distance(k, prev_k)
        <= distance(j, prev_k) by {
        if j < k {
            lemma_cost_below(s, k, j);
        } else if j > k {
            lemma_cost_above(s, k, j);
        }
    }
}

/// There is only one best split position.
pub proof fn lemma_best_split_unique(s: Seq<u32>, prev_k: nat, kmax: nat, k: nat)
    requires
        is_best_split(s, prev_k, kmax, k),
    ensures
        best_split(s, prev_k, kmax) == k,
{
    let b = best_split(s, prev_k, kmax);
    assert(is_best_split(s, prev_k, kmax, b));
    assert(split_cost(s, b) <= split_cost(s, k));
    assert(split_cost(s, k) <= split_cost(s, b));
    if b != k {
        let (lo, hi) = if b < k {
            (b, k)
        } else {
            (k, b)
        };
        assert(lo < prev_k < hi);
        if slope(s, prev_k) >= 0 {
            lemma_cost_above(s, prev_k, hi);
        } else {
            lemma_slope(s, (prev_k - 1) as nat);
            lemma_cost_below(s, prev_k, lo);
        }
        assert(split_cost(s, prev_k) <= split_cost(s, lo));
        assert(distance(prev_k, prev_k) == 0);
    }
}

proof fn argmin_split(s: Seq<u32>, prev_k: nat, kmax: nat) -> (k: nat)
    ensures
        is_best_split(s, prev_k, kmax, k),
    decreases kmax,
{
    if kmax == 0 {
        0
    } else {
        let j = argmin_split(s, prev_k, (kmax - 1) as nat);
        if split_cost(s, kmax) < split_cost(s, j) || (split_cost(s, kmax) == split_cost(s, j)
            && distance(kmax, prev_k) < distance(j, prev_k)) {
            kmax
        } else {
            j
        }
    }
}

/// The best split position is one.
pub proof fn lemma_best_split(s: Seq<u32>, prev_k: nat, kmax: nat)
    ensures
        is_best_split(s, prev_k, kmax, best_split(s, prev_k, kmax)),
{
    let k = argmin_split(s, prev_k, kmax);
}

/// Total of the high parts of `block` above bit `k`.
fn sum_high(block: &[u32], k: u32) -> (sum: u64)
    requires
        k < 32,
        block@.len() <= 0x7fff_ffff,
    ensures
        sum == high_sum(block@, k as nat),
        sum <= block@.len() * 0xffff_ffff,
{
    let mut sum: u64 = 0;
    let mut i: usize = 0;
    while i < block.len()
        invariant
            k < 32,
            block@.len() <= 0x7fff_ffff,
            i <= block@.len(),
            sum == high_sum(block@.take(i as int), k as nat),
            sum <= i * 0xffff_ffff,
        decreases block@.len() - i,
    {
        proof {
            assert(block@.take(i + 1).drop_last() =~= block@.take(i as int));
            assert(block@.take(i + 1).last() == block@[i as int]);
            lemma_u32_shr_is_div(block@[i as int], k);
        }
        sum = sum + (block[i] >> k) as u64;
        i = i + 1;
    }
    assert(block@.take(i as int) =~= block@);
    sum
}

/// Find the best split position for `block`, starting from the previous
/// block's. Returns the position and the cost in bits.
pub fn assess_splitting(block: &[u32], prev_k: u32, kmax: u32) -> (r: (u32, u64))
    requires
        prev_k <= kmax < 32,
        block@.len() <= 0x7fff_ffff,
    ensures
        is_best_split(block@, prev_k as nat, kmax as nat, r.0 as nat),
        r.0 == best_split(block@, prev_k as nat, kmax as nat),
        r.0 <= kmax,
        r.1 == split_cost(block@, r.0 as nat),
{
    let n: u64 = block.len() as u64;
    let mut k: u32 = prev_k;
    let mut fs_len: u64 = sum_high(block, k);
    assert(n * (k + 1) <= n * 32) by (nonlinear_arith)
        requires
            k < 32,
    ;
    let mut len: u64 = fs_len + n * (k as u64 + 1);
    let mut falling: bool = true;
    while falling && fs_len >= n && k < kmax
        invariant
            prev_k <= k <= kmax < 32,
            n == block@.len() <= 0x7fff_ffff,
            fs_len == high_sum(block@, k as nat),
            len == split_cost(block@, k as nat),
            !falling && k < kmax ==> slope(block@, k as nat) >= 0,
            k > prev_k ==> slope(block@, (k - 1) as nat) < 0,
        decreases kmax - k, if falling { 1int } else { 0int },
    {
        let next_fs: u64 = sum_high(block, k + 1);
        assert(n * (k + 1 + 1) <= n * 32) by (nonlinear_arith)
            requires
                k < 31,
        ;
        let next_len: u64 = next_fs + n * (k as u64 + 2);
        if next_len < len {
            k = k + 1;
            fs_len = next_fs;
            len = next_len;
        } else {
            falling = false;
        }
    }
    proof {
        lemma_slope(block@, k as nat);
    }
    if k == prev_k {
        falling = true;
        while falling && k > 0
            invariant
                k <= prev_k <= kmax < 32,
                n == block@.len() <= 0x7fff_ffff,
                fs_len == high_sum(block@, k as nat),
                len == split_cost(block@, k as nat),
                k < kmax ==> slope(block@, k as nat) >= 0,
                k < prev_k ==> slope(block@, k as nat) > 0,
                !falling && k > 0 ==> slope(block@, (k - 1) as nat) <= 0,
            decreases k, if falling { 1int } else { 0int },
        {
            let next_fs: u64 = sum_high(block, (k - 1) as u32);
            assert(n * k <= n * 32) by (nonlinear_arith)
                requires
                    k < 32,
            ;
            let next_len: u64 = next_fs + n * (k as u64);
            if next_len < len {
                k = k - 1;
                fs_len = next_fs;
                len = next_len;
                if fs_len >= n {
                    proof {
                        if k > 0 {
                            lemma_slope(block@, (k - 1) as nat);
                        }
                    }
                    falling = false;
                }
            } else {
                falling = false;
            }
        }
    } else {
        proof {
            assert(slope(block@, (k - 1) as nat) < 0);
        }
    }
    proof {
        lemma_is_best(block@, prev_k as nat, kmax as nat, k as nat);
        lemma_best_split_unique(block@, prev_k as nat, kmax as nat, k as nat);
    }
    (k, len)
}

proof fn lemma_pair_bits_grow(block: Seq<u32>, a: nat, b: nat)
    requires
        a <= b,
    ensures
        pair_bits(block, a) <= pair_bits(block, b),
    decreases b - a,
{
    if a < b {
        lemma_pair_bits_grow(block, a, (b - 1) as nat);
    }
}

/// Compute the number that stands for a pair of samples.
pub fn pair_number(a: u32, b: u32) -> (r: u128)
    ensures
        r == pair_code(a, b),
        r < 0x8_0000_0000_0000_0000,
{
    let d: u128 = a as u128 + b as u128;
    assert(d * (d + 1) <= 0x1_ffff_fffe * 0x1_ffff_ffff) by (nonlinear_arith)
        requires
            0 <= d <= 0x1_ffff_fffe,
    ;
    assert(d * (d + 1) >= 0) by (nonlinear_arith)
        requires
            0 <= d,
    ;
    d * (d + 1) / 2 + b as u128
}

/// Cost of the second extension in bits, or `u32::MAX` when it is above
/// `uncomp_len`.
pub fn assess_se(block: &[u32], uncomp_len: u32) -> (r: u32)
    requires
        block@.len() % 2 == 0,
    ensures
        r == if pair_cost(block@) <= uncomp_len {
            pair_cost(block@) as u32
        } else {
            u32::MAX
        },
{
    let mut len: u128 = 1;
    let mut i: usize = 0;
    while i < block.len()
        invariant
            block@.len() % 2 == 0,
            i % 2 == 0,
            i <= block@.len(),
            len == 1 + pair_bits(block@, (i / 2) as nat),
            len <= uncomp_len || i == 0,
            len <= 0x1_0000_0000,
        decreases block@.len() - i,
    {
        proof {
            assert((i + 2) / 2 == i / 2 + 1);
            lemma_pair_bits_grow(block@, ((i + 2) / 2) as nat, block@.len() / 2);
        }
        len = len + pair_number(block[i], block[i + 1]) + 1;
        if len > uncomp_len as u128 {
            return u32::MAX;
        }
        i = i + 2;
    }
    if len > uncomp_len as u128 {
        return u32::MAX;
    }
    len as u32
}

} // verus!
