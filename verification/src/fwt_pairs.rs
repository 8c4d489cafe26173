//! The index arithmetic of the transform: which two samples a pair index
//! combines in a pass, that the pairs of a pass share no sample and leave
//! none out, and what holds of strides that are powers of two.

use vstd::prelude::*;
use vstd::arithmetic::power2::{
    pow2,
    lemma_pow2_pos,
    lemma_pow2_adds,
    lemma_pow2_unfold,
    lemma_pow2_strictly_increases,
};
use vstd::arithmetic::div_mod::{
    lemma_fundamental_div_mod,
    lemma_fundamental_div_mod_converse,
    lemma_mod_bound,
    lemma_mod_multiples_basic,
};
use vstd::bits::{
    lemma_usize_low_bits_mask_is_mod,
    lemma_usize_shl_is_mul,
    lemma_usize_shr_is_div,
    low_bits_mask,
};

verus! {

/// The lower index of the pair that `tid` combines in a pass with stride
/// `step`.
pub open spec fn pair_index(step: int, tid: int) -> int {
    2 * step * (tid / step) + tid % step
}

/// The upper index of that pair.
pub open spec fn partner_index(step: int, tid: int) -> int {
    pair_index(step, tid) + step
}

/// The pair index that owns the buffer index `x` in a pass with stride
/// `step`.
pub open spec fn owner(step: int, x: int) -> int {
    step * (x / (2 * step)) + x % step
}

/// A buffer of `len` samples is made of whole blocks of `2 * step`.
pub open spec fn whole_blocks(len: int, step: int) -> bool {
    len % (2 * step) == 0
}

/// `n` is a power of two.
pub open spec fn power_of_two(n: int) -> bool {
    exists|e: nat| n == #[trigger] pow2(e)
}

/// Where the pair of `tid` lies within its block of `2 * step` indices.
pub proof fn lemma_pair_decode(step: int, tid: int)
    requires
        0 < step,
        0 <= tid,
    ensures
        0 <= pair_index(step, tid),
        pair_index(step, tid) / (2 * step) == tid / step,
        pair_index(step, tid) % (2 * step) == tid % step,
        partner_index(step, tid) / (2 * step) == tid / step,
        partner_index(step, tid) % (2 * step) == tid % step + step,
        tid <= pair_index(step, tid),
{
    let q = tid / step;
    let g = tid % step;
    lemma_fundamental_div_mod(tid, step);
    lemma_mod_bound(tid, step);
    assert(0 <= q) by (nonlinear_arith)
        requires
            tid == step * q + g,
            0 <= g < step,
            0 <= tid,
            0 < step,
    ;
    assert(2 * step * q == q * (2 * step)) by (nonlinear_arith);
    assert(0 <= step * q) by (nonlinear_arith)
        requires
            0 <= q,
            0 < step,
    ;
    assert(2 * step * q == step * q + step * q) by (nonlinear_arith);
    lemma_fundamental_div_mod_converse(pair_index(step, tid), 2 * step, q, g);
    lemma_fundamental_div_mod_converse(partner_index(step, tid), 2 * step, q, g + step);
}

/// Both indices of the pair of `tid` lie in a buffer of `2 * half`
/// samples, where the stride divides `half`.
pub proof fn lemma_pair_in_bounds(step: int, tid: int, half: int)
    requires
        0 < step,
        0 <= tid < half,
        half % step == 0,
    ensures
        0 <= pair_index(step, tid),
        partner_index(step, tid) < 2 * half,
{
    let q = tid / step;
    let g = tid % step;
    let m = half / step;
    lemma_pair_decode(step, tid);
    lemma_fundamental_div_mod(tid, step);
    lemma_fundamental_div_mod(half, step);
    lemma_mod_bound(tid, step);
    assert(q < m) by (nonlinear_arith)
        requires
            tid == step * q + g,
            half == step * m,
            0 <= g,
            tid < half,
            0 < step,
    ;
    assert(2 * step * q + 2 * step <= 2 * step * m) by (nonlinear_arith)
        requires
            q + 1 <= m,
            0 < step,
    ;
    assert(2 * step * m == 2 * half) by (nonlinear_arith)
        requires
            half == step * m,
    ;
}

/// Two different pair indices share no buffer index.
pub proof fn lemma_pairs_disjoint(step: int, t1: int, t2: int)
    requires
        0 < step,
        0 <= t1,
        0 <= t2,
        t1 != t2,
    ensures
        pair_index(step, t1) != pair_index(step, t2),
        pair_index(step, t1) != partner_index(step, t2),
        partner_index(step, t1) != pair_index(step, t2),
        partner_index(step, t1) != partner_index(step, t2),
{
    lemma_pair_decode(step, t1);
    lemma_pair_decode(step, t2);
    lemma_fundamental_div_mod(t1, step);
    lemma_fundamental_div_mod(t2, step);
    lemma_mod_bound(t1, step);
    lemma_mod_bound(t2, step);
}

/// Every buffer index belongs to the pair of its owner, as the lower index
/// where it lies in the lower half of its block and as the upper index
/// otherwise, and the owner is a pair index of the pass.
pub proof fn lemma_owner_covers(step: int, len: int, x: int)
    requires
        0 < step,
        0 <= x < len,
        len % (2 * step) == 0,
    ensures
        0 <= owner(step, x) < len / 2,
        x % (2 * step) < step ==> pair_index(step, owner(step, x)) == x,
        x % (2 * step) >= step ==> partner_index(step, owner(step, x)) == x,
{
    let b = x / (2 * step);
    let r = x % (2 * step);
    let g = x % step;
    let t = owner(step, x);
    let blocks = len / (2 * step);
    lemma_fundamental_div_mod(x, 2 * step);
    lemma_fundamental_div_mod(len, 2 * step);
    lemma_mod_bound(x, 2 * step);
    lemma_mod_bound(x, step);
    assert(0 <= b) by (nonlinear_arith)
        requires
            x == (2 * step) * b + r,
            0 <= r < 2 * step,
            0 <= x,
            0 < step,
    ;
    assert((2 * step) * b == 2 * (step * b)) by (nonlinear_arith);
    // The remainder within the block and the remainder by the stride agree
    // up to one stride.
    if r < step {
        assert((2 * b) * step == (2 * step) * b) by (nonlinear_arith);
        lemma_fundamental_div_mod_converse(x, step, 2 * b, r);
    } else {
        assert((2 * b + 1) * step == (2 * step) * b + step) by (nonlinear_arith);
        lemma_fundamental_div_mod_converse(x, step, 2 * b + 1, r - step);
    }
    assert(step * b == b * step) by (nonlinear_arith);
    lemma_fundamental_div_mod_converse(t, step, b, g);
    assert(2 * step * b == (2 * step) * b) by (nonlinear_arith);
    assert(b < blocks) by (nonlinear_arith)
        requires
            x == (2 * step) * b + r,
            len == (2 * step) * blocks,
            0 <= r,
            x < len,
            0 < step,
    ;
    assert(step * b + step <= step * blocks) by (nonlinear_arith)
        requires
            b + 1 <= blocks,
            0 < step,
    ;
    assert(len == 2 * (step * blocks)) by (nonlinear_arith)
        requires
            len == (2 * step) * blocks,
    ;
}

/// Every sample of a buffer of whole blocks belongs to exactly one pair of
/// a pass: a pair index that combines the sample is its owner.
pub proof fn lemma_pairs_partition(step: int, len: int, x: int, t: int)
    requires
        0 < step,
        whole_blocks(len, step),
        0 <= x < len,
        0 <= t,
        pair_index(step, t) == x || partner_index(step, t) == x,
    ensures
        t == owner(step, x),
{
    lemma_owner_covers(step, len, x);
    if t != owner(step, x) {
        lemma_pairs_disjoint(step, t, owner(step, x));
    }
}

/// A buffer of whole blocks of `2 * step` samples has an even length, and
/// the stride divides half of it.
pub proof fn lemma_half_of_blocks(len: int, step: int)
    requires
        0 < step,
        0 <= len,
        len % (2 * step) == 0,
    ensures
        len % 2 == 0,
        (len / 2) % step == 0,
{
    let blocks = len / (2 * step);
    lemma_fundamental_div_mod(len, 2 * step);
    assert(len == 2 * (blocks * step)) by (nonlinear_arith)
        requires
            len == (2 * step) * blocks,
    ;
    lemma_mod_multiples_basic(blocks, step);
}

/// A positive multiple of the stride is at least the stride.
pub proof fn lemma_stride_fits(step: int, half: int)
    requires
        0 < step,
        0 < half,
        half % step == 0,
    ensures
        step <= half,
{
    let m = half / step;
    lemma_fundamental_div_mod(half, step);
    assert(step <= half) by (nonlinear_arith)
        requires
            half == step * m,
            0 < half,
            0 < step,
    ;
}

/// Between two powers of two, twice the smaller divides the larger.
pub proof fn lemma_stride_divides(k: nat, e: nat)
    requires
        k < e,
    ensures
        0 < pow2(k),
        2 * pow2(k) == pow2(k + 1),
        2 * pow2(k) <= pow2(e),
        pow2(e) % (2 * pow2(k)) == 0,
        (pow2(e) / 2) % pow2(k) == 0,
{
    let rest = (e - k - 1) as nat;
    lemma_pow2_pos(k);
    lemma_pow2_pos(rest);
    lemma_pow2_unfold(k + 1);
    lemma_pow2_adds(k + 1, rest);
    assert(pow2(e) == pow2(k + 1) * pow2(rest));
    assert(pow2(k + 1) * pow2(rest) == pow2(rest) * (2 * pow2(k))) by (nonlinear_arith)
        requires
            pow2(k + 1) == 2 * pow2(k),
    ;
    lemma_mod_multiples_basic(pow2(rest) as int, 2 * (pow2(k) as int));
    assert(2 * pow2(k) <= pow2(rest) * (2 * pow2(k))) by (nonlinear_arith)
        requires
            0 < pow2(rest),
            0 < pow2(k),
    ;
    assert(pow2(e) / 2 == pow2(rest) * pow2(k)) by (nonlinear_arith)
        requires
            pow2(e) == pow2(rest) * (2 * pow2(k)),
    ;
    lemma_mod_multiples_basic(pow2(rest) as int, pow2(k) as int);
}

/// For a stride that is two to the power `step_log2`, the mask `step - 1`
/// takes the remainder by the stride and the shift by `step_log2` takes the
/// quotient: the pair that the mask and the shift give is `pair_index`.
pub proof fn lemma_mask_and_shift(tid: usize, step: usize, step_log2: usize)
    requires
        step_log2 < usize::BITS,
        step == pow2(step_log2 as nat),
    ensures
        0 < step,
        tid & ((step - 1) as usize) == tid % step,
        tid >> step_log2 == tid / step,
        2 * step * (tid >> step_log2) + (tid & ((step - 1) as usize)) == pair_index(
            step as int,
            tid as int,
        ),
{
    lemma_pow2_pos(step_log2 as nat);
    lemma_usize_low_bits_mask_is_mod(tid, step_log2 as nat);
    lemma_usize_shr_is_div(tid, step_log2);
    assert(low_bits_mask(step_log2 as nat) == step - 1);
}

/// Of two powers of two, the smaller has the smaller exponent.
pub proof fn lemma_smaller_power(k: nat, e: nat)
    requires
        pow2(k) < pow2(e),
    ensures
        k < e,
{
    if k > e {
        lemma_pow2_strictly_increases(e, k);
    }
}

/// Shifting a stride left by one doubles it, where the double fits.
pub proof fn lemma_shift_doubles(step: usize)
    requires
        2 * step <= usize::MAX,
    ensures
        step << 1 == 2 * step,
{
    vstd::arithmetic::power2::lemma2_to64();
    lemma_usize_shl_is_mul(step, 1);
}

/// A power of two that fits in a `usize` has an exponent below the width.
pub proof fn lemma_exponent_fits(k: nat)
    requires
        pow2(k) <= usize::MAX,
    ensures
        k < usize::BITS,
{
    vstd::arithmetic::power2::lemma2_to64();
    if k > usize::BITS {
        lemma_pow2_strictly_increases(usize::BITS as nat, k);
    }
}

} // verus!
