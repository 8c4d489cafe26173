//! The fast Walsh-Hadamard transform kernel: an in-place butterfly transform
//! over a buffer whose length is a power of two.
//!
//! The samples are of any type. Their sum and their difference are computed
//! by two function values that the caller hands in, so what a pass leaves is
//! stated over the contracts of those two.

use vstd::prelude::*;
use vstd::arithmetic::power2::{pow2, lemma_pow2_pos, lemma_pow2_unfold, lemma_pow2_strictly_increases};
use vstd::arithmetic::div_mod::{lemma_fundamental_div_mod, lemma_mod_bound};
use crate::lanes::{lemma_swept_invariant, spmd_range, swept, lane_aligned};
use crate::fwt_pairs::{
    lemma_exponent_fits,
    lemma_half_of_blocks,
    lemma_mask_and_shift,
    lemma_owner_covers,
    lemma_pair_decode,
    lemma_pair_in_bounds,
    lemma_pairs_disjoint,
    lemma_shift_doubles,
    lemma_smaller_power,
    lemma_stride_divides,
    lemma_stride_fits,
    owner,
    pair_index,
    partner_index,
    power_of_two,
    whole_blocks,
};

verus! {

/// The two function values may be called on the samples at `p` and `q`.
pub open spec fn combinable<T, A: Fn(&T, &T) -> T, B: Fn(&T, &T) -> T>(
    plus: &A,
    minus: &B,
    s: Seq<T>,
    p: int,
    q: int,
) -> bool {
    &&& call_requires(*plus, (&s[p], &s[q]))
    &&& call_requires(*minus, (&s[p], &s[q]))
}

/// The two function values may be called on every pair of a pass with
/// stride `step` over `s`.
pub open spec fn pass_combinable<T, A: Fn(&T, &T) -> T, B: Fn(&T, &T) -> T>(
    plus: &A,
    minus: &B,
    s: Seq<T>,
    step: int,
) -> bool {
    forall|t: int|
        0 <= t < s.len() / 2 ==> combinable(
            plus,
            minus,
            s,
            #[trigger] pair_index(step, t),
            partner_index(step, t),
        )
}

/// The two function values may be called on any two samples.
pub open spec fn always_combinable<T, A: Fn(&T, &T) -> T, B: Fn(&T, &T) -> T>(
    plus: &A,
    minus: &B,
) -> bool {
    forall|a: T, b: T|
        #![trigger call_requires(*plus, (&a, &b))]
        #![trigger call_requires(*minus, (&a, &b))]
        call_requires(*plus, (&a, &b)) && call_requires(*minus, (&a, &b))
}

/// Each of the two function values returns one value for each pair of
/// samples: its contract leaves no choice.
pub open spec fn single_valued_arith<T, A: Fn(&T, &T) -> T, B: Fn(&T, &T) -> T>(
    plus: &A,
    minus: &B,
) -> bool {
    &&& forall|a: T, b: T, x: T, y: T|
        #[trigger] call_ensures(*plus, (&a, &b), x) && #[trigger] call_ensures(
            *plus,
            (&a, &b),
            y,
        ) ==> x == y
    &&& forall|a: T, b: T, x: T, y: T|
        #[trigger] call_ensures(*minus, (&a, &b), x) && #[trigger] call_ensures(
            *minus,
            (&a, &b),
            y,
        ) ==> x == y
}

/// In `after`, the sample at `p` is a sum and the sample at `q` a difference
/// of the samples that `before` holds at `p` and at `q`: both are computed
/// from the values before either is written.
pub open spec fn butterfly<T, A: Fn(&T, &T) -> T, B: Fn(&T, &T) -> T>(
    plus: &A,
    minus: &B,
    before: Seq<T>,
    after: Seq<T>,
    p: int,
    q: int,
) -> bool {
    &&& call_ensures(*plus, (&before[p], &before[q]), after[p])
    &&& call_ensures(*minus, (&before[p], &before[q]), after[q])
}

/// What one call of the kernel for `tid` does: a butterfly on the pair of
/// `tid`, and nothing to any other sample.
pub open spec fn kernel_step<T, A: Fn(&T, &T) -> T, B: Fn(&T, &T) -> T>(
    plus: &A,
    minus: &B,
    before: Seq<T>,
    after: Seq<T>,
    step: int,
    tid: int,
) -> bool {
    &&& after.len() == before.len()
    &&& butterfly(plus, minus, before, after, pair_index(step, tid), partner_index(step, tid))
    &&& forall|k: int|
        0 <= k < before.len() && k != pair_index(step, tid) && k != partner_index(step, tid)
            ==> #[trigger] after[k] == before[k]
}

/// The state of a pass with stride `step` in which the pairs below `done`
/// are combined and the others are as in `before`.
pub open spec fn pass_upto<T, A: Fn(&T, &T) -> T, B: Fn(&T, &T) -> T>(
    plus: &A,
    minus: &B,
    before: Seq<T>,
    cur: Seq<T>,
    step: int,
    done: int,
) -> bool {
    &&& cur.len() == before.len()
    &&& forall|t: int|
        0 <= t < done ==> butterfly(
            plus,
            minus,
            before,
            cur,
            #[trigger] pair_index(step, t),
            partner_index(step, t),
        )
    &&& forall|t: int|
        done <= t < before.len() / 2 ==> cur[#[trigger] pair_index(step, t)]
            == before[pair_index(step, t)] && cur[partner_index(step, t)]
            == before[partner_index(step, t)]
}

/// What a whole pass with stride `step` leaves: every pair combined once,
/// each from the samples that `before` holds.
pub open spec fn pass_done<T, A: Fn(&T, &T) -> T, B: Fn(&T, &T) -> T>(
    plus: &A,
    minus: &B,
    before: Seq<T>,
    after: Seq<T>,
    step: int,
) -> bool {
    &&& after.len() == before.len()
    &&& forall|t: int|
        0 <= t < before.len() / 2 ==> butterfly(
            plus,
            minus,
            before,
            after,
            #[trigger] pair_index(step, t),
            partner_index(step, t),
        )
}

/// `after` is what the passes with the strides 1, 2, 4, ... below `limit`,
/// one after the other, can leave of `before`. `limit` is the stride that
/// would come next.
pub open spec fn passes_upto<T, A: Fn(&T, &T) -> T, B: Fn(&T, &T) -> T>(
    plus: &A,
    minus: &B,
    before: Seq<T>,
    after: Seq<T>,
    limit: int,
) -> bool
    decreases limit,
{
    if limit <= 1 {
        after == before
    } else {
        exists|mid: Seq<T>|
            passes_upto(plus, minus, before, mid, limit / 2) && #[trigger] pass_done(
                plus,
                minus,
                mid,
                after,
                limit / 2,
            )
    }
}

/// `after` is a transform of `before`: what all passes with strides below
/// the length leave.
pub open spec fn transformed<T, A: Fn(&T, &T) -> T, B: Fn(&T, &T) -> T>(
    plus: &A,
    minus: &B,
    before: Seq<T>,
    after: Seq<T>,
) -> bool {
    &&& after.len() == before.len()
    &&& passes_upto(plus, minus, before, after, before.len() as int)
}

/// One call of the kernel for the next pair carries a pass one pair further.
pub proof fn lemma_pass_step<T, A: Fn(&T, &T) -> T, B: Fn(&T, &T) -> T>(
    plus: &A,
    minus: &B,
    before: Seq<T>,
    cur: Seq<T>,
    next: Seq<T>,
    step: int,
    done: int,
)
    requires
        0 < step,
        before.len() % 2 == 0,
        ((before.len() / 2) as int) % step == 0,
        0 <= done < before.len() / 2,
        pass_upto(plus, minus, before, cur, step, done),
        kernel_step(plus, minus, cur, next, step, done),
    ensures
        pass_upto(plus, minus, before, next, step, done + 1),
{
    let half = (before.len() / 2) as int;
    lemma_pair_in_bounds(step, done, half);
    assert(cur[pair_index(step, done)] == before[pair_index(step, done)]);
    assert forall|t: int| 0 <= t < done + 1 implies butterfly(
        plus,
        minus,
        before,
        next,
        #[trigger] pair_index(step, t),
        partner_index(step, t),
    ) by {
        if t < done {
            lemma_pair_in_bounds(step, t, half);
            lemma_pairs_disjoint(step, t, done);
            assert(next[pair_index(step, t)] == cur[pair_index(step, t)]);
            assert(next[partner_index(step, t)] == cur[partner_index(step, t)]);
        }
    }
    assert forall|t: int| done + 1 <= t < before.len() / 2 implies next[#[trigger] pair_index(
        step,
        t,
    )] == before[pair_index(step, t)] && next[partner_index(step, t)] == before[partner_index(
        step,
        t,
    )] by {
        lemma_pair_in_bounds(step, t, half);
        lemma_pairs_disjoint(step, t, done);
        assert(next[pair_index(step, t)] == cur[pair_index(step, t)]);
        assert(next[partner_index(step, t)] == cur[partner_index(step, t)]);
    }
}

/// A pass with stride `limit` after the passes below `limit` makes the
/// passes below `2 * limit`.
pub proof fn lemma_passes_extend<T, A: Fn(&T, &T) -> T, B: Fn(&T, &T) -> T>(
    plus: &A,
    minus: &B,
    before: Seq<T>,
    mid: Seq<T>,
    after: Seq<T>,
    limit: int,
)
    requires
        1 <= limit,
        passes_upto(plus, minus, before, mid, limit),
        pass_done(plus, minus, mid, after, limit),
    ensures
        passes_upto(plus, minus, before, after, 2 * limit),
{
    assert((2 * limit) / 2 == limit);
    assert(pass_done(plus, minus, mid, after, (2 * limit) / 2));
}

/// Any two samples being combinable, every pair of any pass is.
pub proof fn lemma_always_pass_combinable<T, A: Fn(&T, &T) -> T, B: Fn(&T, &T) -> T>(
    plus: &A,
    minus: &B,
    s: Seq<T>,
    step: int,
)
    requires
        always_combinable(plus, minus),
    ensures
        pass_combinable(plus, minus, s, step),
{
    assert forall|t: int| 0 <= t < s.len() / 2 implies combinable(
        plus,
        minus,
        s,
        #[trigger] pair_index(step, t),
        partner_index(step, t),
    ) by {
        let p = pair_index(step, t);
        let q = partner_index(step, t);
        assert(call_requires(*plus, (&s[p], &s[q])));
        assert(call_requires(*minus, (&s[p], &s[q])));
    }
}

/// A sweep of a kernel that does a `kernel_step` for each index is a pass
/// as far as the sweep went.
pub proof fn lemma_sweep_is_pass<T, A, B, K>(
    kernel: K,
    plus: &A,
    minus: &B,
    before: Vec<T>,
    cur: Vec<T>,
    step: int,
    done: int,
) where A: Fn(&T, &T) -> T, B: Fn(&T, &T) -> T, K: Fn(Vec<T>, usize) -> Vec<T>
    requires
        0 < step,
        whole_blocks(before@.len() as int, step),
        0 <= done <= before@.len() / 2,
        forall|a: Vec<T>, t: usize, r: Vec<T>| #[trigger]
            call_ensures(kernel, (a, t), r) ==> kernel_step(plus, minus, a@, r@, step, t as int),
        swept(kernel, 0, done, before, cur),
    ensures
        pass_upto(plus, minus, before@, cur@, step, done),
{
    let inv = |k: int, s: Vec<T>| pass_upto(plus, minus, before@, s@, step, k);
    assert(done <= before.len());
    assert forall|i: int, s: Vec<T>, r: Vec<T>|
        0 <= i < done && inv(i, s) && #[trigger] call_ensures(
            kernel,
            (s, i as usize),
            r,
        ) implies inv(i + 1, r) by {
        lemma_half_of_blocks(before@.len() as int, step);
        lemma_pass_step(plus, minus, before@, s@, r@, step, i);
    }
    lemma_swept_invariant(kernel, 0, done, before, cur, inv);
}

/// A pass over whole blocks leaves one buffer: every sample belongs to
/// exactly one pair, and the pair's sum and difference leave no choice. So
/// the pass that goes pair by pair and the pass that dispatches lane groups
/// leave the same samples.
pub proof fn lemma_pass_unique<T, A: Fn(&T, &T) -> T, B: Fn(&T, &T) -> T>(
    plus: &A,
    minus: &B,
    before: Seq<T>,
    first: Seq<T>,
    second: Seq<T>,
    step: int,
)
    requires
        0 < step,
        whole_blocks(before.len() as int, step),
        single_valued_arith(plus, minus),
        pass_done(plus, minus, before, first, step),
        pass_done(plus, minus, before, second, step),
    ensures
        first == second,
{
    assert forall|x: int| 0 <= x < first.len() implies first[x] == second[x] by {
        let t = owner(step, x);
        lemma_owner_covers(step, before.len() as int, x);
        let p = pair_index(step, t);
        let q = partner_index(step, t);
        assert(butterfly(plus, minus, before, first, p, q));
        assert(butterfly(plus, minus, before, second, p, q));
    }
    assert(first =~= second);
}

/// The passes below a stride leave one buffer of the length they started
/// with.
pub proof fn lemma_passes_unique<T, A: Fn(&T, &T) -> T, B: Fn(&T, &T) -> T>(
    plus: &A,
    minus: &B,
    before: Seq<T>,
    first: Seq<T>,
    second: Seq<T>,
    j: nat,
    e: nat,
)
    requires
        before.len() == pow2(e),
        j <= e,
        single_valued_arith(plus, minus),
        passes_upto(plus, minus, before, first, pow2(j) as int),
        passes_upto(plus, minus, before, second, pow2(j) as int),
    ensures
        first == second,
        first.len() == before.len(),
    decreases j,
{
    vstd::arithmetic::power2::lemma2_to64();
    if j > 0 {
        let limit = pow2(j) as int;
        let half = pow2((j - 1) as nat) as int;
        lemma_pow2_unfold(j);
        lemma_pow2_pos((j - 1) as nat);
        assert(limit / 2 == half);
        let m1 = choose|mid: Seq<T>|
            passes_upto(plus, minus, before, mid, limit / 2) && #[trigger] pass_done(
                plus,
                minus,
                mid,
                first,
                limit / 2,
            );
        let m2 = choose|mid: Seq<T>|
            passes_upto(plus, minus, before, mid, limit / 2) && #[trigger] pass_done(
                plus,
                minus,
                mid,
                second,
                limit / 2,
            );
        lemma_passes_unique(plus, minus, before, m1, m2, (j - 1) as nat, e);
        lemma_stride_divides((j - 1) as nat, e);
        lemma_pass_unique(plus, minus, m1, first, second, half);
    }
}

/// The transform leaves one buffer, whichever way it is computed: with the
/// indices taken by division and remainder or by mask and shift, and with
/// the pairs of a pass taken one by one or dispatched in lane groups.
pub proof fn lemma_transforms_agree<T, A: Fn(&T, &T) -> T, B: Fn(&T, &T) -> T>(
    plus: &A,
    minus: &B,
    before: Seq<T>,
    first: Seq<T>,
    second: Seq<T>,
)
    requires
        power_of_two(before.len() as int),
        single_valued_arith(plus, minus),
        transformed(plus, minus, before, first),
        transformed(plus, minus, before, second),
    ensures
        first == second,
{
    let e = choose|e: nat| before.len() as int == #[trigger] pow2(e);
    lemma_passes_unique(plus, minus, before, first, second, e, e);
}

/// Combines the pair of `tid` in a pass with stride `step`: the lower sample
/// becomes the sum and the upper one the difference of the two, both taken
/// before either is written.
pub fn fwt_kernel<T, A, B>(xs: &mut Vec<T>, step: usize, tid: usize, plus: &A, minus: &B) where
    A: Fn(&T, &T) -> T,
    B: Fn(&T, &T) -> T,

    requires
        0 < step <= old(xs)@.len() / 2,
        partner_index(step as int, tid as int) < old(xs)@.len(),
        combinable(
            plus,
            minus,
            old(xs)@,
            pair_index(step as int, tid as int),
            partner_index(step as int, tid as int),
        ),
    ensures
        kernel_step(plus, minus, old(xs)@, final(xs)@, step as int, tid as int),
{
    proof {
        let q = tid as int / step as int;
        assert(2 * step <= xs.len());
        lemma_pair_decode(step as int, tid as int);
        lemma_fundamental_div_mod(tid as int, step as int);
        lemma_mod_bound(tid as int, step as int);
        assert(0 <= (2 * step) * q <= pair_index(step as int, tid as int)) by (nonlinear_arith)
            requires
                0 < step,
                0 <= q,
                0 <= (tid as int) % (step as int),
                pair_index(step as int, tid as int) == 2 * step * q + (tid as int) % (step as int),
        ;
    }
    let group: usize = tid % step;
    let pair: usize = 2 * step * (tid / step) + group;
    let partner: usize = pair + step;
    let sum = plus(&xs[pair], &xs[partner]);
    let difference = minus(&xs[pair], &xs[partner]);
    xs[pair] = sum;
    xs[partner] = difference;
}

/// The same as `fwt_kernel`, with the remainder taken by a mask and the
/// quotient by a shift: `step` is two to the power `step_log2`.
pub fn fwt_nodivmod_kernel<T, A, B>(
    xs: &mut Vec<T>,
    step: usize,
    step_log2: usize,
    tid: usize,
    plus: &A,
    minus: &B,
) where A: Fn(&T, &T) -> T, B: Fn(&T, &T) -> T
    requires
        step_log2 < usize::BITS,
        step == pow2(step_log2 as nat),
        step <= old(xs)@.len() / 2,
        partner_index(step as int, tid as int) < old(xs)@.len(),
        combinable(
            plus,
            minus,
            old(xs)@,
            pair_index(step as int, tid as int),
            partner_index(step as int, tid as int),
        ),
    ensures
        kernel_step(plus, minus, old(xs)@, final(xs)@, step as int, tid as int),
{
    proof {
        let q = tid as int / step as int;
        lemma_mask_and_shift(tid, step, step_log2);
        assert(2 * step <= xs.len());
        lemma_pair_decode(step as int, tid as int);
        lemma_fundamental_div_mod(tid as int, step as int);
        lemma_mod_bound(tid as int, step as int);
        assert(0 <= (2 * step) * q <= pair_index(step as int, tid as int)) by (nonlinear_arith)
            requires
                0 < step,
                0 <= q,
                0 <= (tid as int) % (step as int),
                pair_index(step as int, tid as int) == 2 * step * q + (tid as int) % (step as int),
        ;
    }
    let group: usize = tid & (step - 1);
    let pair: usize = 2 * step * (tid >> step_log2) + group;
    let partner: usize = pair + step;
    let sum = plus(&xs[pair], &xs[partner]);
    let difference = minus(&xs[pair], &xs[partner]);
    xs[pair] = sum;
    xs[partner] = difference;
}

/// One pass with stride `step`, pair by pair in ascending order.
pub fn fwt_pass<T, A, B>(xs: &mut Vec<T>, step: usize, plus: &A, minus: &B) where
    A: Fn(&T, &T) -> T,
    B: Fn(&T, &T) -> T,

    requires
        0 < step,
        whole_blocks(old(xs)@.len() as int, step as int),
        pass_combinable(plus, minus, old(xs)@, step as int),
    ensures
        pass_done(plus, minus, old(xs)@, final(xs)@, step as int),
{
    let half: usize = xs.len() / 2;
    proof {
        lemma_half_of_blocks(xs@.len() as int, step as int);
    }
    let mut tid: usize = 0;
    while tid < half
        invariant
            0 < step,
            tid <= half,
            half == old(xs)@.len() / 2,
            old(xs)@.len() % 2 == 0,
            (half as int) % (step as int) == 0,
            pass_combinable(plus, minus, old(xs)@, step as int),
            pass_upto(plus, minus, old(xs)@, xs@, step as int, tid as int),
        decreases half - tid,
    {
        let ghost cur = xs@;
        proof {
            lemma_pair_in_bounds(step as int, tid as int, half as int);
            lemma_stride_fits(step as int, half as int);
            assert(cur[pair_index(step as int, tid as int)] == old(xs)@[pair_index(
                step as int,
                tid as int,
            )]);
        }
        fwt_kernel(xs, step, tid, plus, minus);
        proof {
            lemma_pass_step(plus, minus, old(xs)@, cur, xs@, step as int, tid as int);
        }
        tid += 1;
    }
}

/// One pass with stride `step`, the pairs dispatched in lane groups. Half
/// the length is a multiple of the lane count.
pub fn fwt_pass_spmd<T, A, B>(xs: &mut Vec<T>, step: usize, plus: &A, minus: &B) where
    A: Fn(&T, &T) -> T,
    B: Fn(&T, &T) -> T,

    requires
        0 < step,
        whole_blocks(old(xs)@.len() as int, step as int),
        lane_aligned(old(xs)@.len() as int / 2),
        pass_combinable(plus, minus, old(xs)@, step as int),
    ensures
        pass_done(plus, minus, old(xs)@, final(xs)@, step as int),
{
    let half: usize = xs.len() / 2;
    let mut taken: Vec<T> = Vec::new();
    core::mem::swap(xs, &mut taken);
    let ghost before = taken;
    let kernel = |s: Vec<T>, tid: usize| -> (r: Vec<T>)
        requires
            0 < step <= s@.len() / 2,
            partner_index(step as int, tid as int) < s@.len(),
            combinable(
                plus,
                minus,
                s@,
                pair_index(step as int, tid as int),
                partner_index(step as int, tid as int),
            ),
        ensures
            kernel_step(plus, minus, s@, r@, step as int, tid as int),
        {
            let mut s = s;
            fwt_kernel(&mut s, step, tid, plus, minus);
            s
        };
    proof {
        lemma_half_of_blocks(before@.len() as int, step as int);
        assert forall|i: int, s: Vec<T>|
            0 <= i < half && #[trigger] swept(kernel, 0, i, before, s) implies call_requires(
            kernel,
            (s, i as usize),
        ) by {
            lemma_sweep_is_pass(kernel, plus, minus, before, s, step as int, i);
            lemma_pair_in_bounds(step as int, i, half as int);
            lemma_stride_fits(step as int, half as int);
            assert(s@[pair_index(step as int, i)] == before@[pair_index(step as int, i)]);
        }
    }
    let out = spmd_range(0..half, taken, kernel);
    proof {
        lemma_sweep_is_pass(kernel, plus, minus, before, out, step as int, half as int);
    }
    *xs = out;
}

/// One pass with stride `step`, pair by pair, the indices taken by mask and
/// shift: `step` is two to the power `step_log2`.
pub fn fwt_nodivmod_pass<T, A, B>(
    xs: &mut Vec<T>,
    step: usize,
    step_log2: usize,
    plus: &A,
    minus: &B,
) where A: Fn(&T, &T) -> T, B: Fn(&T, &T) -> T
    requires
        step_log2 < usize::BITS,
        step == pow2(step_log2 as nat),
        whole_blocks(old(xs)@.len() as int, step as int),
        pass_combinable(plus, minus, old(xs)@, step as int),
    ensures
        pass_done(plus, minus, old(xs)@, final(xs)@, step as int),
{
    let half: usize = xs.len() / 2;
    proof {
        lemma_pow2_pos(step_log2 as nat);
        lemma_half_of_blocks(xs@.len() as int, step as int);
    }
    let mut tid: usize = 0;
    while tid < half
        invariant
            0 < step,
            step_log2 < usize::BITS,
            step == pow2(step_log2 as nat),
            tid <= half,
            half == old(xs)@.len() / 2,
            old(xs)@.len() % 2 == 0,
            (half as int) % (step as int) == 0,
            pass_combinable(plus, minus, old(xs)@, step as int),
            pass_upto(plus, minus, old(xs)@, xs@, step as int, tid as int),
        decreases half - tid,
    {
        let ghost cur = xs@;
        proof {
            lemma_pair_in_bounds(step as int, tid as int, half as int);
            lemma_stride_fits(step as int, half as int);
            assert(cur[pair_index(step as int, tid as int)] == old(xs)@[pair_index(
                step as int,
                tid as int,
            )]);
        }
        fwt_nodivmod_kernel(xs, step, step_log2, tid, plus, minus);
        proof {
            lemma_pass_step(plus, minus, old(xs)@, cur, xs@, step as int, tid as int);
        }
        tid += 1;
    }
}

/// One pass with stride `step`, the pairs dispatched in lane groups and the
/// indices taken by mask and shift.
pub fn fwt_nodivmod_pass_spmd<T, A, B>(
    xs: &mut Vec<T>,
    step: usize,
    step_log2: usize,
    plus: &A,
    minus: &B,
) where A: Fn(&T, &T) -> T, B: Fn(&T, &T) -> T
    requires
        step_log2 < usize::BITS,
        step == pow2(step_log2 as nat),
        whole_blocks(old(xs)@.len() as int, step as int),
        lane_aligned(old(xs)@.len() as int / 2),
        pass_combinable(plus, minus, old(xs)@, step as int),
    ensures
        pass_done(plus, minus, old(xs)@, final(xs)@, step as int),
{
    let half: usize = xs.len() / 2;
    let mut taken: Vec<T> = Vec::new();
    core::mem::swap(xs, &mut taken);
    let ghost before = taken;
    let kernel = |s: Vec<T>, tid: usize| -> (r: Vec<T>)
        requires
            step <= s@.len() / 2,
            partner_index(step as int, tid as int) < s@.len(),
            combinable(
                plus,
                minus,
                s@,
                pair_index(step as int, tid as int),
                partner_index(step as int, tid as int),
            ),
        ensures
            kernel_step(plus, minus, s@, r@, step as int, tid as int),
        {
            let mut s = s;
            fwt_nodivmod_kernel(&mut s, step, step_log2, tid, plus, minus);
            s
        };
    proof {
        lemma_pow2_pos(step_log2 as nat);
        lemma_half_of_blocks(before@.len() as int, step as int);
        assert forall|i: int, s: Vec<T>|
            0 <= i < half && #[trigger] swept(kernel, 0, i, before, s) implies call_requires(
            kernel,
            (s, i as usize),
        ) by {
            lemma_sweep_is_pass(kernel, plus, minus, before, s, step as int, i);
            lemma_pair_in_bounds(step as int, i, half as int);
            lemma_stride_fits(step as int, half as int);
            assert(s@[pair_index(step as int, i)] == before@[pair_index(step as int, i)]);
        }
    }
    let out = spmd_range(0..half, taken, kernel);
    proof {
        lemma_sweep_is_pass(kernel, plus, minus, before, out, step as int, half as int);
    }
    *xs = out;
}

/// The transform in place, each pass pair by pair. The length is a power of
/// two.
pub fn fwt_scalar<T, A, B>(xs: &mut Vec<T>, plus: &A, minus: &B) where
    A: Fn(&T, &T) -> T,
    B: Fn(&T, &T) -> T,

    requires
        power_of_two(old(xs)@.len() as int),
        always_combinable(plus, minus),
    ensures
        transformed(plus, minus, old(xs)@, final(xs)@),
{
    let n: usize = xs.len();
    let ghost e: nat = choose|e: nat| n == #[trigger] pow2(e);
    let ghost mut k: nat = 0;
    let mut step: usize = 1;
    proof {
        vstd::arithmetic::power2::lemma2_to64();
        if e == 0 {
        } else {
            lemma_pow2_strictly_increases(0, e);
        }
    }
    while step < n
        invariant
            n == pow2(e),
            step == pow2(k),
            k <= e,
            xs@.len() == n,
            always_combinable(plus, minus),
            passes_upto(plus, minus, old(xs)@, xs@, step as int),
        decreases e - k,
    {
        let ghost mid = xs@;
        proof {
            lemma_smaller_power(k, e);
            lemma_stride_divides(k, e);
            lemma_always_pass_combinable(plus, minus, mid, step as int);
        }
        fwt_pass(xs, step, plus, minus);
        proof {
            lemma_passes_extend(plus, minus, old(xs)@, mid, xs@, step as int);
            lemma_shift_doubles(step);
            k = k + 1;
        }
        step <<= 1;
    }
    proof {
        if k < e {
            lemma_pow2_strictly_increases(k, e);
        }
    }
}

/// The transform in place, the pairs of each pass dispatched in lane
/// groups. The length is a power of two, and half of it a multiple of the
/// lane count.
pub fn fwt_spmd<T, A, B>(xs: &mut Vec<T>, plus: &A, minus: &B) where
    A: Fn(&T, &T) -> T,
    B: Fn(&T, &T) -> T,

    requires
        power_of_two(old(xs)@.len() as int),
        lane_aligned(old(xs)@.len() as int / 2),
        always_combinable(plus, minus),
    ensures
        transformed(plus, minus, old(xs)@, final(xs)@),
{
    let n: usize = xs.len();
    let ghost e: nat = choose|e: nat| n == #[trigger] pow2(e);
    let ghost mut k: nat = 0;
    let mut step: usize = 1;
    proof {
        vstd::arithmetic::power2::lemma2_to64();
        if e == 0 {
        } else {
            lemma_pow2_strictly_increases(0, e);
        }
    }
    while step < n
        invariant
            n == pow2(e),
            step == pow2(k),
            k <= e,
            xs@.len() == n,
            lane_aligned(n as int / 2),
            always_combinable(plus, minus),
            passes_upto(plus, minus, old(xs)@, xs@, step as int),
        decreases e - k,
    {
        let ghost mid = xs@;
        proof {
            lemma_smaller_power(k, e);
            lemma_stride_divides(k, e);
            lemma_always_pass_combinable(plus, minus, mid, step as int);
        }
        fwt_pass_spmd(xs, step, plus, minus);
        proof {
            lemma_passes_extend(plus, minus, old(xs)@, mid, xs@, step as int);
            lemma_shift_doubles(step);
            k = k + 1;
        }
        step <<= 1;
    }
    proof {
        if k < e {
            lemma_pow2_strictly_increases(k, e);
        }
    }
}

/// The transform in place, each pass pair by pair, the indices taken by
/// mask and shift. It leaves what `fwt_scalar` leaves.
pub fn fwt_nodivmod_scalar<T, A, B>(xs: &mut Vec<T>, plus: &A, minus: &B) where
    A: Fn(&T, &T) -> T,
    B: Fn(&T, &T) -> T,

    requires
        power_of_two(old(xs)@.len() as int),
        always_combinable(plus, minus),
    ensures
        transformed(plus, minus, old(xs)@, final(xs)@),
{
    let n: usize = xs.len();
    let ghost e: nat = choose|e: nat| n == #[trigger] pow2(e);
    let mut step: usize = 1;
    let mut step_log2: usize = 0;
    proof {
        vstd::arithmetic::power2::lemma2_to64();
        if e == 0 {
        } else {
            lemma_pow2_strictly_increases(0, e);
        }
    }
    while step < n
        invariant
            n == pow2(e),
            step == pow2(step_log2 as nat),
            step_log2 <= e,
            xs@.len() == n,
            always_combinable(plus, minus),
            passes_upto(plus, minus, old(xs)@, xs@, step as int),
        decreases e - step_log2,
    {
        let ghost mid = xs@;
        proof {
            lemma_smaller_power(step_log2 as nat, e);
            lemma_stride_divides(step_log2 as nat, e);
            lemma_exponent_fits(step_log2 as nat + 1);
            lemma_always_pass_combinable(plus, minus, mid, step as int);
        }
        fwt_nodivmod_pass(xs, step, step_log2, plus, minus);
        proof {
            lemma_passes_extend(plus, minus, old(xs)@, mid, xs@, step as int);
            lemma_shift_doubles(step);
        }
        step <<= 1;
        step_log2 += 1;
    }
    proof {
        if step_log2 < e {
            lemma_pow2_strictly_increases(step_log2 as nat, e);
        }
    }
}

/// The transform in place, the pairs of each pass dispatched in lane groups
/// and the indices taken by mask and shift. It leaves what `fwt_spmd`
/// leaves.
pub fn fwt_nodivmod_spmd<T, A, B>(xs: &mut Vec<T>, plus: &A, minus: &B) where
    A: Fn(&T, &T) -> T,
    B: Fn(&T, &T) -> T,

    requires
        power_of_two(old(xs)@.len() as int),
        lane_aligned(old(xs)@.len() as int / 2),
        always_combinable(plus, minus),
    ensures
        transformed(plus, minus, old(xs)@, final(xs)@),
{
    let n: usize = xs.len();
    let ghost e: nat = choose|e: nat| n == #[trigger] pow2(e);
    let mut step: usize = 1;
    let mut step_log2: usize = 0;
    proof {
        vstd::arithmetic::power2::lemma2_to64();
        if e == 0 {
        } else {
            lemma_pow2_strictly_increases(0, e);
        }
    }
    while step < n
        invariant
            n == pow2(e),
            step == pow2(step_log2 as nat),
            step_log2 <= e,
            xs@.len() == n,
            lane_aligned(n as int / 2),
            always_combinable(plus, minus),
            passes_upto(plus, minus, old(xs)@, xs@, step as int),
        decreases e - step_log2,
    {
        let ghost mid = xs@;
        proof {
            lemma_smaller_power(step_log2 as nat, e);
            lemma_stride_divides(step_log2 as nat, e);
            lemma_exponent_fits(step_log2 as nat + 1);
            lemma_always_pass_combinable(plus, minus, mid, step as int);
        }
        fwt_nodivmod_pass_spmd(xs, step, step_log2, plus, minus);
        proof {
            lemma_passes_extend(plus, minus, old(xs)@, mid, xs@, step as int);
            lemma_shift_doubles(step);
        }
        step <<= 1;
        step_log2 += 1;
    }
    proof {
        if step_log2 < e {
            lemma_pow2_strictly_increases(step_log2 as nat, e);
        }
    }
}

} // verus!
