//! What the transform computes where sums and differences are exact: the
//! Walsh-Hadamard transform of the samples' values, which applied twice
//! multiplies every value by the length.

use vstd::prelude::*;
use vstd::arithmetic::power2::{pow2, lemma_pow2_pos, lemma_pow2_unfold};
use vstd::arithmetic::div_mod::{
    lemma_fundamental_div_mod,
    lemma_mod_bound,
    lemma_small_mod,
    lemma_mod_multiples_vanish,
};
use crate::fwt::{butterfly, pass_done, passes_upto, transformed};
use crate::fwt_pairs::{
    lemma_half_of_blocks,
    lemma_owner_covers,
    lemma_pair_in_bounds,
    lemma_stride_divides,
    owner,
    pair_index,
    partner_index,
    power_of_two,
    whole_blocks,
};

verus! {

/// Under `val`, what `plus` returns is the sum and what `minus` returns is
/// the difference of what they are given.
pub open spec fn exact_arith<T, A: Fn(&T, &T) -> T, B: Fn(&T, &T) -> T>(
    plus: &A,
    minus: &B,
    val: spec_fn(T) -> int,
) -> bool {
    &&& forall|a: T, b: T, r: T| #[trigger]
        call_ensures(*plus, (&a, &b), r) ==> val(r) == val(a) + val(b)
    &&& forall|a: T, b: T, r: T| #[trigger]
        call_ensures(*minus, (&a, &b), r) ==> val(r) == val(a) - val(b)
}

/// The values of the samples.
pub open spec fn values<T>(s: Seq<T>, val: spec_fn(T) -> int) -> Seq<int> {
    Seq::new(s.len(), |i: int| val(s[i]))
}

/// One pass with stride `step` over values: in every block of `2 * step`,
/// the lower half becomes the sums and the upper half the differences of the
/// two halves.
pub open spec fn mixed(x: Seq<int>, step: int) -> Seq<int> {
    Seq::new(
        x.len(),
        |i: int|
            if i % (2 * step) < step {
                x[i] + x[i + step]
            } else {
                x[i - step] - x[i]
            },
    )
}

/// The passes with the strides `1, 2, ..., pow2(j - 1)`, one after the
/// other.
pub open spec fn hadamard(x: Seq<int>, j: nat) -> Seq<int>
    decreases j,
{
    if j == 0 {
        x
    } else {
        mixed(hadamard(x, (j - 1) as nat), pow2((j - 1) as nat) as int)
    }
}

/// Every value multiplied by `c`.
pub open spec fn scaled(x: Seq<int>, c: int) -> Seq<int> {
    Seq::new(x.len(), |i: int| c * x[i])
}

/// The sums, position by position.
pub open spec fn sums(x: Seq<int>, y: Seq<int>) -> Seq<int> {
    Seq::new(x.len(), |i: int| x[i] + y[i])
}

/// The differences, position by position.
pub open spec fn differences(x: Seq<int>, y: Seq<int>) -> Seq<int> {
    Seq::new(x.len(), |i: int| x[i] - y[i])
}

/// In a buffer of whole blocks, the index that a pass combines with `i`
/// lies in the buffer.
pub proof fn lemma_partner_in_range(len: int, step: int, i: int)
    requires
        0 < step,
        whole_blocks(len, step),
        0 <= i < len,
    ensures
        i % (2 * step) < step ==> i + step < len,
        i % (2 * step) >= step ==> 0 <= i - step,
{
    let q = i / (2 * step);
    let r = i % (2 * step);
    let blocks = len / (2 * step);
    lemma_fundamental_div_mod(i, 2 * step);
    lemma_fundamental_div_mod(len, 2 * step);
    lemma_mod_bound(i, 2 * step);
    assert(0 <= q < blocks) by (nonlinear_arith)
        requires
            i == (2 * step) * q + r,
            len == (2 * step) * blocks,
            0 <= r < 2 * step,
            0 <= i < len,
            0 < step,
    ;
    assert((2 * step) * q + 2 * step <= (2 * step) * blocks) by (nonlinear_arith)
        requires
            q + 1 <= blocks,
            0 < step,
    ;
    assert(0 <= (2 * step) * q) by (nonlinear_arith)
        requires
            0 <= q,
            0 < step,
    ;
}

/// Where sums and differences are exact, the values after a pass are the
/// mixed values before it.
pub proof fn lemma_pass_is_mixed<T, A: Fn(&T, &T) -> T, B: Fn(&T, &T) -> T>(
    plus: &A,
    minus: &B,
    val: spec_fn(T) -> int,
    before: Seq<T>,
    after: Seq<T>,
    step: int,
)
    requires
        0 < step,
        whole_blocks(before.len() as int, step),
        exact_arith(plus, minus, val),
        pass_done(plus, minus, before, after, step),
    ensures
        values(after, val) == mixed(values(before, val), step),
{
    let len = before.len() as int;
    let x = values(before, val);
    assert forall|i: int| 0 <= i < len implies values(after, val)[i] == mixed(x, step)[i] by {
        let t = owner(step, i);
        lemma_owner_covers(step, len, i);
        lemma_half_of_blocks(len, step);
        lemma_pair_in_bounds(step, t, len / 2);
        let p = pair_index(step, t);
        let q = partner_index(step, t);
        assert(butterfly(plus, minus, before, after, p, q));
    }
    assert(values(after, val) =~= mixed(x, step));
}

/// Where sums and differences are exact, the values after the passes below
/// `pow2(j)` are the transform of that many passes of the values before.
pub proof fn lemma_passes_are_hadamard<T, A: Fn(&T, &T) -> T, B: Fn(&T, &T) -> T>(
    plus: &A,
    minus: &B,
    val: spec_fn(T) -> int,
    before: Seq<T>,
    after: Seq<T>,
    j: nat,
    e: nat,
)
    requires
        before.len() == pow2(e),
        j <= e,
        exact_arith(plus, minus, val),
        passes_upto(plus, minus, before, after, pow2(j) as int),
    ensures
        after.len() == before.len(),
        values(after, val) == hadamard(values(before, val), j),
    decreases j,
{
    vstd::arithmetic::power2::lemma2_to64();
    if j > 0 {
        let limit = pow2(j) as int;
        let half = pow2((j - 1) as nat) as int;
        lemma_pow2_unfold(j);
        lemma_pow2_pos((j - 1) as nat);
        assert(limit / 2 == half);
        let mid = choose|mid: Seq<T>|
            passes_upto(plus, minus, before, mid, limit / 2) && #[trigger] pass_done(
                plus,
                minus,
                mid,
                after,
                limit / 2,
            );
        lemma_passes_are_hadamard(plus, minus, val, before, mid, (j - 1) as nat, e);
        lemma_stride_divides((j - 1) as nat, e);
        lemma_pass_is_mixed(plus, minus, val, mid, after, half);
    }
}

/// The passes keep the length.
pub proof fn lemma_hadamard_len(x: Seq<int>, j: nat)
    ensures
        hadamard(x, j).len() == x.len(),
    decreases j,
{
    if j > 0 {
        lemma_hadamard_len(x, (j - 1) as nat);
    }
}

/// A pass over two buffers of whole blocks laid end to end is the pass over
/// each.
pub proof fn lemma_mixed_of_halves(a: Seq<int>, b: Seq<int>, step: int)
    requires
        0 < step,
        a.len() == b.len(),
        whole_blocks(a.len() as int, step),
    ensures
        mixed(a + b, step) == mixed(a, step) + mixed(b, step),
{
    let h = a.len() as int;
    let x = a + b;
    assert forall|i: int| 0 <= i < 2 * h implies mixed(x, step)[i] == (mixed(a, step) + mixed(
        b,
        step,
    ))[i] by {
        if i < h {
            lemma_partner_in_range(h, step, i);
        } else {
            let k = i - h;
            let blocks = h / (2 * step);
            lemma_fundamental_div_mod(h, 2 * step);
            assert(h == blocks * (2 * step)) by (nonlinear_arith)
                requires
                    h == (2 * step) * blocks,
            ;
            lemma_mod_multiples_vanish(blocks, k, 2 * step);
            assert(i % (2 * step) == k % (2 * step));
            lemma_partner_in_range(h, step, k);
        }
    }
    assert(mixed(x, step) =~= mixed(a, step) + mixed(b, step));
}

/// The passes whose blocks fit in one half of a buffer transform each half
/// by itself.
pub proof fn lemma_hadamard_of_halves(a: Seq<int>, b: Seq<int>, j: nat, e: nat)
    requires
        a.len() == pow2(e),
        b.len() == pow2(e),
        j <= e,
    ensures
        hadamard(a + b, j) == hadamard(a, j) + hadamard(b, j),
    decreases j,
{
    if j > 0 {
        let s = pow2((j - 1) as nat) as int;
        lemma_hadamard_of_halves(a, b, (j - 1) as nat, e);
        lemma_hadamard_len(a, (j - 1) as nat);
        lemma_hadamard_len(b, (j - 1) as nat);
        lemma_stride_divides((j - 1) as nat, e);
        lemma_mixed_of_halves(hadamard(a, (j - 1) as nat), hadamard(b, (j - 1) as nat), s);
    }
}

/// A pass is linear: the pass over sums is the sums of the passes, and the
/// pass over differences the differences of the passes.
pub proof fn lemma_mixed_linear(x: Seq<int>, y: Seq<int>, step: int)
    requires
        0 < step,
        x.len() == y.len(),
        whole_blocks(x.len() as int, step),
    ensures
        mixed(sums(x, y), step) == sums(mixed(x, step), mixed(y, step)),
        mixed(differences(x, y), step) == differences(mixed(x, step), mixed(y, step)),
{
    let len = x.len() as int;
    assert forall|i: int| 0 <= i < len implies mixed(sums(x, y), step)[i] == sums(
        mixed(x, step),
        mixed(y, step),
    )[i] && mixed(differences(x, y), step)[i] == differences(mixed(x, step), mixed(y, step))[i] by {
        lemma_partner_in_range(len, step, i);
    }
    assert(mixed(sums(x, y), step) =~= sums(mixed(x, step), mixed(y, step)));
    assert(mixed(differences(x, y), step) =~= differences(mixed(x, step), mixed(y, step)));
}

/// The passes are linear.
pub proof fn lemma_hadamard_linear(x: Seq<int>, y: Seq<int>, j: nat, e: nat)
    requires
        x.len() == pow2(e),
        y.len() == pow2(e),
        j <= e,
    ensures
        hadamard(sums(x, y), j) == sums(hadamard(x, j), hadamard(y, j)),
        hadamard(differences(x, y), j) == differences(hadamard(x, j), hadamard(y, j)),
    decreases j,
{
    if j > 0 {
        let s = pow2((j - 1) as nat) as int;
        lemma_hadamard_linear(x, y, (j - 1) as nat, e);
        lemma_hadamard_len(x, (j - 1) as nat);
        lemma_hadamard_len(y, (j - 1) as nat);
        lemma_stride_divides((j - 1) as nat, e);
        lemma_mixed_linear(hadamard(x, (j - 1) as nat), hadamard(y, (j - 1) as nat), s);
    }
}

/// The pass whose stride is half the length turns two halves into their
/// sums and their differences.
pub proof fn lemma_mixed_across_halves(a: Seq<int>, b: Seq<int>)
    requires
        0 < a.len(),
        a.len() == b.len(),
    ensures
        mixed(a + b, a.len() as int) == sums(a, b) + differences(a, b),
{
    let h = a.len() as int;
    let x = a + b;
    assert forall|i: int| 0 <= i < 2 * h implies mixed(x, h)[i] == (sums(a, b) + differences(
        a,
        b,
    ))[i] by {
        lemma_small_mod(i as nat, (2 * h) as nat);
    }
    assert(mixed(x, h) =~= sums(a, b) + differences(a, b));
}

/// The transform of `pow2(k)` values, applied twice, multiplies every value
/// by `pow2(k)`.
pub proof fn lemma_hadamard_twice(x: Seq<int>, k: nat)
    requires
        x.len() == pow2(k),
    ensures
        hadamard(hadamard(x, k), k) == scaled(x, pow2(k) as int),
    decreases k,
{
    vstd::arithmetic::power2::lemma2_to64();
    if k == 0 {
        assert(hadamard(hadamard(x, 0), 0) =~= scaled(x, 1));
    } else {
        let j = (k - 1) as nat;
        let h = pow2(j) as int;
        lemma_pow2_unfold(k);
        lemma_pow2_pos(j);
        let a = x.subrange(0, h);
        let b = x.subrange(h, 2 * h);
        assert(x =~= a + b);
        let ta = hadamard(a, j);
        let tb = hadamard(b, j);
        lemma_hadamard_len(a, j);
        lemma_hadamard_len(b, j);
        // The first transform.
        lemma_hadamard_of_halves(a, b, j, j);
        lemma_mixed_across_halves(ta, tb);
        let lower = sums(ta, tb);
        let upper = differences(ta, tb);
        assert(hadamard(x, k) == lower + upper);
        // The second transform.
        lemma_hadamard_of_halves(lower, upper, j, j);
        lemma_hadamard_linear(ta, tb, j, j);
        let tta = hadamard(ta, j);
        let ttb = hadamard(tb, j);
        lemma_hadamard_len(ta, j);
        lemma_hadamard_len(tb, j);
        lemma_mixed_across_halves(sums(tta, ttb), differences(tta, ttb));
        lemma_hadamard_twice(a, j);
        lemma_hadamard_twice(b, j);
        let twice = hadamard(hadamard(x, k), k);
        assert(twice == sums(sums(tta, ttb), differences(tta, ttb)) + differences(
            sums(tta, ttb),
            differences(tta, ttb),
        ));
        assert forall|i: int| 0 <= i < 2 * h implies twice[i] == scaled(x, 2 * h)[i] by {
            if i < h {
                assert(tta[i] == h * a[i]);
                assert(2 * (h * a[i]) == (2 * h) * x[i]) by (nonlinear_arith)
                    requires
                        a[i] == x[i],
                ;
            } else {
                assert(ttb[i - h] == h * b[i - h]);
                assert(2 * (h * b[i - h]) == (2 * h) * x[i]) by (nonlinear_arith)
                    requires
                        b[i - h] == x[i],
                ;
            }
        }
        assert(twice =~= scaled(x, 2 * h));
    }
}

/// Where sums and differences are exact, transforming a buffer twice
/// multiplies the value of every sample by the length of the buffer: divided
/// by the length, the second transform gives the samples back.
pub proof fn lemma_transform_twice_scales<T, A: Fn(&T, &T) -> T, B: Fn(&T, &T) -> T>(
    plus: &A,
    minus: &B,
    val: spec_fn(T) -> int,
    samples: Seq<T>,
    once: Seq<T>,
    twice: Seq<T>,
)
    requires
        power_of_two(samples.len() as int),
        exact_arith(plus, minus, val),
        transformed(plus, minus, samples, once),
        transformed(plus, minus, once, twice),
    ensures
        twice.len() == samples.len(),
        forall|i: int|
            0 <= i < samples.len() ==> val(#[trigger] twice[i]) == samples.len() * val(samples[i]),
{
    let e = choose|e: nat| samples.len() as int == #[trigger] pow2(e);
    let x = values(samples, val);
    lemma_passes_are_hadamard(plus, minus, val, samples, once, e, e);
    lemma_passes_are_hadamard(plus, minus, val, once, twice, e, e);
    lemma_hadamard_twice(x, e);
    assert forall|i: int| 0 <= i < samples.len() implies val(#[trigger] twice[i]) == samples.len()
        * val(samples[i]) by {
        assert(values(twice, val)[i] == scaled(x, pow2(e) as int)[i]);
    }
}

} // verus!
