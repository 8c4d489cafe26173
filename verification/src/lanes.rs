//! The lane execution engine: maps a kernel over a buffer either one element
//! at a time or in lock-step groups of `LANES` lanes.
//!
//! A kernel is a function value. What it may be called on and what it may
//! return are given by its own contract, so every statement below is made
//! over the kernel's `call_requires` and `call_ensures`. Lanes never see each
//! other's writes within one dispatch, so a dispatch leaves exactly what the
//! sequential loop over the same lanes leaves.

use vstd::prelude::*;
use core::ops::Range;

verus! {

/// The number of lanes that one dispatch runs in lock-step.
pub const LANES: usize = 16;

/// Why a vectorized call cannot be dispatched.
#[derive(Clone, Copy, Debug, PartialEq, Eq, Structural)]
pub enum LaneError {
    /// The length does not fill whole lane groups.
    Misaligned,
    /// The outputs and the inputs of a paired call differ in length.
    LengthMismatch,
}

/// `true` exactly when `len` elements fill whole lane groups.
pub open spec fn lane_aligned(len: int) -> bool {
    len % (LANES as int) == 0
}

/// The number of indices in `lo..hi`, which is empty when `hi <= lo`.
pub open spec fn span(lo: int, hi: int) -> int {
    if lo <= hi {
        hi - lo
    } else {
        0
    }
}

/// The kernel may be called on every element of `s`.
pub open spec fn accepts_each<T, F: Fn(&T) -> T>(f: F, s: Seq<T>) -> bool {
    forall|i: int| 0 <= i < s.len() ==> call_requires(f, (&#[trigger] s[i],))
}

/// `after` is what a run of the kernel over each element of `before`,
/// position by position, can leave behind.
pub open spec fn mapped_each<T, F: Fn(&T) -> T>(f: F, before: Seq<T>, after: Seq<T>) -> bool {
    &&& after.len() == before.len()
    &&& forall|i: int|
        0 <= i < before.len() ==> call_ensures(f, (&before[i],), #[trigger] after[i])
}

/// The kernel may be called on every pair of an output and the input at the
/// same position.
pub open spec fn accepts_pairs<T, F: Fn(&T, &T) -> T>(f: F, outs: Seq<T>, ins: Seq<T>) -> bool {
    forall|i: int|
        0 <= i < outs.len() && i < ins.len() ==> call_requires(f, (&#[trigger] outs[i], &ins[i]))
}

/// `after` is what a run of the kernel over each pair of `before[i]` and
/// `ins[i]` can leave behind in the outputs.
pub open spec fn zipped_each<T, F: Fn(&T, &T) -> T>(
    f: F,
    before: Seq<T>,
    ins: Seq<T>,
    after: Seq<T>,
) -> bool {
    &&& after.len() == before.len()
    &&& forall|i: int|
        0 <= i < before.len() && i < ins.len() ==> call_ensures(
            f,
            (&before[i], &ins[i]),
            #[trigger] after[i],
        )
}

/// `after` is a state that calling the kernel for the indices `lo..hi`, in
/// ascending order and each call on the state the previous one returned, can
/// end in when it starts from `before`.
pub open spec fn swept<S, F: Fn(S, usize) -> S>(f: F, lo: int, hi: int, before: S, after: S) -> bool
    decreases hi - lo,
{
    if hi <= lo {
        after == before
    } else {
        exists|mid: S|
            swept(f, lo, hi - 1, before, mid) && #[trigger] call_ensures(
                f,
                (mid, (hi - 1) as usize),
                after,
            )
    }
}

/// The kernel may be called for every index of `lo..hi` on every state that
/// the calls before it can have produced from `start`.
pub open spec fn accepts_sweep<S, F: Fn(S, usize) -> S>(f: F, lo: int, hi: int, start: S) -> bool {
    forall|i: int, s: S|
        lo <= i < hi && #[trigger] swept(f, lo, i, start, s) ==> call_requires(f, (s, i as usize))
}

/// The kernel returns one value for each element: its contract leaves no
/// choice.
pub open spec fn single_valued<T, F: Fn(&T) -> T>(f: F) -> bool {
    forall|x: T, y: T, z: T|
        #[trigger] call_ensures(f, (&x,), y) && #[trigger] call_ensures(f, (&x,), z) ==> y == z
}

/// The kernel returns one value for each pair of an output and an input.
pub open spec fn single_valued_pairs<T, F: Fn(&T, &T) -> T>(f: F) -> bool {
    forall|o: T, x: T, y: T, z: T|
        #[trigger] call_ensures(f, (&o, &x), y) && #[trigger] call_ensures(f, (&o, &x), z) ==> y
            == z
}

/// The kernel returns one state for each state and index.
pub open spec fn single_valued_sweep<S, F: Fn(S, usize) -> S>(f: F) -> bool {
    forall|s: S, i: usize, y: S, z: S|
        #[trigger] call_ensures(f, (s, i), y) && #[trigger] call_ensures(f, (s, i), z) ==> y == z
}

/// The scalar run and the vector run of one single-valued kernel on one
/// input leave the same buffer: both leave a buffer that `mapped_each`
/// relates to the input, and there is only one.
pub proof fn lemma_scalar_vector_agree<T, F: Fn(&T) -> T>(
    f: F,
    input: Seq<T>,
    scalar: Seq<T>,
    vector: Seq<T>,
)
    requires
        single_valued(f),
        mapped_each(f, input, scalar),
        mapped_each(f, input, vector),
    ensures
        scalar == vector,
{
    assert forall|i: int| 0 <= i < scalar.len() implies scalar[i] == vector[i] by {
        assert(call_ensures(f, (&input[i],), scalar[i]));
        assert(call_ensures(f, (&input[i],), vector[i]));
    }
    assert(scalar =~= vector);
}

/// Two paired runs of one single-valued kernel on the same outputs and
/// inputs leave the same outputs, whatever the order in which the lanes ran.
pub proof fn lemma_zip_runs_agree<T, F: Fn(&T, &T) -> T>(
    f: F,
    outs: Seq<T>,
    ins: Seq<T>,
    first: Seq<T>,
    second: Seq<T>,
)
    requires
        single_valued_pairs(f),
        outs.len() == ins.len(),
        zipped_each(f, outs, ins, first),
        zipped_each(f, outs, ins, second),
    ensures
        first == second,
{
    assert forall|i: int| 0 <= i < first.len() implies first[i] == second[i] by {
        assert(call_ensures(f, (&outs[i], &ins[i]), first[i]));
        assert(call_ensures(f, (&outs[i], &ins[i]), second[i]));
    }
    assert(first =~= second);
}

/// Two sweeps of one single-valued kernel over the same range from the same
/// state end in the same state: the dispatch in lane groups and the plain
/// loop over the indices cannot be told apart.
pub proof fn lemma_sweeps_agree<S, F: Fn(S, usize) -> S>(
    f: F,
    lo: int,
    hi: int,
    start: S,
    first: S,
    second: S,
)
    requires
        single_valued_sweep(f),
        swept(f, lo, hi, start, first),
        swept(f, lo, hi, start, second),
    ensures
        first == second,
    decreases hi - lo,
{
    if hi > lo {
        let m1 = choose|m: S|
            swept(f, lo, hi - 1, start, m) && #[trigger] call_ensures(
                f,
                (m, (hi - 1) as usize),
                first,
            );
        let m2 = choose|m: S|
            swept(f, lo, hi - 1, start, m) && #[trigger] call_ensures(
                f,
                (m, (hi - 1) as usize),
                second,
            );
        lemma_sweeps_agree(f, lo, hi - 1, start, m1, m2);
    }
}

/// A sweep over `lo..hi` followed by one call for `hi` is a sweep over
/// `lo..hi + 1`.
pub proof fn lemma_swept_extend<S, F: Fn(S, usize) -> S>(
    f: F,
    lo: int,
    hi: int,
    before: S,
    mid: S,
    after: S,
)
    requires
        lo <= hi,
        swept(f, lo, hi, before, mid),
        call_ensures(f, (mid, hi as usize), after),
    ensures
        swept(f, lo, hi + 1, before, after),
{
    assert(call_ensures(f, (mid, ((hi + 1) - 1) as usize), after));
}

/// What holds of the state before a sweep, and is carried on by every call
/// of the kernel, holds of the state after it. `inv(i, s)` speaks of the
/// state `s` that the call for index `i` starts from.
pub proof fn lemma_swept_invariant<S, F: Fn(S, usize) -> S>(
    f: F,
    lo: int,
    hi: int,
    before: S,
    after: S,
    inv: spec_fn(int, S) -> bool,
)
    requires
        0 <= lo <= hi <= usize::MAX,
        inv(lo, before),
        forall|i: int, s: S, r: S|
            lo <= i < hi && inv(i, s) && #[trigger] call_ensures(f, (s, i as usize), r) ==> inv(
                i + 1,
                r,
            ),
        swept(f, lo, hi, before, after),
    ensures
        inv(hi, after),
    decreases hi - lo,
{
    if hi > lo {
        let mid = choose|mid: S|
            swept(f, lo, hi - 1, before, mid) && #[trigger] call_ensures(
                f,
                (mid, (hi - 1) as usize),
                after,
            );
        lemma_swept_invariant(f, lo, hi - 1, before, mid, inv);
    }
}

/// A sweep over an empty range leaves the state as it was.
pub proof fn lemma_swept_empty<S, F: Fn(S, usize) -> S>(f: F, lo: int, hi: int, before: S, after: S)
    requires
        hi <= lo,
    ensures
        swept(f, lo, hi, before, after) <==> after == before,
{
}

/// Says whether `len` elements can be dispatched in lane groups.
pub fn check_dispatch(len: usize) -> (r: Result<(), LaneError>)
    ensures
        lane_aligned(len as int) ==> r == Ok::<(), LaneError>(()),
        !lane_aligned(len as int) ==> r == Err::<(), LaneError>(LaneError::Misaligned),
{
    if len % LANES == 0 {
        Ok(())
    } else {
        Err(LaneError::Misaligned)
    }
}

/// Says whether `outs_len` outputs can be paired with `ins_len` inputs and
/// dispatched in lane groups. The alignment of the inputs is looked at first.
pub fn check_zip(outs_len: usize, ins_len: usize) -> (r: Result<(), LaneError>)
    ensures
        !lane_aligned(ins_len as int) ==> r == Err::<(), LaneError>(LaneError::Misaligned),
        lane_aligned(ins_len as int) && outs_len != ins_len ==> r == Err::<(), LaneError>(
            LaneError::LengthMismatch,
        ),
        lane_aligned(ins_len as int) && outs_len == ins_len ==> r == Ok::<(), LaneError>(()),
{
    if ins_len % LANES != 0 {
        Err(LaneError::Misaligned)
    } else if ins_len != outs_len {
        Err(LaneError::LengthMismatch)
    } else {
        Ok(())
    }
}

/// Runs the kernel once on every element, in index order, and stores what it
/// returns in the element's place.
pub fn run_scalar<T, F>(scratch: &mut [T], f: F) where F: Sync + Fn(&T) -> T
    requires
        accepts_each(f, old(scratch)@),
    ensures
        mapped_each(f, old(scratch)@, final(scratch)@),
{
    let n: usize = scratch.len();
    let mut i: usize = 0;
    while i < n
        invariant
            i <= n,
            n == old(scratch)@.len(),
            scratch@.len() == n,
            accepts_each(f, old(scratch)@),
            forall|j: int|
                0 <= j < i ==> call_ensures(f, (&old(scratch)@[j],), #[trigger] scratch@[j]),
            forall|j: int| i <= j < n ==> scratch@[j] == old(scratch)@[j],
        decreases n - i,
    {
        let next = f(&scratch[i]);
        scratch[i] = next;
        i += 1;
    }
}

/// One dispatch: lane `id` runs the kernel on element `id`. The buffer holds
/// exactly one lane group.
pub fn spmd<T, F>(x: &mut [T], kernel: F) where F: Sync + Fn(&T) -> T
    requires
        old(x)@.len() == LANES,
        accepts_each(kernel, old(x)@),
    ensures
        mapped_each(kernel, old(x)@, final(x)@),
{
    run_scalar(x, kernel);
}

/// Runs the kernel on the one lane group that the buffer holds, all lanes in
/// one dispatch. It leaves what `run_scalar` leaves.
pub fn run_vector<T, F>(scratch: &mut [T], f: F) where F: Sync + Fn(&T) -> T
    requires
        old(scratch)@.len() == LANES,
        accepts_each(f, old(scratch)@),
    ensures
        mapped_each(f, old(scratch)@, final(scratch)@),
{
    spmd(scratch, f);
}

/// Calls the kernel for every index of the range, one lane group after the
/// other and within a group lane by lane, each call on the state that the
/// previous one returned, and returns the last state. The length of the range
/// is a multiple of `LANES`; a range whose end is not above its start is empty.
pub fn spmd_range<S, F>(x: Range<usize>, state: S, kernel: F) -> (out: S) where F: Fn(S, usize) -> S
    requires
        lane_aligned(span(x.start as int, x.end as int)),
        accepts_sweep(kernel, x.start as int, x.end as int, state),
    ensures
        swept(kernel, x.start as int, x.end as int, state, out),
{
    let lo: usize = x.start;
    let hi: usize = x.end;
    let ghost first = state;
    let mut cur = state;
    let mut base: usize = lo;
    while base < hi
        invariant
            lo <= base,
            base <= hi || base == lo,
            lane_aligned(span(base as int, hi as int)),
            accepts_sweep(kernel, lo as int, hi as int, first),
            swept(kernel, lo as int, base as int, first, cur),
        decreases span(base as int, hi as int),
    {
        let mut lane: usize = 0;
        while lane < LANES
            invariant
                lane <= LANES,
                lo <= base,
                base < hi,
                base + LANES <= hi,
                accepts_sweep(kernel, lo as int, hi as int, first),
                swept(kernel, lo as int, base + lane, first, cur),
            decreases LANES - lane,
        {
            let id: usize = base + lane;
            let ghost mid = cur;
            cur = kernel(cur, id);
            proof {
                lemma_swept_extend(kernel, lo as int, id as int, first, mid, cur);
            }
            lane += 1;
        }
        base += LANES;
    }
    proof {
        if hi <= lo {
            lemma_swept_empty(kernel, lo as int, lo as int, first, cur);
            lemma_swept_empty(kernel, lo as int, hi as int, first, cur);
        }
    }
    cur
}

/// Stores in every `outs[i]` what the kernel returns for `outs[i]` and
/// `ins[i]`, one lane group after the other. The two lengths are equal and a
/// multiple of `LANES`.
pub fn spmd_zip2<T, F>(outs: &mut [T], ins: &[T], kernel: F) where F: Sync + Fn(&T, &T) -> T
    requires
        lane_aligned(ins@.len() as int),
        ins@.len() == old(outs)@.len(),
        accepts_pairs(kernel, old(outs)@, ins@),
    ensures
        zipped_each(kernel, old(outs)@, ins@, final(outs)@),
{
    let n: usize = ins.len();
    let mut base: usize = 0;
    while base < n
        invariant
            base <= n,
            n == ins@.len(),
            n == old(outs)@.len(),
            outs@.len() == n,
            lane_aligned(n - base),
            accepts_pairs(kernel, old(outs)@, ins@),
            forall|j: int|
                0 <= j < base ==> call_ensures(
                    kernel,
                    (&old(outs)@[j], &ins@[j]),
                    #[trigger] outs@[j],
                ),
            forall|j: int| base <= j < n ==> outs@[j] == old(outs)@[j],
        decreases n - base,
    {
        let mut lane: usize = 0;
        while lane < LANES
            invariant
                lane <= LANES,
                base + LANES <= n,
                n == ins@.len(),
                n == old(outs)@.len(),
                outs@.len() == n,
                accepts_pairs(kernel, old(outs)@, ins@),
                forall|j: int|
                    0 <= j < base + lane ==> call_ensures(
                        kernel,
                        (&old(outs)@[j], &ins@[j]),
                        #[trigger] outs@[j],
                    ),
                forall|j: int| base + lane <= j < n ==> outs@[j] == old(outs)@[j],
            decreases LANES - lane,
        {
            let id: usize = base + lane;
            let next = kernel(&outs[id], &ins[id]);
            outs[id] = next;
            lane += 1;
        }
        base += LANES;
    }
}

} // verus!
