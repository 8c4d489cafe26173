//! The Fibonacci kernel: an iterative and a doubly recursive variant of the
//! same sequence, which starts `1, 1, 2, 3, 5, ...`, and the benchmark entry
//! points that run either over the indices `0..16` through the lane engine.

use vstd::prelude::*;
use crate::lanes::{run_scalar, run_vector};
use crate::support::black_box;

verus! {

/// The sequence both variants compute: `1` below index 2, and from there on
/// the sum of the two preceding terms.
pub open spec fn fib(n: int) -> int
    decreases n,
{
    if n < 2 {
        1
    } else {
        fib(n - 1) + fib(n - 2)
    }
}

/// The largest index whose term still fits in an `i32`.
pub const FIB_MAX_INDEX: i32 = 45;

/// The indices that the benchmark entry points start from.
pub const INPUT: [i32; 16] = [0, 1, 2, 3, 4, 5, 6, 7, 8, 9, 10, 11, 12, 13, 14, 15];

/// What every benchmark entry point leaves: the first sixteen terms.
pub open spec fn fib_table() -> Seq<i32> {
    Seq::new(16, |i: int| fib(i) as i32)
}

/// The sequence never decreases and every term is positive.
pub proof fn lemma_fib_monotonic(i: int, j: int)
    requires
        i <= j,
    ensures
        0 < fib(i) <= fib(j),
    decreases j,
{
    if j < 2 {
    } else if i == j {
        lemma_fib_monotonic(j - 1, j - 1);
        lemma_fib_monotonic(j - 2, j - 2);
    } else {
        lemma_fib_monotonic(i, j - 1);
        lemma_fib_monotonic(j - 2, j - 2);
    }
}

/// The term at `FIB_MAX_INDEX`, reached term by term.
pub proof fn lemma_fib_last_term()
    ensures
        fib(45) == 1836311903,
{
    assert(fib(0) == 1);
    assert(fib(1) == 1);
    assert(fib(2) == 2);
    assert(fib(3) == 3);
    assert(fib(4) == 5);
    assert(fib(5) == 8);
    assert(fib(6) == 13);
    assert(fib(7) == 21);
    assert(fib(8) == 34);
    assert(fib(9) == 55);
    assert(fib(10) == 89);
    assert(fib(11) == 144);
    assert(fib(12) == 233);
    assert(fib(13) == 377);
    assert(fib(14) == 610);
    assert(fib(15) == 987);
    assert(fib(16) == 1597);
    assert(fib(17) == 2584);
    assert(fib(18) == 4181);
    assert(fib(19) == 6765);
    assert(fib(20) == 10946);
    assert(fib(21) == 17711);
    assert(fib(22) == 28657);
    assert(fib(23) == 46368);
    assert(fib(24) == 75025);
    assert(fib(25) == 121393);
    assert(fib(26) == 196418);
    assert(fib(27) == 317811);
    assert(fib(28) == 514229);
    assert(fib(29) == 832040);
    assert(fib(30) == 1346269);
    assert(fib(31) == 2178309);
    assert(fib(32) == 3524578);
    assert(fib(33) == 5702887);
    assert(fib(34) == 9227465);
    assert(fib(35) == 14930352);
    assert(fib(36) == 24157817);
    assert(fib(37) == 39088169);
    assert(fib(38) == 63245986);
    assert(fib(39) == 102334155);
    assert(fib(40) == 165580141);
    assert(fib(41) == 267914296);
    assert(fib(42) == 433494437);
    assert(fib(43) == 701408733);
    assert(fib(44) == 1134903170);
    assert(fib(45) == 1836311903);
}

/// Every term up to `FIB_MAX_INDEX` is a positive `i32`.
pub proof fn lemma_fib_fits(n: int)
    requires
        n <= FIB_MAX_INDEX,
    ensures
        0 < fib(n) <= i32::MAX,
{
    lemma_fib_last_term();
    lemma_fib_monotonic(n, 45);
}

/// The doubly recursive variant.
pub fn fib_rec(n: i32) -> (r: i32)
    requires
        n <= FIB_MAX_INDEX,
    ensures
        r == fib(n as int),
    decreases n,
{
    if n < 2 {
        1
    } else {
        proof {
            lemma_fib_fits(n as int);
            lemma_fib_fits(n - 1);
            lemma_fib_fits(n - 2);
        }
        fib_rec(n - 1) + fib_rec(n - 2)
    }
}

/// The iterative variant: it walks up from the first two terms, and where
/// the loop has nothing to do it returns the term it started with.
pub fn fib_iter(n: i32) -> (r: i32)
    requires
        n <= FIB_MAX_INDEX,
    ensures
        r == fib(n as int),
{
    let mut a: i32 = 1;
    let mut b: i32 = 1;
    let mut i: i32 = 1;
    while i < n
        invariant
            1 <= i,
            i <= n || i == 1,
            n <= FIB_MAX_INDEX,
            a == fib(i - 1),
            b == fib(i as int),
        decreases n - i,
    {
        proof {
            lemma_fib_fits(i + 1);
        }
        let c: i32 = a + b;
        a = b;
        b = c;
        i += 1;
    }
    b
}

/// Both variants return the same term for every index they accept: whatever
/// `fib_iter` returns for `n` is what `fib_rec` returns for it.
pub proof fn lemma_variants_agree(n: i32, iterative: i32, recursive: i32)
    requires
        n <= FIB_MAX_INDEX,
        call_ensures(fib_iter, (n,), iterative),
        call_ensures(fib_rec, (n,), recursive),
    ensures
        iterative == recursive,
{
}

/// The iterative variant over the indices `0..16`, one element at a time.
pub fn fib_iter_scalar() -> (out: [i32; 16])
    ensures
        out@ == fib_table(),
{
    let mut buf: [i32; 16] = INPUT;
    let kernel = |x: &i32| -> (r: i32)
        requires
            *x <= FIB_MAX_INDEX,
        ensures
            r == fib(*x as int),
        { fib_iter(*x) };
    run_scalar(&mut buf, kernel);
    assert(buf@ =~= fib_table());
    black_box(buf)
}

/// The iterative variant over the indices `0..16`, all lanes in one dispatch.
pub fn fib_iter_spmd() -> (out: [i32; 16])
    ensures
        out@ == fib_table(),
{
    let mut buf: [i32; 16] = INPUT;
    let kernel = |x: &i32| -> (r: i32)
        requires
            *x <= FIB_MAX_INDEX,
        ensures
            r == fib(*x as int),
        { fib_iter(*x) };
    run_vector(&mut buf, kernel);
    assert(buf@ =~= fib_table());
    black_box(buf)
}

/// The recursive variant over the indices `0..16`, one element at a time.
pub fn fib_rec_scalar() -> (out: [i32; 16])
    ensures
        out@ == fib_table(),
{
    let mut buf: [i32; 16] = INPUT;
    let kernel = |x: &i32| -> (r: i32)
        requires
            *x <= FIB_MAX_INDEX,
        ensures
            r == fib(*x as int),
        { fib_rec(*x) };
    run_scalar(&mut buf, kernel);
    assert(buf@ =~= fib_table());
    black_box(buf)
}

/// The recursive variant over the indices `0..16`, all lanes in one dispatch.
pub fn fib_rec_spmd() -> (out: [i32; 16])
    ensures
        out@ == fib_table(),
{
    let mut buf: [i32; 16] = INPUT;
    let kernel = |x: &i32| -> (r: i32)
        requires
            *x <= FIB_MAX_INDEX,
        ensures
            r == fib(*x as int),
        { fib_rec(*x) };
    run_vector(&mut buf, kernel);
    assert(buf@ =~= fib_table());
    black_box(buf)
}

} // verus!
