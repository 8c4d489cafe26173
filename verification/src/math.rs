//! The approximate square root: a fixed number of rounds of one refinement
//! step, with no test for convergence. The step itself is a function value
//! that the caller hands in; what is fixed here is where the iteration
//! starts and how many rounds it makes.

use vstd::prelude::*;

verus! {

/// The number of rounds that `sqrt` makes.
pub const SQRT_ROUNDS: usize = 10;

/// `after` is a guess that `rounds` rounds of `refine` can reach for
/// `value`. The first guess is `value` itself, and each round calls `refine`
/// on `value` and the guess before.
pub open spec fn refined<T, F: Fn(&T, &T) -> T>(refine: &F, value: T, after: T, rounds: nat) -> bool
    decreases rounds,
{
    if rounds == 0 {
        after == value
    } else {
        exists|guess: T|
            refined(refine, value, guess, (rounds - 1) as nat) && #[trigger] call_ensures(
                *refine,
                (&value, &guess),
                after,
            )
    }
}

/// `refine` may be called on `value` and every guess that fewer than
/// `rounds` rounds can reach for it.
pub open spec fn refinable<T, F: Fn(&T, &T) -> T>(refine: &F, value: T, rounds: nat) -> bool {
    forall|done: nat, guess: T|
        done < rounds && #[trigger] refined(refine, value, guess, done) ==> call_requires(
            *refine,
            (&value, &guess),
        )
}

/// `refine` returns one guess for each value and guess.
pub open spec fn single_valued_step<T, F: Fn(&T, &T) -> T>(refine: &F) -> bool {
    forall|v: T, g: T, x: T, y: T|
        #[trigger] call_ensures(*refine, (&v, &g), x) && #[trigger] call_ensures(
            *refine,
            (&v, &g),
            y,
        ) ==> x == y
}

/// A number of rounds of a single-valued step reaches one guess.
pub proof fn lemma_refined_unique<T, F: Fn(&T, &T) -> T>(
    refine: &F,
    value: T,
    first: T,
    second: T,
    rounds: nat,
)
    requires
        single_valued_step(refine),
        refined(refine, value, first, rounds),
        refined(refine, value, second, rounds),
    ensures
        first == second,
    decreases rounds,
{
    if rounds > 0 {
        let g1 = choose|guess: T|
            refined(refine, value, guess, (rounds - 1) as nat) && #[trigger] call_ensures(
                *refine,
                (&value, &guess),
                first,
            );
        let g2 = choose|guess: T|
            refined(refine, value, guess, (rounds - 1) as nat) && #[trigger] call_ensures(
                *refine,
                (&value, &guess),
                second,
            );
        lemma_refined_unique(refine, value, g1, g2, (rounds - 1) as nat);
    }
}

/// The guess that exactly `SQRT_ROUNDS` rounds of `refine` reach for
/// `value`, starting from `value` itself. For the square root, `refine`
/// returns the mean of the guess and of the value divided by the guess.
pub fn sqrt<T: Copy, F: Fn(&T, &T) -> T>(value: T, refine: &F) -> (guess: T)
    requires
        refinable(refine, value, SQRT_ROUNDS as nat),
    ensures
        refined(refine, value, guess, SQRT_ROUNDS as nat),
{
    let mut guess: T = value;
    let mut round: usize = 0;
    while round < SQRT_ROUNDS
        invariant
            round <= SQRT_ROUNDS,
            refinable(refine, value, SQRT_ROUNDS as nat),
            refined(refine, value, guess, round as nat),
        decreases SQRT_ROUNDS - round,
    {
        let ghost before = guess;
        guess = refine(&value, &guess);
        proof {
            assert(refined(refine, value, before, ((round + 1) - 1) as nat));
        }
        round += 1;
    }
    guess
}

} // verus!
