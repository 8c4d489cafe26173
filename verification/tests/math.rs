use lane_kernels::math::{sqrt, SQRT_ROUNDS};
use std::cell::Cell;

fn mean_step(value: &f32, guess: &f32) -> f32 {
    ((*value / *guess) + *guess) / 2.0
}

fn relative_error(got: f32, want: f32) -> f32 {
    ((got - want) / want).abs()
}

#[test]
fn sqrt_makes_ten_rounds() {
    assert_eq!(SQRT_ROUNDS, 10);
    let calls = Cell::new(0usize);
    let counting = |value: &f32, guess: &f32| {
        calls.set(calls.get() + 1);
        mean_step(value, guess)
    };
    let _ = sqrt(2.0f32, &counting);
    assert_eq!(calls.get(), 10);
}

#[test]
fn sqrt_starts_from_the_value_itself() {
    let firsts = Cell::new(None);
    let recording = |value: &u32, guess: &u32| {
        if firsts.get().is_none() {
            firsts.set(Some((*value, *guess)));
        }
        *guess + 1
    };
    let out = sqrt(7u32, &recording);
    assert_eq!(firsts.get(), Some((7, 7)));
    assert_eq!(out, 17);
}

#[test]
fn sqrt_hands_every_round_the_guess_before() {
    let out = sqrt(3u64, &|value: &u64, guess: &u64| 2 * *guess + *value);
    let mut expected = 3u64;
    for _ in 0..10 {
        expected = 2 * expected + 3;
    }
    assert_eq!(out, expected);
}

#[test]
fn sqrt_of_small_values_is_close() {
    assert!(relative_error(sqrt(1.0f32, &mean_step), 1.0) < 1e-5);
    assert!(relative_error(sqrt(4.0f32, &mean_step), 2.0) < 1e-5);
    assert!(relative_error(sqrt(2.0f32, &mean_step), 1.41421356) < 1e-5);
    assert!(relative_error(sqrt(9.0f32, &mean_step), 3.0) < 1e-5);
}

#[test]
fn sqrt_of_a_million_is_where_ten_rounds_leave_it() {
    let got = sqrt(1.0e6f32, &mean_step);
    let mut expected = 1.0e6f64;
    for _ in 0..10 {
        expected = ((1.0e6 / expected) + expected) / 2.0;
    }
    assert!(relative_error(got, expected as f32) < 1e-5);
    assert!(got > 1296.0 && got < 1296.4);
}

#[test]
fn sqrt_of_zero_is_not_guarded() {
    assert!(sqrt(0.0f32, &mean_step).is_nan());
}
