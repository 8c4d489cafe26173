use lane_kernels::fib::{
    fib_iter, fib_iter_scalar, fib_iter_spmd, fib_rec, fib_rec_scalar, fib_rec_spmd,
    FIB_MAX_INDEX, INPUT,
};

const BASELINE: [i32; 16] = [1, 1, 2, 3, 5, 8, 13, 21, 34, 55, 89, 144, 233, 377, 610, 987];

#[test]
fn iterative_matches_baseline() {
    for n in 0..16 {
        assert_eq!(fib_iter(n as i32), BASELINE[n]);
    }
}

#[test]
fn recursive_matches_baseline() {
    for n in 0..16 {
        assert_eq!(fib_rec(n as i32), BASELINE[n]);
    }
}

#[test]
fn variants_agree_on_small_indices() {
    for n in 0..25 {
        assert_eq!(fib_iter(n), fib_rec(n));
    }
}

#[test]
fn both_variants_return_one_below_two() {
    for n in [-5, -1, 0, 1] {
        assert_eq!(fib_iter(n), 1);
        assert_eq!(fib_rec(n), 1);
    }
}

#[test]
fn iterative_reaches_the_last_index() {
    assert_eq!(fib_iter(FIB_MAX_INDEX), 1836311903);
    assert_eq!(fib_iter(44), 1134903170);
}

#[test]
fn input_is_the_first_sixteen_indices() {
    for i in 0..16 {
        assert_eq!(INPUT[i], i as i32);
    }
}

#[test]
fn entry_points_leave_the_baseline() {
    assert_eq!(fib_iter_scalar(), BASELINE);
    assert_eq!(fib_iter_spmd(), BASELINE);
    assert_eq!(fib_rec_scalar(), BASELINE);
    assert_eq!(fib_rec_spmd(), BASELINE);
}
