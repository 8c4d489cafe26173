use lane_kernels::lanes::{
    check_dispatch, check_zip, run_scalar, run_vector, spmd, spmd_range, spmd_zip2, LaneError,
    LANES,
};
use lane_kernels::support::black_box;

fn square_plus_one(x: &i64) -> i64 {
    x * x + 1
}

#[test]
fn lane_group_has_sixteen_lanes() {
    assert_eq!(LANES, 16);
}

#[test]
fn run_scalar_maps_every_element_in_place() {
    let mut buf = vec![1i64, 2, 3];
    run_scalar(&mut buf, square_plus_one);
    assert_eq!(buf, vec![2, 5, 10]);
}

#[test]
fn run_scalar_takes_any_length() {
    let mut buf: Vec<i64> = (0..17).collect();
    run_scalar(&mut buf, |x: &i64| *x + 100);
    let expected: Vec<i64> = (100..117).collect();
    assert_eq!(buf, expected);
    let mut empty: Vec<i64> = Vec::new();
    run_scalar(&mut empty, |x: &i64| *x + 100);
    assert!(empty.is_empty());
}

#[test]
fn run_vector_leaves_what_run_scalar_leaves() {
    let input: Vec<i64> = (0..16).map(|i| 3 * i - 7).collect();
    let mut scalar = input.clone();
    let mut vector = input.clone();
    run_scalar(&mut scalar, square_plus_one);
    run_vector(&mut vector, square_plus_one);
    assert_eq!(scalar, vector);
    assert_eq!(vector[0], 50);
    assert_eq!(vector[15], 38 * 38 + 1);
}

#[test]
fn spmd_runs_one_lane_per_element() {
    let mut buf = [0u32; 16];
    for (i, x) in buf.iter_mut().enumerate() {
        *x = i as u32;
    }
    spmd(&mut buf, |x: &u32| 2 * *x);
    for i in 0..16 {
        assert_eq!(buf[i], 2 * i as u32);
    }
}

#[test]
fn spmd_range_visits_every_index_in_ascending_order() {
    let seen = spmd_range(0..32, Vec::new(), |mut s: Vec<usize>, i: usize| {
        s.push(i);
        s
    });
    let expected: Vec<usize> = (0..32).collect();
    assert_eq!(seen, expected);
}

#[test]
fn spmd_range_starts_at_the_start_of_the_range() {
    let seen = spmd_range(16..48, Vec::new(), |mut s: Vec<usize>, i: usize| {
        s.push(i);
        s
    });
    let expected: Vec<usize> = (16..48).collect();
    assert_eq!(seen, expected);
    let sum = spmd_range(3..19, 0usize, |s: usize, i: usize| s + i);
    assert_eq!(sum, (3..19).sum::<usize>());
}

#[test]
fn spmd_range_over_nothing_returns_the_state() {
    let out = spmd_range(5..5, 41u8, |s: u8, _i: usize| s + 1);
    assert_eq!(out, 41);
    let out = spmd_range(7..3, 41u8, |s: u8, _i: usize| s + 1);
    assert_eq!(out, 41);
}

#[test]
fn spmd_range_threads_the_state_through_the_calls() {
    let out = spmd_range(0..16, 1u64, |s: u64, i: usize| s * 3 + i as u64);
    let mut expected = 1u64;
    for i in 0..16u64 {
        expected = expected * 3 + i;
    }
    assert_eq!(out, expected);
}

#[test]
fn spmd_zip2_pairs_outputs_with_inputs() {
    let mut outs: Vec<i64> = (0..32).collect();
    let ins: Vec<i64> = (0..32).map(|i| 10 * i).collect();
    spmd_zip2(&mut outs, &ins, |o: &i64, x: &i64| *o + 2 * *x);
    for i in 0..32 {
        assert_eq!(outs[i as usize], i + 20 * i);
    }
    assert_eq!(ins[31], 310);
}

#[test]
fn spmd_zip2_leaves_what_the_plain_loop_leaves() {
    let start: Vec<i64> = (0..16).map(|i| i * i).collect();
    let ins: Vec<i64> = (0..16).map(|i| 5 - i).collect();
    let mut zipped = start.clone();
    spmd_zip2(&mut zipped, &ins, |o: &i64, x: &i64| *o * *x - 1);
    let mut plain = start.clone();
    for (o, x) in plain.iter_mut().zip(ins.iter()) {
        *o = *o * *x - 1;
    }
    assert_eq!(zipped, plain);
}

#[test]
fn spmd_zip2_over_nothing_does_nothing() {
    let mut outs: Vec<i64> = Vec::new();
    let ins: Vec<i64> = Vec::new();
    spmd_zip2(&mut outs, &ins, |o: &i64, x: &i64| *o + *x);
    assert!(outs.is_empty());
}

#[test]
fn whole_lane_groups_can_be_dispatched() {
    assert_eq!(check_dispatch(0), Ok(()));
    assert_eq!(check_dispatch(16), Ok(()));
    assert_eq!(check_dispatch(512), Ok(()));
}

#[test]
fn a_partial_lane_group_is_rejected() {
    assert_eq!(check_dispatch(17), Err(LaneError::Misaligned));
    assert_eq!(check_dispatch(1), Err(LaneError::Misaligned));
    assert_eq!(check_dispatch(15), Err(LaneError::Misaligned));
    assert_eq!(check_zip(17, 17), Err(LaneError::Misaligned));
}

#[test]
fn paired_lengths_must_match() {
    assert_eq!(check_zip(16, 16), Ok(()));
    assert_eq!(check_zip(0, 0), Ok(()));
    assert_eq!(check_zip(32, 16), Err(LaneError::LengthMismatch));
    assert_eq!(check_zip(17, 16), Err(LaneError::LengthMismatch));
}

#[test]
fn alignment_of_the_inputs_is_looked_at_first() {
    assert_eq!(check_zip(16, 17), Err(LaneError::Misaligned));
    assert_eq!(check_zip(32, 8), Err(LaneError::Misaligned));
}

#[test]
fn black_box_hands_its_argument_back() {
    assert_eq!(black_box(5u8), 5);
    assert_eq!(black_box(vec![1, 2, 3]), vec![1, 2, 3]);
    assert_eq!(black_box("lanes"), "lanes");
}
