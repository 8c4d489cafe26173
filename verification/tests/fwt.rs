use lane_kernels::fwt::{
    fwt_kernel, fwt_nodivmod_kernel, fwt_nodivmod_pass, fwt_nodivmod_pass_spmd,
    fwt_nodivmod_scalar, fwt_nodivmod_spmd, fwt_pass, fwt_pass_spmd, fwt_scalar, fwt_spmd,
};

fn plus(a: &i64, b: &i64) -> i64 {
    *a + *b
}

fn minus(a: &i64, b: &i64) -> i64 {
    *a - *b
}

fn fplus(a: &f32, b: &f32) -> f32 {
    *a + *b
}

fn fminus(a: &f32, b: &f32) -> f32 {
    *a - *b
}

fn samples(len: usize) -> Vec<f32> {
    let mut state: u32 = 12345;
    let mut out = Vec::with_capacity(len);
    for _ in 0..len {
        state = state.wrapping_mul(1664525).wrapping_add(1013904223);
        out.push((state >> 8) as f32 / 16777216.0 * 255.0);
    }
    out
}

fn integers(len: usize) -> Vec<i64> {
    (0..len as i64).map(|i| (i * 37 + 11) % 101 - 50).collect()
}

fn is_close(a: f32, b: f32) -> bool {
    (a - b).abs() <= 1e-5 * a.abs().max(b.abs()).max(1.0)
}

#[test]
fn kernel_combines_the_pair_of_its_index() {
    let mut xs = vec![1i64, 2, 3, 4];
    fwt_kernel(&mut xs, 1, 1, &plus, &minus);
    assert_eq!(xs, vec![1, 2, 7, -1]);
    let mut xs = vec![1i64, 2, 3, 4];
    fwt_kernel(&mut xs, 2, 1, &plus, &minus);
    assert_eq!(xs, vec![1, 6, 3, -2]);
    let mut xs = vec![1i64, 2, 3, 4];
    fwt_kernel(&mut xs, 2, 0, &plus, &minus);
    assert_eq!(xs, vec![4, 2, -2, 4]);
}

#[test]
fn kernel_reads_both_samples_before_it_writes() {
    let mut xs = vec![5i64, 3];
    fwt_kernel(&mut xs, 1, 0, &plus, &minus);
    assert_eq!(xs, vec![8, 2]);
}

#[test]
fn kernel_pairs_follow_the_stride() {
    let len = 16usize;
    for (step, log2) in [(1usize, 0usize), (2, 1), (4, 2), (8, 3)] {
        for tid in 0..len / 2 {
            let pair = 2 * step * (tid / step) + tid % step;
            let mut xs: Vec<i64> = (0..len as i64).map(|i| 100 + i).collect();
            fwt_kernel(&mut xs, step, tid, &plus, &minus);
            let mut ys: Vec<i64> = (0..len as i64).map(|i| 100 + i).collect();
            fwt_nodivmod_kernel(&mut ys, step, log2, tid, &plus, &minus);
            assert_eq!(xs, ys);
            for i in 0..len {
                let was = 100 + i as i64;
                if i == pair {
                    assert_eq!(xs[i], was + (was + step as i64));
                } else if i == pair + step {
                    assert_eq!(xs[i], -(step as i64));
                } else {
                    assert_eq!(xs[i], was);
                }
            }
        }
    }
}

#[test]
fn mask_and_shift_kernel_matches_on_one_pair() {
    let mut xs = vec![1i64, 2, 3, 4, 5, 6, 7, 8];
    fwt_nodivmod_kernel(&mut xs, 2, 1, 3, &plus, &minus);
    assert_eq!(xs, vec![1, 2, 3, 4, 5, 14, 7, -2]);
}

#[test]
fn pass_combines_every_pair_once() {
    let mut xs = vec![1i64, 2, 3, 4, 5, 6, 7, 8];
    fwt_pass(&mut xs, 2, &plus, &minus);
    assert_eq!(xs, vec![4, 6, -2, -2, 12, 14, -2, -2]);
    let mut ys = vec![1i64, 2, 3, 4, 5, 6, 7, 8];
    fwt_nodivmod_pass(&mut ys, 2, 1, &plus, &minus);
    assert_eq!(ys, xs);
}

#[test]
fn lane_dispatched_pass_matches_the_plain_pass() {
    for (step, log2) in [(1usize, 0usize), (4, 2), (16, 4)] {
        let mut plain = integers(32);
        fwt_pass(&mut plain, step, &plus, &minus);
        let mut lanes = integers(32);
        fwt_pass_spmd(&mut lanes, step, &plus, &minus);
        assert_eq!(plain, lanes);
        let mut masked = integers(32);
        fwt_nodivmod_pass_spmd(&mut masked, step, log2, &plus, &minus);
        assert_eq!(plain, masked);
    }
}

#[test]
fn transform_of_eight_samples() {
    let mut xs = vec![1i64, 0, 1, 0, 0, 1, 1, 0];
    fwt_scalar(&mut xs, &plus, &minus);
    assert_eq!(xs, vec![4, 2, 0, -2, 0, 2, 0, 2]);
}

#[test]
fn transform_of_one_sample_is_the_sample() {
    let mut xs = vec![42i64];
    fwt_scalar(&mut xs, &plus, &minus);
    assert_eq!(xs, vec![42]);
    fwt_nodivmod_scalar(&mut xs, &plus, &minus);
    assert_eq!(xs, vec![42]);
    fwt_spmd(&mut xs, &plus, &minus);
    assert_eq!(xs, vec![42]);
    fwt_nodivmod_spmd(&mut xs, &plus, &minus);
    assert_eq!(xs, vec![42]);
}

#[test]
fn transform_of_two_samples() {
    let mut xs = vec![3i64, 10];
    fwt_scalar(&mut xs, &plus, &minus);
    assert_eq!(xs, vec![13, -7]);
}

#[test]
fn transform_twice_scales_by_the_length() {
    for len in [1usize, 2, 8, 64, 512] {
        let input = integers(len);
        let mut xs = input.clone();
        fwt_scalar(&mut xs, &plus, &minus);
        fwt_scalar(&mut xs, &plus, &minus);
        for i in 0..len {
            assert_eq!(xs[i], len as i64 * input[i]);
        }
    }
}

#[test]
fn transform_twice_divided_by_the_length_gives_the_samples_back() {
    let input = samples(512);
    let mut xs = input.clone();
    fwt_scalar(&mut xs, &fplus, &fminus);
    fwt_scalar(&mut xs, &fplus, &fminus);
    for i in 0..512 {
        let back = xs[i] / 512.0;
        assert!((back - input[i]).abs() <= 1e-3 * input[i].abs().max(1.0));
    }
}

#[test]
fn mask_and_shift_variant_matches_the_plain_one() {
    let mut plain = samples(512);
    let mut masked = samples(512);
    fwt_scalar(&mut plain, &fplus, &fminus);
    fwt_nodivmod_scalar(&mut masked, &fplus, &fminus);
    for i in 0..512 {
        assert!(is_close(plain[i], masked[i]));
        assert_eq!(plain[i].to_bits(), masked[i].to_bits());
    }
}

#[test]
fn lane_dispatched_variants_match_the_plain_one() {
    let mut plain = samples(512);
    let mut lanes = samples(512);
    let mut masked_lanes = samples(512);
    fwt_scalar(&mut plain, &fplus, &fminus);
    fwt_spmd(&mut lanes, &fplus, &fminus);
    fwt_nodivmod_spmd(&mut masked_lanes, &fplus, &fminus);
    for i in 0..512 {
        assert_eq!(plain[i].to_bits(), lanes[i].to_bits());
        assert_eq!(plain[i].to_bits(), masked_lanes[i].to_bits());
    }
}

#[test]
fn all_variants_agree_on_the_smallest_dispatchable_length() {
    let mut a = integers(32);
    let mut b = integers(32);
    let mut c = integers(32);
    let mut d = integers(32);
    fwt_scalar(&mut a, &plus, &minus);
    fwt_spmd(&mut b, &plus, &minus);
    fwt_nodivmod_scalar(&mut c, &plus, &minus);
    fwt_nodivmod_spmd(&mut d, &plus, &minus);
    assert_eq!(a, b);
    assert_eq!(a, c);
    assert_eq!(a, d);
}

#[test]
fn first_sample_of_the_transform_is_the_sum() {
    let input = integers(64);
    let mut xs = input.clone();
    fwt_scalar(&mut xs, &plus, &minus);
    assert_eq!(xs[0], input.iter().sum::<i64>());
}
