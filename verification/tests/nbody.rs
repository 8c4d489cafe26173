use lane_kernels::nbody::{
    nbody_scalar, nbody_spmd, tick_rules, zone_forces, Body, NBodyBenchmark, SpeedLimit,
    ZoneForces, BENCH_BODIES,
    BENCH_TICKS, CONSTANT_PULL_TICKS, SPEED_LIMIT_TICK,
};

fn pull(time: usize, prev: &Body<i64>, all: &Vec<Body<i64>>) -> (i64, i64) {
    let mut toward = 0i64;
    for other in all.iter() {
        toward += other.position - prev.position;
    }
    (prev.velocity + toward % 7 + time as i64, prev.velocity2 - 1)
}

fn displace(position: &i64, velocity: &i64, velocity2: &i64) -> i64 {
    *position + (*velocity - *velocity2)
}

fn seed(count: usize) -> Vec<Body<i64>> {
    (0..count as i64)
        .map(|i| Body { position: 10 * i - 3, velocity: i % 5, velocity2: (i * i) % 3 })
        .collect()
}

fn expected_next(time: usize, all: &Vec<Body<i64>>) -> Vec<Body<i64>> {
    all.iter()
        .map(|prev| {
            let (velocity, velocity2) = pull(time, prev, all);
            Body { position: prev.position + (velocity - velocity2), velocity, velocity2 }
        })
        .collect()
}

fn same(a: &Vec<Body<i64>>, b: &Vec<Body<i64>>) -> bool {
    a.len() == b.len()
        && a.iter().zip(b.iter()).all(|(x, y)| {
            x.position == y.position && x.velocity == y.velocity && x.velocity2 == y.velocity2
        })
}

#[test]
fn benchmark_sizes() {
    assert_eq!(BENCH_BODIES, 32);
    assert_eq!(BENCH_TICKS, 10);
}

#[test]
fn new_simulation_is_at_tick_zero() {
    let sim = NBodyBenchmark::new(seed(3), seed(3));
    assert_eq!(sim.time(), 0);
    assert!(same(sim.bodies(), &seed(3)));
    assert!(same(sim.previous(), &seed(3)));
}

#[test]
fn a_tick_writes_the_other_generation() {
    let mut sim = NBodyBenchmark::new(seed(4), seed(4));
    sim.tick_seq(&pull, &displace);
    assert_eq!(sim.time(), 1);
    assert!(same(sim.previous(), &seed(4)));
    assert!(same(sim.bodies(), &expected_next(0, &seed(4))));
}

#[test]
fn a_tick_sets_position_from_the_previous_position() {
    let first = vec![Body { position: 100i64, velocity: 7, velocity2: 2 }];
    let second = vec![Body { position: -999i64, velocity: -999, velocity2: -999 }];
    let mut sim = NBodyBenchmark::new(first, second);
    sim.tick_seq(&|_t: usize, p: &Body<i64>, _all: &Vec<Body<i64>>| (p.velocity, p.velocity2), &displace);
    let out = &sim.bodies()[0];
    assert_eq!(out.velocity, 7);
    assert_eq!(out.velocity2, 2);
    assert_eq!(out.position, 105);
}

#[test]
fn odd_ticks_read_what_even_ticks_wrote() {
    let mut sim = NBodyBenchmark::new(seed(5), seed(5));
    sim.tick_seq(&pull, &displace);
    let after_one = expected_next(0, &seed(5));
    sim.tick_seq(&pull, &displace);
    assert_eq!(sim.time(), 2);
    assert!(same(sim.previous(), &after_one));
    assert!(same(sim.bodies(), &expected_next(1, &after_one)));
}

#[test]
fn every_body_sees_the_whole_previous_generation() {
    let first = vec![
        Body { position: 0i64, velocity: 0, velocity2: 0 },
        Body { position: 10i64, velocity: 0, velocity2: 0 },
        Body { position: 100i64, velocity: 0, velocity2: 0 },
    ];
    let mut sim = NBodyBenchmark::new(first.clone(), first);
    let total = |_t: usize, _p: &Body<i64>, all: &Vec<Body<i64>>| {
        (all.iter().map(|b| b.position).sum::<i64>(), 0)
    };
    sim.tick_seq(&total, &displace);
    let out = sim.bodies();
    assert_eq!(out[0].velocity, 110);
    assert_eq!(out[1].velocity, 110);
    assert_eq!(out[2].velocity, 110);
    assert_eq!(out[0].position, 110);
    assert_eq!(out[1].position, 120);
    assert_eq!(out[2].position, 210);
}

#[test]
fn the_tick_is_handed_to_the_forces() {
    let first = vec![Body { position: 0i64, velocity: 0, velocity2: 0 }];
    let mut sim = NBodyBenchmark::new(first.clone(), first);
    let clock = |t: usize, _p: &Body<i64>, _all: &Vec<Body<i64>>| (t as i64, 0);
    for t in 0..5 {
        sim.tick_seq(&clock, &displace);
        assert_eq!(sim.bodies()[0].velocity, t);
    }
    assert_eq!(sim.time(), 5);
}

#[test]
fn lane_dispatched_tick_matches_the_plain_tick() {
    let mut plain = NBodyBenchmark::new(seed(32), seed(32));
    let mut lanes = NBodyBenchmark::new(seed(32), seed(32));
    for _ in 0..10 {
        plain.tick_seq(&pull, &displace);
        lanes.tick_par(&pull, &displace);
        assert_eq!(plain.time(), lanes.time());
        assert!(same(plain.bodies(), lanes.bodies()));
        assert!(same(plain.previous(), lanes.previous()));
    }
    assert_eq!(plain.time(), 10);
}

#[test]
fn benchmark_runs_do_ten_ticks_and_agree() {
    let init = seed(32);
    let plain = nbody_scalar(&init, &pull, &displace);
    let lanes = nbody_spmd(&init, &pull, &displace);
    assert_eq!(plain.time(), 10);
    assert_eq!(lanes.time(), 10);
    assert!(same(plain.bodies(), lanes.bodies()));
    let mut by_hand = init.clone();
    for t in 0..10 {
        by_hand = expected_next(t, &by_hand);
    }
    assert!(same(plain.bodies(), &by_hand));
    assert!(same(&init, &seed(32)));
}

#[test]
fn benchmark_run_with_floating_point_vectors_agrees() {
    let init: Vec<Body<f32>> = (0..32)
        .map(|i| Body { position: i as f32 * 1.5, velocity: 0.25 * i as f32, velocity2: 0.125 })
        .collect();
    let forces = |t: usize, p: &Body<f32>, all: &Vec<Body<f32>>| {
        let mut toward = 0.0f32;
        for other in all.iter() {
            toward += (other.position - p.position) * 0.001;
        }
        (p.velocity + toward + t as f32 * 0.5, p.velocity2 * 0.9)
    };
    let step = |position: &f32, v: &f32, v2: &f32| *position + (*v - *v2);
    let plain = nbody_scalar(&init, &forces, &step);
    let lanes = nbody_spmd(&init, &forces, &step);
    for i in 0..32 {
        assert_eq!(plain.bodies()[i].position.to_bits(), lanes.bodies()[i].position.to_bits());
        assert_eq!(plain.bodies()[i].velocity.to_bits(), lanes.bodies()[i].velocity.to_bits());
        assert_eq!(plain.bodies()[i].velocity2.to_bits(), lanes.bodies()[i].velocity2.to_bits());
    }
}

#[test]
fn pull_is_constant_for_the_first_two_hundred_ticks() {
    assert_eq!(CONSTANT_PULL_TICKS, 200);
    assert!(tick_rules(0).constant_pull);
    assert!(tick_rules(199).constant_pull);
    assert!(!tick_rules(200).constant_pull);
    assert!(!tick_rules(5000).constant_pull);
}

#[test]
fn speed_limit_moves_at_tick_five_hundred() {
    assert_eq!(SPEED_LIMIT_TICK, 500);
    assert_eq!(tick_rules(0).limit, SpeedLimit::Velocity);
    assert_eq!(tick_rules(499).limit, SpeedLimit::Velocity);
    assert_eq!(tick_rules(500).limit, SpeedLimit::Unlimited);
    assert_eq!(tick_rules(501).limit, SpeedLimit::Acceleration);
    assert_eq!(tick_rules(usize::MAX).limit, SpeedLimit::Acceleration);
}

#[test]
fn no_zone_force_beyond_the_cutoff_or_on_itself() {
    let none = ZoneForces { repel: false, align: false, attract: false };
    for bits in 0..8u8 {
        let (a, b, c) = (bits & 1 != 0, bits & 2 != 0, bits & 4 != 0);
        assert_eq!(zone_forces(false, false, a, b, c), none);
        assert_eq!(zone_forces(true, true, a, b, c), none);
        assert_eq!(zone_forces(false, true, a, b, c), none);
    }
}

#[test]
fn zone_forces_follow_the_bands() {
    // squared distance below the repulsion radius
    assert_eq!(
        zone_forces(true, false, true, true, false),
        ZoneForces { repel: true, align: false, attract: false }
    );
    // between the repulsion and the alignment radius, above the attraction radius
    assert_eq!(
        zone_forces(true, false, false, true, true),
        ZoneForces { repel: false, align: true, attract: true }
    );
    // beyond the alignment radius
    assert_eq!(
        zone_forces(true, false, false, false, true),
        ZoneForces { repel: false, align: false, attract: true }
    );
    // exactly on the shared bound of repulsion and attraction
    assert_eq!(
        zone_forces(true, false, false, true, false),
        ZoneForces { repel: false, align: true, attract: false }
    );
    // repulsion and attraction together, where the bands overlap
    assert_eq!(
        zone_forces(true, false, true, false, true),
        ZoneForces { repel: true, align: false, attract: true }
    );
}
