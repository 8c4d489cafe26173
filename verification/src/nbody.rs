//! The N-body kernel: a particle simulation over two generations of bodies.
//! A tick reads one generation and writes the other, and the parity of the
//! tick counter says which is which.
//!
//! The vectors are of any type. The forces and the vector arithmetic are
//! function values that the caller hands in: `next_velocity` returns the two
//! velocities of a body from the tick, the body and its whole generation, and
//! `displace` returns the position that a body reaches from its position and
//! those two velocities.

use vstd::prelude::*;
use crate::lanes::{spmd_zip2, lane_aligned};
use crate::support::black_box;

verus! {

/// The number of bodies that the benchmark is seeded with.
pub const BENCH_BODIES: usize = 32;

/// The number of ticks that one benchmark run does.
pub const BENCH_TICKS: usize = 10;

/// The number of ticks during which the pull to the center is constant.
pub const CONSTANT_PULL_TICKS: usize = 200;

/// The tick at which the speed limit moves from the velocity to the
/// acceleration.
pub const SPEED_LIMIT_TICK: usize = 500;

/// What a tick limits.
#[derive(Clone, Copy, Debug, PartialEq, Eq, Structural)]
pub enum SpeedLimit {
    /// The velocity that results: every tick before `SPEED_LIMIT_TICK`.
    Velocity,
    /// Nothing: the tick `SPEED_LIMIT_TICK` itself.
    Unlimited,
    /// The acceleration that was summed up: every tick after
    /// `SPEED_LIMIT_TICK`.
    Acceleration,
}

/// The rules of the forces that depend on the tick alone.
#[derive(Clone, Copy, Debug, PartialEq, Eq, Structural)]
pub struct TickRules {
    /// The pull to the center has its small constant strength.
    pub constant_pull: bool,
    /// What the tick limits. While it is the velocity, the early limit and
    /// the early attraction hold.
    pub limit: SpeedLimit,
}

/// The rules that hold at tick `time`.
pub fn tick_rules(time: usize) -> (r: TickRules)
    ensures
        r.constant_pull == (time < CONSTANT_PULL_TICKS),
        time < SPEED_LIMIT_TICK ==> r.limit == SpeedLimit::Velocity,
        time == SPEED_LIMIT_TICK ==> r.limit == SpeedLimit::Unlimited,
        time > SPEED_LIMIT_TICK ==> r.limit == SpeedLimit::Acceleration,
{
    let limit = if time < SPEED_LIMIT_TICK {
        SpeedLimit::Velocity
    } else if time > SPEED_LIMIT_TICK {
        SpeedLimit::Acceleration
    } else {
        SpeedLimit::Unlimited
    };
    TickRules { constant_pull: time < CONSTANT_PULL_TICKS, limit }
}

/// Which of the three zone forces a neighbour exerts on a body. The bands
/// overlap, so more than one can hold.
#[derive(Clone, Copy, Debug, PartialEq, Eq, Structural)]
pub struct ZoneForces {
    /// The neighbour pushes the body away.
    pub repel: bool,
    /// The two velocity fields are blended.
    pub align: bool,
    /// The neighbour draws the body near.
    pub attract: bool,
}

/// The zone forces of a neighbour, from how its squared distance compares
/// with the bounds of the zones. A neighbour beyond the cutoff, or at the
/// very position of the body, exerts none. Within the cutoff it repels
/// inside the repulsion radius, aligns inside the alignment radius where it
/// does not repel, and attracts outside the attraction radius.
pub fn zone_forces(
    within_cutoff: bool,
    same_position: bool,
    inside_repel: bool,
    inside_align: bool,
    outside_attract: bool,
) -> (r: ZoneForces)
    ensures
        r.repel == (within_cutoff && !same_position && inside_repel),
        r.align == (within_cutoff && !same_position && !inside_repel && inside_align),
        r.attract == (within_cutoff && !same_position && outside_attract),
{
    let mut r = ZoneForces { repel: false, align: false, attract: false };
    if within_cutoff && !same_position {
        if inside_repel {
            r.repel = true;
        } else if inside_align {
            r.align = true;
        }
        if outside_attract {
            r.attract = true;
        }
    }
    r
}

/// One particle: where it is, and its two velocity fields.
#[derive(Clone, Copy)]
pub struct Body<V> {
    pub position: V,
    pub velocity: V,
    pub velocity2: V,
}

/// `out` is a body that a tick at `time` can make of `prev`, a member of a
/// generation that holds `all`: its velocities are what `next_velocity`
/// returns for `prev` in that generation, and its position is what
/// `displace` returns for the position of `prev` and those velocities.
pub open spec fn body_advanced<V, F, G>(
    next_velocity: &F,
    displace: &G,
    time: usize,
    prev: Body<V>,
    all: Seq<Body<V>>,
    out: Body<V>,
) -> bool where F: Fn(usize, &Body<V>, &Vec<Body<V>>) -> (V, V), G: Fn(&V, &V, &V) -> V {
    &&& exists|generation: Vec<Body<V>>|
        generation@ == all && #[trigger] call_ensures(
            *next_velocity,
            (time, &prev, &generation),
            (out.velocity, out.velocity2),
        )
    &&& call_ensures(*displace, (&prev.position, &out.velocity, &out.velocity2), out.position)
}

/// `next_velocity` may be called for `prev` in `generation` at `time`.
#[verifier::inline]
spec fn velocity_accepted<V, F>(
    next_velocity: &F,
    time: usize,
    prev: Body<V>,
    generation: &Vec<Body<V>>,
) -> bool where F: Fn(usize, &Body<V>, &Vec<Body<V>>) -> (V, V) {
    call_requires(*next_velocity, (time, &prev, generation))
}

/// `next_velocity` can return `(v, v2)` for `prev` in `generation` at
/// `time`.
#[verifier::inline]
spec fn velocity_returned<V, F>(
    next_velocity: &F,
    time: usize,
    prev: Body<V>,
    generation: &Vec<Body<V>>,
    v: V,
    v2: V,
) -> bool where F: Fn(usize, &Body<V>, &Vec<Body<V>>) -> (V, V) {
    call_ensures(*next_velocity, (time, &prev, generation), (v, v2))
}

/// `after` is a generation that a tick at `time` can make of `before`: body
/// by body, each from the whole of `before`.
pub open spec fn generation_advanced<V, F, G>(
    next_velocity: &F,
    displace: &G,
    time: usize,
    before: Seq<Body<V>>,
    after: Seq<Body<V>>,
) -> bool where F: Fn(usize, &Body<V>, &Vec<Body<V>>) -> (V, V), G: Fn(&V, &V, &V) -> V {
    &&& after.len() == before.len()
    &&& forall|i: int|
        0 <= i < before.len() ==> body_advanced(
            next_velocity,
            displace,
            time,
            before[i],
            before,
            #[trigger] after[i],
        )
}

/// The two function values may be called for every body of a generation
/// that holds `all`, at `time`: `next_velocity` on the body, and `displace`
/// on whatever velocities `next_velocity` returns for it.
pub open spec fn generation_accepted<V, F, G>(
    next_velocity: &F,
    displace: &G,
    time: usize,
    all: Seq<Body<V>>,
) -> bool where F: Fn(usize, &Body<V>, &Vec<Body<V>>) -> (V, V), G: Fn(&V, &V, &V) -> V {
    forall|generation: Vec<Body<V>>, i: int|
        generation@ == all && 0 <= i < all.len() ==> {
            &&& #[trigger] call_requires(*next_velocity, (time, &all[i], &generation))
            &&& forall|v: V, v2: V|
                call_ensures(*next_velocity, (time, &all[i], &generation), (v, v2))
                    ==> #[trigger] call_requires(*displace, (&all[i].position, &v, &v2))
        }
}

/// The two function values may be called on anything.
pub open spec fn always_accepted<V, F, G>(next_velocity: &F, displace: &G) -> bool where
    F: Fn(usize, &Body<V>, &Vec<Body<V>>) -> (V, V),
    G: Fn(&V, &V, &V) -> V,
 {
    &&& forall|t: usize, p: Body<V>, g: Vec<Body<V>>| #[trigger]
        call_requires(*next_velocity, (t, &p, &g))
    &&& forall|a: V, b: V, c: V| #[trigger] call_requires(*displace, (&a, &b, &c))
}

/// Writes into `outs` the generation that follows `ins` at `time`, one body
/// after the other.
pub fn advance_seq<V, F, G>(
    ins: &Vec<Body<V>>,
    outs: &mut Vec<Body<V>>,
    time: usize,
    next_velocity: &F,
    displace: &G,
) where F: Fn(usize, &Body<V>, &Vec<Body<V>>) -> (V, V), G: Fn(&V, &V, &V) -> V
    requires
        old(outs)@.len() == ins@.len(),
        generation_accepted(next_velocity, displace, time, ins@),
    ensures
        generation_advanced(next_velocity, displace, time, ins@, final(outs)@),
{
    let n: usize = ins.len();
    let mut i: usize = 0;
    while i < n
        invariant
            i <= n,
            n == ins@.len(),
            outs@.len() == n,
            generation_accepted(next_velocity, displace, time, ins@),
            forall|j: int|
                0 <= j < i ==> body_advanced(
                    next_velocity,
                    displace,
                    time,
                    ins@[j],
                    ins@,
                    #[trigger] outs@[j],
                ),
        decreases n - i,
    {
        let prev = &ins[i];
        assert(velocity_accepted(next_velocity, time, ins@[i as int], ins));
        let (vel, vel2) = next_velocity(time, prev, ins);
        assert(velocity_returned(next_velocity, time, ins@[i as int], ins, vel, vel2));
        let position = displace(&prev.position, &vel, &vel2);
        outs[i] = Body { position, velocity: vel, velocity2: vel2 };
        i += 1;
    }
}

/// Writes into `outs` the generation that follows `ins` at `time`, the
/// bodies dispatched in lane groups. It leaves what `advance_seq` leaves.
pub fn advance_par<V, F, G>(
    ins: &Vec<Body<V>>,
    outs: &mut Vec<Body<V>>,
    time: usize,
    next_velocity: &F,
    displace: &G,
) where
    V: Sync,
    F: Sync + Fn(usize, &Body<V>, &Vec<Body<V>>) -> (V, V),
    G: Sync + Fn(&V, &V, &V) -> V,

    requires
        old(outs)@.len() == ins@.len(),
        lane_aligned(ins@.len() as int),
        generation_accepted(next_velocity, displace, time, ins@),
    ensures
        generation_advanced(next_velocity, displace, time, ins@, final(outs)@),
{
    let kernel = |out: &Body<V>, prev: &Body<V>| -> (next: Body<V>)
        requires
            exists|i: int| 0 <= i < ins@.len() && *prev == ins@[i],
        ensures
            body_advanced(next_velocity, displace, time, *prev, ins@, next),
        {
            let ghost i = choose|i: int| 0 <= i < ins@.len() && *prev == ins@[i];
            assert(velocity_accepted(next_velocity, time, ins@[i], ins));
            let (vel, vel2) = next_velocity(time, prev, ins);
            assert(velocity_returned(next_velocity, time, ins@[i], ins, vel, vel2));
            let position = displace(&prev.position, &vel, &vel2);
            Body { position, velocity: vel, velocity2: vel2 }
        };
    spmd_zip2(outs.as_mut_slice(), ins.as_slice(), kernel);
}

/// The state of a simulation: the tick counter and the two generations.
pub struct NBodyBenchmark<V> {
    time: usize,
    bodies: (Vec<Body<V>>, Vec<Body<V>>),
}

impl<V> NBodyBenchmark<V> {
    /// The number of ticks done so far.
    pub closed spec fn clock(&self) -> usize {
        self.time
    }

    /// The generation that even ticks read and odd ticks write.
    pub closed spec fn first(&self) -> Seq<Body<V>> {
        self.bodies.0@
    }

    /// The generation that odd ticks read and even ticks write.
    pub closed spec fn second(&self) -> Seq<Body<V>> {
        self.bodies.1@
    }

    /// Both generations hold the same number of bodies.
    pub open spec fn wf(&self) -> bool {
        self.first().len() == self.second().len()
    }

    /// The generation that the next tick reads: the latest one.
    pub open spec fn current(&self) -> Seq<Body<V>> {
        if self.clock() % 2 == 0 {
            self.first()
        } else {
            self.second()
        }
    }

    /// The generation that the next tick writes.
    pub open spec fn next(&self) -> Seq<Body<V>> {
        if self.clock() % 2 == 0 {
            self.second()
        } else {
            self.first()
        }
    }

    /// `after` is a state that one tick can make of `self`: the counter is
    /// one further, the generation that was read is as it was, and the other
    /// one follows from it body by body.
    pub open spec fn ticked<F, G>(&self, next_velocity: &F, displace: &G, after: &Self) -> bool where
        F: Fn(usize, &Body<V>, &Vec<Body<V>>) -> (V, V),
        G: Fn(&V, &V, &V) -> V,
     {
        &&& after.clock() == self.clock() + 1
        &&& after.next() == self.current()
        &&& generation_advanced(
            next_velocity,
            displace,
            self.clock(),
            self.current(),
            after.current(),
        )
    }

    /// `other` has the counter and the bodies of `self`.
    pub open spec fn same_state(&self, other: &Self) -> bool {
        &&& other.clock() == self.clock()
        &&& other.first() == self.first()
        &&& other.second() == self.second()
    }

    /// `after` is a state that `n` ticks, one after the other, can make of
    /// `self`.
    pub open spec fn ticked_times<F, G>(
        &self,
        next_velocity: &F,
        displace: &G,
        after: &Self,
        n: nat,
    ) -> bool where F: Fn(usize, &Body<V>, &Vec<Body<V>>) -> (V, V), G: Fn(&V, &V, &V) -> V
        decreases n,
    {
        if n == 0 {
            self.same_state(after)
        } else {
            exists|mid: Self|
                self.ticked_times(next_velocity, displace, &mid, (n - 1) as nat)
                    && #[trigger] mid.ticked(next_velocity, displace, after)
        }
    }

    /// A simulation at tick 0 whose two generations are `first` and
    /// `second`, which hold the same number of bodies.
    pub fn new(first: Vec<Body<V>>, second: Vec<Body<V>>) -> (r: Self)
        requires
            first@.len() == second@.len(),
        ensures
            r.wf(),
            r.clock() == 0,
            r.first() == first@,
            r.second() == second@,
    {
        NBodyBenchmark { time: 0, bodies: (first, second) }
    }

    /// The number of ticks done so far.
    pub fn time(&self) -> (t: usize)
        ensures
            t == self.clock(),
    {
        self.time
    }

    /// The latest generation.
    pub fn bodies(&self) -> (r: &Vec<Body<V>>)
        ensures
            r@ == self.current(),
    {
        proof {
            lemma_parity(self.time);
        }
        if (self.time & 1) == 0 {
            &self.bodies.0
        } else {
            &self.bodies.1
        }
    }

    /// The generation before the latest: the one that the last tick read and
    /// the next tick writes.
    pub fn previous(&self) -> (r: &Vec<Body<V>>)
        ensures
            r@ == self.next(),
    {
        proof {
            lemma_parity(self.time);
        }
        if (self.time & 1) == 0 {
            &self.bodies.1
        } else {
            &self.bodies.0
        }
    }

    /// One tick, body after body.
    pub fn tick_seq<F, G>(&mut self, next_velocity: &F, displace: &G) where
        F: Fn(usize, &Body<V>, &Vec<Body<V>>) -> (V, V),
        G: Fn(&V, &V, &V) -> V,

        requires
            old(self).wf(),
            old(self).clock() < usize::MAX,
            generation_accepted(next_velocity, displace, old(self).clock(), old(self).current()),
        ensures
            final(self).wf(),
            old(self).ticked(next_velocity, displace, final(self)),
    {
        let time: usize = self.time;
        proof {
            lemma_parity(time);
            lemma_parity((time + 1) as usize);
        }
        if (time & 1) == 0 {
            advance_seq(&self.bodies.0, &mut self.bodies.1, time, next_velocity, displace);
        } else {
            advance_seq(&self.bodies.1, &mut self.bodies.0, time, next_velocity, displace);
        }
        self.time += 1;
    }

    /// One tick, the bodies dispatched in lane groups. It leaves what
    /// `tick_seq` leaves. The number of bodies is a multiple of the lane
    /// count.
    pub fn tick_par<F, G>(&mut self, next_velocity: &F, displace: &G) where
        V: Sync,
        F: Sync + Fn(usize, &Body<V>, &Vec<Body<V>>) -> (V, V),
        G: Sync + Fn(&V, &V, &V) -> V,

        requires
            old(self).wf(),
            old(self).clock() < usize::MAX,
            lane_aligned(old(self).current().len() as int),
            generation_accepted(next_velocity, displace, old(self).clock(), old(self).current()),
        ensures
            final(self).wf(),
            old(self).ticked(next_velocity, displace, final(self)),
    {
        let time: usize = self.time;
        proof {
            lemma_parity(time);
            lemma_parity((time + 1) as usize);
        }
        if (time & 1) == 0 {
            advance_par(&self.bodies.0, &mut self.bodies.1, time, next_velocity, displace);
        } else {
            advance_par(&self.bodies.1, &mut self.bodies.0, time, next_velocity, displace);
        }
        self.time += 1;
    }
}

/// The lowest bit of a tick counter is its parity.
pub proof fn lemma_parity(t: usize)
    ensures
        (t & 1) == 0 <==> t % 2 == 0,
{
    vstd::arithmetic::power2::lemma2_to64();
    vstd::bits::lemma_usize_low_bits_mask_is_mod(t, 1);
    assert(vstd::bits::low_bits_mask(1) == 1);
}

/// `start` is a simulation at tick 0 with both generations seeded from
/// `init`.
pub open spec fn seeded<V>(start: &NBodyBenchmark<V>, init: Seq<Body<V>>) -> bool {
    &&& start.clock() == 0
    &&& start.first() == init
    &&& start.second() == init
}

/// A copy of the bodies.
fn copy_bodies<V: Copy>(init: &Vec<Body<V>>) -> (r: Vec<Body<V>>)
    ensures
        r@ == init@,
{
    let mut r: Vec<Body<V>> = Vec::new();
    let mut i: usize = 0;
    while i < init.len()
        invariant
            i <= init@.len(),
            r@ == init@.take(i as int),
        decreases init@.len() - i,
    {
        r.push(init[i]);
        assert(init@.take(i + 1) == init@.take(i as int).push(init@[i as int]));
        i += 1;
    }
    assert(init@.take(init@.len() as int) == init@);
    r
}

/// One benchmark run: seeds both generations from `init`, then does
/// `BENCH_TICKS` ticks body after body, and returns the simulation.
pub fn nbody_scalar<V, F, G>(init: &Vec<Body<V>>, next_velocity: &F, displace: &G) -> (r:
    NBodyBenchmark<V>) where
    V: Copy,
    F: Fn(usize, &Body<V>, &Vec<Body<V>>) -> (V, V),
    G: Fn(&V, &V, &V) -> V,

    requires
        always_accepted(next_velocity, displace),
    ensures
        r.wf(),
        r.clock() == BENCH_TICKS,
        exists|start: NBodyBenchmark<V>|
            seeded(&start, init@) && #[trigger] start.ticked_times(
                next_velocity,
                displace,
                &r,
                BENCH_TICKS as nat,
            ),
{
    let mut nbody = NBodyBenchmark::new(copy_bodies(init), copy_bodies(init));
    let ghost start = nbody;
    let mut done: usize = 0;
    while done < BENCH_TICKS
        invariant
            done <= BENCH_TICKS,
            nbody.wf(),
            nbody.clock() == done,
            always_accepted(next_velocity, displace),
            start.ticked_times(next_velocity, displace, &nbody, done as nat),
        decreases BENCH_TICKS - done,
    {
        let ghost mid = nbody;
        nbody.tick_seq(next_velocity, displace);
        assert(mid.ticked(next_velocity, displace, &nbody));
        done += 1;
    }
    black_box(nbody)
}

/// One benchmark run: seeds both generations from `init`, then does
/// `BENCH_TICKS` ticks with the bodies dispatched in lane groups, and
/// returns the simulation. The number of bodies is a multiple of the lane
/// count.
pub fn nbody_spmd<V, F, G>(init: &Vec<Body<V>>, next_velocity: &F, displace: &G) -> (r:
    NBodyBenchmark<V>) where
    V: Copy + Sync,
    F: Sync + Fn(usize, &Body<V>, &Vec<Body<V>>) -> (V, V),
    G: Sync + Fn(&V, &V, &V) -> V,

    requires
        lane_aligned(init@.len() as int),
        always_accepted(next_velocity, displace),
    ensures
        r.wf(),
        r.clock() == BENCH_TICKS,
        exists|start: NBodyBenchmark<V>|
            seeded(&start, init@) && #[trigger] start.ticked_times(
                next_velocity,
                displace,
                &r,
                BENCH_TICKS as nat,
            ),
{
    let mut nbody = NBodyBenchmark::new(copy_bodies(init), copy_bodies(init));
    let ghost start = nbody;
    let mut done: usize = 0;
    while done < BENCH_TICKS
        invariant
            done <= BENCH_TICKS,
            nbody.wf(),
            nbody.clock() == done,
            nbody.current().len() == init@.len(),
            lane_aligned(init@.len() as int),
            always_accepted(next_velocity, displace),
            start.ticked_times(next_velocity, displace, &nbody, done as nat),
        decreases BENCH_TICKS - done,
    {
        let ghost mid = nbody;
        nbody.tick_par(next_velocity, displace);
        assert(mid.ticked(next_velocity, displace, &nbody));
        done += 1;
    }
    black_box(nbody)
}

/// Each of the two function values returns one value for what it is given:
/// `next_velocity` for a tick, a body and the bodies that the generation
/// holds, and `displace` for a position and two velocities.
pub open spec fn single_valued_forces<V, F, G>(next_velocity: &F, displace: &G) -> bool where
    F: Fn(usize, &Body<V>, &Vec<Body<V>>) -> (V, V),
    G: Fn(&V, &V, &V) -> V,
 {
    &&& forall|t: usize, p: Body<V>, g1: Vec<Body<V>>, g2: Vec<Body<V>>, r1: (V, V), r2: (V, V)|
        g1@ == g2@ && #[trigger] call_ensures(*next_velocity, (t, &p, &g1), r1)
            && #[trigger] call_ensures(*next_velocity, (t, &p, &g2), r2) ==> r1 == r2
    &&& forall|a: V, b: V, c: V, x: V, y: V|
        #[trigger] call_ensures(*displace, (&a, &b, &c), x) && #[trigger] call_ensures(
            *displace,
            (&a, &b, &c),
            y,
        ) ==> x == y
}

/// A generation has one successor at a given tick.
pub proof fn lemma_generation_unique<V, F, G>(
    next_velocity: &F,
    displace: &G,
    time: usize,
    before: Seq<Body<V>>,
    first: Seq<Body<V>>,
    second: Seq<Body<V>>,
) where F: Fn(usize, &Body<V>, &Vec<Body<V>>) -> (V, V), G: Fn(&V, &V, &V) -> V
    requires
        single_valued_forces(next_velocity, displace),
        generation_advanced(next_velocity, displace, time, before, first),
        generation_advanced(next_velocity, displace, time, before, second),
    ensures
        first == second,
{
    assert forall|i: int| 0 <= i < first.len() implies first[i] == second[i] by {
        let a = first[i];
        let b = second[i];
        assert(body_advanced(next_velocity, displace, time, before[i], before, a));
        assert(body_advanced(next_velocity, displace, time, before[i], before, b));
        let g1 = choose|g: Vec<Body<V>>|
            g@ == before && #[trigger] call_ensures(
                *next_velocity,
                (time, &before[i], &g),
                (a.velocity, a.velocity2),
            );
        let g2 = choose|g: Vec<Body<V>>|
            g@ == before && #[trigger] call_ensures(
                *next_velocity,
                (time, &before[i], &g),
                (b.velocity, b.velocity2),
            );
        assert((a.velocity, a.velocity2) == (b.velocity, b.velocity2));
        assert(call_ensures(*displace, (&before[i].position, &a.velocity, &a.velocity2), a.position));
        assert(call_ensures(*displace, (&before[i].position, &a.velocity, &a.velocity2), b.position));
    }
    assert(first =~= second);
}

/// The tick that goes body after body and the tick that dispatches lane
/// groups leave the same state: from two states with the same counter and
/// bodies, a tick leads to one state.
pub proof fn lemma_tick_variants_agree<V, F, G>(
    next_velocity: &F,
    displace: &G,
    before1: NBodyBenchmark<V>,
    before2: NBodyBenchmark<V>,
    sequential: NBodyBenchmark<V>,
    parallel: NBodyBenchmark<V>,
) where F: Fn(usize, &Body<V>, &Vec<Body<V>>) -> (V, V), G: Fn(&V, &V, &V) -> V
    requires
        single_valued_forces(next_velocity, displace),
        before1.same_state(&before2),
        before1.ticked(next_velocity, displace, &sequential),
        before2.ticked(next_velocity, displace, &parallel),
    ensures
        sequential.same_state(&parallel),
{
    lemma_generation_unique(
        next_velocity,
        displace,
        before1.clock(),
        before1.current(),
        sequential.current(),
        parallel.current(),
    );
}

/// Two runs of the same number of ticks from the same counter and bodies end
/// in the same state, whichever way each tick is computed.
pub proof fn lemma_runs_agree<V, F, G>(
    next_velocity: &F,
    displace: &G,
    start1: NBodyBenchmark<V>,
    start2: NBodyBenchmark<V>,
    sequential: NBodyBenchmark<V>,
    parallel: NBodyBenchmark<V>,
    n: nat,
) where F: Fn(usize, &Body<V>, &Vec<Body<V>>) -> (V, V), G: Fn(&V, &V, &V) -> V
    requires
        single_valued_forces(next_velocity, displace),
        start1.same_state(&start2),
        start1.ticked_times(next_velocity, displace, &sequential, n),
        start2.ticked_times(next_velocity, displace, &parallel, n),
    ensures
        sequential.same_state(&parallel),
    decreases n,
{
    if n > 0 {
        let m1 = choose|mid: NBodyBenchmark<V>|
            start1.ticked_times(next_velocity, displace, &mid, (n - 1) as nat)
                && #[trigger] mid.ticked(next_velocity, displace, &sequential);
        let m2 = choose|mid: NBodyBenchmark<V>|
            start2.ticked_times(next_velocity, displace, &mid, (n - 1) as nat)
                && #[trigger] mid.ticked(next_velocity, displace, &parallel);
        lemma_runs_agree(next_velocity, displace, start1, start2, m1, m2, (n - 1) as nat);
        lemma_tick_variants_agree(next_velocity, displace, m1, m2, sequential, parallel);
    }
}

} // verus!
