//! Timed particle bursts: an effect is born with a number of particles and a
//! countdown, moves its particles on every tick, and is gone when the
//! countdown has run out.
//!
//! All quantities are whole numbers, so that a burst is the same on every
//! machine: times are in nanoseconds, lengths and speeds in thousandths of a
//! world unit (per second), angles in 2^32-ths of a full turn. A particle
//! keeps its place in polar form, as the heading it was born with and the
//! distance it has travelled along it.

use crate::entropy::next_u32;
use bevy::math::Vec3;
use bevy_rand::prelude::WyRand;
use vstd::prelude::*;

verus! {

/// `bevy::math::Vec3`, a point of the world. An effect keeps the point where
/// it was triggered and hands it to whoever draws it.
#[verifier::external_type_specification]
#[verifier::external_body]
pub struct ExVec3(bevy::math::Vec3);

/// The value that a draw stands for in the range from `min` to `max`: the
/// least draw gives `min`, the greatest gives `max`, and the draws between
/// them are spread evenly, rounded down.
pub open spec fn spread(draw: u32, min: u64, max: u64) -> int {
    min + (max - min) * draw / 0xffff_ffff
}

/// Maps a draw onto the range from `min` to `max`.
pub fn in_range(draw: u32, min: u64, max: u64) -> (value: u64)
    requires
        min <= max,
    ensures
        value == spread(draw, min, max),
        min <= value <= max,
{
    let span: u128 = (max - min) as u128;
    let wide: u128 = draw as u128;
    assert(span * wide <= span * 0xffff_ffff) by (nonlinear_arith)
        requires
            0 <= span,
            0 <= wide <= 0xffff_ffff,
    ;
    assert(span * 0xffff_ffff <= 0xffff_ffff_ffff_ffff * 0xffff_ffff) by (nonlinear_arith)
        requires
            0 <= span <= 0xffff_ffff_ffff_ffff,
    ;
    let offset: u128 = span * wide / 0xffff_ffff;
    min + offset as u64
}

/// The ranges that a burst draws from.
#[derive(Clone, Copy, Debug, PartialEq, Eq)]
pub struct VfxRanges {
    /// The number of particles.
    pub count: u32,
    /// The least and the greatest speed of a particle.
    pub speed_min: u32,
    pub speed_max: u32,
    /// The least and the greatest size of a particle.
    pub size_min: u32,
    pub size_max: u32,
    /// The least and the greatest lifetime of the effect.
    pub duration_min: u64,
    pub duration_max: u64,
}

impl VfxRanges {
    /// No range is empty.
    pub open spec fn wf(&self) -> bool {
        &&& self.speed_min <= self.speed_max
        &&& self.size_min <= self.size_max
        &&& self.duration_min <= self.duration_max
    }
}

/// The kinds of effect.
#[derive(Clone, Copy, Debug, PartialEq, Eq)]
pub enum VfxType {
    Explosion,
}

impl VfxType {
    /// The ranges of an effect of this kind. An explosion has five particles of
    /// speed 20 to 30 and size 8 to 25, and lasts 0.2 to 0.3 seconds.
    pub open spec fn ranges_of(self) -> VfxRanges {
        match self {
            VfxType::Explosion => VfxRanges {
                count: 5,
                speed_min: 20_000,
                speed_max: 30_000,
                size_min: 8_000,
                size_max: 25_000,
                duration_min: 200_000_000,
                duration_max: 300_000_000,
            },
        }
    }

    /// The ranges of an effect of this kind.
    pub fn ranges(&self) -> (ranges: VfxRanges)
        ensures
            ranges == self.ranges_of(),
            ranges.wf(),
    {
        match self {
            VfxType::Explosion => VfxRanges {
                count: 5,
                speed_min: 20_000,
                speed_max: 30_000,
                size_min: 8_000,
                size_max: 25_000,
                duration_min: 200_000_000,
                duration_max: 300_000_000,
            },
        }
    }
}

/// What a countdown holds.
pub struct TimerView {
    /// The time that the countdown runs for.
    pub duration: u64,
    /// The time that has run, never more than `duration`.
    pub elapsed: u64,
    /// Whether a tick has brought `elapsed` to `duration`.
    pub finished: bool,
}

/// The countdown after a tick of `delta`. A finished countdown stays as it is;
/// another one runs on by `delta` and finishes where that reaches its duration.
pub open spec fn ticked(t: TimerView, delta: u64) -> TimerView {
    if t.finished {
        t
    } else if t.elapsed + delta >= t.duration {
        TimerView { duration: t.duration, elapsed: t.duration, finished: true }
    } else {
        TimerView { duration: t.duration, elapsed: (t.elapsed + delta) as u64, finished: false }
    }
}

/// The sum of the ticks.
pub open spec fn total(deltas: Seq<u64>) -> int
    decreases deltas.len(),
{
    if deltas.len() == 0 {
        0
    } else {
        total(deltas.drop_last()) + deltas.last()
    }
}

/// The countdown of an effect: it runs once and does not start again.
#[derive(Clone, Copy, Debug, PartialEq, Eq)]
pub struct VFXDuration {
    duration: u64,
    elapsed: u64,
    finished: bool,
}

impl View for VFXDuration {
    type V = TimerView;

    closed spec fn view(&self) -> TimerView {
        TimerView { duration: self.duration, elapsed: self.elapsed, finished: self.finished }
    }
}

impl VFXDuration {
    /// The time that has run is within the duration, has reached it if the
    /// countdown is finished, and is short of it otherwise, unless no tick has
    /// come yet.
    pub open spec fn wf(&self) -> bool {
        &&& self@.elapsed <= self@.duration
        &&& self@.finished ==> self@.elapsed == self@.duration
        &&& !self@.finished ==> self@.elapsed < self@.duration || self@.elapsed == 0
    }

    /// A countdown of `duration` nanoseconds of which nothing has run.
    pub fn new(duration: u64) -> (timer: VFXDuration)
        ensures
            timer.wf(),
            timer@ == (TimerView { duration, elapsed: 0, finished: false }),
    {
        VFXDuration { duration, elapsed: 0, finished: false }
    }

    /// Lets `delta` nanoseconds run.
    pub fn tick(&mut self, delta: u64)
        requires
            old(self).wf(),
        ensures
            final(self).wf(),
            final(self)@ == ticked(old(self)@, delta),
    {
        if !self.finished {
            if delta >= self.duration - self.elapsed {
                self.elapsed = self.duration;
                self.finished = true;
            } else {
                self.elapsed = self.elapsed + delta;
            }
        }
    }

    /// The nanoseconds that the countdown runs for.
    pub fn duration(&self) -> (d: u64)
        ensures
            d == self@.duration,
    {
        self.duration
    }

    /// The nanoseconds that have run.
    pub fn elapsed(&self) -> (e: u64)
        ensures
            e == self@.elapsed,
    {
        self.elapsed
    }

    /// The nanoseconds that are left.
    pub fn remaining(&self) -> (r: u64)
        requires
            self.wf(),
        ensures
            r == self@.duration - self@.elapsed,
    {
        self.duration - self.elapsed
    }

    /// Whether the countdown has run out.
    pub fn finished(&self) -> (f: bool)
        ensures
            f == self@.finished,
    {
        self.finished
    }

    /// The part of the duration that is left, in `scale`-ths and rounded down:
    /// `scale` before the first tick, 0 when the countdown has run out. A
    /// countdown of no duration has nothing left.
    pub fn remaining_fraction(&self, scale: u32) -> (part: u32)
        requires
            self.wf(),
        ensures
            part == if self@.duration == 0 {
                0
            } else {
                (self@.duration - self@.elapsed) * scale / self@.duration as int
            },
            part <= scale,
    {
        if self.duration == 0 {
            return 0;
        }
        let left: u128 = (self.duration - self.elapsed) as u128;
        let whole: u128 = self.duration as u128;
        let wide: u128 = scale as u128;
        assert(left * wide <= whole * wide) by (nonlinear_arith)
            requires
                0 <= left <= whole,
                0 <= wide,
        ;
        assert(whole * wide <= 0xffff_ffff_ffff_ffff * 0xffff_ffff) by (nonlinear_arith)
            requires
                0 <= whole <= 0xffff_ffff_ffff_ffff,
                0 <= wide <= 0xffff_ffff,
        ;
        assert(left * wide / (whole as int) <= wide) by (nonlinear_arith)
            requires
                0 < whole,
                0 <= left * wide <= whole * wide,
        ;
        (left * wide / whole) as u32
    }
}

/// One particle of a burst.
#[derive(Clone, Copy, Debug, PartialEq, Eq)]
pub struct Particle {
    /// The distance from the origin of the effect, along `direction`, in
    /// millionths of a millionth of a world unit.
    pub travel: u128,
    /// The turn of the shape about its own centre.
    pub rotation: u32,
    /// The heading along which the particle moves.
    pub direction: u32,
    /// The thousandths of a world unit that the particle moves in a second.
    pub speed: u32,
    /// The size of the shape, in thousandths of a world unit.
    pub size: u32,
}

/// The particle that four draws give birth to: it rests at the origin of the
/// effect, is turned and headed as the first two draws say, and has the speed
/// and the size that the other two stand for in their ranges.
pub open spec fn born(
    rotation: u32,
    direction: u32,
    speed: u32,
    size: u32,
    ranges: VfxRanges,
) -> Particle {
    Particle {
        travel: 0,
        rotation,
        direction,
        speed: spread(speed, ranges.speed_min as u64, ranges.speed_max as u64) as u32,
        size: spread(size, ranges.size_min as u64, ranges.size_max as u64) as u32,
    }
}

/// The particle when `elapsed` nanoseconds of its effect have run: its
/// distance from the origin is its speed times that time, whatever it was.
pub open spec fn moved(p: Particle, elapsed: u64) -> Particle {
    Particle {
        travel: (p.speed * elapsed) as u128,
        rotation: p.rotation,
        direction: p.direction,
        speed: p.speed,
        size: p.size,
    }
}

/// The particles that a run of draws gives birth to, four draws to a particle:
/// for its rotation, its direction, its speed and its size, in this order.
pub open spec fn burst(draws: Seq<u32>, ranges: VfxRanges) -> Seq<Particle> {
    Seq::new(
        (draws.len() / 4) as nat,
        |i: int| born(draws[4 * i], draws[4 * i + 1], draws[4 * i + 2], draws[4 * i + 3], ranges),
    )
}

/// The particle rests at the origin with a speed and a size from the ranges.
pub open spec fn at_rest(p: Particle, ranges: VfxRanges) -> bool {
    &&& p.travel == 0
    &&& ranges.speed_min <= p.speed <= ranges.speed_max
    &&& ranges.size_min <= p.size <= ranges.size_max
}

impl Particle {
    /// A particle of the given fields.
    pub fn new(travel: u128, rotation: u32, direction: u32, speed: u32, size: u32) -> (p: Particle)
        ensures
            p == (Particle { travel, rotation, direction, speed, size }),
    {
        Particle { travel, rotation, direction, speed, size }
    }

    /// The particle that four draws give birth to.
    pub fn from_draws(
        rotation: u32,
        direction: u32,
        speed: u32,
        size: u32,
        ranges: &VfxRanges,
    ) -> (p: Particle)
        requires
            ranges.wf(),
        ensures
            p == born(rotation, direction, speed, size, *ranges),
            at_rest(p, *ranges),
    {
        let speed = in_range(speed, ranges.speed_min as u64, ranges.speed_max as u64);
        let size = in_range(size, ranges.size_min as u64, ranges.size_max as u64);
        Particle::new(0, rotation, direction, speed as u32, size as u32)
    }
}

/// The particles of one effect.
#[derive(Debug, PartialEq, Eq)]
pub struct Particles {
    items: Vec<Particle>,
}

impl View for Particles {
    type V = Seq<Particle>;

    closed spec fn view(&self) -> Seq<Particle> {
        self.items@
    }
}

impl Particles {
    /// `count` particles, each born of four draws of `rng`. Whatever is
    /// drawn, they rest at the origin with speeds and sizes from the ranges,
    /// and they are the burst of some run of four times `count` draws.
    pub fn new(count: u32, ranges: &VfxRanges, rng: &mut WyRand) -> (particles: Particles)
        requires
            ranges.wf(),
        ensures
            particles@.len() == count,
            forall|i: int| 0 <= i < count ==> at_rest(#[trigger] particles@[i], *ranges),
            exists|draws: Seq<u32>|
                draws.len() == 4 * count && particles@ == #[trigger] burst(draws, *ranges),
    {
        let mut items: Vec<Particle> = Vec::new();
        let mut made: u32 = 0;
        let ghost mut drawn: Seq<u32> = Seq::empty();
        while made < count
            invariant
                made <= count,
                ranges.wf(),
                items@.len() == made,
                forall|i: int| 0 <= i < made ==> at_rest(#[trigger] items@[i], *ranges),
                drawn.len() == 4 * made,
                items@ == burst(drawn, *ranges),
            decreases count - made,
        {
            let rotation = next_u32(rng);
            let direction = next_u32(rng);
            let speed = next_u32(rng);
            let size = next_u32(rng);
            items.push(Particle::from_draws(rotation, direction, speed, size, ranges));
            proof {
                let longer = drawn.push(rotation).push(direction).push(speed).push(size);
                assert(items@ =~= burst(longer, *ranges));
                drawn = longer;
            }
            made += 1;
        }
        Particles { items }
    }

    /// The given particles.
    pub fn from_vec(items: Vec<Particle>) -> (particles: Particles)
        ensures
            particles@ == items@,
    {
        Particles { items }
    }

    /// The number of particles.
    pub fn len(&self) -> (n: usize)
        ensures
            n == self@.len(),
    {
        self.items.len()
    }

    /// The particle at place `i`.
    pub fn get(&self, i: usize) -> (p: Particle)
        requires
            i < self@.len(),
        ensures
            p == self@[i as int],
    {
        self.items[i]
    }

    /// Puts every particle where it is when `elapsed` nanoseconds have run.
    fn move_all(&mut self, elapsed: u64)
        ensures
            final(self)@ == old(self)@.map_values(|p: Particle| moved(p, elapsed)),
    {
        let mut i: usize = 0;
        while i < self.items.len()
            invariant
                i <= self.items@.len(),
                self.items@.len() == old(self).items@.len(),
                forall|j: int| 0 <= j < i ==> self.items@[j] == moved(old(self).items@[j], elapsed),
                forall|j: int| i <= j < self.items@.len() ==> self.items@[j] == old(self).items@[j],
            decreases self.items@.len() - i,
        {
            let p = self.items[i];
            assert(p.speed * elapsed <= 0xffff_ffff * 0xffff_ffff_ffff_ffff) by (nonlinear_arith)
                requires
                    0 <= p.speed <= 0xffff_ffff,
                    0 <= elapsed <= 0xffff_ffff_ffff_ffff,
            ;
            let travel = p.speed as u128 * elapsed as u128;
            self.items.set(i, Particle::new(travel, p.rotation, p.direction, p.speed, p.size));
            i += 1;
        }
    }
}

/// Where an effect stands in its life.
#[derive(Clone, Copy, Debug, PartialEq, Eq, Structural)]
pub enum VfxState {
    /// Born, and not yet updated.
    Spawned,
    /// Updated at least once, with time left.
    Updating,
    /// Out of time. Nothing changes any more.
    Despawned,
}

/// What is needed to trigger an effect.
pub struct VfxProp {
    /// The kind of the effect.
    pub vfx_type: VfxType,
    /// The point of the world where it happens.
    pub position: Vec3,
    /// The generator that it is drawn from.
    pub rng: WyRand,
}

/// What an effect holds.
pub struct VfxView {
    pub position: Vec3,
    pub particles: Seq<Particle>,
    pub timer: TimerView,
    pub state: VfxState,
}

/// The effect after a tick of `delta`. A despawned effect stays as it is. Of
/// another one the countdown is ticked, every particle is put where it is at
/// the time that has then run, and the effect is despawned if the countdown
/// has run out.
pub open spec fn advanced(v: VfxView, delta: u64) -> VfxView {
    if v.state is Despawned {
        v
    } else {
        let timer = ticked(v.timer, delta);
        VfxView {
            position: v.position,
            particles: v.particles.map_values(|p: Particle| moved(p, timer.elapsed)),
            timer,
            state: if timer.finished {
                VfxState::Despawned
            } else {
                VfxState::Updating
            },
        }
    }
}

/// The effect of the given kind that a run of draws gives birth to at
/// `position`: all draws but the last make its particles, and the last one
/// stands for its lifetime.
pub open spec fn constructed(vfx_type: VfxType, position: Vec3, draws: Seq<u32>) -> VfxView {
    let ranges = vfx_type.ranges_of();
    VfxView {
        position,
        particles: burst(draws.drop_last(), ranges),
        timer: TimerView {
            duration: spread(draws.last(), ranges.duration_min, ranges.duration_max) as u64,
            elapsed: 0,
            finished: false,
        },
        state: VfxState::Spawned,
    }
}

/// One burst of particles with its countdown.
pub struct Vfx {
    position: Vec3,
    particles: Particles,
    duration: VFXDuration,
    state: VfxState,
}

impl View for Vfx {
    type V = VfxView;

    closed spec fn view(&self) -> VfxView {
        VfxView {
            position: self.position,
            particles: self.particles@,
            timer: self.duration@,
            state: self.state,
        }
    }
}

/// The countdown and the state agree, and every particle is as far from the
/// origin as its speed has carried it in the time that has run.
pub open spec fn vfx_wf(v: VfxView) -> bool {
    &&& v.timer.elapsed <= v.timer.duration
    &&& v.timer.finished ==> v.timer.elapsed == v.timer.duration
    &&& !v.timer.finished ==> v.timer.elapsed < v.timer.duration || v.timer.elapsed == 0
    &&& v.timer.finished <==> v.state is Despawned
    &&& v.state is Spawned ==> v.timer.elapsed == 0
    &&& forall|i: int|
        0 <= i < v.particles.len() ==> (#[trigger] v.particles[i]).travel == v.particles[i].speed
            * v.timer.elapsed
}

impl Vfx {
    /// See [`vfx_wf`].
    pub open spec fn wf(&self) -> bool {
        vfx_wf(self@)
    }

    /// An effect at `position` of the given particles, which rest at its
    /// origin, with `duration` nanoseconds to live.
    pub fn new(position: Vec3, particles: Particles, duration: u64) -> (vfx: Vfx)
        requires
            forall|i: int| 0 <= i < particles@.len() ==> (#[trigger] particles@[i]).travel == 0,
        ensures
            vfx.wf(),
            vfx@ == (VfxView {
                position,
                particles: particles@,
                timer: TimerView { duration, elapsed: 0, finished: false },
                state: VfxState::Spawned,
            }),
    {
        Vfx { position, particles, duration: VFXDuration::new(duration), state: VfxState::Spawned }
    }

    /// Triggers an effect: its particles are drawn first, four draws each,
    /// then its lifetime. Whatever is drawn, the effect is new, its particles
    /// rest at its origin with speeds and sizes from the ranges of its kind,
    /// its lifetime is from their range, and it is what some run of draws
    /// gives birth to.
    pub fn construct(prop: VfxProp) -> (vfx: Vfx)
        ensures
            vfx.wf(),
            vfx@.position == prop.position,
            vfx@.state is Spawned,
            vfx@.particles.len() == prop.vfx_type.ranges_of().count,
            forall|i: int|
                0 <= i < vfx@.particles.len() ==> at_rest(
                    #[trigger] vfx@.particles[i],
                    prop.vfx_type.ranges_of(),
                ),
            vfx@.timer.elapsed == 0,
            !vfx@.timer.finished,
            prop.vfx_type.ranges_of().duration_min <= vfx@.timer.duration
                <= prop.vfx_type.ranges_of().duration_max,
            exists|draws: Seq<u32>|
                draws.len() == 4 * prop.vfx_type.ranges_of().count + 1 && vfx@
                    == #[trigger] constructed(prop.vfx_type, prop.position, draws),
    {
        let mut prop = prop;
        let ranges = prop.vfx_type.ranges();
        let particles = Particles::new(ranges.count, &ranges, &mut prop.rng);
        let last = next_u32(&mut prop.rng);
        let duration = in_range(last, ranges.duration_min, ranges.duration_max);
        let vfx = Vfx::new(prop.position, particles, duration);
        proof {
            let drawn = choose|draws: Seq<u32>|
                draws.len() == 4 * ranges.count && particles@ == #[trigger] burst(draws, ranges);
            let draws = drawn.push(last);
            assert(draws.drop_last() == drawn);
            assert(vfx@ == constructed(prop.vfx_type, prop.position, draws));
        }
        vfx
    }

    /// Advances the effect by a tick of `delta` nanoseconds, and tells whether
    /// it is despawned: the caller then drops it with all its particles.
    pub fn update(&mut self, delta: u64) -> (despawn: bool)
        requires
            old(self).wf(),
        ensures
            final(self).wf(),
            final(self)@ == advanced(old(self)@, delta),
            despawn == (final(self)@.state is Despawned),
    {
        if self.duration.finished() {
            return true;
        }
        self.duration.tick(delta);
        self.particles.move_all(self.duration.elapsed());
        let despawn = self.duration.finished();
        self.state = if despawn {
            VfxState::Despawned
        } else {
            VfxState::Updating
        };
        proof {
            let elapsed = self@.timer.elapsed;
            assert forall|i: int| 0 <= i < self@.particles.len() implies (#[trigger] self@.particles[i]).travel
                == self@.particles[i].speed * elapsed by {
                lemma_speed_times_time_fits(old(self)@.particles[i].speed, elapsed);
            }
        }
        despawn
    }

    /// The point of the world where the effect happens.
    pub fn position(&self) -> (position: Vec3)
        ensures
            position == self@.position,
    {
        self.position
    }

    /// The particles.
    pub fn particles(&self) -> (particles: &Particles)
        ensures
            particles@ == self@.particles,
    {
        &self.particles
    }

    /// The countdown.
    pub fn duration(&self) -> (timer: &VFXDuration)
        ensures
            timer@ == self@.timer,
            self.wf() ==> timer.wf(),
    {
        &self.duration
    }

    /// Where the effect stands in its life.
    pub fn state(&self) -> (state: VfxState)
        ensures
            state == self@.state,
    {
        self.state
    }
}

/// What each of the effects holds.
pub open spec fn views(effects: Seq<Vfx>) -> Seq<VfxView> {
    effects.map_values(|e: Vfx| e@)
}

/// The effects that are left after a tick of `delta`, each advanced by it, in
/// their order: those that the tick has despawned are gone.
pub open spec fn survivors(effects: Seq<VfxView>, delta: u64) -> Seq<VfxView>
    decreases effects.len(),
{
    if effects.len() == 0 {
        Seq::empty()
    } else {
        let before = survivors(effects.drop_last(), delta);
        let last = advanced(effects.last(), delta);
        if last.state is Despawned {
            before
        } else {
            before.push(last)
        }
    }
}

/// Advances every effect by a tick of `delta` nanoseconds and drops those
/// that it has despawned, each as a whole.
pub fn update_vfx(effects: &mut Vec<Vfx>, delta: u64)
    requires
        forall|i: int| 0 <= i < old(effects)@.len() ==> (#[trigger] old(effects)@[i]).wf(),
    ensures
        views(final(effects)@) == survivors(views(old(effects)@), delta),
        forall|i: int| 0 <= i < final(effects)@.len() ==> (#[trigger] final(effects)@[i]).wf(),
{
    let ghost before = effects@;
    let ghost mut done: int = 0;
    let mut i: usize = 0;
    while i < effects.len()
        invariant
            0 <= i <= effects@.len(),
            0 <= done <= before.len(),
            effects@.len() - i == before.len() - done,
            views(effects@.take(i as int)) == survivors(views(before.take(done)), delta),
            effects@.skip(i as int) == before.skip(done),
            forall|k: int| 0 <= k < effects@.len() ==> (#[trigger] effects@[k]).wf(),
        decreases before.len() - done,
    {
        let ghost was = effects@;
        assert(effects@[i as int] == before.skip(done)[0]);
        let despawn = effects[i].update(delta);
        proof {
            // The effect at `i` is the next of the old ones, and those behind
            // it are untouched.
            assert(views(before.take(done + 1)).drop_last() == views(before.take(done)));
            assert forall|k: int| 0 <= k < before.len() - done - 1 implies #[trigger] effects@.skip(
                i + 1,
            )[k] == before.skip(done + 1)[k] by {
                assert(was.skip(i as int)[k + 1] == before.skip(done)[k + 1]);
            }
            assert(effects@.skip(i + 1) == before.skip(done + 1));
        }
        if despawn {
            effects.remove(i);
            proof {
                assert(effects@.take(i as int) == was.take(i as int));
                assert(effects@.skip(i as int) == before.skip(done + 1));
            }
        } else {
            proof {
                assert(views(effects@.take(i + 1)) == views(effects@.take(i as int)).push(
                    effects@[i as int]@,
                ));
            }
            i += 1;
        }
        proof {
            done = done + 1;
        }
    }
    proof {
        assert(effects@.take(i as int) == effects@);
        assert(before.take(done) == before);
    }
}

/// The effect after the ticks `deltas`, in turn.
pub open spec fn advanced_all(v: VfxView, deltas: Seq<u64>) -> VfxView
    decreases deltas.len(),
{
    if deltas.len() == 0 {
        v
    } else {
        advanced(advanced_all(v, deltas.drop_last()), deltas.last())
    }
}

/// The time that has run of a lifetime of `duration` when the ticks sum to
/// `sum`: the sum, but not more than the lifetime.
pub open spec fn run_time(duration: u64, sum: int) -> u64 {
    if sum < duration {
        sum as u64
    } else {
        duration
    }
}

/// Lifecycle: a new effect is despawned by the first tick that brings the sum
/// of the ticks to its lifetime. It is still alive after the tick before, and
/// stays despawned whatever ticks follow.
pub proof fn lemma_despawns_when_lifetime_reached(v: VfxView, deltas: Seq<u64>, k: int)
    requires
        vfx_wf(v),
        v.state is Spawned,
        0 <= k < deltas.len(),
        total(deltas.take(k)) < v.timer.duration,
        total(deltas.take(k + 1)) >= v.timer.duration,
    ensures
        !(advanced_all(v, deltas.take(k)).state is Despawned),
        forall|n: int|
            k < n <= deltas.len() ==> (#[trigger] advanced_all(v, deltas.take(n))).state
                is Despawned,
{
    lemma_advanced_all(v, deltas.take(k));
    assert forall|n: int| k < n <= deltas.len() implies (#[trigger] advanced_all(
        v,
        deltas.take(n),
    )).state is Despawned by {
        lemma_total_grows(deltas, k + 1, n);
        lemma_advanced_all(v, deltas.take(n));
    }
}

/// Kinematics: after any ticks of a new effect, every particle is as far from
/// the origin as its speed carries it in the time that has run, and is
/// otherwise as it was born. Its place follows from that time alone, not from
/// how the time was cut into ticks.
pub proof fn lemma_travel_is_speed_times_time(v: VfxView, deltas: Seq<u64>, i: int)
    requires
        vfx_wf(v),
        v.state is Spawned,
        0 <= i < v.particles.len(),
    ensures
        advanced_all(v, deltas).particles.len() == v.particles.len(),
        advanced_all(v, deltas).timer.elapsed == run_time(v.timer.duration, total(deltas)),
        advanced_all(v, deltas).particles[i].travel == v.particles[i].speed * run_time(
            v.timer.duration,
            total(deltas),
        ),
        advanced_all(v, deltas).particles[i] == moved(
            v.particles[i],
            run_time(v.timer.duration, total(deltas)),
        ),
{
    lemma_advanced_all(v, deltas);
    lemma_speed_times_time_fits(v.particles[i].speed, run_time(v.timer.duration, total(deltas)));
}

/// What a new effect has become after some ticks.
proof fn lemma_advanced_all(v: VfxView, deltas: Seq<u64>)
    requires
        vfx_wf(v),
        v.state is Spawned,
    ensures
        ({
            let w = advanced_all(v, deltas);
            let sum = total(deltas);
            &&& vfx_wf(w)
            &&& sum >= 0
            &&& w.position == v.position
            &&& w.timer.duration == v.timer.duration
            &&& w.timer.elapsed == run_time(v.timer.duration, sum)
            &&& w.timer.finished <==> deltas.len() > 0 && sum >= v.timer.duration
            &&& w.state is Spawned <==> deltas.len() == 0
            &&& w.particles.len() == v.particles.len()
            &&& forall|i: int|
                0 <= i < v.particles.len() ==> #[trigger] w.particles[i] == moved(
                    v.particles[i],
                    w.timer.elapsed,
                )
        }),
    decreases deltas.len(),
{
    if deltas.len() > 0 {
        lemma_advanced_all(v, deltas.drop_last());
        let before = advanced_all(v, deltas.drop_last());
        let w = advanced_all(v, deltas);
        assert forall|i: int| 0 <= i < w.particles.len() implies (#[trigger] w.particles[i]).travel
            == w.particles[i].speed * w.timer.elapsed by {
            lemma_speed_times_time_fits(before.particles[i].speed, w.timer.elapsed);
        }
    }
}

/// A speed times a time fits the width of a distance.
proof fn lemma_speed_times_time_fits(speed: u32, elapsed: u64)
    ensures
        (speed * elapsed) as u128 == speed * elapsed,
{
    assert(0 <= speed * elapsed <= 0xffff_ffff * 0xffff_ffff_ffff_ffff) by (nonlinear_arith)
        requires
            0 <= speed <= 0xffff_ffff,
            0 <= elapsed <= 0xffff_ffff_ffff_ffff,
    ;
}

/// More ticks do not sum to less.
proof fn lemma_total_grows(deltas: Seq<u64>, m: int, n: int)
    requires
        0 <= m <= n <= deltas.len(),
    ensures
        total(deltas.take(m)) <= total(deltas.take(n)),
    decreases n - m,
{
    if m < n {
        lemma_total_grows(deltas, m, n - 1);
        assert(deltas.take(n).drop_last() == deltas.take(n - 1));
    }
}

} // verus!
