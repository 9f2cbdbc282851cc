use bevy::math::Vec3;
use bevy::time::{Timer, TimerMode};
use bevy_rand::prelude::WyRand;
use rand_core::SeedableRng;
use std::time::Duration;
use simple_space::vfx::{
    in_range, update_vfx, Particle, Particles, VFXDuration, Vfx, VfxProp, VfxRanges, VfxState,
    VfxType,
};

fn explosion(seed: u64) -> Vfx {
    Vfx::construct(VfxProp {
        vfx_type: VfxType::Explosion,
        position: Vec3::new(3.0, -4.0, 0.0),
        rng: WyRand::seed_from_u64(seed),
    })
}

fn burst(duration: u64) -> Vfx {
    let particles = Particles::from_vec(vec![
        Particle::new(0, 10, 20, 20_000, 8_000),
        Particle::new(0, 11, 21, 25_000, 9_000),
        Particle::new(0, 12, 22, 30_000, 25_000),
    ]);
    Vfx::new(Vec3::new(1.0, 2.0, 0.0), particles, duration)
}

fn all_particles(vfx: &Vfx) -> Vec<Particle> {
    (0..vfx.particles().len()).map(|i| vfx.particles().get(i)).collect()
}

#[test]
fn in_range_maps_the_ends_of_the_draws_to_the_ends_of_the_range() {
    assert_eq!(in_range(0, 20_000, 30_000), 20_000);
    assert_eq!(in_range(u32::MAX, 20_000, 30_000), 30_000);
    assert_eq!(in_range(0, 7, 7), 7);
    assert_eq!(in_range(u32::MAX, 7, 7), 7);
    assert_eq!(in_range(123_456, 7, 7), 7);
}

#[test]
fn in_range_spreads_evenly_and_rounds_down() {
    // 10_000 * 2_147_483_648 / 4_294_967_295 = 5_000.000001...
    assert_eq!(in_range(1 << 31, 20_000, 30_000), 25_000);
    // 10_000 * 2_147_483_647 / 4_294_967_295 = 4_999.999998...
    assert_eq!(in_range((1 << 31) - 1, 20_000, 30_000), 24_999);
    assert_eq!(in_range(u32::MAX - 1, 20_000, 30_000), 29_999);
    assert_eq!(in_range(1, 20_000, 30_000), 20_000);
    assert_eq!(in_range(429_497, 0, 10_000), 1);
    assert_eq!(in_range(429_496, 0, 10_000), 0);
}

#[test]
fn in_range_holds_for_the_widest_range() {
    assert_eq!(in_range(0, 0, u64::MAX), 0);
    assert_eq!(in_range(u32::MAX, 0, u64::MAX), u64::MAX);
    assert_eq!(in_range(1, 0, u64::MAX), 4_294_967_297);
    assert_eq!(in_range(u32::MAX, u64::MAX - 1, u64::MAX), u64::MAX);
    assert_eq!(in_range(u32::MAX - 1, u64::MAX - 1, u64::MAX), u64::MAX - 1);
}

#[test]
fn in_range_agrees_with_the_linear_formula() {
    for draw in [0u32, 1, 12_345, 1 << 16, 1 << 31, u32::MAX - 1, u32::MAX] {
        let part = draw as f64 / u32::MAX as f64;
        let speed = in_range(draw, 20_000, 30_000) as f64 / 1000.;
        assert!((speed - (part * 10. + 20.)).abs() < 0.001);
        let size = in_range(draw, 8_000, 25_000) as f64 / 1000.;
        assert!((size - (part * 17. + 8.)).abs() < 0.001);
        let seconds = in_range(draw, 200_000_000, 300_000_000) as f64 / 1e9;
        assert!((seconds - (part * 0.1 + 0.2)).abs() < 1e-9);
    }
}

#[test]
fn ranges_of_an_explosion() {
    let ranges = VfxType::Explosion.ranges();
    assert_eq!(
        ranges,
        VfxRanges {
            count: 5,
            speed_min: 20_000,
            speed_max: 30_000,
            size_min: 8_000,
            size_max: 25_000,
            duration_min: 200_000_000,
            duration_max: 300_000_000,
        }
    );
}

#[test]
fn particle_from_draws() {
    let ranges = VfxType::Explosion.ranges();
    let p = Particle::from_draws(7, 9, 0, u32::MAX, &ranges);
    assert_eq!(p, Particle { travel: 0, rotation: 7, direction: 9, speed: 20_000, size: 25_000 });
    let q = Particle::from_draws(u32::MAX, 0, 1 << 31, 1 << 31, &ranges);
    assert_eq!(
        q,
        Particle { travel: 0, rotation: u32::MAX, direction: 0, speed: 25_000, size: 16_500 }
    );
}

#[test]
fn particle_new_keeps_its_fields() {
    let p = Particle::new(5, 1, 2, 3, 4);
    assert_eq!(p.travel, 5);
    assert_eq!(p.rotation, 1);
    assert_eq!(p.direction, 2);
    assert_eq!(p.speed, 3);
    assert_eq!(p.size, 4);
}

#[test]
fn particles_are_drawn_within_the_ranges() {
    let ranges = VfxType::Explosion.ranges();
    let mut rng = WyRand::seed_from_u64(11);
    let particles = Particles::new(40, &ranges, &mut rng);
    assert_eq!(particles.len(), 40);
    for i in 0..particles.len() {
        let p = particles.get(i);
        assert_eq!(p.travel, 0);
        assert!(20_000 <= p.speed && p.speed <= 30_000);
        assert!(8_000 <= p.size && p.size <= 25_000);
    }
}

#[test]
fn particles_differ_from_one_another() {
    let ranges = VfxType::Explosion.ranges();
    let mut rng = WyRand::seed_from_u64(11);
    let particles = Particles::new(8, &ranges, &mut rng);
    let first = particles.get(0);
    assert!((1..8).any(|i| particles.get(i).direction != first.direction));
    assert!((1..8).any(|i| particles.get(i).rotation != first.rotation));
    assert!((1..8).any(|i| particles.get(i).speed != first.speed));
    assert!((1..8).any(|i| particles.get(i).size != first.size));
    assert_ne!(first.rotation, first.direction);
}

#[test]
fn no_particles_where_none_are_asked_for() {
    let ranges = VfxType::Explosion.ranges();
    let mut rng = WyRand::seed_from_u64(1);
    assert_eq!(Particles::new(0, &ranges, &mut rng).len(), 0);
}

#[test]
fn explosion_is_constructed_within_its_ranges() {
    for seed in 0..25 {
        let vfx = explosion(seed);
        assert_eq!(vfx.position(), Vec3::new(3.0, -4.0, 0.0));
        assert_eq!(vfx.state(), VfxState::Spawned);
        assert_eq!(vfx.particles().len(), 5);
        for p in all_particles(&vfx) {
            assert_eq!(p.travel, 0);
            assert!(20_000 <= p.speed && p.speed <= 30_000);
            assert!(8_000 <= p.size && p.size <= 25_000);
        }
        let timer = vfx.duration();
        assert_eq!(timer.elapsed(), 0);
        assert!(!timer.finished());
        assert!(200_000_000 <= timer.duration() && timer.duration() <= 300_000_000);
        assert_eq!(timer.remaining(), timer.duration());
    }
}

#[test]
fn same_seed_gives_the_same_explosion() {
    let first = explosion(77);
    let second = explosion(77);
    assert_eq!(all_particles(&first), all_particles(&second));
    assert_eq!(first.duration(), second.duration());
}

#[test]
fn another_seed_gives_another_explosion() {
    let first = explosion(77);
    let second = explosion(78);
    assert_ne!(all_particles(&first), all_particles(&second));
}

#[test]
fn lifetime_is_drawn_after_the_particles() {
    let ranges = VfxType::Explosion.ranges();
    let mut rng = WyRand::seed_from_u64(5);
    let particles = Particles::new(5, &ranges, &mut rng);
    let mut next = [0u8; 4];
    rand_core::RngCore::fill_bytes(&mut rng, &mut next);
    let mut again = WyRand::seed_from_u64(5);
    let _ = Particles::new(5, &ranges, &mut again);
    let draw = rand_core::RngCore::next_u32(&mut again);
    let vfx = explosion(5);
    assert_eq!(all_particles(&vfx), (0..5).map(|i| particles.get(i)).collect::<Vec<_>>());
    assert_eq!(vfx.duration().duration(), in_range(draw, 200_000_000, 300_000_000));
}

#[test]
fn countdown_starts_with_nothing_run() {
    let timer = VFXDuration::new(250);
    assert_eq!(timer.duration(), 250);
    assert_eq!(timer.elapsed(), 0);
    assert_eq!(timer.remaining(), 250);
    assert!(!timer.finished());
}

#[test]
fn countdown_runs_and_stops_at_its_duration() {
    let mut timer = VFXDuration::new(250);
    timer.tick(100);
    assert_eq!(timer.elapsed(), 100);
    assert_eq!(timer.remaining(), 150);
    assert!(!timer.finished());
    timer.tick(149);
    assert_eq!(timer.elapsed(), 249);
    assert!(!timer.finished());
    timer.tick(1);
    assert_eq!(timer.elapsed(), 250);
    assert_eq!(timer.remaining(), 0);
    assert!(timer.finished());
    timer.tick(1_000);
    assert_eq!(timer.elapsed(), 250);
    assert!(timer.finished());
}

#[test]
fn countdown_does_not_run_past_its_duration() {
    let mut timer = VFXDuration::new(250);
    timer.tick(u64::MAX);
    assert_eq!(timer.elapsed(), 250);
    assert!(timer.finished());

    let mut long = VFXDuration::new(u64::MAX);
    long.tick(u64::MAX - 1);
    assert!(!long.finished());
    long.tick(u64::MAX);
    assert_eq!(long.elapsed(), u64::MAX);
    assert!(long.finished());
}

#[test]
fn countdown_agrees_with_the_timer_of_the_engine() {
    let runs: [(u64, Vec<u64>); 6] = [
        (250, vec![100, 149, 1, 1_000]),
        (250, vec![0, 0, 250, 0]),
        (0, vec![0, 5]),
        (0, vec![5]),
        (5, vec![7, 7]),
        (250_000_000, vec![16_666_667; 20]),
    ];
    for (duration, deltas) in runs {
        let mut timer = Timer::new(Duration::from_nanos(duration), TimerMode::Once);
        let mut countdown = VFXDuration::new(duration);
        assert_eq!(countdown.finished(), timer.finished());
        assert_eq!(countdown.elapsed() as u128, timer.elapsed().as_nanos());
        for delta in deltas {
            timer.tick(Duration::from_nanos(delta));
            countdown.tick(delta);
            assert_eq!(countdown.finished(), timer.finished());
            assert_eq!(countdown.elapsed() as u128, timer.elapsed().as_nanos());
            assert_eq!(countdown.remaining() as u128, timer.remaining().as_nanos());
            assert_eq!(countdown.duration() as u128, timer.duration().as_nanos());
        }
    }
}

#[test]
fn remaining_fraction_agrees_with_the_timer_of_the_engine() {
    let mut timer = Timer::new(Duration::from_nanos(300_000_000), TimerMode::Once);
    let mut countdown = VFXDuration::new(300_000_000);
    for delta in [16_000_000u64, 17_000_000, 100_000_000, 150_000_000, 50_000_000] {
        timer.tick(Duration::from_nanos(delta));
        countdown.tick(delta);
        let part = countdown.remaining_fraction(1_000_000) as f32 / 1e6;
        assert!((part - timer.fraction_remaining()).abs() < 1e-5);
    }
    assert_eq!(countdown.remaining_fraction(1_000_000), 0);
}

#[test]
fn tick_of_nothing_changes_nothing() {
    let mut timer = VFXDuration::new(250);
    timer.tick(0);
    assert_eq!(timer.elapsed(), 0);
    assert!(!timer.finished());
    timer.tick(10);
    timer.tick(0);
    assert_eq!(timer.elapsed(), 10);
    assert!(!timer.finished());
}

#[test]
fn countdown_of_no_duration_finishes_on_its_first_tick() {
    let mut timer = VFXDuration::new(0);
    assert!(!timer.finished());
    assert_eq!(timer.remaining_fraction(1_000), 0);
    timer.tick(0);
    assert!(timer.finished());
    assert_eq!(timer.elapsed(), 0);
}

#[test]
fn remaining_fraction_falls_from_the_scale_to_nothing() {
    let mut timer = VFXDuration::new(300);
    assert_eq!(timer.remaining_fraction(1_000), 1_000);
    assert_eq!(timer.remaining_fraction(255), 255);
    timer.tick(100);
    assert_eq!(timer.remaining_fraction(1_000), 666);
    assert_eq!(timer.remaining_fraction(255), 170);
    assert_eq!(timer.remaining_fraction(0), 0);
    timer.tick(100);
    assert_eq!(timer.remaining_fraction(1_000), 333);
    timer.tick(99);
    assert_eq!(timer.remaining_fraction(1_000), 3);
    assert_eq!(timer.remaining_fraction(255), 0);
    timer.tick(1);
    assert_eq!(timer.remaining_fraction(1_000), 0);
    assert_eq!(timer.remaining_fraction(u32::MAX), 0);
}

#[test]
fn remaining_fraction_of_the_longest_countdown() {
    let mut timer = VFXDuration::new(u64::MAX);
    assert_eq!(timer.remaining_fraction(u32::MAX), u32::MAX);
    timer.tick(1);
    assert_eq!(timer.remaining_fraction(u32::MAX), u32::MAX - 1);
}

#[test]
fn effect_despawns_on_the_tick_that_reaches_its_duration() {
    let mut vfx = burst(250_000_000);
    assert_eq!(vfx.state(), VfxState::Spawned);
    assert!(!vfx.update(100_000_000));
    assert_eq!(vfx.state(), VfxState::Updating);
    assert!(!vfx.update(100_000_000));
    assert!(!vfx.update(49_999_999));
    assert_eq!(vfx.state(), VfxState::Updating);
    assert_eq!(vfx.duration().elapsed(), 249_999_999);
    assert!(vfx.update(1));
    assert_eq!(vfx.state(), VfxState::Despawned);
    assert_eq!(vfx.duration().elapsed(), 250_000_000);
}

#[test]
fn effect_despawns_on_a_tick_that_passes_its_duration() {
    let mut vfx = burst(250_000_000);
    assert!(!vfx.update(249_000_000));
    assert!(vfx.update(16_000_000));
    assert_eq!(vfx.duration().elapsed(), 250_000_000);
    assert_eq!(vfx.duration().remaining(), 0);
}

#[test]
fn effect_despawns_on_one_tick_of_its_whole_duration() {
    let mut vfx = burst(250_000_000);
    assert!(vfx.update(250_000_000));
    assert_eq!(vfx.state(), VfxState::Despawned);
}

#[test]
fn despawned_effect_does_not_change() {
    let mut vfx = burst(1_000);
    assert!(vfx.update(1_000));
    let particles = all_particles(&vfx);
    assert!(vfx.update(5_000));
    assert_eq!(vfx.state(), VfxState::Despawned);
    assert_eq!(vfx.duration().elapsed(), 1_000);
    assert_eq!(all_particles(&vfx), particles);
}

#[test]
fn particles_are_where_their_speed_has_carried_them() {
    let mut vfx = burst(250_000_000);
    let mut elapsed: u128 = 0;
    for delta in [16_000_000u64, 17_000_000, 1, 33_000_000, 0, 120_000_000] {
        assert!(!vfx.update(delta));
        elapsed += delta as u128;
        let particles = all_particles(&vfx);
        assert_eq!(particles[0].travel, 20_000 * elapsed);
        assert_eq!(particles[1].travel, 25_000 * elapsed);
        assert_eq!(particles[2].travel, 30_000 * elapsed);
    }
    assert_eq!(elapsed, 186_000_001);
    assert_eq!(all_particles(&vfx)[2].travel, 5_580_000_030_000);
}

#[test]
fn particles_stop_where_the_effect_ends() {
    let mut vfx = burst(250_000_000);
    assert!(vfx.update(1_000_000_000));
    let particles = all_particles(&vfx);
    assert_eq!(particles[0].travel, 20_000 * 250_000_000);
    assert_eq!(particles[1].travel, 25_000 * 250_000_000);
    assert_eq!(particles[2].travel, 30_000 * 250_000_000);
}

#[test]
fn update_keeps_what_a_particle_was_born_with() {
    let mut vfx = burst(250_000_000);
    vfx.update(5);
    assert_eq!(
        all_particles(&vfx),
        vec![
            Particle { travel: 100_000, rotation: 10, direction: 20, speed: 20_000, size: 8_000 },
            Particle { travel: 125_000, rotation: 11, direction: 21, speed: 25_000, size: 9_000 },
            Particle { travel: 150_000, rotation: 12, direction: 22, speed: 30_000, size: 25_000 },
        ]
    );
    assert_eq!(vfx.position(), Vec3::new(1.0, 2.0, 0.0));
}

#[test]
fn travel_of_the_fastest_particle_over_the_longest_time() {
    let particles = Particles::from_vec(vec![Particle::new(0, 0, 0, u32::MAX, 1)]);
    let mut vfx = Vfx::new(Vec3::ZERO, particles, u64::MAX);
    assert!(!vfx.update(u64::MAX - 1));
    assert_eq!(
        vfx.particles().get(0).travel,
        (u32::MAX as u128) * ((u64::MAX - 1) as u128)
    );
}

#[test]
fn same_ticks_give_the_same_places() {
    let mut first = explosion(9);
    let mut second = explosion(9);
    for delta in [16_000_000u64, 16_500_000, 17_000_000] {
        first.update(delta);
        second.update(delta);
        assert_eq!(all_particles(&first), all_particles(&second));
    }
}

#[test]
fn update_vfx_drops_the_effects_that_have_run_out() {
    let mut effects = vec![burst(100), burst(300), burst(200), burst(301)];
    update_vfx(&mut effects, 100);
    let left: Vec<u64> = effects.iter().map(|e| e.duration().duration()).collect();
    assert_eq!(left, vec![300, 200, 301]);
    for e in &effects {
        assert_eq!(e.state(), VfxState::Updating);
        assert_eq!(e.duration().elapsed(), 100);
        assert_eq!(e.particles().get(0).travel, 2_000_000);
    }
    update_vfx(&mut effects, 200);
    let left: Vec<u64> = effects.iter().map(|e| e.duration().duration()).collect();
    assert_eq!(left, vec![301]);
    assert_eq!(effects[0].duration().elapsed(), 300);
    update_vfx(&mut effects, 1);
    assert!(effects.is_empty());
    update_vfx(&mut effects, 1);
    assert!(effects.is_empty());
}

#[test]
fn update_vfx_keeps_all_effects_with_time_left() {
    let mut effects = vec![burst(100), burst(300)];
    update_vfx(&mut effects, 0);
    assert_eq!(effects.len(), 2);
    update_vfx(&mut effects, 99);
    assert_eq!(effects.len(), 2);
    assert_eq!(effects[0].duration().remaining(), 1);
    assert_eq!(effects[1].duration().remaining(), 201);
}

#[test]
fn update_vfx_drops_every_effect_at_once() {
    let mut effects = vec![burst(100), burst(100), burst(100)];
    update_vfx(&mut effects, 100);
    assert!(effects.is_empty());
}
