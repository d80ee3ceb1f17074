use firework_rs::fireworks::{FireworkConfig, ForceLaw};
use firework_rs::particle::{cal_life_state, LifeState, Particle, ParticleConfig};
use firework_rs::utils::{Vec2, UNIT, VEL_LIMIT};

fn still_config() -> FireworkConfig {
    FireworkConfig::default().with_gravity_scale(0).with_ar_scale(0)
}

#[test]
fn life_state_thresholds() {
    assert_eq!(cal_life_state(1000, 0), LifeState::Alive);
    assert_eq!(cal_life_state(1000, 399), LifeState::Alive);
    assert_eq!(cal_life_state(1000, 400), LifeState::Declining);
    assert_eq!(cal_life_state(1000, 649), LifeState::Declining);
    assert_eq!(cal_life_state(1000, 650), LifeState::Dying);
    assert_eq!(cal_life_state(1000, 999), LifeState::Dying);
    assert_eq!(cal_life_state(1000, 1000), LifeState::Dead);
    assert_eq!(cal_life_state(1000, 5000), LifeState::Dead);
}

#[test]
fn life_state_of_zero_lifetime_is_dead() {
    assert_eq!(cal_life_state(0, 0), LifeState::Dead);
}

#[test]
fn new_particle_has_full_trail_at_spawn() {
    let p = Particle::new(Vec2::new(5, -7), Vec2::new(1, 2), 4, 1000, (1, 2, 3));
    assert_eq!(p.trail.len(), 4);
    assert!(p.trail.iter().all(|q| *q == Vec2::new(5, -7)));
    assert_eq!(p.life_state, LifeState::Alive);
    assert_eq!(p.time_elapsed, 0);
    assert_eq!(p.config.trail_length, 4);
    assert_eq!(p.config.color, (1, 2, 3));
}

#[test]
fn gravity_step_of_one_millisecond() {
    let mut p = Particle::new(Vec2::new(0, 0), Vec2::new(0, 0), 2, 1000, (255, 255, 255));
    let cfg = FireworkConfig::default().with_ar_scale(0);
    p.update(1, &cfg);
    assert_eq!(p.vel, Vec2::new(0, 10_000));
    assert_eq!(p.pos, Vec2::new(0, 10));
    assert_eq!(p.trail, vec![Vec2::new(0, 0), Vec2::new(0, 10)]);
    assert_eq!(p.time_elapsed, 1);
}

#[test]
fn quadratic_drag_slows_motion() {
    let mut p = Particle::new(Vec2::new(0, 0), Vec2::new(UNIT, 0), 2, 1000, (255, 255, 255));
    let cfg = still_config().with_ar_scale(1000);
    p.update(1, &cfg);
    assert_eq!(p.vel, Vec2::new(999_000, 0));
    assert_eq!(p.pos, Vec2::new(999, 0));
}

#[test]
fn zero_velocity_feels_no_drag() {
    let mut p = Particle::new(Vec2::new(3, 4), Vec2::new(0, 0), 3, 1000, (255, 255, 255));
    let cfg = still_config().with_ar_scale(280);
    p.update(50, &cfg);
    assert_eq!(p.vel, Vec2::new(0, 0));
    assert_eq!(p.pos, Vec2::new(3, 4));
}

#[test]
fn constant_force_accelerates() {
    let mut p = Particle::new(Vec2::new(0, 0), Vec2::new(0, 0), 2, 1000, (255, 255, 255));
    let cfg = still_config().with_additional_force(ForceLaw::Constant { x: 2_000_000, y: 0 });
    p.update(2, &cfg);
    assert_eq!(p.vel, Vec2::new(4_000, 0));
    assert_eq!(p.pos, Vec2::new(6, 0));
}

#[test]
fn spring_pulls_towards_center() {
    let mut p = Particle::new(Vec2::new(UNIT, 0), Vec2::new(0, 0), 2, 1000, (255, 255, 255));
    let cfg = still_config().with_additional_force(ForceLaw::Spring { center: Vec2::new(0, 0), stiffness: 2000 });
    p.update(1, &cfg);
    assert_eq!(p.vel, Vec2::new(-2_000, 0));
}

#[test]
fn trail_length_is_kept_over_frames() {
    let mut p = Particle::new(Vec2::new(0, 0), Vec2::new(UNIT, -UNIT), 5, 10_000, (9, 9, 9));
    let cfg = FireworkConfig::default();
    for dt in [0u64, 1, 17, 100, 3, 250] {
        p.update(dt, &cfg);
        assert_eq!(p.trail.len(), 5);
        assert_eq!(*p.trail.last().unwrap(), p.pos);
    }
}

#[test]
fn life_stage_never_moves_back() {
    let mut p = Particle::new(Vec2::new(0, 0), Vec2::new(0, 0), 2, 1000, (9, 9, 9));
    let cfg = FireworkConfig::default();
    let rank = |s: LifeState| match s {
        LifeState::Alive => 0,
        LifeState::Declining => 1,
        LifeState::Dying => 2,
        LifeState::Dead => 3,
    };
    let mut last = rank(p.life_state);
    let mut seen = vec![p.life_state];
    for dt in [100u64, 300, 0, 200, 100, 250, 400] {
        p.update(dt, &cfg);
        let r = rank(p.life_state);
        assert!(r >= last);
        last = r;
        seen.push(p.life_state);
    }
    assert_eq!(p.life_state, LifeState::Dead);
    assert!(p.is_dead());
    assert!(seen.contains(&LifeState::Declining));
    assert!(seen.contains(&LifeState::Dying));
}

#[test]
fn reset_returns_to_template() {
    let mut p = Particle::new(Vec2::new(0, 0), Vec2::new(UNIT, 0), 3, 1000, (9, 9, 9));
    let cfg = FireworkConfig::default();
    p.update(700, &cfg);
    assert_ne!(p.pos, Vec2::new(0, 0));
    p.reset();
    assert_eq!(p.pos, Vec2::new(0, 0));
    assert_eq!(p.vel, Vec2::new(UNIT, 0));
    assert_eq!(p.trail, vec![Vec2::new(0, 0); 3]);
    assert_eq!(p.life_state, LifeState::Alive);
    assert_eq!(p.time_elapsed, 0);
}

#[test]
fn default_templates() {
    let c = ParticleConfig::default();
    assert_eq!(c.trail_length, 2);
    assert_eq!(c.life_time, 3000);
    assert_eq!(c.color, (255, 255, 255));
    let p = Particle::default();
    assert_eq!(p.trail.len(), 2);
    assert_eq!(p.life_state, LifeState::Alive);
}

#[test]
fn inverse_distance_attraction() {
    let mut p = Particle::new(Vec2::new(UNIT, 0), Vec2::new(0, 0), 2, 1000, (255, 255, 255));
    let cfg = still_config().with_additional_force(ForceLaw::Attract { center: Vec2::new(0, 0), strength: 1000 });
    p.update(1, &cfg);
    assert_eq!(p.vel, Vec2::new(-1_000, 0));
    let mut q = Particle::new(Vec2::new(0, 0), Vec2::new(0, 0), 2, 1000, (255, 255, 255));
    q.update(3, &cfg);
    assert_eq!(q.vel, Vec2::new(0, 0));
}

#[test]
fn velocity_is_held_at_its_limit() {
    let mut p = Particle::new(Vec2::new(0, 0), Vec2::new(VEL_LIMIT, 0), 2, 1000, (255, 255, 255));
    let cfg = still_config().with_additional_force(ForceLaw::Constant { x: 1_000_000_000_000_000, y: 0 });
    p.update(1, &cfg);
    assert_eq!(p.vel, Vec2::new(VEL_LIMIT, 0));
    assert_eq!(p.pos, Vec2::new(VEL_LIMIT / 1000, 0));
}
