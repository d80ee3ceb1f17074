use firework_rs::fireworks::{
    population_target, ExplosionForm, Firework, FireworkConfig, FireworkInstallForm, FireworkManager, FireworkState,
};
use firework_rs::particle::{LifeState, ParticleConfig};
use firework_rs::utils::{delta_time, Vec2, UNIT};

fn template(life_time: u64) -> ParticleConfig {
    ParticleConfig::new(Vec2::new(0, 0), Vec2::new(0, -10 * UNIT), 2, life_time, (200, 100, 50))
}

fn firework(form: ExplosionForm, templates: Vec<ParticleConfig>, init_time: u64, spawn_after: u64) -> Firework {
    Firework {
        init_time,
        spawn_after,
        time_elapsed: 0,
        center: Vec2::new(0, 0),
        state: FireworkState::Waiting,
        config: FireworkConfig::default(),
        form,
        particles: templates,
        current_particles: Vec::new(),
    }
}

#[test]
fn end_to_end_single_particle() {
    let t0 = 10_000;
    let mut fw = firework(ExplosionForm::Instant { used: false }, vec![template(1000)], t0, 0);
    fw.update(t0, 0);
    assert_eq!(fw.state, FireworkState::Alive);
    assert_eq!(fw.current_particles.len(), 1);
    assert_eq!(fw.current_particles[0].trail, vec![Vec2::new(0, 0), Vec2::new(0, 0)]);

    fw.update(t0 + 500, 500);
    assert_eq!(fw.current_particles.len(), 1);
    assert_eq!(fw.current_particles[0].life_state, LifeState::Declining);
    assert_ne!(fw.current_particles[0].pos, Vec2::new(0, 0));
    assert!(fw.current_particles[0].pos.y < 0);

    // Elapsed time is the sum of the frames: 0.6 s of a 1 s life.
    fw.update(t0 + 1100, 100);
    assert_eq!(fw.current_particles.len(), 1);
    assert_eq!(fw.current_particles[0].life_state, LifeState::Declining);
    assert_eq!(fw.state, FireworkState::Alive);

    fw.update(t0 + 1500, 400);
    assert!(fw.current_particles.is_empty());
    assert_eq!(fw.state, FireworkState::Gone);
    assert!(fw.is_gone());
}

#[test]
fn waits_until_due() {
    let mut fw = firework(ExplosionForm::Instant { used: false }, vec![template(1000)], 1000, 500);
    fw.update(1200, 200);
    assert_eq!(fw.state, FireworkState::Waiting);
    assert!(fw.current_particles.is_empty());
    assert_eq!(fw.time_elapsed, 0);
    fw.update(1500, 300);
    assert_eq!(fw.state, FireworkState::Alive);
    assert_eq!(fw.current_particles.len(), 1);
    assert_eq!(fw.time_elapsed, 300);
}

#[test]
fn instant_fires_exactly_once() {
    let templates = vec![template(5000), template(5000), template(5000), template(5000)];
    let mut fw = firework(ExplosionForm::Instant { used: false }, templates, 0, 0);
    fw.update(0, 16);
    assert_eq!(fw.current_particles.len(), 4);
    assert_eq!(fw.form, ExplosionForm::Instant { used: true });
    for k in 1..20u64 {
        fw.update(16 * k, 16);
        assert_eq!(fw.current_particles.len(), 4);
    }
}

#[test]
fn instant_without_templates_is_gone_at_once() {
    let mut fw = firework(ExplosionForm::Instant { used: false }, Vec::new(), 0, 0);
    fw.update(0, 10);
    assert_eq!(fw.state, FireworkState::Gone);
    fw.update(10, 10);
    assert_eq!(fw.state, FireworkState::Gone);
}

#[test]
fn state_only_moves_forward() {
    let mut fw = firework(ExplosionForm::Instant { used: false }, vec![template(300)], 100, 100);
    let rank = |s: &FireworkState| match s {
        FireworkState::Waiting => 0,
        FireworkState::Alive => 1,
        FireworkState::Gone => 2,
    };
    let mut last = rank(&fw.state);
    let mut now = 0;
    for _ in 0..40 {
        now += 25;
        fw.update(now, 25);
        let r = rank(&fw.state);
        assert!(r >= last);
        last = r;
    }
    assert_eq!(fw.state, FireworkState::Gone);
}

#[test]
fn reset_rearms() {
    let mut fw = firework(ExplosionForm::Instant { used: false }, vec![template(100)], 0, 0);
    fw.update(0, 10);
    fw.update(200, 200);
    assert_eq!(fw.state, FireworkState::Gone);
    fw.reset(5000);
    assert_eq!(fw.state, FireworkState::Waiting);
    assert_eq!(fw.init_time, 5000);
    assert_eq!(fw.time_elapsed, 0);
    assert_eq!(fw.form, ExplosionForm::Instant { used: false });
    assert!(fw.current_particles.is_empty());
    fw.update(5000, 10);
    assert_eq!(fw.current_particles.len(), 1);

    let mut s = firework(ExplosionForm::Sustained { lasts: 1000, time_interval: 100, timer: 70 }, vec![template(100)], 0, 0);
    s.reset(3);
    assert_eq!(s.form, ExplosionForm::Sustained { lasts: 1000, time_interval: 100, timer: 0 });
}

#[test]
fn sustained_cadence_and_carry() {
    let templates = vec![template(5000), template(5000), template(5000)];
    let mut fw = firework(ExplosionForm::Sustained { lasts: 1000, time_interval: 100, timer: 0 }, templates, 0, 0);
    fw.update(0, 250);
    assert_eq!(fw.current_particles.len(), 2);
    assert_eq!(fw.form, ExplosionForm::Sustained { lasts: 1000, time_interval: 100, timer: 50 });
    fw.update(250, 50);
    assert_eq!(fw.current_particles.len(), 2);
    assert_eq!(fw.form, ExplosionForm::Sustained { lasts: 1000, time_interval: 100, timer: 100 });
    fw.update(300, 1);
    assert_eq!(fw.current_particles.len(), 3);
    assert_eq!(fw.form, ExplosionForm::Sustained { lasts: 1000, time_interval: 100, timer: 1 });
}

#[test]
fn sustained_release_never_exceeds_templates() {
    let templates = vec![template(5000), template(5000)];
    let mut fw = firework(ExplosionForm::Sustained { lasts: 1000, time_interval: 10, timer: 0 }, templates, 0, 0);
    fw.update(0, 95);
    assert_eq!(fw.current_particles.len(), 2);
    assert_eq!(fw.form, ExplosionForm::Sustained { lasts: 1000, time_interval: 10, timer: 5 });
}

#[test]
fn sustained_count_does_not_depend_on_chunking() {
    let make = || firework(
        ExplosionForm::Sustained { lasts: 10_000, time_interval: 100, timer: 0 },
        vec![template(50_000)],
        0,
        0,
    );
    let mut chunked = make();
    let mut whole = make();
    let mut now = 0;
    for _ in 0..10 {
        now += 10;
        chunked.update(now, 10);
    }
    whole.update(100, 100);
    assert_eq!(chunked.current_particles.len(), whole.current_particles.len());
    chunked.update(101, 1);
    whole.update(101, 1);
    assert_eq!(chunked.current_particles.len(), 1);
    assert_eq!(whole.current_particles.len(), 1);
}

#[test]
fn sustained_stops_after_lasts_and_goes() {
    let mut fw = firework(ExplosionForm::Sustained { lasts: 100, time_interval: 10, timer: 0 }, vec![template(50)], 0, 0);
    fw.update(0, 20);
    assert_eq!(fw.current_particles.len(), 1);
    fw.update(200, 200);
    assert!(fw.current_particles.is_empty());
    assert_eq!(fw.state, FireworkState::Gone);
}

#[test]
fn config_builders() {
    let mut c = FireworkConfig::default();
    assert_eq!(c.gravity_scale, 1000);
    assert_eq!(c.ar_scale, 280);
    assert!(!c.enable_gradient);
    c = c.with_gravity_scale(700).with_ar_scale(180);
    assert_eq!((c.gravity_scale, c.ar_scale), (700, 180));
    c.set_enable_gradient(true);
    assert!(c.enable_gradient);
}

#[test]
fn manager_dynamic_prunes_gone() {
    let mut fm = FireworkManager::default().enable_dyn_install();
    assert_eq!(fm.install_form, FireworkInstallForm::DynamicInstall);
    fm.add_firework(firework(ExplosionForm::Instant { used: false }, vec![template(50)], 0, 0));
    fm.add_firework(firework(ExplosionForm::Instant { used: false }, vec![template(5000)], 0, 0));
    fm.update(0, 10);
    assert_eq!(fm.fireworks.len(), 2);
    fm.update(100, 100);
    assert_eq!(fm.fireworks.len(), 1);
    assert_eq!(fm.fireworks[0].particles[0].life_time, 5000);
}

#[test]
fn manager_static_loops_when_all_gone() {
    let mut fm = FireworkManager::new(vec![
        firework(ExplosionForm::Instant { used: false }, vec![template(50)], 0, 0),
        firework(ExplosionForm::Instant { used: false }, vec![template(80)], 0, 0),
    ])
    .enable_loop();
    fm.update(0, 10);
    fm.update(60, 60);
    assert_eq!(fm.fireworks[0].state, FireworkState::Gone);
    assert_eq!(fm.fireworks[1].state, FireworkState::Alive);
    fm.update(100, 40);
    assert_eq!(fm.fireworks.len(), 2);
    assert!(fm.fireworks.iter().all(|f| f.state == FireworkState::Waiting));
    assert!(fm.fireworks.iter().all(|f| f.init_time == 100));
}

#[test]
fn manager_static_without_loop_keeps_gone() {
    let mut fm = FireworkManager::default()
        .with_firework(firework(ExplosionForm::Instant { used: false }, vec![template(50)], 0, 0))
        .disable_loop();
    fm.update(0, 10);
    fm.update(100, 100);
    assert_eq!(fm.fireworks.len(), 1);
    assert_eq!(fm.fireworks[0].state, FireworkState::Gone);
    fm.set_enable_loop(true);
    assert!(fm.enable_loop);
    fm.reset(7);
    assert_eq!(fm.fireworks[0].state, FireworkState::Waiting);
}

#[test]
fn manager_adds_in_order() {
    let mut fm = FireworkManager::default();
    fm.add_fireworks(vec![
        firework(ExplosionForm::Instant { used: false }, vec![template(1)], 1, 0),
        firework(ExplosionForm::Instant { used: false }, vec![template(2)], 2, 0),
    ]);
    let fm = fm.with_fireworks(vec![firework(ExplosionForm::Instant { used: false }, vec![template(3)], 3, 0)]);
    let times: Vec<u64> = fm.fireworks.iter().map(|f| f.init_time).collect();
    assert_eq!(times, vec![1, 2, 3]);
}

#[test]
fn clock_going_backwards_gives_no_time() {
    assert_eq!(delta_time(100, 150), 50);
    assert_eq!(delta_time(150, 100), 0);
    assert_eq!(delta_time(7, 7), 0);
}

#[test]
fn dynamic_population_target() {
    assert_eq!(population_target(80, 24), 4);
    assert_eq!(population_target(0, 0), 3);
    assert_eq!(population_target(200, 60), 12);
}
