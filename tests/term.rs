use firework_rs::config::Config;
use firework_rs::fireworks::{ExplosionForm, Firework, FireworkConfig, FireworkManager, FireworkState, GradientCurve};
use firework_rs::particle::{LifeState, Particle, ParticleConfig};
use firework_rs::term::{
    construct_line, get_char_alive, get_char_declining, get_char_dying, shift_gradient, Char, Color, Terminal,
};
use firework_rs::utils::{
    distance_squared, explosion_gradient_1, explosion_gradient_2, explosion_gradient_3, gen_points_circle, isqrt,
    linear_gradient_1, round, Vec2, UNIT,
};

fn cells(v: &[(isize, isize)]) -> Vec<(isize, isize)> {
    v.to_vec()
}

#[test]
fn line_of_no_length_is_one_cell() {
    let a = Vec2::new(2 * UNIT, 3 * UNIT);
    assert_eq!(construct_line(a, a), vec![(2, 3)]);
}

#[test]
fn horizontal_line() {
    let got = construct_line(Vec2::new(0, 0), Vec2::new(3 * UNIT, 0));
    assert_eq!(got, cells(&[(0, 0), (1, 0), (2, 0), (3, 0)]));
}

#[test]
fn vertical_line_upwards() {
    let got = construct_line(Vec2::new(0, 0), Vec2::new(0, -2 * UNIT));
    assert_eq!(got, cells(&[(0, 0), (0, -1), (0, -2)]));
}

#[test]
fn diagonal_line_cells_touch() {
    let got = construct_line(Vec2::new(0, 0), Vec2::new(5 * UNIT, -3 * UNIT));
    assert_eq!(got[0], (0, 0));
    assert_eq!(*got.last().unwrap(), (5, -3));
    for w in got.windows(2) {
        assert_ne!(w[0], w[1]);
        assert!((w[0].0 - w[1].0).abs() <= 1 && (w[0].1 - w[1].1).abs() <= 1);
    }
}

#[test]
fn rounding_goes_half_away_from_zero() {
    assert_eq!(round(Vec2::new(UNIT / 2, -UNIT / 2)), (1, -1));
    assert_eq!(round(Vec2::new(UNIT / 2 - 1, -(UNIT / 2) + 1)), (0, 0));
    assert_eq!(round(Vec2::new(2_600_000, -1_400_000)), (3, -1));
}

#[test]
fn squared_distance() {
    assert_eq!(distance_squared(Vec2::new(1, 2), Vec2::new(4, 6)), 25);
}

#[test]
fn integer_square_root() {
    assert_eq!(isqrt(0), 0);
    assert_eq!(isqrt(15), 3);
    assert_eq!(isqrt(16), 4);
    assert_eq!(isqrt(u64::MAX), 4_294_967_295);
}

#[test]
fn gradient_curves() {
    assert_eq!(explosion_gradient_1(0), 0);
    assert_eq!(explosion_gradient_1(50), 375);
    assert_eq!(explosion_gradient_1(100), 1120);
    assert_eq!(explosion_gradient_1(1000), 400);
    assert_eq!(explosion_gradient_2(0), 100);
    assert_eq!(explosion_gradient_2(100), 500);
    assert_eq!(explosion_gradient_2(300), 800);
    assert_eq!(explosion_gradient_2(600), 1050);
    assert_eq!(explosion_gradient_2(1000), 243);
    assert_eq!(explosion_gradient_3(1000), 240);
    assert_eq!(linear_gradient_1(0), 1000);
    assert_eq!(linear_gradient_1(1000), 300);
    assert_eq!(GradientCurve::Flat.apply(500), 1000);
}

#[test]
fn color_scaling_truncates_and_saturates() {
    assert_eq!(shift_gradient((200, 100, 51), 500), (100, 50, 25));
    assert_eq!(shift_gradient((255, 10, 0), 1100), (255, 11, 0));
    assert_eq!(shift_gradient((255, 255, 255), 0), (0, 0, 0));
}

#[test]
fn glyphs_come_from_their_palettes() {
    for _ in 0..50 {
        assert!("`'. ".contains(get_char_alive(0, 10, false)));
        assert!("$@B%8&WM#".contains(get_char_alive(9, 10, false)));
        assert_eq!(get_char_alive(9, 10, true), '𰻞');
        assert!("xrjft*".contains(get_char_declining(9, 10, false)));
        assert!("-_ +~<> i!lI;:,\"^".contains(get_char_declining(5, 10, false)));
        assert!(".  ,`.    ^,' . ".contains(get_char_dying(1, 10, false)));
    }
}

#[test]
fn terminal_sizes() {
    let t = Terminal::new(&Config::default(), 80, 24);
    assert_eq!(t.size, (80, 24));
    assert_eq!(t.screen.len(), 24);
    assert!(t.screen.iter().all(|r| r.len() == 80));
    assert!(t.screen.iter().flatten().all(|c| *c == Char::new(' ', Color::White)));
    let mut t = Terminal::new(&Config { enable_cjk: true }, 81, 10);
    assert_eq!(t.size, (40, 10));
    t.reinit(&Config::default(), 30, 5);
    assert_eq!(t.size, (30, 5));
    assert_eq!(t.screen.len(), 5);
    assert!(t.inside((29, 4)));
    assert!(!t.inside((30, 4)));
    assert!(!t.inside((-1, 0)));
}

fn one_particle_show(pos: Vec2, color: (u8, u8, u8), init_time: u64) -> Firework {
    let mut p = Particle::new(pos, Vec2::new(0, 0), 2, 1000, color);
    p.life_state = LifeState::Alive;
    Firework {
        init_time,
        spawn_after: 0,
        time_elapsed: 0,
        center: pos,
        state: FireworkState::Alive,
        config: FireworkConfig::default(),
        form: ExplosionForm::Instant { used: true },
        particles: vec![ParticleConfig::new(pos, Vec2::new(0, 0), 2, 1000, color)],
        current_particles: vec![p],
    }
}

fn painted(t: &Terminal) -> Vec<(usize, usize, Char)> {
    let mut out = Vec::new();
    for (y, row) in t.screen.iter().enumerate() {
        for (x, c) in row.iter().enumerate() {
            if c.color != Color::White {
                out.push((x, y, *c));
            }
        }
    }
    out
}

#[test]
fn stationary_particle_is_drawn_inside() {
    let cfg = Config::default();
    let mut t = Terminal::new(&cfg, 20, 10);
    let fm = FireworkManager::new(vec![one_particle_show(Vec2::new(4 * UNIT, 5 * UNIT), (10, 20, 30), 0)]);
    t.render(&fm, &cfg);
    let got = painted(&t);
    assert_eq!(got.len(), 1);
    assert_eq!((got[0].0, got[0].1), (8, 5));
    assert_eq!(got[0].2.color, Color::Rgb { r: 10, g: 20, b: 30 });
    assert!("oahkbdpqwmZO0QLCJUYXzcvunxrjft*".contains(got[0].2.text));
}

#[test]
fn particle_outside_grid_paints_nothing() {
    let cfg = Config::default();
    let mut t = Terminal::new(&cfg, 20, 10);
    let fm = FireworkManager::new(vec![one_particle_show(Vec2::new(-4 * UNIT, 50 * UNIT), (10, 20, 30), 0)]);
    t.render(&fm, &cfg);
    assert!(painted(&t).is_empty());
}

#[test]
fn moving_trail_paints_connected_cells() {
    let cfg = Config { enable_cjk: true };
    let mut t = Terminal::new(&cfg, 41, 10);
    let mut fw = one_particle_show(Vec2::new(2 * UNIT, 2 * UNIT), (1, 1, 1), 0);
    fw.current_particles[0].trail = vec![Vec2::new(2 * UNIT, 2 * UNIT), Vec2::new(6 * UNIT, 2 * UNIT)];
    let fm = FireworkManager::new(vec![fw]);
    t.render(&fm, &cfg);
    let mut xs: Vec<usize> = painted(&t).iter().map(|c| c.0).collect();
    xs.sort();
    assert_eq!(xs, vec![2, 3, 4, 5, 6]);
    assert!(painted(&t).iter().all(|c| c.1 == 2));
}

#[test]
fn waiting_fireworks_are_not_drawn() {
    let cfg = Config::default();
    let mut t = Terminal::new(&cfg, 20, 10);
    let mut fw = one_particle_show(Vec2::new(UNIT, UNIT), (10, 20, 30), 0);
    fw.state = FireworkState::Waiting;
    t.render(&FireworkManager::new(vec![fw]), &cfg);
    assert!(painted(&t).is_empty());
}

#[test]
fn later_firework_shows_over_earlier() {
    let cfg = Config::default();
    let mut t = Terminal::new(&cfg, 20, 10);
    let pos = Vec2::new(3 * UNIT, 3 * UNIT);
    let fm = FireworkManager::new(vec![
        one_particle_show(pos, (1, 1, 1), 0),
        one_particle_show(pos, (2, 2, 2), 0),
    ]);
    for _ in 0..10 {
        t.render(&fm, &cfg);
        let got = painted(&t);
        assert_eq!(got.len(), 1);
        assert_eq!(got[0].2.color, Color::Rgb { r: 2, g: 2, b: 2 });
    }
}

#[test]
fn first_glyph_in_a_cell_stays() {
    let mut t = Terminal::new(&Config::default(), 5, 5);
    t.plot((1, 1), LifeState::Alive, 9, 10, false, (7, 7, 7));
    let first = t.screen[1][1];
    assert_eq!(first.color, Color::Rgb { r: 7, g: 7, b: 7 });
    t.plot((1, 1), LifeState::Alive, 9, 10, false, (8, 8, 8));
    assert_eq!(t.screen[1][1], first);
    t.plot((9, 1), LifeState::Alive, 9, 10, false, (8, 8, 8));
    t.plot((2, 2), LifeState::Dead, 9, 10, false, (8, 8, 8));
    assert_eq!(t.screen[2][2], Char::new(' ', Color::White));
}

#[test]
fn gradient_dims_color() {
    let cfg = Config::default();
    let mut t = Terminal::new(&cfg, 20, 10);
    let mut fw = one_particle_show(Vec2::new(UNIT, UNIT), (200, 100, 50), 0);
    fw.config = fw.config.with_gradient_scale(GradientCurve::Linear1);
    fw.config.set_enable_gradient(true);
    fw.current_particles[0].time_elapsed = 0;
    t.render(&FireworkManager::new(vec![fw]), &cfg);
    assert_eq!(painted(&t)[0].2.color, Color::Rgb { r: 200, g: 100, b: 50 });
    let mut fw = one_particle_show(Vec2::new(UNIT, UNIT), (200, 100, 50), 0);
    fw.config = fw.config.with_gradient_scale(GradientCurve::Linear1);
    fw.config.set_enable_gradient(true);
    fw.current_particles[0].time_elapsed = 500;
    fw.current_particles[0].life_state = LifeState::Declining;
    t.render(&FireworkManager::new(vec![fw]), &cfg);
    assert_eq!(painted(&t)[0].2.color, Color::Rgb { r: 130, g: 65, b: 32 });
}

#[test]
fn points_in_circle() {
    let pts = gen_points_circle(7, 200);
    assert_eq!(pts.len(), 200);
    for p in pts {
        assert_eq!(p.x % UNIT, 0);
        assert_eq!(p.y % UNIT, 0);
        let (x, y) = (p.x / UNIT, p.y / UNIT);
        assert!(x * x + y * y <= 49);
    }
    assert!(gen_points_circle(0, 3).iter().all(|p| *p == Vec2::new(0, 0)));
}

#[test]
fn walk_cells_of_short_segments() {
    assert_eq!(construct_line(Vec2::new(0, 0), Vec2::new(0, 2 * UNIT)), cells(&[(0, 0), (0, 1), (0, 2)]));
    assert_eq!(construct_line(Vec2::new(0, 0), Vec2::new(2 * UNIT, 2 * UNIT)), cells(&[(0, 0), (1, 1), (2, 2)]));
}

#[test]
fn long_segment_reaches_its_end() {
    let b = Vec2::new(90_000 * UNIT, 31_337 * UNIT + 12_345);
    let got = construct_line(Vec2::new(0, 0), b);
    let (bx, by) = round(b);
    assert!(got.iter().any(|c| (c.0 - bx).abs() <= 1 && (c.1 - by).abs() <= 1));
}
