//! Particles: single physics bodies with a trail of recent positions.
use vstd::prelude::*;

use crate::fireworks::{FireworkConfig, SCALE_LIMIT};
use crate::utils::{
    clamp, clamp_to, div_toward_zero, isqrt, lemma_trunc_div_shrinks, spec_isqrt, trunc_div, Vec2, POS_LIMIT, VEL_LIMIT,
};

verus! {

/// The stages of a particle's life, in the order it passes through them.
#[derive(Debug, Clone, Copy, PartialEq, Eq, Structural)]
pub enum LifeState {
    Alive,
    Declining,
    Dying,
    Dead,
}

impl LifeState {
    /// Position of the stage in the order `Alive`, `Declining`, `Dying`, `Dead`.
    pub open spec fn rank(self) -> int {
        match self {
            LifeState::Alive => 0,
            LifeState::Declining => 1,
            LifeState::Dying => 2,
            LifeState::Dead => 3,
        }
    }
}

/// The stage of a particle `elapsed` milliseconds into a life of
/// `life_time` milliseconds: the ratio of the two against 0.40, 0.65 and 1.
pub open spec fn life_state_of(life_time: int, elapsed: int) -> LifeState {
    if 100 * elapsed < 40 * life_time {
        LifeState::Alive
    } else if 100 * elapsed < 65 * life_time {
        LifeState::Declining
    } else if elapsed < life_time {
        LifeState::Dying
    } else {
        LifeState::Dead
    }
}

/// The life stage for an elapsed time and a lifetime, both in milliseconds.
pub fn cal_life_state(life_time: u64, current_elapsed: u64) -> (r: LifeState)
    ensures
        r == life_state_of(life_time as int, current_elapsed as int),
{
    let e = current_elapsed as u128;
    let l = life_time as u128;
    if 100 * e < 40 * l {
        LifeState::Alive
    } else if 100 * e < 65 * l {
        LifeState::Declining
    } else if e < l {
        LifeState::Dying
    } else {
        LifeState::Dead
    }
}

/// The template a particle is made from.
#[derive(Debug, Clone, Copy)]
pub struct ParticleConfig {
    /// Position at spawn, in micro-cells.
    pub init_pos: Vec2,
    /// Velocity at spawn, in micro-cells per second.
    pub init_vel: Vec2,
    /// Number of positions the trail keeps.
    pub trail_length: usize,
    /// Milliseconds from spawn to death.
    pub life_time: u64,
    /// Color in RGB.
    pub color: (u8, u8, u8),
}

impl Default for ParticleConfig {
    fn default() -> (r: ParticleConfig)
        ensures
            r.wf(),
            r == (ParticleConfig {
                init_pos: Vec2 { x: 0, y: 0 },
                init_vel: Vec2 { x: 0, y: 0 },
                trail_length: 2,
                life_time: 3000,
                color: (255, 255, 255),
            }),
    {
        ParticleConfig {
            init_pos: Vec2 { x: 0, y: 0 },
            init_vel: Vec2 { x: 0, y: 0 },
            trail_length: 2,
            life_time: 3000,
            color: (255, 255, 255),
        }
    }
}

impl ParticleConfig {
    pub open spec fn wf(self) -> bool {
        &&& self.init_pos.within(POS_LIMIT as int)
        &&& self.init_vel.within(VEL_LIMIT as int)
        &&& self.trail_length >= 1
        &&& self.life_time >= 1
    }

    pub fn new(
        init_pos: Vec2,
        init_vel: Vec2,
        trail_length: usize,
        life_time: u64,
        color: (u8, u8, u8),
    ) -> (r: ParticleConfig)
        requires
            trail_length >= 1,
            life_time >= 1,
            init_pos.within(POS_LIMIT as int),
            init_vel.within(VEL_LIMIT as int),
        ensures
            r == (ParticleConfig { init_pos, init_vel, trail_length, life_time, color }),
            r.wf(),
    {
        ParticleConfig { init_pos, init_vel, trail_length, life_time, color }
    }

}

/// What a particle is, as a mathematical value.
pub ghost struct ParticleView {
    pub pos: Vec2,
    pub vel: Vec2,
    pub trail: Seq<Vec2>,
    pub life_state: LifeState,
    pub time_elapsed: int,
    pub config: ParticleConfig,
}

/// A live particle.
#[derive(Debug)]
pub struct Particle {
    /// Position, in micro-cells.
    pub pos: Vec2,
    /// Velocity, in micro-cells per second.
    pub vel: Vec2,
    /// The last `trail_length` positions, oldest first.
    pub trail: Vec<Vec2>,
    pub life_state: LifeState,
    /// Milliseconds since spawn.
    pub time_elapsed: u64,
    pub config: ParticleConfig,
}

impl View for Particle {
    type V = ParticleView;

    open spec fn view(&self) -> ParticleView {
        ParticleView {
            pos: self.pos,
            vel: self.vel,
            trail: self.trail@,
            life_state: self.life_state,
            time_elapsed: self.time_elapsed as int,
            config: self.config,
        }
    }
}

impl ParticleView {
    pub open spec fn wf(self) -> bool {
        &&& self.config.wf()
        &&& self.trail.len() == self.config.trail_length
        &&& self.pos.within(POS_LIMIT as int)
        &&& self.vel.within(VEL_LIMIT as int)
        &&& forall|i: int| 0 <= i < self.trail.len() ==> (#[trigger] self.trail[i]).within(POS_LIMIT as int)
        &&& 0 <= self.time_elapsed <= u64::MAX
        &&& self.life_state == life_state_of(self.config.life_time as int, self.time_elapsed)
    }

    /// A particle fresh from its template: at rest in its first stage, its
    /// whole trail at the spawn position.
    pub open spec fn fresh(c: ParticleConfig) -> ParticleView {
        ParticleView {
            pos: c.init_pos,
            vel: c.init_vel,
            trail: Seq::new(c.trail_length as nat, |i: int| c.init_pos),
            life_state: LifeState::Alive,
            time_elapsed: 0,
            config: c,
        }
    }

    /// The particle after `duration` milliseconds under `cfg`.
    pub open spec fn advanced(self, duration: int, cfg: FireworkConfig) -> ParticleView {
        let (pos, vel) = integrate(self.pos, self.vel, cfg, duration as nat);
        let elapsed = if self.time_elapsed + duration <= u64::MAX {
            self.time_elapsed + duration
        } else {
            u64::MAX as int
        };
        ParticleView {
            pos,
            vel,
            trail: self.trail.drop_first().push(pos),
            life_state: life_state_of(self.config.life_time as int, elapsed),
            time_elapsed: elapsed,
            config: self.config,
        }
    }
}

/// Acceleration of a body at `pos` moving at `vel`, in micro-cells per
/// second squared: gravity downwards, quadratic drag against the motion,
/// and the configured extra force.
pub open spec fn accel(pos: Vec2, vel: Vec2, cfg: FireworkConfig) -> (int, int) {
    let speed = spec_isqrt(vel.x * vel.x + vel.y * vel.y);
    let f = cfg.additional_force.force_at(pos);
    (
        f.0 - trunc_div(vel.x * speed * cfg.ar_scale, 1_000_000_000),
        10_000 * cfg.gravity_scale + f.1 - trunc_div(vel.y * speed * cfg.ar_scale, 1_000_000_000),
    )
}

/// One explicit Euler step of one millisecond.
pub open spec fn substep(pos: Vec2, vel: Vec2, cfg: FireworkConfig) -> (Vec2, Vec2) {
    let a = accel(pos, vel, cfg);
    let vx = clamp(vel.x + trunc_div(a.0, 1000), VEL_LIMIT as int);
    let vy = clamp(vel.y + trunc_div(a.1, 1000), VEL_LIMIT as int);
    let px = clamp(pos.x + trunc_div(vx, 1000), POS_LIMIT as int);
    let py = clamp(pos.y + trunc_div(vy, 1000), POS_LIMIT as int);
    (Vec2 { x: px as i64, y: py as i64 }, Vec2 { x: vx as i64, y: vy as i64 })
}

/// Position and velocity after `steps` Euler steps.
pub open spec fn integrate(pos: Vec2, vel: Vec2, cfg: FireworkConfig, steps: nat) -> (Vec2, Vec2)
    decreases steps,
{
    if steps == 0 {
        (pos, vel)
    } else {
        let (p, v) = integrate(pos, vel, cfg, (steps - 1) as nat);
        substep(p, v, cfg)
    }
}

/// A trail of `n` copies of `init_pos`.
pub fn init_trail(init_pos: Vec2, n: usize) -> (r: Vec<Vec2>)
    ensures
        r@ == Seq::new(n as nat, |i: int| init_pos),
{
    let mut res: Vec<Vec2> = Vec::new();
    let mut i: usize = 0;
    while i < n
        invariant
            i <= n,
            res@ == Seq::new(i as nat, |j: int| init_pos),
        decreases n - i,
    {
        res.push(init_pos);
        i += 1;
        assert(res@ =~= Seq::new(i as nat, |j: int| init_pos));
    }
    res
}

fn euler_step(pos: Vec2, vel: Vec2, cfg: &FireworkConfig) -> (r: (Vec2, Vec2))
    requires
        cfg.wf(),
        pos.within(POS_LIMIT as int),
        vel.within(VEL_LIMIT as int),
    ensures
        r == substep(pos, vel, *cfg),
        r.0.within(POS_LIMIT as int),
        r.1.within(VEL_LIMIT as int),
{
    let vx = vel.x as i128;
    let vy = vel.y as i128;
    assert(0 <= vx * vx <= VEL_LIMIT * VEL_LIMIT) by (nonlinear_arith)
        requires -VEL_LIMIT <= vx <= VEL_LIMIT;
    assert(0 <= vy * vy <= VEL_LIMIT * VEL_LIMIT) by (nonlinear_arith)
        requires -VEL_LIMIT <= vy <= VEL_LIMIT;
    let speed = isqrt((vx * vx + vy * vy) as u64) as i128;
    assert(speed <= 4 * VEL_LIMIT) by (nonlinear_arith)
        requires speed * speed <= vx * vx + vy * vy, vx * vx + vy * vy <= 2 * VEL_LIMIT * VEL_LIMIT, speed >= 0;
    let ar = cfg.ar_scale as i128;
    assert(-4 * VEL_LIMIT * VEL_LIMIT <= vx * speed <= 4 * VEL_LIMIT * VEL_LIMIT) by (nonlinear_arith)
        requires -VEL_LIMIT <= vx <= VEL_LIMIT, 0 <= speed <= 4 * VEL_LIMIT;
    assert(-4 * VEL_LIMIT * VEL_LIMIT <= vy * speed <= 4 * VEL_LIMIT * VEL_LIMIT) by (nonlinear_arith)
        requires -VEL_LIMIT <= vy <= VEL_LIMIT, 0 <= speed <= 4 * VEL_LIMIT;
    let mx = vx * speed;
    let my = vy * speed;
    assert(-4 * VEL_LIMIT * VEL_LIMIT * SCALE_LIMIT <= mx * ar <= 4 * VEL_LIMIT * VEL_LIMIT * SCALE_LIMIT) by (nonlinear_arith)
        requires -4 * VEL_LIMIT * VEL_LIMIT <= mx <= 4 * VEL_LIMIT * VEL_LIMIT, -SCALE_LIMIT <= ar <= SCALE_LIMIT;
    assert(-4 * VEL_LIMIT * VEL_LIMIT * SCALE_LIMIT <= my * ar <= 4 * VEL_LIMIT * VEL_LIMIT * SCALE_LIMIT) by (nonlinear_arith)
        requires -4 * VEL_LIMIT * VEL_LIMIT <= my <= 4 * VEL_LIMIT * VEL_LIMIT, -SCALE_LIMIT <= ar <= SCALE_LIMIT;
    let drag_x = div_toward_zero(mx * ar, 1_000_000_000);
    let drag_y = div_toward_zero(my * ar, 1_000_000_000);
    proof {
        lemma_trunc_div_shrinks((mx * ar) as int, 1_000_000_000);
        lemma_trunc_div_shrinks((my * ar) as int, 1_000_000_000);
    }
    let f = cfg.additional_force.force(pos);
    let ax = f.0 - drag_x;
    let ay = 10_000 * (cfg.gravity_scale as i128) + f.1 - drag_y;
    let nvx = clamp_to(vx + div_toward_zero(ax, 1000), VEL_LIMIT);
    let nvy = clamp_to(vy + div_toward_zero(ay, 1000), VEL_LIMIT);
    proof {
        lemma_trunc_div_shrinks(ax as int, 1000);
        lemma_trunc_div_shrinks(ay as int, 1000);
        lemma_trunc_div_shrinks(nvx as int, 1000);
        lemma_trunc_div_shrinks(nvy as int, 1000);
    }
    let npx = clamp_to(pos.x as i128 + div_toward_zero(nvx as i128, 1000), POS_LIMIT);
    let npy = clamp_to(pos.y as i128 + div_toward_zero(nvy as i128, 1000), POS_LIMIT);
    (Vec2 { x: npx, y: npy }, Vec2 { x: nvx, y: nvy })
}

impl Default for Particle {
    /// A particle of the default template, at the start of its life.
    fn default() -> (r: Particle)
        ensures
            r@ == ParticleView::fresh(ParticleConfig {
                init_pos: Vec2 { x: 0, y: 0 },
                init_vel: Vec2 { x: 0, y: 0 },
                trail_length: 2,
                life_time: 3000,
                color: (255, 255, 255),
            }),
            r@.wf(),
    {
        let c = ParticleConfig::default();
        Particle::from_config(&c)
    }
}

impl Particle {
    /// A particle at the start of its life, made from its template.
    pub fn new(
        pos: Vec2,
        vel: Vec2,
        trail_length: usize,
        life_time: u64,
        color: (u8, u8, u8),
    ) -> (r: Particle)
        requires
            trail_length >= 1,
            life_time >= 1,
            pos.within(POS_LIMIT as int),
            vel.within(VEL_LIMIT as int),
        ensures
            r@ == ParticleView::fresh(ParticleConfig { init_pos: pos, init_vel: vel, trail_length, life_time, color }),
            r@.wf(),
    {
        let trail = init_trail(pos, trail_length);
        Particle {
            pos,
            vel,
            trail,
            life_state: LifeState::Alive,
            time_elapsed: 0,
            config: ParticleConfig::new(pos, vel, trail_length, life_time, color),
        }
    }

    /// A fresh particle made from a template.
    pub fn from_config(c: &ParticleConfig) -> (r: Particle)
        requires
            c.wf(),
        ensures
            r@ == ParticleView::fresh(*c),
    {
        Particle::new(c.init_pos, c.init_vel, c.trail_length, c.life_time, c.color)
    }

    /// True when the particle has reached `Dead`.
    pub fn is_dead(&self) -> (r: bool)
        ensures
            r == (self.life_state == LifeState::Dead),
    {
        self.life_state == LifeState::Dead
    }

    /// Put the particle back at the start of its life.
    pub fn reset(&mut self)
        requires
            old(self)@.wf(),
        ensures
            final(self)@ == ParticleView::fresh(old(self).config),
    {
        self.pos = self.config.init_pos;
        self.vel = self.config.init_vel;
        let n = self.config.trail_length;
        let mut i: usize = 0;
        while i < n
            invariant
                i <= n,
                n == self.config.trail_length,
                self.config == old(self).config,
                self.trail@.len() == n,
                self.pos == self.config.init_pos,
                self.vel == self.config.init_vel,
                forall|j: int| 0 <= j < i ==> self.trail@[j] == self.pos,
            decreases n - i,
        {
            self.trail.set(i, self.pos);
            i += 1;
        }
        assert(self.trail@ =~= Seq::new(n as nat, |j: int| self.config.init_pos));
        self.life_state = LifeState::Alive;
        self.time_elapsed = 0;
    }

    /// A copy of the particle.
    pub fn duplicate(&self) -> (r: Particle)
        ensures
            r@ == self@,
    {
        let mut trail: Vec<Vec2> = Vec::new();
        let mut i: usize = 0;
        while i < self.trail.len()
            invariant
                i <= self.trail@.len(),
                trail@ == self.trail@.take(i as int),
            decreases self.trail@.len() - i,
        {
            trail.push(self.trail[i]);
            i += 1;
            assert(trail@ =~= self.trail@.take(i as int));
        }
        assert(trail@ =~= self.trail@);
        Particle {
            pos: self.pos,
            vel: self.vel,
            trail,
            life_state: self.life_state,
            time_elapsed: self.time_elapsed,
            config: self.config,
        }
    }

    /// Advance the particle by `duration` milliseconds, in steps of one
    /// millisecond, then record the new position in the trail.
    pub fn update(&mut self, duration: u64, config: &FireworkConfig)
        requires
            old(self)@.wf(),
            config.wf(),
        ensures
            final(self)@ == old(self)@.advanced(duration as int, *config),
            final(self)@.wf(),
    {
        self.time_elapsed = if self.time_elapsed <= u64::MAX - duration {
            self.time_elapsed + duration
        } else {
            u64::MAX
        };
        self.life_state = cal_life_state(self.config.life_time, self.time_elapsed);
        let mut pos = self.pos;
        let mut vel = self.vel;
        let mut t: u64 = 0;
        while t < duration
            invariant
                t <= duration,
                config.wf(),
                pos.within(POS_LIMIT as int),
                vel.within(VEL_LIMIT as int),
                (pos, vel) == integrate(old(self).pos, old(self).vel, *config, t as nat),
            decreases duration - t,
        {
            let (p, v) = euler_step(pos, vel, config);
            pos = p;
            vel = v;
            t += 1;
        }
        self.pos = pos;
        self.vel = vel;
        self.trail.remove(0);
        self.trail.push(self.pos);
        assert(self.trail@ =~= old(self)@.trail.drop_first().push(self.pos));
    }
}

/// The particle after a sequence of frames of the given lengths.
pub open spec fn after_frames(p: ParticleView, frames: Seq<nat>, cfg: FireworkConfig) -> ParticleView
    decreases frames.len(),
{
    if frames.len() == 0 {
        p
    } else {
        after_frames(p, frames.drop_last(), cfg).advanced(frames.last() as int, cfg)
    }
}

/// Life stages follow elapsed time: a later time never has an earlier stage.
pub proof fn lemma_life_state_of_monotone(life_time: int, e1: int, e2: int)
    requires
        life_time >= 0,
        e1 <= e2,
    ensures
        life_state_of(life_time, e1).rank() <= life_state_of(life_time, e2).rank(),
{
}

/// Over any sequence of frames a particle's life stage only moves forward
/// through `Alive`, `Declining`, `Dying` and `Dead`, and its elapsed time
/// never decreases.
pub proof fn lemma_life_stage_never_regresses(p: ParticleView, frames: Seq<nat>, cfg: FireworkConfig)
    requires
        p.wf(),
    ensures
        after_frames(p, frames, cfg).life_state.rank() >= p.life_state.rank(),
        after_frames(p, frames, cfg).time_elapsed >= p.time_elapsed,
        after_frames(p, frames, cfg).config == p.config,
        after_frames(p, frames, cfg).life_state == life_state_of(
            p.config.life_time as int,
            after_frames(p, frames, cfg).time_elapsed,
        ),
    decreases frames.len(),
{
    if frames.len() > 0 {
        lemma_life_stage_never_regresses(p, frames.drop_last(), cfg);
        let q = after_frames(p, frames.drop_last(), cfg);
        let r = q.advanced(frames.last() as int, cfg);
        lemma_life_state_of_monotone(p.config.life_time as int, q.time_elapsed, r.time_elapsed);
    }
}

/// Over any sequence of frames a particle's trail keeps exactly the length
/// its template gives.
pub proof fn lemma_trail_length_invariant(p: ParticleView, frames: Seq<nat>, cfg: FireworkConfig)
    requires
        p.wf(),
    ensures
        after_frames(p, frames, cfg).trail.len() == p.config.trail_length,
        after_frames(p, frames, cfg).config == p.config,
    decreases frames.len(),
{
    if frames.len() > 0 {
        lemma_trail_length_invariant(p, frames.drop_last(), cfg);
    }
}

} // verus!
