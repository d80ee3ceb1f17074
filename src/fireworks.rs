//! Fireworks: timed groups of particles, their emission forms and lifecycle,
//! and the manager that drives a whole show.
use vstd::prelude::*;

use crate::particle::{LifeState, Particle, ParticleConfig, ParticleView};
use crate::utils::{
    div_toward_zero, explosion_curve_1, explosion_curve_2, explosion_curve_3, explosion_gradient_1,
    explosion_gradient_2, explosion_gradient_3, lemma_trunc_div_shrinks, linear_curve_1, linear_gradient_1,
    trunc_div, Vec2, POS_LIMIT,
};

verus! {

/// Largest magnitude of a scale factor, in thousandths.
pub const SCALE_LIMIT: i64 = 1_000_000;

/// Largest magnitude of a constant force component, in micro-cells per
/// second squared.
pub const FORCE_LIMIT: i64 = 1_000_000_000_000_000;

/// An extra force that acts on every particle of a firework, as a function
/// of the particle's position.
#[derive(Debug, Clone, Copy, PartialEq, Eq, Structural)]
pub enum ForceLaw {
    /// No extra force.
    Zero,
    /// The same force everywhere, in micro-cells per second squared.
    Constant { x: i64, y: i64 },
    /// A pull towards `center` proportional to the distance from it;
    /// `stiffness` is in thousandths per second squared.
    Spring { center: Vec2, stiffness: i64 },
    /// A pull towards `center` inversely proportional to the distance from
    /// it; `strength` is in thousandths of a square cell per second squared.
    Attract { center: Vec2, strength: i64 },
}

impl ForceLaw {
    pub open spec fn wf(self) -> bool {
        match self {
            ForceLaw::Zero => true,
            ForceLaw::Constant { x, y } => -FORCE_LIMIT <= x <= FORCE_LIMIT && -FORCE_LIMIT
                <= y <= FORCE_LIMIT,
            ForceLaw::Spring { center, stiffness } => center.within(POS_LIMIT as int)
                && -SCALE_LIMIT <= stiffness <= SCALE_LIMIT,
            ForceLaw::Attract { center, strength } => center.within(POS_LIMIT as int)
                && -SCALE_LIMIT <= strength <= SCALE_LIMIT,
        }
    }

    /// The force at `pos`, in micro-cells per second squared.
    pub open spec fn force_at(self, pos: Vec2) -> (int, int) {
        match self {
            ForceLaw::Zero => (0, 0),
            ForceLaw::Constant { x, y } => (x as int, y as int),
            ForceLaw::Spring { center, stiffness } => (
                trunc_div((center.x - pos.x) * stiffness, 1000),
                trunc_div((center.y - pos.y) * stiffness, 1000),
            ),
            ForceLaw::Attract { center, strength } => {
                let dx = center.x - pos.x;
                let dy = center.y - pos.y;
                let d2 = dx * dx + dy * dy;
                if d2 == 0 {
                    (0, 0)
                } else {
                    (
                        trunc_div(dx * 1_000_000_000 * strength, d2),
                        trunc_div(dy * 1_000_000_000 * strength, d2),
                    )
                }
            },
        }
    }

    /// The force at `pos`, in micro-cells per second squared.
    pub fn force(&self, pos: Vec2) -> (r: (i128, i128))
        requires
            self.wf(),
            pos.within(POS_LIMIT as int),
        ensures
            r.0 == self.force_at(pos).0,
            r.1 == self.force_at(pos).1,
            -4_000_000_000_000_000_000_000_000_000 <= r.0 <= 4_000_000_000_000_000_000_000_000_000,
            -4_000_000_000_000_000_000_000_000_000 <= r.1 <= 4_000_000_000_000_000_000_000_000_000,
    {
        match self {
            ForceLaw::Zero => (0, 0),
            ForceLaw::Constant { x, y } => (*x as i128, *y as i128),
            ForceLaw::Spring { center, stiffness } => {
                let dx = center.x as i128 - pos.x as i128;
                let dy = center.y as i128 - pos.y as i128;
                let k = *stiffness as i128;
                assert(-2 * POS_LIMIT * SCALE_LIMIT <= dx * k <= 2 * POS_LIMIT * SCALE_LIMIT)
                    by (nonlinear_arith)
                    requires -2 * POS_LIMIT <= dx <= 2 * POS_LIMIT, -SCALE_LIMIT <= k <= SCALE_LIMIT;
                assert(-2 * POS_LIMIT * SCALE_LIMIT <= dy * k <= 2 * POS_LIMIT * SCALE_LIMIT)
                    by (nonlinear_arith)
                    requires -2 * POS_LIMIT <= dy <= 2 * POS_LIMIT, -SCALE_LIMIT <= k <= SCALE_LIMIT;
                (div_toward_zero(dx * k, 1000), div_toward_zero(dy * k, 1000))
            },
            ForceLaw::Attract { center, strength } => {
                let dx = center.x as i128 - pos.x as i128;
                let dy = center.y as i128 - pos.y as i128;
                let s = *strength as i128;
                assert(0 <= dx * dx <= 4 * POS_LIMIT * POS_LIMIT) by (nonlinear_arith)
                    requires -2 * POS_LIMIT <= dx <= 2 * POS_LIMIT;
                assert(0 <= dy * dy <= 4 * POS_LIMIT * POS_LIMIT) by (nonlinear_arith)
                    requires -2 * POS_LIMIT <= dy <= 2 * POS_LIMIT;
                let d2 = dx * dx + dy * dy;
                if d2 == 0 {
                    (0, 0)
                } else {
                    assert(-2 * POS_LIMIT * SCALE_LIMIT <= dx * s <= 2 * POS_LIMIT * SCALE_LIMIT)
                        by (nonlinear_arith)
                        requires -2 * POS_LIMIT <= dx <= 2 * POS_LIMIT, -SCALE_LIMIT <= s <= SCALE_LIMIT;
                    assert(-2 * POS_LIMIT * SCALE_LIMIT <= dy * s <= 2 * POS_LIMIT * SCALE_LIMIT)
                        by (nonlinear_arith)
                        requires -2 * POS_LIMIT <= dy <= 2 * POS_LIMIT, -SCALE_LIMIT <= s <= SCALE_LIMIT;
                    let dxs = dx * s;
                    let dys = dy * s;
                    let nx = dxs * 1_000_000_000;
                    let ny = dys * 1_000_000_000;
                    assert(nx == dx * 1_000_000_000 * s) by (nonlinear_arith)
                        requires nx == dxs * 1_000_000_000, dxs == dx * s;
                    assert(ny == dy * 1_000_000_000 * s) by (nonlinear_arith)
                        requires ny == dys * 1_000_000_000, dys == dy * s;
                    let fx = div_toward_zero(nx, d2);
                    let fy = div_toward_zero(ny, d2);
                    proof {
                        lemma_trunc_div_shrinks(nx as int, d2 as int);
                        lemma_trunc_div_shrinks(ny as int, d2 as int);
                    }
                    (fx, fy)
                }
            },
        }
    }
}

/// The curve that scales a particle's color over its life.
#[derive(Debug, Clone, Copy, PartialEq, Eq, Structural)]
pub enum GradientCurve {
    /// Full brightness throughout.
    Flat,
    Explosion1,
    Explosion2,
    Explosion3,
    Linear1,
}

impl GradientCurve {
    /// Brightness in thousandths at life fraction `x` (in thousandths).
    pub open spec fn value(self, x: int) -> int {
        match self {
            GradientCurve::Flat => 1000,
            GradientCurve::Explosion1 => explosion_curve_1(x),
            GradientCurve::Explosion2 => explosion_curve_2(x),
            GradientCurve::Explosion3 => explosion_curve_3(x),
            GradientCurve::Linear1 => linear_curve_1(x),
        }
    }

    pub fn apply(&self, x: u32) -> (r: u32)
        requires
            x <= 1000,
        ensures
            r == self.value(x as int),
    {
        match self {
            GradientCurve::Flat => 1000,
            GradientCurve::Explosion1 => explosion_gradient_1(x),
            GradientCurve::Explosion2 => explosion_gradient_2(x),
            GradientCurve::Explosion3 => explosion_gradient_3(x),
            GradientCurve::Linear1 => linear_gradient_1(x),
        }
    }
}

/// The forces and coloring shared by all particles of one firework.
#[derive(Debug, Clone, Copy, PartialEq, Eq, Structural)]
pub struct FireworkConfig {
    /// Gravity in thousandths of ten cells per second squared.
    pub gravity_scale: i64,
    /// Air resistance in thousandths; drag is this times the squared speed.
    pub ar_scale: i64,
    pub additional_force: ForceLaw,
    pub gradient_scale: GradientCurve,
    pub enable_gradient: bool,
}

impl Default for FireworkConfig {
    fn default() -> (r: FireworkConfig)
        ensures
            r.wf(),
            r.gravity_scale == 1000,
            r.ar_scale == 280,
            r.additional_force == ForceLaw::Zero,
            r.gradient_scale == GradientCurve::Flat,
            !r.enable_gradient,
    {
        FireworkConfig {
            gravity_scale: 1000,
            ar_scale: 280,
            additional_force: ForceLaw::Zero,
            gradient_scale: GradientCurve::Flat,
            enable_gradient: false,
        }
    }
}

impl FireworkConfig {
    pub open spec fn wf(self) -> bool {
        &&& -SCALE_LIMIT <= self.gravity_scale <= SCALE_LIMIT
        &&& -SCALE_LIMIT <= self.ar_scale <= SCALE_LIMIT
        &&& self.additional_force.wf()
    }


    /// Set `gradient_scale`.
    pub fn with_gradient_scale(self, f: GradientCurve) -> (r: FireworkConfig)
        ensures
            r == (FireworkConfig { gradient_scale: f, ..self }),
    {
        FireworkConfig { gradient_scale: f, ..self }
    }

    /// Set `gravity_scale`, in thousandths.
    pub fn with_gravity_scale(self, s: i64) -> (r: FireworkConfig)
        ensures
            r == (FireworkConfig { gravity_scale: s, ..self }),
    {
        FireworkConfig { gravity_scale: s, ..self }
    }

    /// Set `ar_scale`, in thousandths.
    pub fn with_ar_scale(self, s: i64) -> (r: FireworkConfig)
        ensures
            r == (FireworkConfig { ar_scale: s, ..self }),
    {
        FireworkConfig { ar_scale: s, ..self }
    }

    /// Set `additional_force`.
    pub fn with_additional_force(self, af: ForceLaw) -> (r: FireworkConfig)
        ensures
            r == (FireworkConfig { additional_force: af, ..self }),
    {
        FireworkConfig { additional_force: af, ..self }
    }

    /// Set `enable_gradient`.
    pub fn set_enable_gradient(&mut self, enable_gradient: bool)
        ensures
            *final(self) == (FireworkConfig { enable_gradient, ..*old(self) }),
    {
        self.enable_gradient = enable_gradient;
    }
}

/// The lifecycle of a firework: `Waiting`, then `Alive`, then `Gone`.
#[derive(Debug, Clone, Copy, PartialEq, Eq, Structural)]
pub enum FireworkState {
    Waiting,
    Alive,
    Gone,
}

impl FireworkState {
    /// Position of the state in the order `Waiting`, `Alive`, `Gone`.
    pub open spec fn rank(self) -> int {
        match self {
            FireworkState::Waiting => 0,
            FireworkState::Alive => 1,
            FireworkState::Gone => 2,
        }
    }
}

impl Default for FireworkState {
    fn default() -> (r: FireworkState)
        ensures
            r == FireworkState::Waiting,
    {
        FireworkState::Waiting
    }
}

/// How a firework releases its particles.
#[derive(Debug, Clone, Copy, PartialEq, Eq, Structural)]
pub enum ExplosionForm {
    /// Every template fires once, on the first active frame.
    Instant { used: bool },
    /// Every `time_interval` milliseconds, for `lasts` milliseconds, a random
    /// choice of templates fires; `timer` carries the time since the last
    /// release across frames.
    Sustained { lasts: u64, time_interval: u64, timer: u64 },
}

/// The form will release no more particles.
pub open spec fn exhausted(form: ExplosionForm, elapsed: int) -> bool {
    match form {
        ExplosionForm::Instant { used } => used,
        ExplosionForm::Sustained { lasts, .. } => elapsed > lasts,
    }
}

/// The form as it is armed again by a reset.
pub open spec fn rearmed(form: ExplosionForm) -> ExplosionForm {
    match form {
        ExplosionForm::Instant { .. } => ExplosionForm::Instant { used: false },
        ExplosionForm::Sustained { lasts, time_interval, .. } => ExplosionForm::Sustained {
            lasts,
            time_interval,
            timer: 0,
        },
    }
}

/// Releases due and the carried remainder when a sustained form with
/// `timer` pending sees `dt` more milliseconds at a cadence of `interval`.
pub open spec fn cadence(timer: int, dt: int, interval: int) -> (int, int) {
    if timer + dt <= interval {
        (0, timer + dt)
    } else {
        ((timer + dt) / interval, (timer + dt) % interval)
    }
}

/// `a + b`, held at `u64::MAX`.
pub open spec fn sat_add(a: int, b: int) -> int {
    if a + b <= u64::MAX {
        a + b
    } else {
        u64::MAX as int
    }
}

/// The particles of `s` that are not `Dead`, in order.
pub open spec fn survivors(s: Seq<ParticleView>) -> Seq<ParticleView>
    decreases s.len(),
{
    if s.len() == 0 {
        s
    } else {
        let rest = survivors(s.drop_last());
        if s.last().life_state == LifeState::Dead {
            rest
        } else {
            rest.push(s.last())
        }
    }
}

/// Every particle of `s` after `dt` milliseconds under `cfg`.
pub open spec fn advance_all(s: Seq<ParticleView>, dt: int, cfg: FireworkConfig) -> Seq<ParticleView> {
    s.map_values(|p: ParticleView| p.advanced(dt, cfg))
}

/// `s` holds fresh particles made from distinct templates of `t`.
pub open spec fn drawn_from(s: Seq<ParticleView>, t: Seq<ParticleConfig>) -> bool {
    exists|idx: Seq<int>|
        idx.len() == s.len() && idx.no_duplicates() && forall|i: int|
            0 <= i < s.len() ==> 0 <= #[trigger] idx[i] < t.len() && s[i] == ParticleView::fresh(
                t[idx[i]],
            )
}

/// A firework: a timed group of particle templates sharing one configuration.
#[derive(Debug)]
pub struct Firework {
    /// Milliseconds on the caller's clock at which the firework was set up.
    pub init_time: u64,
    /// The firework becomes active this many milliseconds after `init_time`.
    pub spawn_after: u64,
    /// Milliseconds spent active.
    pub time_elapsed: u64,
    pub center: Vec2,
    pub state: FireworkState,
    pub config: FireworkConfig,
    pub form: ExplosionForm,
    /// The templates particles are made from.
    pub particles: Vec<ParticleConfig>,
    /// The particles now in flight.
    pub current_particles: Vec<Particle>,
}

impl Default for Firework {
    /// An empty firework, due at once.
    fn default() -> (r: Firework)
        ensures
            r.wf(),
            r.init_time == 0,
            r.spawn_after == 0,
            r.time_elapsed == 0,
            r.state == FireworkState::Waiting,
            r.form == (ExplosionForm::Instant { used: false }),
            r.particles@.len() == 0,
            r.live().len() == 0,
    {
        Firework {
            init_time: 0,
            spawn_after: 0,
            time_elapsed: 0,
            center: Vec2 { x: 0, y: 0 },
            state: FireworkState::Waiting,
            config: FireworkConfig::default(),
            form: ExplosionForm::Instant { used: false },
            particles: Vec::new(),
            current_particles: Vec::new(),
        }
    }
}

impl Firework {
    pub open spec fn live(&self) -> Seq<ParticleView> {
        self.current_particles@.map_values(|p: Particle| p@)
    }

    pub open spec fn templates(&self) -> Seq<ParticleConfig> {
        self.particles@
    }

    /// The firework is due at `now`.
    pub open spec fn is_active(&self, now: int) -> bool {
        now >= self.init_time + self.spawn_after
    }

    pub open spec fn wf(&self) -> bool {
        &&& self.config.wf()
        &&& forall|i: int| 0 <= i < self.particles@.len() ==> (#[trigger] self.particles@[i]).wf()
        &&& forall|i: int| 0 <= i < self.live().len() ==> (#[trigger] self.live()[i]).wf()
        &&& match self.form {
            ExplosionForm::Sustained { time_interval, timer, .. } => time_interval > 0 && timer
                <= time_interval,
            _ => true,
        }
        &&& self.state == FireworkState::Gone ==> self.live().len() == 0 && exhausted(
            self.form,
            self.time_elapsed as int,
        )
    }

    /// What one frame does to the form and the active time, and which
    /// particles it releases.
    pub open spec fn emission(
        &self,
        now: int,
        dt: int,
        form: ExplosionForm,
        elapsed: int,
        spawned: Seq<ParticleView>,
    ) -> bool {
        if !self.is_active(now) {
            form == self.form && elapsed == self.time_elapsed && spawned.len() == 0
        } else {
            &&& elapsed == sat_add(self.time_elapsed as int, dt)
            &&& match self.form {
                ExplosionForm::Instant { used } => {
                    &&& form == ExplosionForm::Instant { used: true }
                    &&& spawned == if used {
                        Seq::empty()
                    } else {
                        self.templates().map_values(|c: ParticleConfig| ParticleView::fresh(c))
                    }
                },
                ExplosionForm::Sustained { lasts, time_interval, timer } => {
                    if elapsed > lasts {
                        form == self.form && spawned.len() == 0
                    } else {
                        let (n, rest) = cadence(timer as int, dt, time_interval as int);
                        &&& form == ExplosionForm::Sustained { lasts, time_interval, timer: rest as u64 }
                        &&& spawned.len() == if n < self.templates().len() {
                            n
                        } else {
                            self.templates().len() as int
                        }
                        &&& drawn_from(spawned, self.templates())
                    }
                },
            }
        }
    }

    /// What `update(now, dt)` turns `self` into.
    pub open spec fn updated(&self, next: &Firework, now: int, dt: int) -> bool {
        &&& next.init_time == self.init_time
        &&& next.spawn_after == self.spawn_after
        &&& next.center == self.center
        &&& next.config == self.config
        &&& next.particles@ == self.particles@
        &&& exists|spawned: Seq<ParticleView>|
            self.emission(now, dt, next.form, next.time_elapsed as int, spawned) && next.live()
                == survivors(advance_all(self.live() + spawned, dt, self.config))
        &&& ({
            let s = if self.is_active(now) {
                FireworkState::Alive
            } else {
                self.state
            };
            next.state == if s == FireworkState::Alive && exhausted(
                next.form,
                next.time_elapsed as int,
            ) && next.live().len() == 0 {
                FireworkState::Gone
            } else {
                s
            }
        })
    }

    /// What `reset(now)` turns `self` into.
    pub open spec fn reset_to(&self, next: &Firework, now: int) -> bool {
        &&& next.init_time == now
        &&& next.spawn_after == self.spawn_after
        &&& next.time_elapsed == 0
        &&& next.center == self.center
        &&& next.state == FireworkState::Waiting
        &&& next.config == self.config
        &&& next.form == rearmed(self.form)
        &&& next.particles@ == self.particles@
        &&& next.live().len() == 0
    }


    /// Release one fresh particle per template.
    fn spawn_all(&mut self)
        requires
            old(self).wf(),
        ensures
            final(self).live() == old(self).live() + old(self).templates().map_values(
                |c: ParticleConfig| ParticleView::fresh(c),
            ),
            final(self).particles@ == old(self).particles@,
            final(self).form == old(self).form,
            final(self).state == old(self).state,
            final(self).time_elapsed == old(self).time_elapsed,
            final(self).init_time == old(self).init_time,
            final(self).spawn_after == old(self).spawn_after,
            final(self).center == old(self).center,
            final(self).config == old(self).config,
    {
        let n = self.particles.len();
        let mut i: usize = 0;
        while i < n
            invariant
                i <= n,
                n == self.particles@.len(),
                forall|k: int| 0 <= k < old(self).particles@.len() ==> (#[trigger] old(self).particles@[k]).wf(),
                self.particles@ == old(self).particles@,
                self.form == old(self).form,
                self.state == old(self).state,
                self.time_elapsed == old(self).time_elapsed,
                self.init_time == old(self).init_time,
                self.spawn_after == old(self).spawn_after,
                self.center == old(self).center,
                self.config == old(self).config,
                self.live() == old(self).live() + old(self).templates().take(i as int).map_values(
                    |c: ParticleConfig| ParticleView::fresh(c),
                ),
            decreases n - i,
        {
            let p = Particle::from_config(&self.particles[i]);
            let ghost before = self.live();
            self.current_particles.push(p);
            assert(self.live() =~= before.push(p@));
            assert(old(self).templates().take(i + 1) =~= old(self).templates().take(i as int).push(old(self).templates()[i as int]));
            i += 1;
            assert(self.live() =~= old(self).live() + old(self).templates().take(i as int).map_values(
                |c: ParticleConfig| ParticleView::fresh(c),
            ));
        }
        assert(old(self).templates().take(n as int) =~= old(self).templates());
    }

    /// Release one fresh particle for each template index in `idx`.
    fn spawn_chosen(&mut self, idx: &Vec<usize>)
        requires
            forall|i: int| 0 <= i < idx@.len() ==> idx@[i] < old(self).particles@.len(),
            forall|k: int| 0 <= k < old(self).particles@.len() ==> (#[trigger] old(self).particles@[k]).wf(),
        ensures
            final(self).live() == old(self).live() + idx@.map_values(
                |j: usize| ParticleView::fresh(old(self).templates()[j as int]),
            ),
            final(self).particles@ == old(self).particles@,
            final(self).form == old(self).form,
            final(self).state == old(self).state,
            final(self).time_elapsed == old(self).time_elapsed,
            final(self).init_time == old(self).init_time,
            final(self).spawn_after == old(self).spawn_after,
            final(self).center == old(self).center,
            final(self).config == old(self).config,
    {
        let mut i: usize = 0;
        while i < idx.len()
            invariant
                i <= idx@.len(),
                forall|k: int| 0 <= k < old(self).particles@.len() ==> (#[trigger] old(self).particles@[k]).wf(),
                forall|k: int| 0 <= k < idx@.len() ==> idx@[k] < old(self).particles@.len(),
                self.particles@ == old(self).particles@,
                self.form == old(self).form,
                self.state == old(self).state,
                self.time_elapsed == old(self).time_elapsed,
                self.init_time == old(self).init_time,
                self.spawn_after == old(self).spawn_after,
                self.center == old(self).center,
                self.config == old(self).config,
                self.live() == old(self).live() + idx@.take(i as int).map_values(
                    |j: usize| ParticleView::fresh(old(self).templates()[j as int]),
                ),
            decreases idx@.len() - i,
        {
            let p = Particle::from_config(&self.particles[idx[i]]);
            let ghost before = self.live();
            self.current_particles.push(p);
            assert(self.live() =~= before.push(p@));
            assert(idx@.take(i + 1) =~= idx@.take(i as int).push(idx@[i as int]));
            i += 1;
            assert(self.live() =~= old(self).live() + idx@.take(i as int).map_values(
                |j: usize| ParticleView::fresh(old(self).templates()[j as int]),
            ));
        }
        assert(idx@.take(idx@.len() as int) =~= idx@);
    }

    /// Advance every particle in flight by `dt` milliseconds and drop those
    /// that died.
    fn step_particles(&mut self, dt: u64)
        requires
            old(self).config.wf(),
            forall|i: int| 0 <= i < old(self).live().len() ==> (#[trigger] old(self).live()[i]).wf(),
        ensures
            final(self).live() == survivors(advance_all(old(self).live(), dt as int, old(self).config)),
            forall|i: int| 0 <= i < final(self).live().len() ==> (#[trigger] final(self).live()[i]).wf(),
            final(self).particles@ == old(self).particles@,
            final(self).form == old(self).form,
            final(self).state == old(self).state,
            final(self).time_elapsed == old(self).time_elapsed,
            final(self).init_time == old(self).init_time,
            final(self).spawn_after == old(self).spawn_after,
            final(self).center == old(self).center,
            final(self).config == old(self).config,
    {
        let ghost moved = advance_all(old(self).live(), dt as int, old(self).config);
        let mut out: Vec<Particle> = Vec::new();
        let n = self.current_particles.len();
        let mut i: usize = 0;
        while i < n
            invariant
                i <= n,
                n == old(self).live().len(),
                *self == *old(self),
                self.config.wf(),
                moved == advance_all(old(self).live(), dt as int, old(self).config),
                forall|k: int| 0 <= k < old(self).live().len() ==> (#[trigger] old(self).live()[k]).wf(),
                out@.map_values(|p: Particle| p@) == survivors(moved.take(i as int)),
                forall|k: int| 0 <= k < out@.len() ==> (#[trigger] out@[k])@.wf(),
            decreases n - i,
        {
            let mut p = self.current_particles[i].duplicate();
            assert(p@ == old(self).live()[i as int]);
            p.update(dt, &self.config);
            let ghost before = out@;
            assert(moved.take(i + 1).drop_last() =~= moved.take(i as int));
            assert(moved.take(i + 1).last() == moved[i as int]);
            if !p.is_dead() {
                out.push(p);
                assert(out@.map_values(|q: Particle| q@) =~= before.map_values(|q: Particle| q@).push(p@));
            } else {
                assert(out@ == before);
            }
            i += 1;
        }
        assert(moved.take(n as int) =~= moved);
        self.current_particles = out;
    }

    /// Advance the firework to `now`, `delta_time` milliseconds after the
    /// previous frame: release what the form calls for once the firework is
    /// due, move every particle in flight, drop the dead ones, and move the
    /// state on.
    pub fn update(&mut self, now: u64, delta_time: u64)
        requires
            old(self).wf(),
        ensures
            old(self).updated(&*final(self), now as int, delta_time as int),
            final(self).wf(),
            final(self).state.rank() >= old(self).state.rank(),
    {
        let active = now >= self.init_time && now - self.init_time >= self.spawn_after;
        let ghost spawned: Seq<ParticleView> = Seq::empty();
        if active {
            self.time_elapsed = if self.time_elapsed <= u64::MAX - delta_time {
                self.time_elapsed + delta_time
            } else {
                u64::MAX
            };
            match self.form {
                ExplosionForm::Instant { used } => {
                    if !used {
                        self.spawn_all();
                        proof {
                            spawned = old(self).templates().map_values(
                                |c: ParticleConfig| ParticleView::fresh(c),
                            );
                        }
                    }
                    self.form = ExplosionForm::Instant { used: true };
                },
                ExplosionForm::Sustained { lasts, time_interval, timer } => {
                    if self.time_elapsed <= lasts {
                        let total = timer as u128 + delta_time as u128;
                        if total <= time_interval as u128 {
                            self.form = ExplosionForm::Sustained { lasts, time_interval, timer: total as u64 };
                            proof {
                                let w: Seq<int> = Seq::empty();
                                assert(w.no_duplicates());
                                assert(w.len() == spawned.len() && forall|i: int|
                                    0 <= i < spawned.len() ==> 0 <= #[trigger] w[i] < old(self).templates().len()
                                        && spawned[i] == ParticleView::fresh(old(self).templates()[w[i]]));
                            }
                        } else {
                            let n = total / (time_interval as u128);
                            let len = self.particles.len();
                            let amount = if n < len as u128 {
                                n as usize
                            } else {
                                len
                            };
                            let idx = crate::random::sample_indices(len, amount);
                            self.spawn_chosen(&idx);
                            proof {
                                spawned = idx@.map_values(
                                    |j: usize| ParticleView::fresh(old(self).templates()[j as int]),
                                );
                                let w = idx@.map_values(|j: usize| j as int);
                                assert(w.no_duplicates());
                                assert(w.len() == spawned.len() && forall|i: int|
                                    0 <= i < spawned.len() ==> 0 <= #[trigger] w[i] < old(self).templates().len()
                                        && spawned[i] == ParticleView::fresh(old(self).templates()[w[i]]));
                                assert(drawn_from(spawned, old(self).templates()));
                            }
                            let rest = (total % (time_interval as u128)) as u64;
                            self.form = ExplosionForm::Sustained { lasts, time_interval, timer: rest };
                        }
                    }
                },
            }
            self.state = FireworkState::Alive;
        }
        assert(self.live() == old(self).live() + spawned);
        proof {
            assert forall|i: int| 0 <= i < self.live().len() implies (#[trigger] self.live()[i]).wf() by {
                if i >= old(self).live().len() {
                    let k = i - old(self).live().len();
                    assert(self.live()[i] == spawned[k]);
                }
            }
        }
        self.step_particles(delta_time);
        let done = match self.form {
            ExplosionForm::Instant { used } => used,
            ExplosionForm::Sustained { lasts, .. } => self.time_elapsed > lasts,
        };
        if self.state == FireworkState::Alive && done && self.current_particles.len() == 0 {
            self.state = FireworkState::Gone;
        }
        assert(old(self).emission(now as int, delta_time as int, self.form, self.time_elapsed as int, spawned));
    }

    /// True when the firework is `Gone`.
    pub fn is_gone(&self) -> (r: bool)
        ensures
            r == (self.state == FireworkState::Gone),
    {
        self.state == FireworkState::Gone
    }

    /// Put the firework back to waiting, as if set up at `now`.
    pub fn reset(&mut self, now: u64)
        requires
            old(self).wf(),
        ensures
            old(self).reset_to(&*final(self), now as int),
            final(self).wf(),
    {
        self.init_time = now;
        self.state = FireworkState::Waiting;
        self.time_elapsed = 0;
        self.current_particles = Vec::new();
        self.form = match self.form {
            ExplosionForm::Instant { .. } => ExplosionForm::Instant { used: false },
            ExplosionForm::Sustained { lasts, time_interval, .. } => ExplosionForm::Sustained {
                lasts,
                time_interval,
                timer: 0,
            },
        };
    }
}

/// How a manager treats fireworks that are gone.
#[derive(Debug, Clone, Copy, PartialEq, Eq, Structural)]
pub enum FireworkInstallForm {
    /// Keep every firework; the show may loop once all are gone.
    StaticInstall,
    /// Drop fireworks once they are gone, so that new ones can be added
    /// continuously; such a show never loops.
    DynamicInstall,
}

/// How many fireworks a dynamic show on a terminal of `width` by `height`
/// cells keeps in the air: three, and one more per 1300 cells.
pub fn population_target(width: u16, height: u16) -> (r: usize)
    ensures
        r == (width as int) * (height as int) / 1300 + 3,
{
    assert((width as int) * (height as int) <= 65535 * 65535) by (nonlinear_arith)
        requires 0 <= width <= 65535, 0 <= height <= 65535;
    let area = width as u64 * height as u64;
    (area / 1300 + 3) as usize
}

/// Every firework of `s` is gone.
pub open spec fn all_gone(s: Seq<Firework>) -> bool {
    forall|i: int| 0 <= i < s.len() ==> (#[trigger] s[i]).state == FireworkState::Gone
}

/// The fireworks of `s` that are not gone, in order.
pub open spec fn not_gone(s: Seq<Firework>) -> Seq<Firework>
    decreases s.len(),
{
    if s.len() == 0 {
        s
    } else {
        let rest = not_gone(s.drop_last());
        if s.last().state == FireworkState::Gone {
            rest
        } else {
            rest.push(s.last())
        }
    }
}

/// The fireworks of a show, drawn in order.
#[derive(Debug)]
pub struct FireworkManager {
    pub fireworks: Vec<Firework>,
    /// When set, a static show restarts once every firework is gone.
    pub enable_loop: bool,
    pub install_form: FireworkInstallForm,
}

impl Default for FireworkManager {
    /// An empty static show that does not loop.
    fn default() -> (r: FireworkManager)
        ensures
            r.wf(),
            r.fireworks@.len() == 0,
            !r.enable_loop,
            r.install_form == FireworkInstallForm::StaticInstall,
    {
        FireworkManager {
            fireworks: Vec::new(),
            enable_loop: false,
            install_form: FireworkInstallForm::StaticInstall,
        }
    }
}

impl FireworkManager {
    pub open spec fn wf(&self) -> bool {
        forall|i: int| 0 <= i < self.fireworks@.len() ==> (#[trigger] self.fireworks@[i]).wf()
    }

    /// `next` is what `update(now, dt)` makes of `self`, where `mid` holds
    /// each firework once updated, before the install form has its say.
    pub open spec fn updated_via(&self, next: &FireworkManager, mid: Seq<Firework>, now: int, dt: int) -> bool {
        &&& mid.len() == self.fireworks@.len()
        &&& forall|i: int|
            0 <= i < mid.len() ==> (#[trigger] self.fireworks@[i]).updated(&mid[i], now, dt)
        &&& if self.install_form == FireworkInstallForm::DynamicInstall {
            next.fireworks@ == not_gone(mid)
        } else if self.enable_loop && all_gone(mid) {
            &&& next.fireworks@.len() == mid.len()
            &&& forall|i: int|
                0 <= i < mid.len() ==> (#[trigger] mid[i]).reset_to(&next.fireworks@[i], now)
        } else {
            next.fireworks@ == mid
        }
    }


    /// A static show of `fireworks` that does not loop.
    pub fn new(fireworks: Vec<Firework>) -> (r: FireworkManager)
        ensures
            r.fireworks@ == fireworks@,
            !r.enable_loop,
            r.install_form == FireworkInstallForm::StaticInstall,
    {
        FireworkManager { fireworks, enable_loop: false, install_form: FireworkInstallForm::StaticInstall }
    }

    /// Add a firework at the end.
    pub fn add_firework(&mut self, firework: Firework)
        ensures
            final(self).fireworks@ == old(self).fireworks@.push(firework),
            final(self).enable_loop == old(self).enable_loop,
            final(self).install_form == old(self).install_form,
    {
        self.fireworks.push(firework);
    }

    /// Add fireworks at the end, in order.
    pub fn add_fireworks(&mut self, fireworks: Vec<Firework>)
        ensures
            final(self).fireworks@ == old(self).fireworks@ + fireworks@,
            final(self).enable_loop == old(self).enable_loop,
            final(self).install_form == old(self).install_form,
    {
        let mut fireworks = fireworks;
        self.fireworks.append(&mut fireworks);
    }

    /// The manager with a firework added at the end.
    pub fn with_firework(self, firework: Firework) -> (r: FireworkManager)
        ensures
            r.fireworks@ == self.fireworks@.push(firework),
            r.enable_loop == self.enable_loop,
            r.install_form == self.install_form,
    {
        let mut m = self;
        m.fireworks.push(firework);
        m
    }

    /// The manager with fireworks added at the end, in order.
    pub fn with_fireworks(self, fireworks: Vec<Firework>) -> (r: FireworkManager)
        ensures
            r.fireworks@ == self.fireworks@ + fireworks@,
            r.enable_loop == self.enable_loop,
            r.install_form == self.install_form,
    {
        let mut m = self;
        let mut fireworks = fireworks;
        m.fireworks.append(&mut fireworks);
        m
    }

    /// The manager with looping on.
    pub fn enable_loop(self) -> (r: FireworkManager)
        ensures
            r.fireworks@ == self.fireworks@,
            r.enable_loop,
            r.install_form == self.install_form,
    {
        let mut m = self;
        m.enable_loop = true;
        m
    }

    /// The manager with looping off.
    pub fn disable_loop(self) -> (r: FireworkManager)
        ensures
            r.fireworks@ == self.fireworks@,
            !r.enable_loop,
            r.install_form == self.install_form,
    {
        let mut m = self;
        m.enable_loop = false;
        m
    }

    pub fn set_enable_loop(&mut self, enable_loop: bool)
        ensures
            final(self).fireworks@ == old(self).fireworks@,
            final(self).enable_loop == enable_loop,
            final(self).install_form == old(self).install_form,
    {
        self.enable_loop = enable_loop;
    }

    /// The manager in dynamic install form.
    pub fn enable_dyn_install(self) -> (r: FireworkManager)
        ensures
            r.fireworks@ == self.fireworks@,
            r.enable_loop == self.enable_loop,
            r.install_form == FireworkInstallForm::DynamicInstall,
    {
        let mut m = self;
        m.install_form = FireworkInstallForm::DynamicInstall;
        m
    }

    /// Restart the whole show as if set up at `now`.
    pub fn reset(&mut self, now: u64)
        requires
            old(self).wf(),
        ensures
            final(self).wf(),
            final(self).fireworks@.len() == old(self).fireworks@.len(),
            forall|i: int|
                0 <= i < old(self).fireworks@.len() ==> (#[trigger] old(self).fireworks@[i]).reset_to(
                    &final(self).fireworks@[i],
                    now as int,
                ),
            final(self).enable_loop == old(self).enable_loop,
            final(self).install_form == old(self).install_form,
    {
        let n = self.fireworks.len();
        let mut rest: Vec<Firework> = Vec::new();
        std::mem::swap(&mut rest, &mut self.fireworks);
        let mut i: usize = 0;
        while i < n
            invariant
                i <= n,
                n == old(self).fireworks@.len(),
                rest@ == old(self).fireworks@.skip(i as int),
                self.fireworks@.len() == i,
                self.enable_loop == old(self).enable_loop,
                self.install_form == old(self).install_form,
                forall|k: int| 0 <= k < i ==> (#[trigger] self.fireworks@[k]).wf(),
                forall|k: int| 0 <= k < n ==> (#[trigger] old(self).fireworks@[k]).wf(),
                forall|k: int|
                    0 <= k < i ==> (#[trigger] old(self).fireworks@[k]).reset_to(&self.fireworks@[k], now as int),
            decreases n - i,
        {
            let mut fw = rest.remove(0);
            assert(fw == old(self).fireworks@[i as int]);
            fw.reset(now);
            self.fireworks.push(fw);
            i += 1;
            assert(rest@ =~= old(self).fireworks@.skip(i as int));
        }
    }

    /// Drop the fireworks that are gone.
    fn prune_gone(&mut self)
        requires
            old(self).wf(),
        ensures
            final(self).wf(),
            final(self).fireworks@ == not_gone(old(self).fireworks@),
            final(self).enable_loop == old(self).enable_loop,
            final(self).install_form == old(self).install_form,
    {
        let n = self.fireworks.len();
        let mut rest: Vec<Firework> = Vec::new();
        std::mem::swap(&mut rest, &mut self.fireworks);
        let ghost all = rest@;
        let mut i: usize = 0;
        while i < n
            invariant
                i <= n,
                n == all.len(),
                all == old(self).fireworks@,
                rest@ == all.skip(i as int),
                self.fireworks@ == not_gone(all.take(i as int)),
                self.enable_loop == old(self).enable_loop,
                self.install_form == old(self).install_form,
                forall|k: int| 0 <= k < n ==> (#[trigger] all[k]).wf(),
                forall|k: int| 0 <= k < self.fireworks@.len() ==> (#[trigger] self.fireworks@[k]).wf(),
            decreases n - i,
        {
            let fw = rest.remove(0);
            assert(fw == all[i as int]);
            assert(all.take(i + 1).drop_last() =~= all.take(i as int));
            assert(all.take(i + 1).last() == all[i as int]);
            if fw.state != FireworkState::Gone {
                self.fireworks.push(fw);
            }
            i += 1;
            assert(rest@ =~= all.skip(i as int));
        }
        assert(all.take(n as int) =~= all);
    }

    /// Advance every firework to `now`, `delta_time` milliseconds after the
    /// previous frame; then, in dynamic form, drop the fireworks that are
    /// gone, and in static form with looping on, restart the show once all
    /// of them are gone.
    pub fn update(&mut self, now: u64, delta_time: u64)
        requires
            old(self).wf(),
        ensures
            final(self).wf(),
            final(self).enable_loop == old(self).enable_loop,
            final(self).install_form == old(self).install_form,
            exists|mid: Seq<Firework>| old(self).updated_via(&*final(self), mid, now as int, delta_time as int),
    {
        let n = self.fireworks.len();
        let mut rest: Vec<Firework> = Vec::new();
        std::mem::swap(&mut rest, &mut self.fireworks);
        let mut i: usize = 0;
        while i < n
            invariant
                i <= n,
                n == old(self).fireworks@.len(),
                rest@ == old(self).fireworks@.skip(i as int),
                self.fireworks@.len() == i,
                self.enable_loop == old(self).enable_loop,
                self.install_form == old(self).install_form,
                forall|k: int| 0 <= k < i ==> (#[trigger] self.fireworks@[k]).wf(),
                forall|k: int| 0 <= k < n ==> (#[trigger] old(self).fireworks@[k]).wf(),
                forall|k: int|
                    0 <= k < i ==> (#[trigger] old(self).fireworks@[k]).updated(
                        &self.fireworks@[k],
                        now as int,
                        delta_time as int,
                    ),
            decreases n - i,
        {
            let mut fw = rest.remove(0);
            assert(fw == old(self).fireworks@[i as int]);
            fw.update(now, delta_time);
            self.fireworks.push(fw);
            i += 1;
            assert(rest@ =~= old(self).fireworks@.skip(i as int));
        }
        let ghost mid = self.fireworks@;
        if self.install_form == FireworkInstallForm::DynamicInstall {
            self.prune_gone();
        } else if self.enable_loop {
            let mut gone = true;
            let mut j: usize = 0;
            while j < self.fireworks.len()
                invariant
                    j <= self.fireworks@.len(),
                    gone == forall|k: int| 0 <= k < j ==> (#[trigger] self.fireworks@[k]).state
                        == FireworkState::Gone,
                decreases self.fireworks@.len() - j,
            {
                if self.fireworks[j].state != FireworkState::Gone {
                    gone = false;
                }
                j += 1;
            }
            if gone {
                self.reset(now);
            }
        }
        assert(old(self).updated_via(&*self, mid, now as int, delta_time as int));
    }
}

/// What a sustained form releases and keeps: `n` releases are due and
/// `rest` is carried, with `n * interval + rest` the time pending plus the
/// frame, and `rest` at most one interval.
pub proof fn lemma_cadence_conserves(timer: int, dt: int, interval: int)
    requires
        interval > 0,
        0 <= timer <= interval,
        dt >= 0,
    ensures
        cadence(timer, dt, interval).0 * interval + cadence(timer, dt, interval).1 == timer + dt,
        0 <= cadence(timer, dt, interval).1 <= interval,
        cadence(timer, dt, interval).0 >= 0,
{
    if timer + dt > interval {
        let t = timer + dt;
        assert(t == (t / interval) * interval + t % interval) by (nonlinear_arith)
            requires interval > 0;
        assert(t / interval >= 0) by (nonlinear_arith)
            requires interval > 0, t >= 0;
        assert((t / interval) * interval == interval * (t / interval)) by (nonlinear_arith);
    }
}

/// Cutting a stretch of time into two frames releases the same number of
/// particles as one frame of the same total, give or take the one release
/// that may wait in a carried remainder of exactly one interval; the time
/// accounted for is the same either way.
pub proof fn lemma_cadence_chunking(timer: int, d1: int, d2: int, interval: int)
    requires
        interval > 0,
        0 <= timer <= interval,
        d1 >= 0,
        d2 >= 0,
    ensures
        ({
            let (n1, t1) = cadence(timer, d1, interval);
            let (n2, t2) = cadence(t1, d2, interval);
            let (n, t) = cadence(timer, d1 + d2, interval);
            &&& (n1 + n2) * interval + t2 == n * interval + t
            &&& n - 1 <= n1 + n2 <= n + 1
            &&& (t2 < interval && t < interval ==> n1 + n2 == n)
        }),
{
    lemma_cadence_conserves(timer, d1, interval);
    let (n1, t1) = cadence(timer, d1, interval);
    lemma_cadence_conserves(t1, d2, interval);
    lemma_cadence_conserves(timer, d1 + d2, interval);
    let (n2, t2) = cadence(t1, d2, interval);
    let (n, t) = cadence(timer, d1 + d2, interval);
    assert((n1 + n2) * interval == n1 * interval + n2 * interval) by (nonlinear_arith);
    let k = n1 + n2 - n;
    assert(k * interval == t - t2) by (nonlinear_arith)
        requires (n1 + n2) * interval + t2 == n * interval + t, k == n1 + n2 - n;
    assert(-1 <= k <= 1) by (nonlinear_arith)
        requires k * interval == t - t2, 0 <= t <= interval, 0 <= t2 <= interval, interval > 0;
    assert(t2 < interval && t < interval ==> k == 0) by (nonlinear_arith)
        requires k * interval == t - t2, 0 <= t <= interval, 0 <= t2 <= interval, interval > 0;
}

/// Sum of the frame lengths.
pub open spec fn total(dts: Seq<int>) -> int
    decreases dts.len(),
{
    if dts.len() == 0 {
        0
    } else {
        total(dts.drop_last()) + dts.last()
    }
}

/// Releases due over frames of the lengths `dts`, and the remainder carried
/// at the end, for a sustained form that starts with `timer` pending.
pub open spec fn cadence_run(timer: int, dts: Seq<int>, interval: int) -> (int, int)
    decreases dts.len(),
{
    if dts.len() == 0 {
        (0, timer)
    } else {
        let (n, t) = cadence_run(timer, dts.drop_last(), interval);
        let (m, rest) = cadence(t, dts.last(), interval);
        (n + m, rest)
    }
}

/// Over any number of frames, the releases due times the interval plus the
/// remainder carried is the time pending at the start plus all the frames;
/// so the count does not depend on how the time is cut into frames, except
/// that when the total is a whole number of intervals the last release may
/// still wait in a remainder of exactly one interval.
pub proof fn lemma_cadence_run(timer: int, dts: Seq<int>, interval: int)
    requires
        interval > 0,
        0 <= timer <= interval,
        forall|i: int| 0 <= i < dts.len() ==> #[trigger] dts[i] >= 0,
    ensures
        cadence_run(timer, dts, interval).0 * interval + cadence_run(timer, dts, interval).1 == timer + total(dts),
        0 <= cadence_run(timer, dts, interval).1 <= interval,
        cadence_run(timer, dts, interval).0 >= 0,
        (timer + total(dts)) % interval != 0 ==> cadence_run(timer, dts, interval).0 == (timer + total(dts))
            / interval,
    decreases dts.len(),
{
    if dts.len() > 0 {
        let d = dts.drop_last();
        assert forall|i: int| 0 <= i < d.len() implies #[trigger] d[i] >= 0 by {
            assert(d[i] == dts[i]);
        }
        lemma_cadence_run(timer, d, interval);
        let (n, t) = cadence_run(timer, d, interval);
        assert(dts.last() == dts[dts.len() - 1]);
        lemma_cadence_conserves(t, dts.last(), interval);
        let (m, rest) = cadence(t, dts.last(), interval);
        assert((n + m) * interval == n * interval + m * interval) by (nonlinear_arith);
    }
    let (n, rest) = cadence_run(timer, dts, interval);
    let s = timer + total(dts);
    if s % interval != 0 {
        assert(s == (s / interval) * interval + s % interval && 0 <= s % interval < interval) by (nonlinear_arith)
            requires interval > 0;
        assert(rest != interval && rest != 0 || rest == 0) by (nonlinear_arith)
            requires n * interval + rest == s, 0 <= rest <= interval, s % interval != 0,
                s == (s / interval) * interval + s % interval, 0 <= s % interval < interval, interval > 0;
        assert(n == s / interval) by (nonlinear_arith)
            requires n * interval + rest == s, 0 <= rest <= interval, s == (s / interval) * interval + s % interval,
                0 < s % interval < interval, interval > 0;
    }
}

/// One frame of a due sustained firework that stays within its duration
/// carries the remainder that `cadence` gives.
proof fn lemma_sustained_step(fw: Firework, next: Firework, now: int, dt: int)
    requires
        fw.updated(&next, now, dt),
        fw.is_active(now),
        fw.form is Sustained,
        next.time_elapsed <= fw.form->lasts,
    ensures
        next.form == (ExplosionForm::Sustained {
            lasts: fw.form->lasts,
            time_interval: fw.form->time_interval,
            timer: cadence(fw.form->timer as int, dt, fw.form->time_interval as int).1 as u64,
        }),
{
    let spawned = choose|spawned: Seq<ParticleView>|
        fw.emission(now, dt, next.form, next.time_elapsed as int, spawned) && next.live()
            == survivors(advance_all(fw.live() + spawned, dt, fw.config));
}

/// The remainder carried after frames of the lengths `dts`, each carrying
/// its remainder by `cadence`.
proof fn lemma_timers_run(timers: Seq<int>, dts: Seq<int>, interval: int)
    requires
        timers.len() == dts.len() + 1,
        forall|i: int| 0 <= i < dts.len() ==> timers[i + 1] == cadence(#[trigger] timers[i], dts[i], interval).1,
    ensures
        timers.last() == cadence_run(timers[0], dts, interval).1,
    decreases dts.len(),
{
    if dts.len() > 0 {
        let k = dts.len() - 1;
        let pt = timers.drop_last();
        let pd = dts.drop_last();
        assert forall|i: int| 0 <= i < pd.len() implies pt[i + 1] == cadence(#[trigger] pt[i], pd[i], interval).1 by {
            assert(pt[i] == timers[i] && pt[i + 1] == timers[i + 1] && pd[i] == dts[i]);
        }
        lemma_timers_run(pt, pd, interval);
        assert(pt.last() == timers[k]);
        assert(dts.last() == dts[k]);
        assert(timers[k + 1] == cadence(timers[k], dts[k], interval).1);
    }
}

/// Over consecutive frames of a sustained firework, each due and within its
/// duration, the remainder carried at the end is the one `cadence_run` gives
/// for the frame lengths, whose releases times the interval plus that
/// remainder add up to all the time pending (`lemma_cadence_run`).
pub proof fn lemma_sustained_frames(fws: Seq<Firework>, nows: Seq<int>, dts: Seq<int>)
    requires
        fws.len() == dts.len() + 1,
        nows.len() == dts.len(),
        fws[0].wf(),
        fws[0].form is Sustained,
        forall|i: int| 0 <= i < dts.len() ==> #[trigger] dts[i] >= 0,
        forall|i: int| 0 <= i < dts.len() ==> (#[trigger] fws[i]).updated(&fws[i + 1], nows[i], dts[i]),
        forall|i: int| 0 <= i < dts.len() ==> (#[trigger] fws[i]).is_active(nows[i]),
        forall|i: int| 0 < i < fws.len() ==> (#[trigger] fws[i]).time_elapsed <= fws[0].form->lasts,
    ensures
        fws.last().form is Sustained,
        fws.last().form->lasts == fws[0].form->lasts,
        fws.last().form->time_interval == fws[0].form->time_interval,
        fws.last().form->timer == cadence_run(fws[0].form->timer as int, dts, fws[0].form->time_interval as int).1,
{
    let interval = fws[0].form->time_interval as int;
    assert(interval > 0);
    let timers = fws.map_values(|f: Firework| f.form->timer as int);
    assert forall|i: int| 0 <= i < dts.len() implies timers[i + 1] == cadence(#[trigger] timers[i], dts[i], interval).1 by {
        lemma_forms_shape(fws, nows, dts, i);
        let t = fws[i].form->timer as int;
        let rest = cadence(t, dts[i], interval).1;
        if t + dts[i] > interval {
            assert(0 <= rest < interval) by (nonlinear_arith)
                requires rest == (t + dts[i]) % interval, interval > 0;
        }
    }
    lemma_forms_shape(fws, nows, dts, dts.len() as int);
    lemma_timers_run(timers, dts, interval);
    assert(timers.last() == fws.last().form->timer as int);
}

/// Induction behind `lemma_sustained_frames`: every form up to frame `i` is
/// sustained with the first one's duration and interval.
proof fn lemma_forms_shape(fws: Seq<Firework>, nows: Seq<int>, dts: Seq<int>, i: int)
    requires
        fws.len() == dts.len() + 1,
        nows.len() == dts.len(),
        fws[0].form is Sustained,
        forall|j: int| 0 <= j < dts.len() ==> (#[trigger] fws[j]).updated(&fws[j + 1], nows[j], dts[j]),
        forall|j: int| 0 <= j < dts.len() ==> (#[trigger] fws[j]).is_active(nows[j]),
        forall|j: int| 0 < j < fws.len() ==> (#[trigger] fws[j]).time_elapsed <= fws[0].form->lasts,
        0 <= i <= dts.len(),
    ensures
        fws[i].form is Sustained,
        fws[i].form->lasts == fws[0].form->lasts,
        fws[i].form->time_interval == fws[0].form->time_interval,
        i < dts.len() ==> fws[i + 1].form == (ExplosionForm::Sustained {
            lasts: fws[0].form->lasts,
            time_interval: fws[0].form->time_interval,
            timer: cadence(fws[i].form->timer as int, dts[i], fws[0].form->time_interval as int).1 as u64,
        }),
    decreases i,
{
    if i > 0 {
        lemma_forms_shape(fws, nows, dts, i - 1);
    }
    if i < dts.len() {
        assert(fws[i].updated(&fws[i + 1], nows[i], dts[i]));
        assert(fws[i].is_active(nows[i]));
        assert(fws[i + 1].time_elapsed <= fws[0].form->lasts);
        lemma_sustained_step(fws[i], fws[i + 1], nows[i], dts[i]);
    }
}

/// A frame releases at most one particle per template.
pub proof fn lemma_release_bounded(fw: Firework, now: int, dt: int, form: ExplosionForm, elapsed: int, spawned: Seq<ParticleView>)
    requires
        fw.emission(now, dt, form, elapsed, spawned),
    ensures
        spawned.len() <= fw.templates().len(),
{
}

/// Particles fresh from templates that outlive `dt` all survive a frame of
/// `dt` milliseconds.
pub proof fn lemma_fresh_survive(t: Seq<ParticleConfig>, dt: int, cfg: FireworkConfig)
    requires
        dt >= 0,
        forall|i: int| 0 <= i < t.len() ==> (#[trigger] t[i]).life_time > dt,
    ensures
        survivors(advance_all(t.map_values(|c: ParticleConfig| ParticleView::fresh(c)), dt, cfg)).len()
            == t.len(),
    decreases t.len(),
{
    let s = advance_all(t.map_values(|c: ParticleConfig| ParticleView::fresh(c)), dt, cfg);
    if t.len() > 0 {
        let u = t.drop_last();
        lemma_fresh_survive(u, dt, cfg);
        assert(s.drop_last() =~= advance_all(u.map_values(|c: ParticleConfig| ParticleView::fresh(c)), dt, cfg));
        assert(s.last().life_state != LifeState::Dead);
    }
}

/// An instant firework with `N` templates releases all `N` on the frame it
/// becomes due (and, when none is in flight before and each outlives the
/// frame, exactly those `N` are in flight after it), and releases nothing
/// on any later frame until it is reset.
pub proof fn lemma_instant_fires_once(
    fw: Firework,
    next: Firework,
    now: int,
    dt: int,
    later: Firework,
    now2: int,
    dt2: int,
)
    requires
        fw.wf(),
        fw.form == (ExplosionForm::Instant { used: false }),
        fw.is_active(now),
        dt >= 0,
        fw.updated(&next, now, dt),
        next.updated(&later, now2, dt2),
    ensures
        forall|spawned: Seq<ParticleView>|
            fw.emission(now, dt, next.form, next.time_elapsed as int, spawned) ==> spawned.len()
                == fw.templates().len(),
        fw.live().len() == 0 && (forall|i: int| 0 <= i < fw.templates().len() ==> (#[trigger] fw.templates()[i]).life_time > dt)
            ==> next.live().len() == fw.templates().len(),
        next.form == (ExplosionForm::Instant { used: true }),
        forall|spawned: Seq<ParticleView>|
            next.emission(now2, dt2, later.form, later.time_elapsed as int, spawned) ==> spawned.len() == 0,
        later.form == (ExplosionForm::Instant { used: true }),
{
    let spawned = choose|spawned: Seq<ParticleView>|
        fw.emission(now, dt, next.form, next.time_elapsed as int, spawned) && next.live()
            == survivors(advance_all(fw.live() + spawned, dt, fw.config));
    if fw.live().len() == 0 && (forall|i: int| 0 <= i < fw.templates().len() ==> (#[trigger] fw.templates()[i]).life_time > dt) {
        assert(fw.live() + spawned =~= spawned);
        lemma_fresh_survive(fw.templates(), dt, fw.config);
    }
}

} // verus!
