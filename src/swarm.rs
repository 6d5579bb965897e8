use vstd::prelude::*;

use crate::model::PortfolioModel;
use crate::objective::{
    lemma_same_data_same_fitness, portfolio_fitness_of, portfolio_return, portfolio_return_of, portfolio_variance,
    portfolio_variance_of, FITNESS_FLOOR,
};
use crate::particle::{coefficients_ok, lemma_move_determined, moved, Coefficients, Particle};
use crate::projection::{
    as_ints, bounds_admit, bounds_feasible, feasible, lemma_pinned_bounds_force, projection, Bounds,
};
use crate::rng::{advance, unit_draw, Rng};

verus! {

/// `WEIGHT_UNIT / UNIT`: turns a draw from `0 ..= UNIT` into a weight.
pub const WEIGHTS_PER_UNIT: i64 = 100;

/// How a swarm is set up.
#[derive(Clone, Copy, Debug, PartialEq, Eq)]
pub struct SwarmConfig {
    pub particle_count: usize,
    pub coefficients: Coefficients,
    pub bounds: Bounds,
    /// In units of `1 / UNIT`.
    pub risk_free_rate: i64,
    pub seed: u64,
}

/// Why a swarm cannot be set up or run.
#[derive(Clone, Copy, Debug, PartialEq, Eq, Structural)]
pub enum ConfigError {
    NoParticles,
    NegativeCoefficient,
    InfeasibleBounds,
    NoIterations,
}

/// The error, if any, of a configuration for `n` assets; checked in this order.
pub open spec fn config_error(c: SwarmConfig, n: int) -> Option<ConfigError> {
    let k = c.coefficients;
    if c.particle_count < 1 {
        Some(ConfigError::NoParticles)
    } else if k.inertia_weight < 0 || k.cognitive_coeff < 0 || k.social_coeff < 0 {
        Some(ConfigError::NegativeCoefficient)
    } else if !bounds_feasible(c.bounds, n) {
        Some(ConfigError::InfeasibleBounds)
    } else {
        None
    }
}

/// The start vector of particle `k` of `n` assets: draws `k * n ..` of a
/// generator seeded with `seed`, as weights.
pub open spec fn start_vector(seed: u64, n: int, k: int) -> Seq<i64> {
    Seq::new(n as nat, |i: int| start_weight(seed, n, k, i))
}

pub open spec fn start_weight(seed: u64, n: int, k: int, i: int) -> i64 {
    (unit_draw(seed, (k * n + i) as nat) * WEIGHTS_PER_UNIT) as i64
}

/// Particle `p` is particle `k` as set up: at rest at the projection of its
/// start vector, which is also its personal best.
pub open spec fn started(p: Particle, seed: u64, n: int, k: int, b: Bounds) -> bool {
    &&& as_ints(p.position@) == projection(start_vector(seed, n, k), b)
    &&& p.best_position@ == p.position@
    &&& p.velocity@.len() == n
    &&& forall|i: int| 0 <= i < n ==> #[trigger] p.velocity@[i] == 0
}

/// The position of the particle that a scan picks, where none beat the
/// first particle.
pub open spec fn first_best(i: int) -> int {
    if i < 0 {
        0
    } else {
        i
    }
}

/// The best personal best among the first `j` particles, starting from
/// `init`: its fitness, and the position of the first particle that holds it
/// (or -1 where none is better than `init`).
pub open spec fn scan_best(ps: Seq<Particle>, init: int, j: int) -> (int, int)
    decreases j,
{
    if j <= 0 {
        (init, -1)
    } else {
        let prev = scan_best(ps, init, j - 1);
        if (ps[j - 1].best_fitness as int) < prev.0 {
            (ps[j - 1].best_fitness as int, j - 1)
        } else {
            prev
        }
    }
}

proof fn lemma_scan_same(ps: Seq<Particle>, qs: Seq<Particle>, init: int, j: int)
    requires
        0 <= j <= ps.len(),
        j <= qs.len(),
        forall|k: int| 0 <= k < j ==> (#[trigger] ps[k]).best_fitness == qs[k].best_fitness,
    ensures
        scan_best(ps, init, j) == scan_best(qs, init, j),
        -1 <= scan_best(ps, init, j).1 < j,
    decreases j,
{
    if j > 0 {
        lemma_scan_same(ps, qs, init, j - 1);
    }
}

proof fn lemma_scan_le(ps: Seq<Particle>, init: int, j: int)
    ensures
        scan_best(ps, init, j).0 <= init,
    decreases j,
{
    if j > 0 {
        lemma_scan_le(ps, init, j - 1);
    }
}

proof fn lemma_advance_add(s: u64, a: nat, b: nat)
    ensures
        advance(advance(s, a), b) == advance(s, a + b),
    decreases b,
{
    if b > 0 {
        lemma_advance_add(s, a, (b - 1) as nat);
    }
}

/// The outcome of a run: the best portfolio found, its fitness, and its
/// return and variance computed afresh.
pub struct OptimizationResult {
    pub weights: Vec<u64>,
    pub fitness: i128,
    pub portfolio_return: i128,
    pub portfolio_variance: i128,
    pub iterations: u64,
}

/// A swarm of particles searching for the portfolio of least fitness.
pub struct Swarm {
    model: PortfolioModel,
    config: SwarmConfig,
    particles: Vec<Particle>,
    best_position: Vec<u64>,
    best_fitness: i128,
    iteration: u64,
    rng: Rng,
}

impl Swarm {
    pub closed spec fn model(&self) -> PortfolioModel {
        self.model
    }

    pub closed spec fn config(&self) -> SwarmConfig {
        self.config
    }

    pub closed spec fn global_best_fitness_of(&self) -> int {
        self.best_fitness as int
    }

    pub closed spec fn global_best_of(&self) -> Seq<u64> {
        self.best_position@
    }

    pub closed spec fn iterations_done(&self) -> int {
        self.iteration as int
    }

    /// The fitness of each particle's personal best.
    pub closed spec fn personal_bests(&self) -> Seq<int> {
        self.particles@.map_values(|p: Particle| p.best_fitness as int)
    }

    pub closed spec fn wf(&self) -> bool {
        let rf = self.config.risk_free_rate as int;
        let b = self.config.bounds;
        &&& self.model.wf()
        &&& config_error(self.config, self.model.n()) is None
        &&& self.particles@.len() == self.config.particle_count
        &&& forall|k: int|
            0 <= k < self.particles@.len() ==> (#[trigger] self.particles@[k]).wf(
                self.model,
                b,
                rf,
            )
        &&& self.best_position@.len() == self.model.n()
        &&& feasible(self.best_position@, b)
        &&& self.best_fitness == portfolio_fitness_of(self.model, self.best_position@, rf)
        &&& self.best_fitness >= -FITNESS_FLOOR
        &&& forall|k: int|
            0 <= k < self.particles@.len() ==> self.best_fitness
                <= (#[trigger] self.particles@[k]).best_fitness
    }

    /// The facts of `wf` that callers rely on.
    pub proof fn lemma_wf(&self)
        requires
            self.wf(),
        ensures
            self.model().wf(),
            config_error(self.config(), self.model().n()) is None,
            self.global_best_of().len() == self.model().n(),
            feasible(self.global_best_of(), self.config().bounds),
            self.global_best_fitness_of() == portfolio_fitness_of(
                self.model(),
                self.global_best_of(),
                self.config().risk_free_rate as int,
            ),
            self.personal_bests().len() == self.config().particle_count,
            forall|k: int|
                0 <= k < self.personal_bests().len() ==> self.global_best_fitness_of()
                    <= #[trigger] self.personal_bests()[k],
    {
    }

    /// Under bounds with equal minimum and maximum, the global best is the
    /// equal-weight portfolio from the start, whatever its fitness.
    pub proof fn lemma_pinned_best(&self)
        requires
            self.wf(),
            self.config().bounds.min_weight == self.config().bounds.max_weight,
        ensures
            forall|i: int|
                0 <= i < self.global_best_of().len() ==> #[trigger] self.global_best_of()[i]
                    == self.config().bounds.min_weight,
    {
        lemma_pinned_bounds_force(self.best_position@, self.config.bounds);
    }

    /// Sets up a swarm over `model`: each particle starts at the projection
    /// of a random vector, at rest; the global best is the best of them.
    pub fn new(model: PortfolioModel, config: SwarmConfig) -> (r: Result<Swarm, ConfigError>)
        requires
            model.wf(),
        ensures
            r matches Err(e) ==> config_error(config, model.n()) == Some(e),
            r is Ok <==> config_error(config, model.n()) is None,
            r matches Ok(s) ==> {
                &&& s.wf()
                &&& s.model() == model
                &&& s.config() == config
                &&& s.iterations_done() == 0
                &&& Swarm::initialized(s)
            },
    {
        let n = model.asset_count();
        let k = config.coefficients;
        if config.particle_count < 1 {
            return Err(ConfigError::NoParticles);
        }
        if k.inertia_weight < 0 || k.cognitive_coeff < 0 || k.social_coeff < 0 {
            return Err(ConfigError::NegativeCoefficient);
        }
        if !bounds_admit(&config.bounds, n) {
            return Err(ConfigError::InfeasibleBounds);
        }
        let rf = config.risk_free_rate;
        let b = config.bounds;
        let mut rng = Rng::new(config.seed);
        let mut particles: Vec<Particle> = Vec::new();
        let mut c: usize = 0;
        while c < config.particle_count
            invariant
                model.wf(),
                n == model.n(),
                config_error(config, n as int) is None,
                rf == config.risk_free_rate,
                b == config.bounds,
                c <= config.particle_count,
                particles@.len() == c,
                forall|j: int| 0 <= j < c ==> (#[trigger] particles@[j]).wf(model, b, rf as int),
                rng.state == advance(config.seed, (c * n) as nat),
                forall|j: int|
                    0 <= j < c ==> started(#[trigger] particles@[j], config.seed, n as int, j, b),
            decreases config.particle_count - c,
        {
            let mut raw: Vec<i64> = Vec::new();
            let mut i: usize = 0;
            while i < n
                invariant
                    i <= n,
                    raw@.len() == i,
                    rng.state == advance(config.seed, (c * n + i) as nat),
                    forall|l: int| 0 <= l < i ==> #[trigger] raw@[l] == start_weight(config.seed, n as int, c as int, l),
                decreases n - i,
            {
                let u = rng.next_unit();
                proof {
                    assert(u as int == unit_draw(config.seed, (c * n + i) as nat));
                }
                raw.push(u * WEIGHTS_PER_UNIT);
                i += 1;
            }
            proof {
                assert(raw@ =~= start_vector(config.seed, n as int, c as int));
                assert((c + 1) * n == c * n + n) by (nonlinear_arith);
            }
            particles.push(Particle::new(&model, &b, rf, &raw));
            c += 1;
        }
        let mut best: usize = 0;
        let mut j: usize = 1;
        let ghost init = particles@[0].best_fitness as int;
        proof {
            assert(scan_best(particles@, init, 0) == (init, -1int));
            assert(scan_best(particles@, init, 1) == (init, -1int));
        }
        while j < particles.len()
            invariant
                1 <= j <= particles@.len(),
                best < particles@.len(),
                init == particles@[0].best_fitness,
                particles@[best as int].best_fitness == scan_best(particles@, init, j as int).0,
                best as int == first_best(scan_best(particles@, init, j as int).1),
                forall|l: int|
                    0 <= l < j ==> particles@[best as int].best_fitness <= (
                    #[trigger] particles@[l]).best_fitness,
            decreases particles@.len() - j,
        {
            if particles[j].best_fitness < particles[best].best_fitness {
                best = j;
            }
            j += 1;
        }
        let best_position = particles[best].best_position.clone();
        let best_fitness = particles[best].best_fitness;
        proof {
            assert(best_position@ =~= particles@[best as int].best_position@);
        }
        Ok(Swarm { model, config, particles, best_position, best_fitness, iteration: 0, rng })
    }

    /// `s` is a swarm as set up from its model and configuration: particle `k`
    /// at rest at the projection of its start vector, which takes draws
    /// `k * n ..` of a generator seeded with the configured seed; the global
    /// best the first best of the particles.
    pub closed spec fn initialized(s: Swarm) -> bool {
        let n = s.model.n();
        let count = s.particles@.len();
        let first = s.particles@[0].best_fitness as int;
        let scan = scan_best(s.particles@, first, count as int);
        &&& forall|k: int|
            0 <= k < count ==> started(
                #[trigger] s.particles@[k],
                s.config.seed,
                n,
                k,
                s.config.bounds,
            )
        &&& s.rng.state == advance(s.config.seed, (count * n) as nat)
        &&& s.iteration == 0
        &&& s.best_fitness == scan.0
        &&& s.best_position@ == s.particles@[first_best(scan.1)].best_position@
    }

    /// A swarm is determined by its model's data and its configuration: two
    /// swarms set up from the same ones are in the same state.
    pub proof fn lemma_setup_determined(a: Swarm, b: Swarm)
        requires
            a.wf(),
            b.wf(),
            Swarm::initialized(a),
            Swarm::initialized(b),
            PortfolioModel::same_data(a.model(), b.model()),
            a.config() == b.config(),
        ensures
            Swarm::same_state(a, b),
    {
        let count = a.particles@.len();
        let n = a.model.n();
        assert forall|k: int| 0 <= k < count implies {
            &&& (#[trigger] a.particles@[k]).position@ == b.particles@[k].position@
            &&& a.particles@[k].velocity@ == b.particles@[k].velocity@
            &&& a.particles@[k].best_position@ == b.particles@[k].best_position@
            &&& a.particles@[k].best_fitness == b.particles@[k].best_fitness
        } by {
            let pa = a.particles@[k];
            let pb = b.particles@[k];
            assert(started(pa, a.config.seed, n, k, a.config.bounds));
            assert(started(pb, b.config.seed, n, k, b.config.bounds));
            assert forall|i: int| 0 <= i < n implies pa.position@[i] == pb.position@[i] by {
                assert(as_ints(pa.position@)[i] == as_ints(pb.position@)[i]);
            }
            assert(pa.position@ =~= pb.position@);
            assert(pa.velocity@ =~= pb.velocity@);
            assert(pa.wf(a.model, a.config.bounds, a.config.risk_free_rate as int));
            assert(pb.wf(b.model, b.config.bounds, b.config.risk_free_rate as int));
            lemma_same_data_same_fitness(
                a.model,
                b.model,
                pa.best_position@,
                a.config.risk_free_rate as int,
            );
        }
        assert(a.particle_states() =~= b.particle_states());
        lemma_scan_same(
            a.particles@,
            b.particles@,
            a.particles@[0].best_fitness as int,
            count as int,
        );
    }

    /// The state of each particle: position, velocity, personal best and its
    /// fitness.
    pub closed spec fn particle_states(&self) -> Seq<(Seq<u64>, Seq<i64>, Seq<u64>, i128)> {
        self.particles@.map_values(
            |p: Particle| (p.position@, p.velocity@, p.best_position@, p.best_fitness),
        )
    }

    pub closed spec fn generator_state(&self) -> u64 {
        self.rng.state
    }

    /// `new` is `old` after one iteration: particle `k` has moved with the
    /// global best of `old` and the generator as the particles before it left
    /// it; the global best is then the first personal best strictly better
    /// than all before it, starting from the old global best.
    pub closed spec fn stepped(old: Swarm, new: Swarm) -> bool {
        let n = old.model.n();
        let count = old.particles@.len();
        let s0 = old.rng.state;
        let scan = scan_best(new.particles@, old.best_fitness as int, count as int);
        &&& new.model == old.model
        &&& new.config == old.config
        &&& new.iteration == old.iteration + 1
        &&& new.particles@.len() == count
        &&& forall|k: int|
            0 <= k < count ==> moved(
                #[trigger] old.particles@[k],
                new.particles@[k],
                old.model,
                old.config.bounds,
                old.config.risk_free_rate as int,
                old.config.coefficients,
                old.best_position@,
                advance(s0, (2 * n * k) as nat),
            )
        &&& new.rng.state == advance(s0, (2 * n * count) as nat)
        &&& new.best_fitness == scan.0
        &&& new.best_position@ == if scan.1 < 0 {
            old.best_position@
        } else {
            new.particles@[scan.1].best_position@
        }
    }

    /// `a` and `b` are in the same state, over models with the same data.
    pub open spec fn same_state(a: Swarm, b: Swarm) -> bool {
        &&& PortfolioModel::same_data(a.model(), b.model())
        &&& a.config() == b.config()
        &&& a.iterations_done() == b.iterations_done()
        &&& a.generator_state() == b.generator_state()
        &&& a.particle_states() == b.particle_states()
        &&& a.global_best_of() == b.global_best_of()
        &&& a.global_best_fitness_of() == b.global_best_fitness_of()
    }

    /// An iteration is determined: iterations from swarms in the same state
    /// end in the same state.
    pub proof fn lemma_step_determined(s: Swarm, s2: Swarm, a: Swarm, b: Swarm)
        requires
            Swarm::same_state(s, s2),
            Swarm::stepped(s, a),
            Swarm::stepped(s2, b),
        ensures
            Swarm::same_state(a, b),
    {
        let n = s.model.n();
        let count = s.particles@.len();
        assert(s2.particles@.len() == count) by {
            assert(s.particle_states().len() == s2.particle_states().len());
        }
        assert forall|k: int| 0 <= k < count implies {
            &&& (#[trigger] a.particles@[k]).position@ == b.particles@[k].position@
            &&& a.particles@[k].velocity@ == b.particles@[k].velocity@
            &&& a.particles@[k].best_position@ == b.particles@[k].best_position@
            &&& a.particles@[k].best_fitness == b.particles@[k].best_fitness
        } by {
            assert(s.particle_states()[k] == s2.particle_states()[k]);
            lemma_move_determined(
                s.particles@[k],
                s2.particles@[k],
                a.particles@[k],
                b.particles@[k],
                s.model,
                s2.model,
                s.config.bounds,
                s.config.risk_free_rate as int,
                s.config.coefficients,
                s.best_position@,
                advance(s.rng.state, (2 * n * k) as nat),
            );
        }
        assert(a.particle_states() =~= b.particle_states());
        lemma_scan_same(a.particles@, b.particles@, s.best_fitness as int, count as int);
    }

    /// An iteration never makes the global best fitness worse.
    pub proof fn lemma_step_never_worsens(a: Swarm, b: Swarm)
        requires
            Swarm::stepped(a, b),
        ensures
            b.global_best_fitness_of() <= a.global_best_fitness_of(),
    {
        lemma_scan_le(b.particles@, a.best_fitness as int, a.particles@.len() as int);
    }

    /// Along a run the global best fitness never gets worse: from each step
    /// to the next, and from any step to any later one.
    pub proof fn lemma_run_never_worsens(
        trace: Seq<Swarm>,
        start: Swarm,
        end: Swarm,
        max: int,
        tol: int,
        window: int,
        its: int,
    )
        requires
            Swarm::is_run(trace, start, end, max, tol, window, its),
        ensures
            forall|i: int|
                0 <= i < its ==> (#[trigger] trace[i + 1]).global_best_fitness_of()
                    <= trace[i].global_best_fitness_of(),
            forall|i: int, j: int|
                0 <= i <= j <= its ==> (#[trigger] trace[j]).global_best_fitness_of()
                    <= (#[trigger] trace[i]).global_best_fitness_of(),
    {
        assert forall|i: int| 0 <= i < its implies (#[trigger] trace[i + 1]).global_best_fitness_of()
            <= trace[i].global_best_fitness_of() by {
            Swarm::lemma_step_never_worsens(trace[i], trace[i + 1]);
        }
        assert forall|i: int, j: int| 0 <= i <= j <= its implies (#[trigger] trace[j]).global_best_fitness_of()
            <= (#[trigger] trace[i]).global_best_fitness_of() by {
            Swarm::lemma_trace_descends(trace, its, i, j);
        }
    }

    proof fn lemma_trace_descends(trace: Seq<Swarm>, its: int, i: int, j: int)
        requires
            0 <= i <= j <= its,
            trace.len() == its + 1,
            forall|k: int|
                0 <= k < its ==> (#[trigger] trace[k + 1]).global_best_fitness_of()
                    <= trace[k].global_best_fitness_of(),
        ensures
            trace[j].global_best_fitness_of() <= trace[i].global_best_fitness_of(),
        decreases j - i,
    {
        if i < j {
            Swarm::lemma_trace_descends(trace, its, i, j - 1);
            assert(trace[(j - 1) + 1].global_best_fitness_of() <= trace[j - 1].global_best_fitness_of());
        }
    }

    /// Iterations in a row, since the last that improved the global best
    /// fitness by more than `tol`, at step `i` of `trace`.
    pub closed spec fn stale_after(trace: Seq<Swarm>, i: int, tol: int) -> int
        decreases i,
    {
        if i <= 0 {
            0
        } else if (trace[i].best_fitness as int) < trace[i - 1].best_fitness - tol {
            0
        } else {
            Swarm::stale_after(trace, i - 1, tol) + 1
        }
    }

    /// A run stops after step `i` of `trace` where the global best has not
    /// improved by more than `tol` for `window` steps (never for a window of 0).
    pub open spec fn stops_at(trace: Seq<Swarm>, i: int, tol: int, window: int) -> bool {
        window > 0 && Swarm::stale_after(trace, i, tol) >= window
    }

    /// `trace` is a run from `start` to `end` of `its` iterations: each one
    /// an iteration of the one before, stopping at the first step where
    /// `stops_at` holds or after `max` iterations.
    pub open spec fn is_run(
        trace: Seq<Swarm>,
        start: Swarm,
        end: Swarm,
        max: int,
        tol: int,
        window: int,
        its: int,
    ) -> bool {
        &&& 1 <= its <= max
        &&& trace.len() == its + 1
        &&& trace[0] == start
        &&& trace[its] == end
        &&& forall|i: int| 0 <= i < its ==> Swarm::stepped(#[trigger] trace[i], trace[i + 1])
        &&& forall|i: int| 1 <= i < its ==> !Swarm::stops_at(trace, i, tol, window)
        &&& (its == max || Swarm::stops_at(trace, its, tol, window))
    }

    proof fn lemma_stale_push(trace: Seq<Swarm>, x: Swarm, i: int, tol: int)
        requires
            0 <= i < trace.len(),
        ensures
            Swarm::stale_after(trace.push(x), i, tol) == Swarm::stale_after(trace, i, tol),
        decreases i,
    {
        if i > 0 {
            Swarm::lemma_stale_push(trace, x, i - 1, tol);
        }
    }

    proof fn lemma_trace_extend(t: Seq<Swarm>, x: Swarm, d: int, tol: int, window: int)
        requires
            d >= 0,
            t.len() == d + 1,
            forall|i: int| 0 <= i < d ==> Swarm::stepped(#[trigger] t[i], t[i + 1]),
            forall|i: int| 1 <= i <= d ==> !Swarm::stops_at(t, i, tol, window),
            Swarm::stepped(t[d], x),
        ensures
            t.push(x).len() == d + 2,
            t.push(x)[0] == t[0],
            t.push(x)[d + 1] == x,
            forall|i: int| 0 <= i < d + 1 ==> Swarm::stepped(#[trigger] t.push(x)[i], t.push(x)[i + 1]),
            forall|i: int| 1 <= i <= d ==> !Swarm::stops_at(t.push(x), i, tol, window),
            Swarm::stale_after(t.push(x), d + 1, tol) == if (x.best_fitness as int) < t[d].best_fitness
                - tol {
                0
            } else {
                Swarm::stale_after(t, d, tol) + 1
            },
    {
        let u = t.push(x);
        Swarm::lemma_stale_push(t, x, d, tol);
        assert forall|i: int| 1 <= i <= d implies !Swarm::stops_at(u, i, tol, window) by {
            assert(!Swarm::stops_at(t, i, tol, window));
            Swarm::lemma_stale_push(t, x, i, tol);
        }
        assert forall|i: int| 0 <= i < d + 1 implies Swarm::stepped(#[trigger] u[i], u[i + 1]) by {
            assert(u[i] == t[i]);
            if i < d {
                assert(u[i + 1] == t[i + 1]);
            }
        }
    }

    proof fn lemma_stale_same(t1: Seq<Swarm>, t2: Seq<Swarm>, i: int, tol: int)
        requires
            0 <= i < t1.len(),
            i < t2.len(),
            forall|j: int| 0 <= j <= i ==> Swarm::same_state(#[trigger] t1[j], t2[j]),
        ensures
            Swarm::stale_after(t1, i, tol) == Swarm::stale_after(t2, i, tol),
        decreases i,
    {
        if i > 0 {
            Swarm::lemma_stale_same(t1, t2, i - 1, tol);
            assert(Swarm::same_state(t1[i], t2[i]));
            assert(Swarm::same_state(t1[i - 1], t2[i - 1]));
        }
    }

    proof fn lemma_runs_agree(
        t1: Seq<Swarm>,
        t2: Seq<Swarm>,
        s1: Swarm,
        s2: Swarm,
        e1: Swarm,
        e2: Swarm,
        max: int,
        tol: int,
        window: int,
        i1: int,
        i2: int,
        i: int,
    )
        requires
            Swarm::same_state(s1, s2),
            Swarm::is_run(t1, s1, e1, max, tol, window, i1),
            Swarm::is_run(t2, s2, e2, max, tol, window, i2),
            0 <= i <= i1,
            i <= i2,
        ensures
            forall|j: int| 0 <= j <= i ==> Swarm::same_state(#[trigger] t1[j], t2[j]),
        decreases i,
    {
        if i > 0 {
            Swarm::lemma_runs_agree(t1, t2, s1, s2, e1, e2, max, tol, window, i1, i2, i - 1);
            assert(Swarm::stepped(t1[i - 1], t1[i]));
            assert(Swarm::stepped(t2[i - 1], t2[i]));
            Swarm::lemma_step_determined(t1[i - 1], t2[i - 1], t1[i], t2[i]);
        }
    }

    /// A run is determined: runs from swarms in the same state, with the same
    /// limits, take the same number of iterations and end in the same state.
    pub proof fn lemma_run_determined(
        t1: Seq<Swarm>,
        t2: Seq<Swarm>,
        s1: Swarm,
        s2: Swarm,
        e1: Swarm,
        e2: Swarm,
        max: int,
        tol: int,
        window: int,
        i1: int,
        i2: int,
    )
        requires
            Swarm::same_state(s1, s2),
            Swarm::is_run(t1, s1, e1, max, tol, window, i1),
            Swarm::is_run(t2, s2, e2, max, tol, window, i2),
        ensures
            i1 == i2,
            Swarm::same_state(e1, e2),
    {
        let m = if i1 <= i2 {
            i1
        } else {
            i2
        };
        Swarm::lemma_runs_agree(t1, t2, s1, s2, e1, e2, max, tol, window, i1, i2, m);
        Swarm::lemma_stale_same(t1, t2, m, tol);
        if i1 < i2 {
            assert(!Swarm::stops_at(t2, i1, tol, window));
        } else if i2 < i1 {
            assert(!Swarm::stops_at(t1, i2, tol, window));
        }
        assert(Swarm::same_state(t1[m], t2[m]));
    }

    /// Runs can be replayed: swarms set up from models with the same data and
    /// the same configuration (seed included), run with the same limits, take the same
    /// number of iterations and end in the same state.
    pub proof fn lemma_replay(
        a: Swarm,
        b: Swarm,
        t1: Seq<Swarm>,
        t2: Seq<Swarm>,
        e1: Swarm,
        e2: Swarm,
        max: int,
        tol: int,
        window: int,
        i1: int,
        i2: int,
    )
        requires
            a.wf(),
            b.wf(),
            Swarm::initialized(a),
            Swarm::initialized(b),
            PortfolioModel::same_data(a.model(), b.model()),
            a.config() == b.config(),
            Swarm::is_run(t1, a, e1, max, tol, window, i1),
            Swarm::is_run(t2, b, e2, max, tol, window, i2),
        ensures
            i1 == i2,
            Swarm::same_state(e1, e2),
    {
        Swarm::lemma_setup_determined(a, b);
        Swarm::lemma_run_determined(t1, t2, a, b, e1, e2, max, tol, window, i1, i2);
    }

    /// One synchronous iteration: every particle moves with the global best
    /// as it was at the start; then the global best is taken from the
    /// personal bests. The global best fitness never gets worse.
    pub fn step(&mut self)
        requires
            old(self).wf(),
            old(self).iterations_done() < u64::MAX,
        ensures
            final(self).wf(),
            Swarm::stepped(*old(self), *final(self)),
            final(self).model() == old(self).model(),
            final(self).config() == old(self).config(),
            final(self).iterations_done() == old(self).iterations_done() + 1,
            final(self).global_best_fitness_of() <= old(self).global_best_fitness_of(),
    {
        let gb = self.best_position.clone();
        proof {
            assert(gb@ =~= self.best_position@);
        }
        let rf = self.config.risk_free_rate;
        let b = self.config.bounds;
        let coeffs = self.config.coefficients;
        let count = self.particles.len();
        let ghost start = *self;
        let ghost n = self.model.n();
        let ghost s0 = self.rng.state;
        let mut k: usize = 0;
        while k < count
            invariant
                self.model == start.model,
                self.config == start.config,
                self.best_position == start.best_position,
                self.best_fitness == start.best_fitness,
                self.iteration == start.iteration,
                start.wf(),
                n == start.model.n(),
                s0 == start.rng.state,
                gb@ == start.best_position@,
                rf == self.config.risk_free_rate,
                b == self.config.bounds,
                coeffs == self.config.coefficients,
                count == self.particles@.len(),
                count == start.particles@.len(),
                k <= count,
                self.rng.state == advance(s0, (2 * n * k) as nat),
                forall|j: int|
                    0 <= j < count ==> (#[trigger] self.particles@[j]).wf(
                        self.model,
                        b,
                        rf as int,
                    ),
                forall|j: int|
                    0 <= j < k ==> moved(
                        #[trigger] start.particles@[j],
                        self.particles@[j],
                        start.model,
                        b,
                        rf as int,
                        coeffs,
                        gb@,
                        advance(s0, (2 * n * j) as nat),
                    ),
                forall|j: int| k <= j < count ==> #[trigger] self.particles@[j] == start.particles@[j],
            decreases count - k,
        {
            self.particles[k].update(&self.model, &b, rf, &coeffs, &gb, &mut self.rng);
            proof {
                lemma_advance_add(s0, (2 * n * k) as nat, (2 * n) as nat);
                assert(2 * n * k + 2 * n == 2 * n * (k + 1)) by (nonlinear_arith);
            }
            k += 1;
        }
        let mut best: i128 = self.best_fitness;
        let mut best_at: usize = count;
        let mut j: usize = 0;
        while j < count
            invariant
                count == self.particles@.len(),
                j <= count,
                best <= self.best_fitness,
                best_at == count ==> best == self.best_fitness,
                best_at < count ==> best == self.particles@[best_at as int].best_fitness,
                best_at <= count,
                best == scan_best(self.particles@, self.best_fitness as int, j as int).0,
                best_at == count <==> scan_best(self.particles@, self.best_fitness as int, j as int).1 < 0,
                best_at < count ==> best_at == scan_best(self.particles@, self.best_fitness as int, j as int).1,
                forall|l: int|
                    0 <= l < j ==> best <= (#[trigger] self.particles@[l]).best_fitness,
            decreases count - j,
        {
            if self.particles[j].best_fitness < best {
                best = self.particles[j].best_fitness;
                best_at = j;
            }
            j += 1;
        }
        if best_at < count {
            self.best_position = self.particles[best_at].best_position.clone();
            self.best_fitness = best;
            proof {
                assert(self.best_position@ =~= self.particles@[best_at as int].best_position@);
            }
        }
        self.iteration = self.iteration + 1;
    }

    /// Steps the swarm until `max_iterations` iterations are done, or until
    /// the global best fitness has not improved by more than `tolerance` for
    /// `window` iterations in a row (a `window` of zero never stops early).
    /// Reports the global best.
    #[verifier::rlimit(60)]
    pub fn run(&mut self, max_iterations: u64, tolerance: u64, window: u64) -> (r: Result<
        OptimizationResult,
        ConfigError,
    >)
        requires
            old(self).wf(),
            old(self).iterations_done() + max_iterations <= u64::MAX,
        ensures
            final(self).wf(),
            final(self).model() == old(self).model(),
            final(self).config() == old(self).config(),
            max_iterations == 0 ==> r == Err::<OptimizationResult, ConfigError>(
                ConfigError::NoIterations,
            ) && final(self).global_best_fitness_of() == old(self).global_best_fitness_of(),
            max_iterations > 0 ==> r is Ok,
            r matches Ok(res) ==> {
                &&& res.weights@ == final(self).global_best_of()
                &&& feasible(res.weights@, old(self).config().bounds)
                &&& res.fitness == final(self).global_best_fitness_of()
                &&& res.fitness <= old(self).global_best_fitness_of()
                &&& res.portfolio_return == portfolio_return_of(old(self).model(), res.weights@)
                &&& res.portfolio_variance == portfolio_variance_of(
                    old(self).model(),
                    res.weights@,
                )
                &&& 1 <= res.iterations <= max_iterations
                &&& res.iterations < max_iterations ==> 1 <= window <= res.iterations
                &&& final(self).iterations_done() == old(self).iterations_done()
                    + res.iterations
                &&& exists|trace: Seq<Swarm>|
                    Swarm::is_run(
                        trace,
                        *old(self),
                        *final(self),
                        max_iterations as int,
                        tolerance as int,
                        window as int,
                        res.iterations as int,
                    )
            },
    {
        if max_iterations == 0 {
            return Err(ConfigError::NoIterations);
        }
        let ghost start = *self;
        let ghost mut trace: Seq<Swarm> = seq![*self];
        let mut done: u64 = 0;
        let mut stale: u64 = 0;
        while done < max_iterations
            invariant_except_break
                forall|i: int|
                    1 <= i <= done ==> !Swarm::stops_at(trace, i, tolerance as int, window as int),
            invariant
                self.wf(),
                self.model == start.model,
                self.config == start.config,
                self.iteration == start.iteration + done,
                start.iteration + max_iterations <= u64::MAX,
                self.best_fitness <= start.best_fitness,
                done <= max_iterations,
                stale <= done,
                max_iterations > 0,
                trace.len() == done + 1,
                trace[0] == start,
                trace[done as int] == *self,
                forall|i: int| 0 <= i < done ==> Swarm::stepped(#[trigger] trace[i], trace[i + 1]),
                stale == Swarm::stale_after(trace, done as int, tolerance as int),
            ensures
                Swarm::is_run(
                    trace,
                    start,
                    *self,
                    max_iterations as int,
                    tolerance as int,
                    window as int,
                    done as int,
                ),
                1 <= done <= max_iterations,
                done < max_iterations ==> 1 <= window <= done,
                self.wf(),
                self.model == start.model,
                self.config == start.config,
                self.iteration == start.iteration + done,
                self.best_fitness <= start.best_fitness,
            decreases max_iterations - done,
        {
            let before = self.best_fitness;
            self.step();
            proof {
                Swarm::lemma_trace_extend(
                    trace,
                    *self,
                    done as int,
                    tolerance as int,
                    window as int,
                );
                trace = trace.push(*self);
            }
            done = done + 1;
            if self.best_fitness < before - tolerance as i128 {
                stale = 0;
            } else {
                stale = stale + 1;
            }
            proof {
                assert(stale == Swarm::stale_after(trace, done as int, tolerance as int));
            }
            if window > 0 && stale >= window {
                proof {
                    assert(Swarm::stops_at(trace, done as int, tolerance as int, window as int));
                }
                break;
            }
        }
        let weights = self.best_position.clone();
        proof {
            assert(weights@ =~= self.best_position@);
        }
        let ret = portfolio_return(&self.model, &weights);
        let var = portfolio_variance(&self.model, &weights);
        Ok(
            OptimizationResult {
                weights,
                fitness: self.best_fitness,
                portfolio_return: ret,
                portfolio_variance: var,
                iterations: done,
            },
        )
    }

    /// The fitness of the best portfolio found so far.
    pub fn global_best_fitness(&self) -> (r: i128)
        ensures
            r == self.global_best_fitness_of(),
    {
        self.best_fitness
    }

    /// The best portfolio found so far.
    pub fn global_best(&self) -> (r: Vec<u64>)
        ensures
            r@ == self.global_best_of(),
    {
        let r = self.best_position.clone();
        proof {
            assert(r@ =~= self.best_position@);
        }
        r
    }

    /// The number of iterations done.
    pub fn iteration(&self) -> (r: u64)
        ensures
            r == self.iterations_done(),
    {
        self.iteration
    }
}

} // verus!
