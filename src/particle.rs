use vstd::prelude::*;
use vstd::wrapping::u64_specs;

use crate::model::{PortfolioModel, UNIT, WEIGHT_UNIT};
use crate::objective::{
    lemma_same_data_same_fitness, portfolio_fitness, portfolio_fitness_of, FITNESS_FLOOR,
};
use crate::projection::{as_ints, bounds_feasible, clamp, feasible, project, projection, Bounds};
use crate::rng::{advance, unit_draw, Rng, GAMMA};

verus! {

/// Largest speed of a coordinate, in units of `1 / WEIGHT_UNIT`: 10^9 whole
/// weights, far beyond any move between feasible portfolios, and small
/// enough that a position plus a velocity fits in an `i64`.
pub const VELOCITY_LIMIT: i64 = 1_000_000_000_000_000;

/// The swarm's coefficients, in units of `1 / UNIT`.
#[derive(Clone, Copy, Debug, PartialEq, Eq)]
pub struct Coefficients {
    pub inertia_weight: i64,
    pub cognitive_coeff: i64,
    pub social_coeff: i64,
}

pub open spec fn coefficients_ok(c: Coefficients) -> bool {
    &&& 0 <= c.inertia_weight
    &&& 0 <= c.cognitive_coeff
    &&& 0 <= c.social_coeff
}

/// `a / d`, rounded toward zero.
pub open spec fn toward_zero(a: int, d: int) -> int {
    if a >= 0 {
        a / d
    } else {
        -((-a) / d)
    }
}

/// The new velocity of one coordinate:
/// inertia * v + cognitive * r1 * (pb - x) + social * r2 * (gb - x),
/// with r1, r2 draws from [0, 1], each term rounded toward zero, and the result
/// limited to `VELOCITY_LIMIT` either way.
pub open spec fn next_velocity(
    c: Coefficients,
    v: int,
    x: int,
    pb: int,
    gb: int,
    r1: int,
    r2: int,
) -> int {
    clamp(
        toward_zero(c.inertia_weight * v, UNIT as int) + toward_zero(
            c.cognitive_coeff * r1 * (pb - x),
            UNIT * UNIT,
        ) + toward_zero(c.social_coeff * r2 * (gb - x), UNIT * UNIT),
        -(VELOCITY_LIMIT as int),
        VELOCITY_LIMIT as int,
    )
}

/// `new` is `old` moved toward its own best and the global best `gb`, with
/// the draws that follow generator state `state`: the velocity by
/// `next_velocity`, the position by projecting old position plus new
/// velocity, and the personal best replaced where the new position is
/// strictly better.
pub open spec fn moved(
    old: Particle,
    new: Particle,
    m: PortfolioModel,
    b: Bounds,
    rf: int,
    c: Coefficients,
    gb: Seq<u64>,
    state: u64,
) -> bool {
    let f = portfolio_fitness_of(m, new.position@, rf);
    &&& new.velocity@.len() == m.n()
    &&& new.position@.len() == m.n()
    &&& forall|i: int|
        0 <= i < m.n() ==> #[trigger] new.velocity@[i] == next_velocity(
            c,
            old.velocity@[i] as int,
            old.position@[i] as int,
            old.best_position@[i] as int,
            gb[i] as int,
            unit_draw(state, (2 * i) as nat),
            unit_draw(state, (2 * i + 1) as nat),
        )
    &&& as_ints(new.position@) == projection(
        Seq::new(m.n() as nat, |i: int| (old.position@[i] + new.velocity@[i]) as i64),
        b,
    )
    &&& f < old.best_fitness ==> new.best_position@ == new.position@ && new.best_fitness == f
    &&& f >= old.best_fitness ==> new.best_position@ == old.best_position@ && new.best_fitness
        == old.best_fitness
}

/// A move is determined: from particles in the same state, over models
/// with the same data, with the same inputs and generator state, two moves
/// end in the same state.
pub proof fn lemma_move_determined(
    old: Particle,
    old2: Particle,
    p: Particle,
    q: Particle,
    m: PortfolioModel,
    m2: PortfolioModel,
    b: Bounds,
    rf: int,
    c: Coefficients,
    gb: Seq<u64>,
    state: u64,
)
    requires
        PortfolioModel::same_data(m, m2),
        old.position@ == old2.position@,
        old.velocity@ == old2.velocity@,
        old.best_position@ == old2.best_position@,
        old.best_fitness == old2.best_fitness,
        moved(old, p, m, b, rf, c, gb, state),
        moved(old2, q, m2, b, rf, c, gb, state),
    ensures
        p.velocity@ == q.velocity@,
        p.position@ == q.position@,
        p.best_position@ == q.best_position@,
        p.best_fitness == q.best_fitness,
{
    assert(p.velocity@ =~= q.velocity@);
    let raw = Seq::new(m.n() as nat, |i: int| (old.position@[i] + p.velocity@[i]) as i64);
    assert(raw =~= Seq::new(m2.n() as nat, |i: int| (old2.position@[i] + q.velocity@[i]) as i64));
    assert forall|i: int| 0 <= i < m.n() implies p.position@[i] == q.position@[i] by {
        assert(as_ints(p.position@)[i] == as_ints(q.position@)[i]);
    }
    assert(p.position@ =~= q.position@);
    lemma_same_data_same_fitness(m, m2, p.position@, rf);
}

/// A candidate portfolio of the swarm.
pub struct Particle {
    pub position: Vec<u64>,
    pub velocity: Vec<i64>,
    pub best_position: Vec<u64>,
    pub best_fitness: i128,
}

impl Particle {
    pub open spec fn wf(&self, m: PortfolioModel, b: Bounds, rf: int) -> bool {
        &&& m.wf()
        &&& bounds_feasible(b, m.n())
        &&& self.position@.len() == m.n()
        &&& self.velocity@.len() == m.n()
        &&& self.best_position@.len() == m.n()
        &&& feasible(self.position@, b)
        &&& feasible(self.best_position@, b)
        &&& forall|i: int|
            0 <= i < m.n() ==> -VELOCITY_LIMIT <= #[trigger] self.velocity@[i] <= VELOCITY_LIMIT
        &&& self.best_fitness == portfolio_fitness_of(m, self.best_position@, rf)
        &&& self.best_fitness >= -FITNESS_FLOOR
    }

    /// A particle at the projection of `raw`, at rest.
    pub fn new(m: &PortfolioModel, b: &Bounds, rf: i64, raw: &Vec<i64>) -> (r: Particle)
        requires
            m.wf(),
            bounds_feasible(*b, m.n()),
            raw@.len() == m.n(),
        ensures
            r.wf(*m, *b, rf as int),
            as_ints(r.position@) == projection(raw@, *b),
            r.best_position@ == r.position@,
            forall|i: int| 0 <= i < m.n() ==> #[trigger] r.velocity@[i] == 0,
    {
        let position = project(b, raw);
        let fitness = portfolio_fitness(m, &position, rf);
        let mut velocity: Vec<i64> = Vec::new();
        let mut k: usize = 0;
        while k < raw.len()
            invariant
                k <= raw@.len(),
                velocity@.len() == k,
                forall|i: int| 0 <= i < k ==> #[trigger] velocity@[i] == 0,
            decreases raw@.len() - k,
        {
            velocity.push(0);
            k += 1;
        }
        let best_position = position.clone();
        proof {
            assert(best_position@ =~= position@);
        }
        Particle { position, velocity, best_position, best_fitness: fitness }
    }

    /// Moves the particle toward its own best and the global best `gb`, keeps
    /// it feasible, and records a better personal best. Returns the fitness at
    /// the new position.
    pub fn update(
        &mut self,
        m: &PortfolioModel,
        b: &Bounds,
        rf: i64,
        c: &Coefficients,
        gb: &Vec<u64>,
        rng: &mut Rng,
    ) -> (f: i128)
        requires
            old(self).wf(*m, *b, rf as int),
            coefficients_ok(*c),
            feasible(gb@, *b),
            gb@.len() == m.n(),
        ensures
            final(self).wf(*m, *b, rf as int),
            f == portfolio_fitness_of(*m, final(self).position@, rf as int),
            f >= -FITNESS_FLOOR,
            moved(*old(self), *final(self), *m, *b, rf as int, *c, gb@, old(rng).state),
            final(rng).state == advance(old(rng).state, 2 * m.n() as nat),
    {
        let n = self.position.len();
        let mut velocity: Vec<i64> = Vec::new();
        let mut raw: Vec<i64> = Vec::new();
        let ghost s0 = rng.state;
        let mut k: usize = 0;
        while k < n
            invariant
                n == m.n(),
                self.wf(*m, *b, rf as int),
                coefficients_ok(*c),
                gb@.len() == n,
                feasible(gb@, *b),
                k <= n,
                velocity@.len() == k,
                raw@.len() == k,
                rng.state == advance(s0, 2 * k as nat),
                forall|i: int|
                    0 <= i < k ==> #[trigger] velocity@[i] == next_velocity(
                        *c,
                        self.velocity@[i] as int,
                        self.position@[i] as int,
                        self.best_position@[i] as int,
                        gb@[i] as int,
                        unit_draw(s0, (2 * i) as nat),
                        unit_draw(s0, (2 * i + 1) as nat),
                    ),
                forall|i: int|
                    0 <= i < k ==> -VELOCITY_LIMIT <= #[trigger] velocity@[i] <= VELOCITY_LIMIT,
                forall|i: int|
                    0 <= i < k ==> #[trigger] raw@[i] == self.position@[i] + velocity@[i],
            decreases n - k,
        {
            let r1 = rng.next_unit();
            let r2 = rng.next_unit();
            let x = self.position[k] as i128;
            let v = velocity_step(
                c,
                self.velocity[k] as i128,
                x,
                self.best_position[k] as i128,
                gb[k] as i128,
                r1 as i128,
                r2 as i128,
            );
            proof {
                assert(advance(s0, (2 * k + 1) as nat) == u64_specs::wrapping_add(
                    advance(s0, (2 * k) as nat),
                    GAMMA,
                ));
                assert(advance(s0, (2 * k + 2) as nat) == u64_specs::wrapping_add(
                    advance(s0, (2 * k + 1) as nat),
                    GAMMA,
                ));
            }
            velocity.push(v);
            raw.push((x as i64) + v);
            k += 1;
        }
        let ghost old_self = *self;
        proof {
            assert(raw@ =~= Seq::new(
                n as nat,
                |i: int| (old_self.position@[i] + velocity@[i]) as i64,
            ));
        }
        let position = project(b, &raw);
        let f = portfolio_fitness(m, &position, rf);
        if f < self.best_fitness {
            self.best_position = position.clone();
            self.best_fitness = f;
            proof {
                assert(self.best_position@ =~= position@);
            }
        }
        self.position = position;
        self.velocity = velocity;
        f
    }
}

/// `a / d` rounded toward zero.
fn div_toward_zero(a: i128, d: i128) -> (r: i128)
    requires
        d > 0,
        -10_000_000_000_000_000_000_000_000_000_000_000 <= a
            <= 10_000_000_000_000_000_000_000_000_000_000_000,
    ensures
        r == toward_zero(a as int, d as int),
        a >= 0 ==> 0 <= r <= a,
        a < 0 ==> a <= r <= 0,
{
    if a >= 0 {
        a / d
    } else {
        -((-a) / d)
    }
}

fn velocity_step(c: &Coefficients, v: i128, x: i128, pb: i128, gb: i128, r1: i128, r2: i128) -> (r:
    i64)
    requires
        coefficients_ok(*c),
        -VELOCITY_LIMIT <= v <= VELOCITY_LIMIT,
        0 <= x <= WEIGHT_UNIT,
        0 <= pb <= WEIGHT_UNIT,
        0 <= gb <= WEIGHT_UNIT,
        0 <= r1 <= UNIT,
        0 <= r2 <= UNIT,
    ensures
        r == next_velocity(*c, v as int, x as int, pb as int, gb as int, r1 as int, r2 as int),
        -VELOCITY_LIMIT <= r <= VELOCITY_LIMIT,
{
    let w = c.inertia_weight as i128;
    let c1 = c.cognitive_coeff as i128;
    let c2 = c.social_coeff as i128;
    assert(-10_000_000_000_000_000_000_000_000_000_000_000 <= w * v
        <= 10_000_000_000_000_000_000_000_000_000_000_000) by (nonlinear_arith)
        requires
            0 <= w <= 9_223_372_036_854_775_807,
            -1_000_000_000_000_000 <= v <= 1_000_000_000_000_000,
    ;
    assert(0 <= c1 * r1 <= 100_000_000_000_000_000_000_000) by (nonlinear_arith)
        requires
            0 <= c1 <= 9_223_372_036_854_775_807,
            0 <= r1 <= 10_000,
    ;
    assert(0 <= c2 * r2 <= 100_000_000_000_000_000_000_000) by (nonlinear_arith)
        requires
            0 <= c2 <= 9_223_372_036_854_775_807,
            0 <= r2 <= 10_000,
    ;
    let p1 = c1 * r1;
    let p2 = c2 * r2;
    assert(-100_000_000_000_000_000_000_000_000_000 <= p1 * (pb - x)
        <= 100_000_000_000_000_000_000_000_000_000) by (nonlinear_arith)
        requires
            0 <= p1 <= 100_000_000_000_000_000_000_000,
            -1_000_000 <= pb - x <= 1_000_000,
    ;
    assert(-100_000_000_000_000_000_000_000_000_000 <= p2 * (gb - x)
        <= 100_000_000_000_000_000_000_000_000_000) by (nonlinear_arith)
        requires
            0 <= p2 <= 100_000_000_000_000_000_000_000,
            -1_000_000 <= gb - x <= 1_000_000,
    ;
    let a = div_toward_zero(w * v, UNIT as i128);
    let b1 = div_toward_zero(p1 * (pb - x), (UNIT as i128) * (UNIT as i128));
    let b2 = div_toward_zero(p2 * (gb - x), (UNIT as i128) * (UNIT as i128));
    let s = a + b1 + b2;
    let lim = VELOCITY_LIMIT as i128;
    if s < -lim {
        -VELOCITY_LIMIT
    } else if s > lim {
        VELOCITY_LIMIT
    } else {
        s as i64
    }
}

} // verus!
