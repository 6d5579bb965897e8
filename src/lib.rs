//! Particle swarm optimisation of a mean-variance portfolio, in fixed-point
//! arithmetic.
//!
//! Statistics (mean returns, standard deviations, correlations, the risk-free
//! rate and the swarm coefficients) are integers in units of `1 / UNIT`;
//! portfolio weights are integers in units of `1 / WEIGHT_UNIT`. The swarm
//! minimises fitness, minus the Sharpe ratio in units of `1 / FITNESS_UNIT`.
mod loader;
mod model;
mod objective;
mod particle;
mod projection;
mod rng;
mod swarm;

pub use loader::{parse_count, parse_fixed, MAX_COUNT, MAX_INTEGER_PART};
pub use model::{
    Activo, Correlation, DataError, PortfolioModel, MAX_COV, MAX_STAT, UNIT, WEIGHT_UNIT,
};
pub use objective::{
    fitness_from, integer_sqrt, portfolio_fitness, portfolio_return, portfolio_variance,
    EXCESS_LIMIT, FITNESS_FLOOR, FITNESS_UNIT, UNDEFINED_FITNESS,
};
pub use particle::{Coefficients, Particle, VELOCITY_LIMIT};
pub use projection::{bounds_admit, project, Bounds};
pub use rng::Rng;
pub use swarm::{ConfigError, OptimizationResult, Swarm, SwarmConfig};
