use pso_markowitz::{
    bounds_admit, fitness_from, integer_sqrt, portfolio_fitness, portfolio_return,
    portfolio_variance, project, Activo, Bounds, Coefficients, ConfigError, Correlation,
    DataError, Particle, PortfolioModel, Rng, Swarm, SwarmConfig, UNDEFINED_FITNESS, WEIGHT_UNIT,
};

fn asset(id: usize, mean_return: i64, standard_deviation: i64) -> Activo {
    Activo { id, mean_return, standard_deviation }
}

fn corr(i: usize, j: usize, value: i64) -> Correlation {
    Correlation { i, j, value }
}

fn two_asset_model() -> PortfolioModel {
    let assets = vec![asset(1, 1000, 2000), asset(2, 500, 1000)];
    let corrs = vec![corr(1, 2, 0)];
    PortfolioModel::new(&assets, &corrs).unwrap()
}

fn standard_coefficients() -> Coefficients {
    Coefficients { inertia_weight: 7298, cognitive_coeff: 14962, social_coeff: 14962 }
}

fn config(particle_count: usize, bounds: Bounds, risk_free_rate: i64, seed: u64) -> SwarmConfig {
    SwarmConfig {
        particle_count,
        coefficients: standard_coefficients(),
        bounds,
        risk_free_rate,
        seed,
    }
}

fn long_only() -> Bounds {
    Bounds { min_weight: 0, max_weight: WEIGHT_UNIT }
}

fn assert_feasible(w: &[u64], b: Bounds) {
    let mut total: u64 = 0;
    for &x in w {
        assert!(b.min_weight <= x && x <= b.max_weight);
        total += x;
    }
    assert_eq!(total, WEIGHT_UNIT);
}

#[test]
fn model_covariance_matrix() {
    let assets = vec![asset(7, 1000, 2000), asset(3, 500, 1000), asset(5, -200, 500)];
    let corrs = vec![corr(7, 3, 5000), corr(5, 7, -2500), corr(3, 7, 1000)];
    let m = PortfolioModel::new(&assets, &corrs).unwrap();
    assert_eq!(m.asset_count(), 3);
    assert_eq!(m.mean_return(2), -200);
    assert_eq!(m.covariance(0, 0), 2000 * 2000 * 10000);
    // the last record about a pair wins, in either order
    assert_eq!(m.covariance(0, 1), 2000 * 1000 * 1000);
    assert_eq!(m.covariance(1, 0), 2000 * 1000 * 1000);
    assert_eq!(m.covariance(2, 0), -(500 * 2000 * 2500));
    // no record: uncorrelated
    assert_eq!(m.covariance(1, 2), 0);
}

#[test]
fn model_rejects_too_few_assets() {
    let r = PortfolioModel::new(&vec![asset(1, 100, 100)], &vec![]);
    assert_eq!(r.err(), Some(DataError::TooFewAssets));
}

#[test]
fn model_rejects_out_of_range_asset() {
    let assets = vec![asset(1, 100, 100), asset(2, 100, -1)];
    let r = PortfolioModel::new(&assets, &vec![]);
    assert_eq!(r.err(), Some(DataError::AssetOutOfRange { index: 1 }));
}

#[test]
fn model_rejects_duplicate_asset() {
    let assets = vec![asset(1, 100, 100), asset(2, 100, 100), asset(1, 50, 50)];
    let r = PortfolioModel::new(&assets, &vec![]);
    assert_eq!(r.err(), Some(DataError::DuplicateAsset { index: 2 }));
}

#[test]
fn model_rejects_bad_correlations() {
    let assets = vec![asset(1, 100, 100), asset(2, 100, 100)];
    let r = PortfolioModel::new(&assets, &vec![corr(1, 2, 0), corr(2, 2, 0)]);
    assert_eq!(r.err(), Some(DataError::SelfCorrelation { index: 1 }));
    let r = PortfolioModel::new(&assets, &vec![corr(1, 9, 0)]);
    assert_eq!(r.err(), Some(DataError::UnknownAsset { index: 0 }));
    let r = PortfolioModel::new(&assets, &vec![corr(1, 2, 10001)]);
    assert_eq!(r.err(), Some(DataError::CorrelationOutOfRange { index: 0 }));
    let r = PortfolioModel::new(&assets, &vec![corr(1, 2, -10000)]);
    assert!(r.is_ok());
}

#[test]
fn return_variance_and_fitness() {
    let m = two_asset_model();
    let w = vec![400_000, 600_000];
    assert_eq!(portfolio_return(&m, &w), 700_000_000);
    assert_eq!(portfolio_variance(&m, &w), 10_000_000_000_000_000_000_000);
    // Sharpe ratio (0.07 - 0.02) / 0.1 = 0.5
    assert_eq!(portfolio_fitness(&m, &w, 200), -50_000_000);
}

#[test]
fn integer_square_roots() {
    assert_eq!(integer_sqrt(0), 0);
    assert_eq!(integer_sqrt(1), 1);
    assert_eq!(integer_sqrt(15), 3);
    assert_eq!(integer_sqrt(16), 4);
    assert_eq!(integer_sqrt(10_000_000_000_000_000_000_000), 100_000_000_000);
}

#[test]
fn fitness_of_degenerate_variance() {
    assert_eq!(fitness_from(5, 0), UNDEFINED_FITNESS);
    assert_eq!(fitness_from(5, -3), UNDEFINED_FITNESS);
    assert_eq!(fitness_from(-500_000_000, 10_000_000_000_000_000_000_000), 50_000_000);
    assert_eq!(fitness_from(1, 4), -5_000_000_000);
}

#[test]
fn projection_renormalises() {
    let r = project(&long_only(), &vec![300_000, 100_000]);
    assert_eq!(r, vec![750_000, 250_000]);
}

#[test]
fn projection_of_all_zero_vector() {
    let r = project(&long_only(), &vec![-5, 0]);
    assert_eq!(r, vec![1_000_000, 0]);
}

#[test]
fn projection_repairs_rounding() {
    let b = Bounds { min_weight: 100_000, max_weight: 600_000 };
    let r = project(&b, &vec![1_000_000, 1_000_000, 1_000_000]);
    assert_eq!(r, vec![333_334, 333_333, 333_333]);
}

#[test]
fn projection_respects_bounds() {
    let b = Bounds { min_weight: 100_000, max_weight: 500_000 };
    let r = project(&b, &vec![900_000, 0, 0, -40]);
    assert_feasible(&r, b);
    // clamped to (500k, 100k, 100k, 100k), scaled to (625k, 125k, 125k, 125k),
    // clamped again; the shortfall of 125k goes to the first entry with room
    assert_eq!(r, vec![500_000, 250_000, 125_000, 125_000]);
}

#[test]
fn projection_keeps_feasible_vector() {
    let b = Bounds { min_weight: 100_000, max_weight: 600_000 };
    let r = project(&b, &vec![200_000, 500_000, 300_000]);
    assert_eq!(r, vec![200_000, 500_000, 300_000]);
}

#[test]
fn bounds_admission() {
    assert!(bounds_admit(&long_only(), 2));
    assert!(bounds_admit(&Bounds { min_weight: 250_000, max_weight: 250_000 }, 4));
    assert!(!bounds_admit(&Bounds { min_weight: 400_000, max_weight: 500_000 }, 3));
    assert!(!bounds_admit(&Bounds { min_weight: 0, max_weight: 300_000 }, 3));
    assert!(!bounds_admit(&Bounds { min_weight: 0, max_weight: 0 }, 3));
    assert!(!bounds_admit(&long_only(), 0));
}

#[test]
fn generator_is_seeded() {
    let mut a = Rng::new(42);
    let mut b = Rng::new(42);
    let x = a.next_u64();
    assert_eq!(x, b.next_u64());
    assert_ne!(x, a.next_u64());
    for _ in 0..100 {
        let u = a.next_unit();
        assert!((0..=10_000).contains(&u));
    }
    // SplitMix64 from state 0
    assert_eq!(Rng::new(0).next_u64(), 0xe220_a839_7b1d_cdaf);
}

#[test]
fn particle_update_keeps_feasibility() {
    let m = two_asset_model();
    let b = Bounds { min_weight: 100_000, max_weight: 900_000 };
    let mut p = Particle::new(&m, &b, 200, &vec![100_000, 900_000]);
    assert_eq!(p.position, vec![100_000, 900_000]);
    assert_eq!(p.velocity, vec![0, 0]);
    let mut rng = Rng::new(7);
    let gb = vec![400_000, 600_000];
    let before = p.best_fitness;
    for _ in 0..20 {
        let f = p.update(&m, &b, 200, &standard_coefficients(), &gb, &mut rng);
        assert_feasible(&p.position, b);
        assert!(p.best_fitness <= f);
        assert!(p.best_fitness <= before);
    }
}

#[test]
fn config_errors() {
    let e = |c: SwarmConfig| Swarm::new(two_asset_model(), c).err();
    assert_eq!(e(config(0, long_only(), 200, 1)), Some(ConfigError::NoParticles));
    let mut c = config(3, long_only(), 200, 1);
    c.coefficients.social_coeff = -1;
    assert_eq!(e(c), Some(ConfigError::NegativeCoefficient));
    let tight = Bounds { min_weight: 0, max_weight: 400_000 };
    assert_eq!(e(config(3, tight, 200, 1)), Some(ConfigError::InfeasibleBounds));
    let mut s = Swarm::new(two_asset_model(), config(3, long_only(), 200, 1)).unwrap();
    assert_eq!(s.run(0, 0, 0).err(), Some(ConfigError::NoIterations));
}

#[test]
fn large_coefficients_and_rates_accepted() {
    let mut c = config(4, long_only(), 30_000, 8);
    c.coefficients = Coefficients {
        inertia_weight: 50_000,
        cognitive_coeff: 1_000_000,
        social_coeff: i64::MAX,
    };
    let mut s = Swarm::new(two_asset_model(), c).unwrap();
    let r = s.run(20, 0, 0).unwrap();
    assert_feasible(&r.weights, long_only());
    let b = Bounds { min_weight: 500_000, max_weight: 500_000 };
    c.bounds = b;
    let mut s = Swarm::new(two_asset_model(), c).unwrap();
    assert_eq!(s.run(5, 0, 0).unwrap().weights, vec![500_000, 500_000]);
}

#[test]
fn large_asset_statistics_accepted() {
    let assets = vec![asset(1, 15_000, 12_000), asset(2, -1_000_000, 1_000_000)];
    let m = PortfolioModel::new(&assets, &vec![corr(1, 2, 10_000)]).unwrap();
    assert_eq!(m.covariance(0, 1), 12_000 * 1_000_000 * 10_000);
    assert_eq!(m.covariance(1, 1), 1_000_000 * 1_000_000 * 10_000);
    let too_big = vec![asset(1, 100, 100), asset(2, 1_000_001, 100)];
    let r = PortfolioModel::new(&too_big, &vec![]);
    assert_eq!(r.err(), Some(DataError::AssetOutOfRange { index: 1 }));
    let mut s = Swarm::new(m, config(6, long_only(), 200, 4)).unwrap();
    let r = s.run(30, 0, 0).unwrap();
    assert_feasible(&r.weights, long_only());
}

#[test]
fn global_best_never_worsens() {
    let mut s = Swarm::new(two_asset_model(), config(10, long_only(), 200, 3)).unwrap();
    let mut last = s.global_best_fitness();
    for i in 0..50 {
        s.step();
        assert_eq!(s.iteration(), i + 1);
        let now = s.global_best_fitness();
        assert!(now <= last);
        last = now;
        assert_feasible(&s.global_best(), long_only());
    }
}

#[test]
fn runs_are_deterministic() {
    let run = || {
        let mut s = Swarm::new(two_asset_model(), config(12, long_only(), 200, 99)).unwrap();
        s.run(60, 0, 0).unwrap()
    };
    let a = run();
    let b = run();
    assert_eq!(a.weights, b.weights);
    assert_eq!(a.fitness, b.fitness);
    assert_eq!(a.portfolio_return, b.portfolio_return);
    assert_eq!(a.portfolio_variance, b.portfolio_variance);
    assert_eq!(a.iterations, b.iterations);
}

#[test]
fn converges_to_tangency_portfolio() {
    let mut s = Swarm::new(two_asset_model(), config(30, long_only(), 200, 42)).unwrap();
    let r = s.run(200, 0, 0).unwrap();
    assert_feasible(&r.weights, long_only());
    // closed form for two uncorrelated assets: w ~ (mu - rf) / sigma^2 = (2, 3)
    assert!(r.weights[0].abs_diff(400_000) <= 10_000, "{:?}", r.weights);
    assert!(r.weights[1].abs_diff(600_000) <= 10_000, "{:?}", r.weights);
    assert!(r.fitness <= -49_500_000);
    assert_eq!(r.iterations, 200);
    assert_eq!(r.portfolio_return, portfolio_return(&two_asset_model(), &r.weights));
}

#[test]
fn anti_correlated_pair_hedges() {
    let assets = vec![asset(1, 800, 2000), asset(2, 800, 2000)];
    let m = PortfolioModel::new(&assets, &vec![corr(1, 2, -10000)]).unwrap();
    let mut s = Swarm::new(m, config(20, long_only(), 200, 5)).unwrap();
    let r = s.run(300, 0, 0).unwrap();
    assert!(r.weights[0].abs_diff(500_000) <= 20_000, "{:?}", r.weights);
    assert!(r.weights[1].abs_diff(500_000) <= 20_000, "{:?}", r.weights);
    assert_feasible(&r.weights, long_only());
}

#[test]
fn pinned_bounds_give_equal_weights() {
    let assets = vec![asset(1, 800, 2000), asset(2, 300, 500), asset(3, 100, 100), asset(4, 0, 0)];
    let m = PortfolioModel::new(&assets, &vec![]).unwrap();
    let b = Bounds { min_weight: 250_000, max_weight: 250_000 };
    let mut s = Swarm::new(m, config(5, b, 200, 11)).unwrap();
    assert_eq!(s.global_best(), vec![250_000; 4]);
    let r = s.run(10, 0, 0).unwrap();
    assert_eq!(r.weights, vec![250_000; 4]);
}

#[test]
fn early_stop_after_stale_window() {
    let assets = vec![asset(1, 800, 2000), asset(2, 300, 500)];
    let m = PortfolioModel::new(&assets, &vec![]).unwrap();
    let b = Bounds { min_weight: 500_000, max_weight: 500_000 };
    let mut s = Swarm::new(m, config(4, b, 200, 2)).unwrap();
    let r = s.run(100, 0, 3).unwrap();
    assert_eq!(r.iterations, 3);
    assert_eq!(s.iteration(), 3);
}
