use vstd::prelude::*;

use crate::model::{MAX_COV, PortfolioModel, MAX_STAT, WEIGHT_UNIT};

verus! {

/// Fitness units per unit of Sharpe ratio.
pub const FITNESS_UNIT: i128 = 100_000_000;

/// Fitness of a portfolio whose Sharpe ratio is undefined (variance zero or
/// negative): the worst fitness there is.
pub const UNDEFINED_FITNESS: i128 = 170141183460469231731687303715884105727;

/// No fitness is below `-FITNESS_FLOOR`.
pub const FITNESS_FLOOR: i128 = 1_000_000_000_000_000_000_000_000_000_000_000_000;

/// Bound on the excess return of a portfolio over any `i64` risk-free rate:
/// above `MAX_STAT * WEIGHT_UNIT + i64::MAX * WEIGHT_UNIT`.
pub const EXCESS_LIMIT: i128 = 100_000_000_000_000_000_000_000_000;

/// Turns (excess return) / sqrt(variance), in the model's units, into fitness
/// units: excess return counts `UNIT * WEIGHT_UNIT` per 1.0, the square root of
/// the variance `UNIT^1.5 * WEIGHT_UNIT` (10^12) per 1.0.
pub const SHARPE_SCALE: u128 = 10_000_000_000;

/// Bound on sum over j of w_j * cov(i, j) where the weights total at most
/// one: `MAX_COV * WEIGHT_UNIT`.
pub const ROW_LIMIT: i128 = 10_000_000_000_000_000_000_000;

/// Sum of the first `k` weights.
pub open spec fn weight_sum(w: Seq<u64>, k: int) -> int
    decreases k,
{
    if k <= 0 {
        0
    } else {
        weight_sum(w, k - 1) + w[k - 1]
    }
}

pub open spec fn total_weight(w: Seq<u64>) -> int {
    weight_sum(w, w.len() as int)
}

/// sum over i < k of w_i * mean_i.
pub open spec fn return_upto(m: PortfolioModel, w: Seq<u64>, k: int) -> int
    decreases k,
{
    if k <= 0 {
        0
    } else {
        return_upto(m, w, k - 1) + w[k - 1] * m.mean(k - 1)
    }
}

/// sum over j < k of w_j * cov(i, j).
pub open spec fn row_upto(m: PortfolioModel, w: Seq<u64>, i: int, k: int) -> int
    decreases k,
{
    if k <= 0 {
        0
    } else {
        row_upto(m, w, i, k - 1) + w[k - 1] * m.cov(i, k - 1)
    }
}

/// sum over i < k of w_i * (sum over all j of w_j * cov(i, j)).
pub open spec fn variance_upto(m: PortfolioModel, w: Seq<u64>, k: int) -> int
    decreases k,
{
    if k <= 0 {
        0
    } else {
        variance_upto(m, w, k - 1) + w[k - 1] * row_upto(m, w, k - 1, w.len() as int)
    }
}

/// Expected return of the portfolio `w`: the sum of w_i * mean_i.
pub open spec fn portfolio_return_of(m: PortfolioModel, w: Seq<u64>) -> int {
    return_upto(m, w, w.len() as int)
}

/// Variance of the portfolio `w`: the quadratic form w' * Cov * w.
pub open spec fn portfolio_variance_of(m: PortfolioModel, w: Seq<u64>) -> int {
    variance_upto(m, w, w.len() as int)
}

pub open spec fn is_isqrt(r: int, v: int) -> bool {
    0 <= r && r * r <= v < (r + 1) * (r + 1)
}

/// The integer square root (rounded down) of a non-negative `v`.
pub open spec fn isqrt(v: int) -> int {
    choose|r: int| is_isqrt(r, v)
}

/// Minus the Sharpe ratio excess / sqrt(variance) in fitness units, rounded
/// toward zero, with the square root rounded down; a variance that is not
/// positive has the undefined fitness. Lower is better.
pub open spec fn fitness_of(excess: int, variance: int) -> int {
    if variance <= 0 {
        UNDEFINED_FITNESS as int
    } else if excess >= 0 {
        -((excess * SHARPE_SCALE) / isqrt(variance))
    } else {
        ((-excess) * SHARPE_SCALE) / isqrt(variance)
    }
}

/// Fitness of the portfolio `w` at risk-free rate `rf`.
pub open spec fn portfolio_fitness_of(m: PortfolioModel, w: Seq<u64>, rf: int) -> int {
    fitness_of(portfolio_return_of(m, w) - rf * WEIGHT_UNIT, portfolio_variance_of(m, w))
}

/// A weight vector for the model: one weight per asset, all of them summing
/// to at most one.
pub open spec fn weights_for(m: PortfolioModel, w: Seq<u64>) -> bool {
    w.len() == m.n() && total_weight(w) <= WEIGHT_UNIT
}

/// Models holding the same data give every portfolio the same return,
/// variance and fitness.
pub proof fn lemma_same_data_same_fitness(m1: PortfolioModel, m2: PortfolioModel, w: Seq<u64>, rf: int)
    requires
        PortfolioModel::same_data(m1, m2),
        w.len() == m1.n(),
    ensures
        portfolio_return_of(m1, w) == portfolio_return_of(m2, w),
        portfolio_variance_of(m1, w) == portfolio_variance_of(m2, w),
        portfolio_fitness_of(m1, w, rf) == portfolio_fitness_of(m2, w, rf),
{
    lemma_same_return(m1, m2, w, w.len() as int);
    lemma_same_variance(m1, m2, w, w.len() as int);
}

proof fn lemma_same_return(m1: PortfolioModel, m2: PortfolioModel, w: Seq<u64>, k: int)
    requires
        PortfolioModel::same_data(m1, m2),
        k <= m1.n(),
    ensures
        return_upto(m1, w, k) == return_upto(m2, w, k),
    decreases k,
{
    if k > 0 {
        lemma_same_return(m1, m2, w, k - 1);
        assert(m1.mean(k - 1) == m2.mean(k - 1));
    }
}

proof fn lemma_same_row(m1: PortfolioModel, m2: PortfolioModel, w: Seq<u64>, i: int, k: int)
    requires
        PortfolioModel::same_data(m1, m2),
        0 <= i < m1.n(),
        k <= m1.n(),
    ensures
        row_upto(m1, w, i, k) == row_upto(m2, w, i, k),
    decreases k,
{
    if k > 0 {
        lemma_same_row(m1, m2, w, i, k - 1);
        assert(m1.cov(i, k - 1) == m2.cov(i, k - 1));
    }
}

proof fn lemma_same_variance(m1: PortfolioModel, m2: PortfolioModel, w: Seq<u64>, k: int)
    requires
        PortfolioModel::same_data(m1, m2),
        w.len() == m1.n(),
        k <= m1.n(),
    ensures
        variance_upto(m1, w, k) == variance_upto(m2, w, k),
    decreases k,
{
    if k > 0 {
        lemma_same_variance(m1, m2, w, k - 1);
        lemma_same_row(m1, m2, w, k - 1, w.len() as int);
    }
}

proof fn lemma_weight_prefix(w: Seq<u64>, k: int, l: int)
    requires
        0 <= k <= l <= w.len(),
    ensures
        0 <= weight_sum(w, k) <= weight_sum(w, l),
    decreases l - k,
{
    if k < l {
        lemma_weight_prefix(w, k, l - 1);
    } else {
        lemma_weight_nonneg(w, k);
    }
}

proof fn lemma_weight_nonneg(w: Seq<u64>, k: int)
    requires
        0 <= k <= w.len(),
    ensures
        0 <= weight_sum(w, k),
    decreases k,
{
    if k > 0 {
        lemma_weight_nonneg(w, k - 1);
    }
}

proof fn lemma_scaled_term(x: int, y: int, bound: int)
    requires
        0 <= x,
        -bound <= y <= bound,
    ensures
        -(x * bound) <= x * y <= x * bound,
{
    assert(-(x * bound) <= x * y <= x * bound) by (nonlinear_arith)
        requires
            0 <= x,
            -bound <= y <= bound,
    ;
}

proof fn lemma_product_bound(x: int, xb: int, y: int, yb: int)
    requires
        0 <= x <= xb,
        0 <= y <= yb,
    ensures
        x * y <= xb * yb,
{
    assert(x * y <= xb * yb) by (nonlinear_arith)
        requires
            0 <= x <= xb,
            0 <= y <= yb,
    ;
}

/// Expected return of the portfolio `w`, in units of `1 / (UNIT * WEIGHT_UNIT)`.
pub fn portfolio_return(m: &PortfolioModel, w: &Vec<u64>) -> (r: i128)
    requires
        m.wf(),
        weights_for(*m, w@),
    ensures
        r == portfolio_return_of(*m, w@),
        -(MAX_STAT * WEIGHT_UNIT) <= r <= MAX_STAT * WEIGHT_UNIT,
{
    let n = w.len();
    let mut acc: i128 = 0;
    let mut k: usize = 0;
    while k < n
        invariant
            m.wf(),
            n == w@.len(),
            n == m.n(),
            total_weight(w@) <= WEIGHT_UNIT,
            k <= n,
            acc == return_upto(*m, w@, k as int),
            -(MAX_STAT * weight_sum(w@, k as int)) <= acc <= MAX_STAT * weight_sum(w@, k as int),
        decreases n - k,
    {
        let mu = m.mean_return(k);
        proof {
            lemma_weight_prefix(w@, k + 1, n as int);
            lemma_scaled_term(w@[k as int] as int, mu as int, MAX_STAT as int);
            lemma_product_bound(
                weight_sum(w@, k + 1),
                WEIGHT_UNIT as int,
                MAX_STAT as int,
                MAX_STAT as int,
            );
        }
        acc = acc + (w[k] as i128) * (mu as i128);
        k += 1;
    }
    proof {
        lemma_weight_prefix(w@, n as int, n as int);
        lemma_product_bound(weight_sum(w@, n as int), WEIGHT_UNIT as int, MAX_STAT as int, MAX_STAT as int);
    }
    acc
}

/// sum over j of w_j * cov(i, j), bounded by MAX_COV * total weight.
fn row_product(m: &PortfolioModel, w: &Vec<u64>, i: usize) -> (r: i128)
    requires
        m.wf(),
        weights_for(*m, w@),
        i < m.n(),
    ensures
        r == row_upto(*m, w@, i as int, w@.len() as int),
        -(MAX_COV * WEIGHT_UNIT) <= r <= MAX_COV * WEIGHT_UNIT,
{
    let n = w.len();
    let mut acc: i128 = 0;
    let mut k: usize = 0;
    while k < n
        invariant
            m.wf(),
            n == w@.len(),
            n == m.n(),
            i < n,
            total_weight(w@) <= WEIGHT_UNIT,
            k <= n,
            acc == row_upto(*m, w@, i as int, k as int),
            -(MAX_COV * weight_sum(w@, k as int)) <= acc <= MAX_COV * weight_sum(
                w@,
                k as int,
            ),
        decreases n - k,
    {
        let c = m.covariance(i, k);
        proof {
            lemma_weight_prefix(w@, k + 1, n as int);
            lemma_scaled_term(w@[k as int] as int, c as int, MAX_COV as int);
            lemma_product_bound(weight_sum(w@, k + 1), WEIGHT_UNIT as int, MAX_COV as int, MAX_COV as int);
        }
        acc = acc + (w[k] as i128) * (c as i128);
        k += 1;
    }
    proof {
        lemma_weight_prefix(w@, n as int, n as int);
        lemma_product_bound(weight_sum(w@, n as int), WEIGHT_UNIT as int, MAX_COV as int, MAX_COV as int);
    }
    acc
}

/// Variance of the portfolio `w`, in units of `1 / (UNIT^3 * WEIGHT_UNIT^2)`.
pub fn portfolio_variance(m: &PortfolioModel, w: &Vec<u64>) -> (r: i128)
    requires
        m.wf(),
        weights_for(*m, w@),
    ensures
        r == portfolio_variance_of(*m, w@),
        -(MAX_COV * WEIGHT_UNIT * WEIGHT_UNIT) <= r <= MAX_COV * WEIGHT_UNIT * WEIGHT_UNIT,
{
    let n = w.len();
    let mut acc: i128 = 0;
    let mut k: usize = 0;
    while k < n
        invariant
            m.wf(),
            n == w@.len(),
            n == m.n(),
            total_weight(w@) <= WEIGHT_UNIT,
            k <= n,
            acc == variance_upto(*m, w@, k as int),
            -(ROW_LIMIT * weight_sum(w@, k as int)) <= acc <= ROW_LIMIT * weight_sum(w@, k as int),
        decreases n - k,
    {
        let row = row_product(m, w, k);
        proof {
            lemma_weight_prefix(w@, k + 1, n as int);
            lemma_scaled_term(w@[k as int] as int, row as int, ROW_LIMIT as int);
            lemma_product_bound(weight_sum(w@, k + 1), WEIGHT_UNIT as int, ROW_LIMIT as int, ROW_LIMIT as int);
        }
        acc = acc + (w[k] as i128) * row;
        k += 1;
    }
    proof {
        lemma_weight_prefix(w@, n as int, n as int);
        lemma_product_bound(weight_sum(w@, n as int), WEIGHT_UNIT as int, ROW_LIMIT as int, ROW_LIMIT as int);
    }
    acc
}

proof fn lemma_isqrt_unique(r: int, v: int)
    requires
        is_isqrt(r, v),
    ensures
        isqrt(v) == r,
{
    let s = isqrt(v);
    assert(is_isqrt(s, v));
    if s < r {
        assert((s + 1) * (s + 1) <= r * r) by (nonlinear_arith)
            requires
                0 <= s < r,
        ;
    } else if r < s {
        assert((r + 1) * (r + 1) <= s * s) by (nonlinear_arith)
            requires
                0 <= r < s,
        ;
    }
}

/// The integer square root of `v`, rounded down.
pub fn integer_sqrt(v: u128) -> (r: u128)
    ensures
        is_isqrt(r as int, v as int),
        r == isqrt(v as int),
{
    let mut lo: u128 = 0;
    let mut hi: u128 = 0x1_0000_0000_0000_0000;
    assert(v < hi * hi) by (nonlinear_arith)
        requires
            hi == 0x1_0000_0000_0000_0000u128,
            v <= 0xffff_ffff_ffff_ffff_ffff_ffff_ffff_ffffu128,
    ;
    while hi - lo > 1
        invariant
            lo < hi <= 0x1_0000_0000_0000_0000u128,
            lo * lo <= v < hi * hi,
        decreases hi - lo,
    {
        let mid = lo + (hi - lo) / 2;
        assert(mid * mid <= 0xffff_ffff_ffff_ffff * 0xffff_ffff_ffff_ffff) by (nonlinear_arith)
            requires
                mid <= 0xffff_ffff_ffff_ffffu128,
        ;
        if mid * mid <= v {
            lo = mid;
        } else {
            hi = mid;
        }
    }
    proof {
        lemma_isqrt_unique(lo as int, v as int);
    }
    lo
}

/// The fitness of a portfolio with the given excess return and variance.
pub fn fitness_from(excess: i128, variance: i128) -> (r: i128)
    requires
        -EXCESS_LIMIT <= excess <= EXCESS_LIMIT,
    ensures
        r == fitness_of(excess as int, variance as int),
        r >= -FITNESS_FLOOR,
{
    if variance <= 0 {
        return UNDEFINED_FITNESS;
    }
    let root = integer_sqrt(variance as u128);
    assert(root >= 1) by (nonlinear_arith)
        requires
            is_isqrt(root as int, variance as int),
            variance > 0,
    ;
    let magnitude: u128 = if excess >= 0 {
        excess as u128
    } else {
        (-excess) as u128
    };
    let num = magnitude * SHARPE_SCALE;
    let q = num / root;
    assert(q <= num) by (nonlinear_arith)
        requires
            root >= 1,
            q == num / root,
            num >= 0,
    ;
    if excess >= 0 {
        -(q as i128)
    } else {
        q as i128
    }
}

/// Fitness of the portfolio `w` at risk-free rate `rf` (in units of `1 / UNIT`).
pub fn portfolio_fitness(m: &PortfolioModel, w: &Vec<u64>, rf: i64) -> (r: i128)
    requires
        m.wf(),
        weights_for(*m, w@),
    ensures
        r == portfolio_fitness_of(*m, w@, rf as int),
        r >= -FITNESS_FLOOR,
{
    let ret = portfolio_return(m, w);
    let var = portfolio_variance(m, w);
    fitness_from(ret - (rf as i128) * (WEIGHT_UNIT as i128), var)
}

} // verus!
