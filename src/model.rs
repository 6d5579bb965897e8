use vstd::prelude::*;

verus! {

/// One whole unit (1.0) of a return, a standard deviation, a correlation,
/// the risk-free rate or a swarm coefficient.
pub const UNIT: i64 = 10_000;

/// One whole unit (1.0) of a portfolio weight.
pub const WEIGHT_UNIT: u64 = 1_000_000;

/// Largest magnitude of a mean return or standard deviation (100.0), so that
/// every covariance fits in an `i64` and every portfolio variance in an `i128`.
pub const MAX_STAT: i64 = 1_000_000;

/// Largest magnitude of an entry of the covariance matrix:
/// `MAX_STAT * MAX_STAT * UNIT`.
pub const MAX_COV: i64 = 10_000_000_000_000_000;

/// An asset with its historical statistics.
#[derive(Clone, Copy, Debug, PartialEq, Eq)]
pub struct Activo {
    pub id: usize,
    /// Mean historical return, in units of `1 / UNIT`.
    pub mean_return: i64,
    /// Standard deviation of the return, in units of `1 / UNIT`.
    pub standard_deviation: i64,
}

/// The correlation coefficient between the assets with ids `i` and `j`.
#[derive(Clone, Copy, Debug, PartialEq, Eq)]
pub struct Correlation {
    pub i: usize,
    pub j: usize,
    /// In units of `1 / UNIT`, from `-UNIT` to `UNIT`.
    pub value: i64,
}

/// Why a set of assets and correlations does not form a portfolio model.
/// Each `index` is the position of the offending asset or correlation.
#[derive(Clone, Copy, Debug, PartialEq, Eq, Structural)]
pub enum DataError {
    TooFewAssets,
    AssetOutOfRange { index: usize },
    DuplicateAsset { index: usize },
    SelfCorrelation { index: usize },
    UnknownAsset { index: usize },
    CorrelationOutOfRange { index: usize },
}

pub open spec fn asset_in_range(a: Activo) -> bool {
    -MAX_STAT <= a.mean_return <= MAX_STAT && 0 <= a.standard_deviation <= MAX_STAT
}

/// What is wrong with the asset at position `k`, judged against those before it.
pub open spec fn asset_issue(assets: Seq<Activo>, k: int) -> Option<DataError> {
    if !asset_in_range(assets[k]) {
        Some(DataError::AssetOutOfRange { index: k as usize })
    } else if exists|j: int| 0 <= j < k && assets[j].id == assets[k].id {
        Some(DataError::DuplicateAsset { index: k as usize })
    } else {
        None
    }
}

pub open spec fn has_id(assets: Seq<Activo>, id: usize) -> bool {
    exists|k: int| 0 <= k < assets.len() && assets[k].id == id
}

/// What is wrong with the correlation at position `k`.
pub open spec fn record_issue(assets: Seq<Activo>, corrs: Seq<Correlation>, k: int) -> Option<
    DataError,
> {
    let c = corrs[k];
    if c.i == c.j {
        Some(DataError::SelfCorrelation { index: k as usize })
    } else if !has_id(assets, c.i) || !has_id(assets, c.j) {
        Some(DataError::UnknownAsset { index: k as usize })
    } else if c.value < -UNIT || c.value > UNIT {
        Some(DataError::CorrelationOutOfRange { index: k as usize })
    } else {
        None
    }
}

pub open spec fn assets_valid(assets: Seq<Activo>) -> bool {
    forall|k: int| 0 <= k < assets.len() ==> asset_issue(assets, k) is None
}

pub open spec fn records_valid(assets: Seq<Activo>, corrs: Seq<Correlation>) -> bool {
    forall|k: int| 0 <= k < corrs.len() ==> record_issue(assets, corrs, k) is None
}

pub open spec fn input_valid(assets: Seq<Activo>, corrs: Seq<Correlation>) -> bool {
    assets.len() >= 2 && assets_valid(assets) && records_valid(assets, corrs)
}

/// Asset `k` is the first faulty one.
pub open spec fn first_asset_issue(assets: Seq<Activo>, k: int) -> bool {
    &&& 0 <= k < assets.len()
    &&& asset_issue(assets, k) is Some
    &&& forall|j: int| 0 <= j < k ==> #[trigger] asset_issue(assets, j) is None
}

/// Correlation `k` is the first faulty one.
pub open spec fn first_record_issue(assets: Seq<Activo>, corrs: Seq<Correlation>, k: int) -> bool {
    &&& 0 <= k < corrs.len()
    &&& record_issue(assets, corrs, k) is Some
    &&& forall|j: int| 0 <= j < k ==> #[trigger] record_issue(assets, corrs, j) is None
}

/// The error reported for an invalid input: the first faulty asset, or else
/// the first faulty correlation.
pub open spec fn reported_error(
    assets: Seq<Activo>,
    corrs: Seq<Correlation>,
    e: DataError,
) -> bool {
    if assets.len() < 2 {
        e == DataError::TooFewAssets
    } else {
        (exists|k: int| #[trigger]
            first_asset_issue(assets, k) && asset_issue(assets, k) == Some(e)) || (assets_valid(
            assets,
        ) && exists|k: int| #[trigger]
            first_record_issue(assets, corrs, k) && record_issue(assets, corrs, k) == Some(e))
    }
}

/// Whether correlation `c` is about the assets at positions `a` and `b`.
pub open spec fn record_matches(assets: Seq<Activo>, c: Correlation, a: int, b: int) -> bool {
    (assets[a].id == c.i && assets[b].id == c.j) || (assets[a].id == c.j && assets[b].id == c.i)
}

/// The correlation between the assets at positions `a` and `b` given by the
/// first `k` records: the last record about the pair wins; an asset is fully
/// correlated with itself, and a pair without a record is uncorrelated.
pub open spec fn corr_upto(
    assets: Seq<Activo>,
    corrs: Seq<Correlation>,
    k: int,
    a: int,
    b: int,
) -> int
    decreases k,
{
    if k <= 0 {
        if a == b {
            UNIT as int
        } else {
            0
        }
    } else if record_matches(assets, corrs[k - 1], a, b) {
        corrs[k - 1].value as int
    } else {
        corr_upto(assets, corrs, k - 1, a, b)
    }
}

pub open spec fn correlation(assets: Seq<Activo>, corrs: Seq<Correlation>, a: int, b: int) -> int {
    corr_upto(assets, corrs, corrs.len() as int, a, b)
}

/// covariance(a, b) = std_a * std_b * corr(a, b).
pub open spec fn covariance(assets: Seq<Activo>, corrs: Seq<Correlation>, a: int, b: int) -> int {
    assets[a].standard_deviation * assets[b].standard_deviation * correlation(assets, corrs, a, b)
}

/// The assets' mean returns and their covariance matrix, in units of
/// `1 / UNIT` and `1 / UNIT^3`.
pub struct PortfolioModel {
    means: Vec<i64>,
    cov: Vec<Vec<i64>>,
}

impl PortfolioModel {
    pub closed spec fn n(&self) -> int {
        self.means@.len() as int
    }

    pub closed spec fn mean(&self, i: int) -> int {
        self.means@[i] as int
    }

    pub closed spec fn cov(&self, i: int, j: int) -> int {
        self.cov@[i]@[j] as int
    }

    /// The matrix is square, with a row per asset.
    pub closed spec fn shaped(&self) -> bool {
        &&& self.cov@.len() == self.n()
        &&& forall|i: int| 0 <= i < self.n() ==> (#[trigger] self.cov@[i])@.len() == self.n()
    }

    pub open spec fn wf(&self) -> bool {
        &&& self.n() >= 2
        &&& self.shaped()
        &&& forall|i: int| 0 <= i < self.n() ==> -MAX_STAT <= #[trigger] self.mean(i) <= MAX_STAT
        &&& forall|i: int, j: int|
            0 <= i < self.n() && 0 <= j < self.n() ==> -MAX_COV <= #[trigger] self.cov(i, j)
                <= MAX_COV
    }

    /// `m` is the model of `assets` (in this order) and `corrs`.
    pub open spec fn loaded_from(m: PortfolioModel, assets: Seq<Activo>, corrs: Seq<Correlation>) -> bool {
        &&& m.wf()
        &&& m.n() == assets.len()
        &&& forall|i: int| 0 <= i < m.n() ==> #[trigger] m.mean(i) == assets[i].mean_return
        &&& forall|a: int, b: int|
            0 <= a < m.n() && 0 <= b < m.n() ==> #[trigger] m.cov(a, b) == covariance(
                assets,
                corrs,
                a,
                b,
            )
    }

    /// `a` and `b` hold the same assets' statistics.
    pub open spec fn same_data(a: PortfolioModel, b: PortfolioModel) -> bool {
        &&& a.n() == b.n()
        &&& forall|i: int| 0 <= i < a.n() ==> #[trigger] a.mean(i) == b.mean(i)
        &&& forall|i: int, j: int| 0 <= i < a.n() && 0 <= j < a.n() ==> #[trigger] a.cov(i, j) == b.cov(i, j)
    }

    /// Loading is determined: two models of the same assets and correlations
    /// hold the same data.
    pub proof fn lemma_load_determined(
        a: PortfolioModel,
        b: PortfolioModel,
        assets: Seq<Activo>,
        corrs: Seq<Correlation>,
    )
        requires
            PortfolioModel::loaded_from(a, assets, corrs),
            PortfolioModel::loaded_from(b, assets, corrs),
        ensures
            PortfolioModel::same_data(a, b),
    {
        assert forall|i: int, j: int| 0 <= i < a.n() && 0 <= j < a.n() implies #[trigger] a.cov(i, j)
            == b.cov(i, j) by {
            assert(a.cov(i, j) == covariance(assets, corrs, i, j));
            assert(b.cov(i, j) == covariance(assets, corrs, i, j));
        }
    }

    /// Builds the model of `assets` (in this order) and `corrs`, or says what
    /// is wrong with them.
    pub fn new(assets: &Vec<Activo>, corrs: &Vec<Correlation>) -> (r: Result<
        PortfolioModel,
        DataError,
    >)
        ensures
            r is Ok <==> input_valid(assets@, corrs@),
            r matches Err(e) ==> reported_error(assets@, corrs@, e),
            r matches Ok(m) ==> PortfolioModel::loaded_from(m, assets@, corrs@),
    {
        let n = assets.len();
        if n < 2 {
            return Err(DataError::TooFewAssets);
        }
        let mut k: usize = 0;
        while k < n
            invariant
                n == assets@.len(),
                n >= 2,
                k <= n,
                forall|j: int| 0 <= j < k ==> asset_issue(assets@, j) is None,
            decreases n - k,
        {
            let a = assets[k];
            if a.mean_return < -MAX_STAT || a.mean_return > MAX_STAT || a.standard_deviation < 0
                || a.standard_deviation > MAX_STAT {
                proof {
                    assert(first_asset_issue(assets@, k as int));
                    assert(asset_issue(assets@, k as int) == Some(
                        DataError::AssetOutOfRange { index: k },
                    ));
                }
                return Err(DataError::AssetOutOfRange { index: k });
            }
            let mut j: usize = 0;
            while j < k
                invariant
                    n == assets@.len(),
                    n >= 2,
                    j <= k < n,
                    forall|l: int| 0 <= l < k ==> asset_issue(assets@, l) is None,
                    a == assets@[k as int],
                    asset_in_range(a),
                    forall|l: int| 0 <= l < j ==> assets@[l].id != a.id,
                decreases k - j,
            {
                if assets[j].id == a.id {
                    proof {
                        assert(first_asset_issue(assets@, k as int));
                        assert(0 <= j < k && assets@[j as int].id == assets@[k as int].id);
                        assert(asset_issue(assets@, k as int) == Some(
                            DataError::DuplicateAsset { index: k },
                        ));
                    }
                    return Err(DataError::DuplicateAsset { index: k });
                }
                j += 1;
            }
            k += 1;
        }
        let m = corrs.len();
        let mut k: usize = 0;
        while k < m
            invariant
                n == assets@.len(),
                m == corrs@.len(),
                n >= 2,
                assets_valid(assets@),
                k <= m,
                forall|j: int| 0 <= j < k ==> record_issue(assets@, corrs@, j) is None,
            decreases m - k,
        {
            let c = corrs[k];
            if c.i == c.j {
                proof {
                    assert(first_record_issue(assets@, corrs@, k as int));
                    assert(record_issue(assets@, corrs@, k as int) == Some(
                        DataError::SelfCorrelation { index: k },
                    ));
                }
                return Err(DataError::SelfCorrelation { index: k });
            }
            if !contains_id(assets, c.i) || !contains_id(assets, c.j) {
                proof {
                    assert(first_record_issue(assets@, corrs@, k as int));
                    assert(record_issue(assets@, corrs@, k as int) == Some(
                        DataError::UnknownAsset { index: k },
                    ));
                }
                return Err(DataError::UnknownAsset { index: k });
            }
            if c.value < -UNIT || c.value > UNIT {
                proof {
                    assert(first_record_issue(assets@, corrs@, k as int));
                    assert(record_issue(assets@, corrs@, k as int) == Some(
                        DataError::CorrelationOutOfRange { index: k },
                    ));
                }
                return Err(DataError::CorrelationOutOfRange { index: k });
            }
            k += 1;
        }
        let mut means: Vec<i64> = Vec::new();
        let mut cov: Vec<Vec<i64>> = Vec::new();
        let mut a: usize = 0;
        while a < n
            invariant
                n == assets@.len(),
                input_valid(assets@, corrs@),
                a <= n,
                means@.len() == a,
                cov@.len() == a,
                forall|i: int| 0 <= i < a ==> #[trigger] means@[i] == assets@[i].mean_return,
                forall|i: int| 0 <= i < a ==> (#[trigger] cov@[i])@.len() == n,
                forall|i: int, j: int|
                    0 <= i < a && 0 <= j < n ==> #[trigger] cov@[i]@[j] == covariance(
                        assets@,
                        corrs@,
                        i,
                        j,
                    ),
            decreases n - a,
        {
            means.push(assets[a].mean_return);
            let mut row: Vec<i64> = Vec::new();
            let mut b: usize = 0;
            while b < n
                invariant
                    n == assets@.len(),
                    input_valid(assets@, corrs@),
                    a < n,
                    b <= n,
                    row@.len() == b,
                    forall|j: int|
                        0 <= j < b ==> #[trigger] row@[j] == covariance(
                            assets@,
                            corrs@,
                            a as int,
                            j,
                        ),
                decreases n - b,
            {
                let rho = correlation_between(assets, corrs, a, b);
                let sa = assets[a].standard_deviation;
                let sb = assets[b].standard_deviation;
                proof {
                    assert(asset_issue(assets@, a as int) is None);
                    assert(asset_issue(assets@, b as int) is None);
                    lemma_cov_bound(sa as int, sb as int, rho as int);
                }
                row.push(sa * sb * rho);
                b += 1;
            }
            cov.push(row);
            a += 1;
        }
        let model = PortfolioModel { means, cov };
        proof {
            assert forall|i: int| 0 <= i < n implies -MAX_STAT <= #[trigger] model.mean(i)
                <= MAX_STAT by {
                assert(asset_issue(assets@, i) is None);
            }
            assert forall|i: int, j: int| 0 <= i < n && 0 <= j < n implies -MAX_COV
                <= #[trigger] model.cov(i, j) <= MAX_COV by {
                assert(asset_issue(assets@, i) is None);
                assert(asset_issue(assets@, j) is None);
                lemma_corr_upto_range(assets@, corrs@, corrs@.len() as int, i, j);
                lemma_cov_bound(
                    assets@[i].standard_deviation as int,
                    assets@[j].standard_deviation as int,
                    correlation(assets@, corrs@, i, j),
                );
            }
        }
        Ok(model)
    }

    /// The number of assets.
    pub fn asset_count(&self) -> (r: usize)
        ensures
            r == self.n(),
    {
        self.means.len()
    }

    /// The mean return of asset `i`.
    pub fn mean_return(&self, i: usize) -> (r: i64)
        requires
            i < self.n(),
        ensures
            r == self.mean(i as int),
    {
        self.means[i]
    }

    /// The covariance of assets `i` and `j`.
    pub fn covariance(&self, i: usize, j: usize) -> (r: i64)
        requires
            self.wf(),
            i < self.n(),
            j < self.n(),
        ensures
            r == self.cov(i as int, j as int),
    {
        self.cov[i][j]
    }
}

proof fn lemma_cov_bound(sa: int, sb: int, rho: int)
    requires
        0 <= sa <= MAX_STAT,
        0 <= sb <= MAX_STAT,
        -UNIT <= rho <= UNIT,
    ensures
        0 <= sa * sb <= MAX_STAT * MAX_STAT,
        -MAX_COV <= sa * sb * rho <= MAX_COV,
{
    assert(0 <= sa * sb <= MAX_STAT * MAX_STAT) by (nonlinear_arith)
        requires
            0 <= sa <= MAX_STAT,
            0 <= sb <= MAX_STAT,
    ;
    let p = sa * sb;
    assert(-(p * UNIT) <= p * rho <= p * UNIT) by (nonlinear_arith)
        requires
            0 <= p,
            -UNIT <= rho <= UNIT,
    ;
    assert(p * UNIT <= MAX_COV) by (nonlinear_arith)
        requires
            0 <= p <= MAX_STAT * MAX_STAT,
    ;
}

proof fn lemma_corr_upto_range(
    assets: Seq<Activo>,
    corrs: Seq<Correlation>,
    k: int,
    a: int,
    b: int,
)
    requires
        records_valid(assets, corrs),
        k <= corrs.len(),
    ensures
        -UNIT <= corr_upto(assets, corrs, k, a, b) <= UNIT,
    decreases k,
{
    if k > 0 {
        assert(record_issue(assets, corrs, k - 1) is None);
        lemma_corr_upto_range(assets, corrs, k - 1, a, b);
    }
}

fn contains_id(assets: &Vec<Activo>, id: usize) -> (r: bool)
    ensures
        r == has_id(assets@, id),
{
    let mut k: usize = 0;
    while k < assets.len()
        invariant
            k <= assets@.len(),
            forall|j: int| 0 <= j < k ==> assets@[j].id != id,
        decreases assets@.len() - k,
    {
        if assets[k].id == id {
            return true;
        }
        k += 1;
    }
    false
}

/// The correlation between the assets at positions `a` and `b`.
fn correlation_between(assets: &Vec<Activo>, corrs: &Vec<Correlation>, a: usize, b: usize) -> (r:
    i64)
    requires
        a < assets@.len(),
        b < assets@.len(),
        records_valid(assets@, corrs@),
    ensures
        r == correlation(assets@, corrs@, a as int, b as int),
        -UNIT <= r <= UNIT,
{
    proof {
        lemma_corr_upto_range(assets@, corrs@, corrs@.len() as int, a as int, b as int);
    }
    let ia = assets[a].id;
    let ib = assets[b].id;
    let mut k: usize = corrs.len();
    while k > 0
        invariant
            k <= corrs@.len(),
            records_valid(assets@, corrs@),
            a < assets@.len(),
            b < assets@.len(),
            ia == assets@[a as int].id,
            ib == assets@[b as int].id,
            correlation(assets@, corrs@, a as int, b as int) == corr_upto(
                assets@,
                corrs@,
                k as int,
                a as int,
                b as int,
            ),
        decreases k,
    {
        let c = corrs[k - 1];
        if (ia == c.i && ib == c.j) || (ia == c.j && ib == c.i) {
            proof {
                assert(record_issue(assets@, corrs@, k - 1) is None);
            }
            return c.value;
        }
        k -= 1;
    }
    if a == b {
        UNIT
    } else {
        0
    }
}

} // verus!
