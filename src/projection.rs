use vstd::math::min;
use vstd::prelude::*;

use crate::model::WEIGHT_UNIT;
use crate::objective::{total_weight, weight_sum};

verus! {

/// Bounds on each portfolio weight, in units of `1 / WEIGHT_UNIT`.
#[derive(Clone, Copy, Debug, PartialEq, Eq)]
pub struct Bounds {
    pub min_weight: u64,
    pub max_weight: u64,
}

/// Weight vectors of `n` entries within the bounds and summing to one exist,
/// and no bound exceeds one.
pub open spec fn bounds_feasible(b: Bounds, n: int) -> bool {
    &&& n >= 1
    &&& b.min_weight <= b.max_weight <= WEIGHT_UNIT
    &&& n * b.min_weight <= WEIGHT_UNIT <= n * b.max_weight
}

/// Every weight is within the bounds and the weights sum to exactly one.
pub open spec fn feasible(w: Seq<u64>, b: Bounds) -> bool {
    &&& forall|i: int| 0 <= i < w.len() ==> b.min_weight <= #[trigger] w[i] <= b.max_weight
    &&& total_weight(w) == WEIGHT_UNIT
}

pub open spec fn clamp(x: int, lo: int, hi: int) -> int {
    if x < lo {
        lo
    } else if x > hi {
        hi
    } else {
        x
    }
}

pub open spec fn as_ints(s: Seq<u64>) -> Seq<int> {
    s.map_values(|x: u64| x as int)
}

/// Sum of the first `k` entries.
pub open spec fn int_sum(s: Seq<int>, k: int) -> int
    decreases k,
{
    if k <= 0 {
        0
    } else {
        int_sum(s, k - 1) + s[k - 1]
    }
}

pub open spec fn clamp_all(s: Seq<int>, b: Bounds) -> Seq<int> {
    Seq::new(s.len(), |i: int| clamp(s[i], b.min_weight as int, b.max_weight as int))
}

/// Divides every entry by the sum so that the entries sum to one (rounding
/// down); a vector summing to zero is left as it is.
pub open spec fn renormalized(s: Seq<int>) -> Seq<int> {
    let total = int_sum(s, s.len() as int);
    if total <= 0 {
        s
    } else {
        Seq::new(s.len(), |i: int| s[i] * WEIGHT_UNIT / total)
    }
}

/// What is left of `gap` after entries `0 .. k` have taken as much of it as
/// their room allows.
pub open spec fn gap_left(rooms: Seq<int>, gap: int, k: int) -> int
    decreases k,
{
    if k <= 0 {
        gap
    } else {
        let l = gap_left(rooms, gap, k - 1);
        l - min(rooms[k - 1], l)
    }
}

/// The share of `gap` that entry `i` takes, in order of position.
pub open spec fn share(rooms: Seq<int>, gap: int, i: int) -> int {
    min(rooms[i], gap_left(rooms, gap, i))
}

/// Moves a vector within the bounds to one summing to exactly one: a shortfall
/// raises the entries toward the upper bound, an excess lowers them toward the
/// lower bound, the first entries first.
pub open spec fn repaired(s: Seq<int>, b: Bounds) -> Seq<int> {
    let total = int_sum(s, s.len() as int);
    if total <= WEIGHT_UNIT {
        let rooms = Seq::new(s.len(), |i: int| b.max_weight - s[i]);
        Seq::new(s.len(), |i: int| s[i] + share(rooms, WEIGHT_UNIT - total, i))
    } else {
        let rooms = Seq::new(s.len(), |i: int| s[i] - b.min_weight);
        Seq::new(s.len(), |i: int| s[i] - share(rooms, total - WEIGHT_UNIT, i))
    }
}

/// The projection of `raw` onto the feasible weight vectors: clamp to the
/// bounds, renormalise, clamp again, and repair the sum.
pub open spec fn projection(raw: Seq<i64>, b: Bounds) -> Seq<int> {
    repaired(clamp_all(renormalized(clamp_all(raw.map_values(|x: i64| x as int), b)), b), b)
}

/// Whether the bounds admit weight vectors of `n` entries.
pub fn bounds_admit(b: &Bounds, n: usize) -> (r: bool)
    ensures
        r == bounds_feasible(*b, n as int),
{
    if n == 0 || b.min_weight > b.max_weight || b.max_weight > WEIGHT_UNIT {
        return false;
    }
    assert((n as u128) * (b.max_weight as u128) <= 0x1_0000_0000_0000_0000 * 1_000_000)
        by (nonlinear_arith)
        requires
            n <= 0xffff_ffff_ffff_ffffu128,
            b.min_weight <= b.max_weight <= 1_000_000,
    ;
    assert((n as u128) * (b.min_weight as u128) <= (n as u128) * (b.max_weight as u128))
        by (nonlinear_arith)
        requires
            b.min_weight <= b.max_weight,
    ;
    let lo = (n as u128) * (b.min_weight as u128);
    let hi = (n as u128) * (b.max_weight as u128);
    lo <= WEIGHT_UNIT as u128 && WEIGHT_UNIT as u128 <= hi
}

proof fn lemma_weight_sum_ints(w: Seq<u64>, k: int)
    requires
        0 <= k <= w.len(),
    ensures
        weight_sum(w, k) == int_sum(as_ints(w), k),
    decreases k,
{
    if k > 0 {
        lemma_weight_sum_ints(w, k - 1);
    }
}

proof fn lemma_int_sum_ext(s: Seq<int>, t: Seq<int>, k: int)
    requires
        0 <= k <= s.len(),
        k <= t.len(),
        forall|i: int| 0 <= i < k ==> s[i] == t[i],
    ensures
        int_sum(s, k) == int_sum(t, k),
    decreases k,
{
    if k > 0 {
        lemma_int_sum_ext(s, t, k - 1);
    }
}

/// Sum of `v`, whose entries are at most one each.
fn sum_of(v: &Vec<u64>) -> (r: u128)
    requires
        forall|i: int| 0 <= i < v@.len() ==> v@[i] <= WEIGHT_UNIT,
    ensures
        r == int_sum(as_ints(v@), v@.len() as int),
        r <= v@.len() * WEIGHT_UNIT,
{
    let mut acc: u128 = 0;
    let mut k: usize = 0;
    while k < v.len()
        invariant
            k <= v@.len(),
            forall|i: int| 0 <= i < v@.len() ==> v@[i] <= WEIGHT_UNIT,
            acc == int_sum(as_ints(v@), k as int),
            acc <= k * WEIGHT_UNIT,
        decreases v@.len() - k,
    {
        acc = acc + v[k] as u128;
        k += 1;
    }
    acc
}

/// The share of `gap` that each entry takes, given the room of each.
fn shares(rooms: &Vec<u64>, gap: u128) -> (r: Vec<u64>)
    requires
        gap <= int_sum(as_ints(rooms@), rooms@.len() as int),
    ensures
        r@.len() == rooms@.len(),
        forall|i: int|
            0 <= i < r@.len() ==> #[trigger] r@[i] == share(as_ints(rooms@), gap as int, i),
        int_sum(as_ints(r@), r@.len() as int) == gap,
{
    let ghost rs = as_ints(rooms@);
    let n = rooms.len();
    let mut out: Vec<u64> = Vec::new();
    let mut left: u128 = gap;
    let mut k: usize = 0;
    while k < n
        invariant
            n == rooms@.len(),
            rs == as_ints(rooms@),
            k <= n,
            out@.len() == k,
            left == gap_left(rs, gap as int, k as int),
            forall|i: int| 0 <= i < k ==> #[trigger] out@[i] == share(rs, gap as int, i),
            int_sum(as_ints(out@), k as int) + left == gap,
            left <= int_sum(rs, n as int) - int_sum(rs, k as int),
        decreases n - k,
    {
        let room = rooms[k];
        let take: u64 = if (room as u128) < left {
            room
        } else {
            left as u64
        };
        proof {
            assert(int_sum(rs, k + 1) == int_sum(rs, k as int) + rs[k as int]);
            lemma_int_sum_mono(rooms@, k + 1, n as int);
        }
        let ghost before = out@;
        out.push(take);
        proof {
            lemma_int_sum_ext(as_ints(before), as_ints(out@), k as int);
        }
        left = left - take as u128;
        k += 1;
    }
    proof {
        assert(gap_left(rs, gap as int, n as int) >= 0) by {
            lemma_gap_left_nonneg(rs, gap as int, n as int);
        }
    }
    out
}

proof fn lemma_int_sum_mono(s: Seq<u64>, k: int, l: int)
    requires
        0 <= k <= l <= s.len(),
    ensures
        int_sum(as_ints(s), k) <= int_sum(as_ints(s), l),
    decreases l - k,
{
    if k < l {
        lemma_int_sum_mono(s, k, l - 1);
    }
}

proof fn lemma_gap_left_nonneg(rooms: Seq<int>, gap: int, k: int)
    requires
        gap >= 0,
    ensures
        gap_left(rooms, gap, k) >= 0,
    decreases k,
{
    if k > 0 {
        lemma_gap_left_nonneg(rooms, gap, k - 1);
    }
}

proof fn lemma_int_sum_add(a: Seq<int>, b: Seq<int>, c: Seq<int>, k: int)
    requires
        0 <= k <= a.len(),
        k <= b.len(),
        k <= c.len(),
        forall|i: int| 0 <= i < k ==> c[i] == a[i] + b[i],
    ensures
        int_sum(c, k) == int_sum(a, k) + int_sum(b, k),
    decreases k,
{
    if k > 0 {
        lemma_int_sum_add(a, b, c, k - 1);
    }
}

proof fn lemma_int_sum_const(s: Seq<int>, v: int, k: int)
    requires
        0 <= k <= s.len(),
        forall|i: int| 0 <= i < k ==> s[i] == v,
    ensures
        int_sum(s, k) == k * v,
    decreases k,
{
    if k > 0 {
        lemma_int_sum_const(s, v, k - 1);
        assert(s[k - 1] == v);
        assert((k - 1) * v + v == k * v) by (nonlinear_arith);
        assert(int_sum(s, k) == int_sum(s, k - 1) + s[k - 1]);
    } else {
        assert(k * v == 0) by (nonlinear_arith)
            requires
                k == 0,
        ;
    }
}

fn clamp_to(x: i128, lo: u64, hi: u64) -> (r: u64)
    requires
        lo <= hi,
    ensures
        r == clamp(x as int, lo as int, hi as int),
{
    if x < lo as i128 {
        lo
    } else if x > hi as i128 {
        hi
    } else {
        x as u64
    }
}

/// Maps `raw` to a feasible weight vector: clamps each entry to the bounds,
/// divides by the sum, clamps again and repairs the sum.
pub fn project(b: &Bounds, raw: &Vec<i64>) -> (r: Vec<u64>)
    requires
        bounds_feasible(*b, raw@.len() as int),
    ensures
        r@.len() == raw@.len(),
        feasible(r@, *b),
        as_ints(r@) == projection(raw@, *b),
{
    let n = raw.len();
    let lo = b.min_weight;
    let hi = b.max_weight;
    let ghost s0 = raw@.map_values(|x: i64| x as int);
    let ghost s1 = clamp_all(s0, *b);
    let mut c: Vec<u64> = Vec::new();
    let mut k: usize = 0;
    while k < n
        invariant
            n == raw@.len(),
            s0 == raw@.map_values(|x: i64| x as int),
            s1 == clamp_all(s0, *b),
            lo == b.min_weight,
            hi == b.max_weight,
            bounds_feasible(*b, n as int),
            k <= n,
            c@.len() == k,
            forall|i: int| 0 <= i < k ==> #[trigger] c@[i] as int == s1[i],
        decreases n - k,
    {
        c.push(clamp_to(raw[k] as i128, lo, hi));
        k += 1;
    }
    assert(as_ints(c@) =~= s1);
    let total = sum_of(&c);
    let ghost s2 = renormalized(s1);
    let mut d: Vec<u64> = Vec::new();
    let mut k: usize = 0;
    while k < n
        invariant
            n == c@.len(),
            s1 == as_ints(c@),
            total == int_sum(s1, n as int),
            s2 == renormalized(s1),
            hi <= WEIGHT_UNIT,
            forall|i: int| 0 <= i < n ==> #[trigger] c@[i] <= hi,
            k <= n,
            d@.len() == k,
            forall|i: int| 0 <= i < k ==> #[trigger] d@[i] as int == s2[i],
        decreases n - k,
    {
        if total == 0 {
            d.push(c[k]);
        } else {
            let num = (c[k] as u128) * (WEIGHT_UNIT as u128);
            let q = num / total;
            assert(q <= num) by (nonlinear_arith)
                requires
                    total >= 1,
                    q == num / total,
            ;
            d.push(q as u64);
        }
        k += 1;
    }
    let ghost s3 = clamp_all(s2, *b);
    let mut e: Vec<u64> = Vec::new();
    let mut k: usize = 0;
    while k < n
        invariant
            n == d@.len(),
            s2 == as_ints(d@),
            s3 == clamp_all(s2, *b),
            lo == b.min_weight,
            hi == b.max_weight,
            lo <= hi,
            k <= n,
            e@.len() == k,
            forall|i: int| 0 <= i < k ==> #[trigger] e@[i] as int == s3[i],
        decreases n - k,
    {
        e.push(clamp_to(d[k] as i128, lo, hi));
        k += 1;
    }
    proof {
        assert(as_ints(d@) =~= s2);
        assert(as_ints(e@) =~= s3);
    }
    let t = sum_of(&e);
    let mut rooms: Vec<u64> = Vec::new();
    let raise = t <= WEIGHT_UNIT as u128;
    let mut k: usize = 0;
    while k < n
        invariant
            n == e@.len(),
            lo == b.min_weight,
            hi == b.max_weight,
            forall|i: int| 0 <= i < n ==> lo <= #[trigger] e@[i] <= hi,
            k <= n,
            rooms@.len() == k,
            forall|i: int|
                0 <= i < k ==> #[trigger] rooms@[i] == if raise {
                    hi - e@[i]
                } else {
                    e@[i] - lo
                },
        decreases n - k,
    {
        if raise {
            rooms.push(hi - e[k]);
        } else {
            rooms.push(e[k] - lo);
        }
        k += 1;
    }
    let ghost es = as_ints(e@);
    let ghost rs = as_ints(rooms@);
    let gap: u128 = if raise {
        WEIGHT_UNIT as u128 - t
    } else {
        t - WEIGHT_UNIT as u128
    };
    proof {
        if raise {
            let his = Seq::new(n as nat, |i: int| hi as int);
            lemma_int_sum_add(es, rs, his, n as int);
            lemma_int_sum_const(his, hi as int, n as int);
        } else {
            let los = Seq::new(n as nat, |i: int| lo as int);
            lemma_int_sum_add(los, rs, es, n as int);
            lemma_int_sum_const(los, lo as int, n as int);
        }
    }
    let amounts = shares(&rooms, gap);
    let mut out: Vec<u64> = Vec::new();
    let mut k: usize = 0;
    while k < n
        invariant
            n == e@.len(),
            n == rooms@.len(),
            n == amounts@.len(),
            rs == as_ints(rooms@),
            lo == b.min_weight,
            hi == b.max_weight,
            forall|i: int| 0 <= i < n ==> lo <= #[trigger] e@[i] <= hi,
            forall|i: int|
                0 <= i < n ==> #[trigger] rooms@[i] == if raise {
                    hi - e@[i]
                } else {
                    e@[i] - lo
                },
            forall|i: int| 0 <= i < n ==> #[trigger] amounts@[i] == share(rs, gap as int, i),
            k <= n,
            out@.len() == k,
            forall|i: int|
                0 <= i < k ==> #[trigger] out@[i] == if raise {
                    e@[i] + amounts@[i]
                } else {
                    e@[i] - amounts@[i]
                },
        decreases n - k,
    {
        assert(amounts@[k as int] <= rooms@[k as int]);
        if raise {
            out.push(e[k] + amounts[k]);
        } else {
            out.push(e[k] - amounts[k]);
        }
        k += 1;
    }
    proof {
        let os = as_ints(out@);
        let ams = as_ints(amounts@);
        if raise {
            lemma_int_sum_add(es, ams, os, n as int);
        } else {
            lemma_int_sum_add(os, ams, es, n as int);
        }
        lemma_weight_sum_ints(out@, n as int);
        assert forall|i: int| 0 <= i < n implies lo <= #[trigger] out@[i] <= hi by {
            assert(amounts@[i] <= rooms@[i]);
        }
        let target = projection(raw@, *b);
        if raise {
            let rooms_spec = Seq::new(n as nat, |i: int| hi - s3[i]);
            assert(rs =~= rooms_spec);
        } else {
            let rooms_spec = Seq::new(n as nat, |i: int| s3[i] - lo);
            assert(rs =~= rooms_spec);
        }
        assert(os =~= target);
    }
    out
}

/// Bounds that pin every weight to the same value `1 / n` are admitted: the
/// equal-weight vector is feasible.
pub proof fn lemma_pinned_bounds_admitted(b: Bounds, n: int)
    requires
        n >= 1,
        b.min_weight == b.max_weight,
        n * b.min_weight == WEIGHT_UNIT,
    ensures
        bounds_feasible(b, n),
{
    assert(b.max_weight <= WEIGHT_UNIT) by (nonlinear_arith)
        requires
            n >= 1,
            n * b.max_weight == WEIGHT_UNIT,
            b.max_weight >= 0,
    ;
}

/// Under bounds with equal minimum and maximum, the only feasible vector is
/// the one with every weight at that value.
pub proof fn lemma_pinned_bounds_force(w: Seq<u64>, b: Bounds)
    requires
        b.min_weight == b.max_weight,
        feasible(w, b),
    ensures
        forall|i: int| 0 <= i < w.len() ==> #[trigger] w[i] == b.min_weight,
{
}

} // verus!
