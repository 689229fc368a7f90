use vstd::prelude::*;
use vstd::arithmetic::div_mod::{lemma_basic_div, lemma_div_by_self, lemma_div_is_ordered, lemma_fundamental_div_mod};

use crate::fixed::{SCALE, VALUE_LIMIT, in_range, trunc_div, away_div, trunc_div_exec, away_div_exec};

verus! {

/// Largest number of samples that the sums of this module can hold.
pub const MAX_SAMPLES: usize = 1_000_000;

/// A bound on `|residual|` for values in range: `VALUE_LIMIT² + 2·VALUE_LIMIT·SCALE`.
pub const RESIDUAL_BOUND: i128 = 100_020_000_000_000_000_000;

/// A bound on `|away_div(residual, SCALE)|`: `RESIDUAL_BOUND / SCALE`.
pub const ERROR_BOUND: i128 = 100_020_000_000_000;

/// A bound on each gradient component: `RESIDUAL_BOUND · VALUE_LIMIT / SCALE²`.
pub const GRADIENT_BOUND: i128 = 1_000_200_000_000_000_000;

/// A sample whose coordinates the arithmetic can hold.
pub open spec fn valid_sample(p: (i64, i64)) -> bool {
    in_range(p.0 as int) && in_range(p.1 as int)
}

/// A dataset that training accepts: non-empty, not too long, every value in range.
pub open spec fn valid_data(d: Seq<(i64, i64)>) -> bool {
    &&& 1 <= d.len() <= MAX_SAMPLES
    &&& forall|k: int| 0 <= k < d.len() ==> valid_sample(#[trigger] d[k])
}

/// `(w·x + b − y)` of one sample, exactly, on the grid `SCALE²`.
pub open spec fn residual(p: (i64, i64), w: int, b: int) -> int {
    w * p.0 + (b - p.1) * SCALE
}

/// The squared error of one sample on the grid `SCALE²`; the residual is
/// first brought to the grid `SCALE`, rounded away from zero, so that a
/// sample off the line never counts as an exact fit.
pub open spec fn sq_error(p: (i64, i64), w: int, b: int) -> int {
    let e = away_div(residual(p, w, b), SCALE as int);
    e * e
}

/// Sum of the residuals of the first `n` samples.
pub open spec fn sum_residual(d: Seq<(i64, i64)>, w: int, b: int, n: nat) -> int
    decreases n,
{
    if n == 0 {
        0
    } else {
        sum_residual(d, w, b, (n - 1) as nat) + residual(d[n - 1], w, b)
    }
}

/// Sum of `residual · x` over the first `n` samples.
pub open spec fn sum_weighted(d: Seq<(i64, i64)>, w: int, b: int, n: nat) -> int
    decreases n,
{
    if n == 0 {
        0
    } else {
        sum_weighted(d, w, b, (n - 1) as nat) + residual(d[n - 1], w, b) * d[n - 1].0
    }
}

/// Sum of the squared errors of the first `n` samples.
pub open spec fn sum_sq(d: Seq<(i64, i64)>, w: int, b: int, n: nat) -> int
    decreases n,
{
    if n == 0 {
        0
    } else {
        sum_sq(d, w, b, (n - 1) as nat) + sq_error(d[n - 1], w, b)
    }
}

/// The cost `J(w, b) = (1 / 2m) · Σ (w·x + b − y)²` on the grid `SCALE²`,
/// rounded up.
pub open spec fn cost_of(d: Seq<(i64, i64)>, w: int, b: int) -> int {
    let m2 = 2 * (d.len() as int);
    (sum_sq(d, w, b, d.len()) + m2 - 1) / m2
}

/// `∂J/∂w = (1/m) · Σ (w·x + b − y)·x` on the grid `SCALE`, rounded toward zero.
pub open spec fn grad_w(d: Seq<(i64, i64)>, w: int, b: int) -> int {
    trunc_div(sum_weighted(d, w, b, d.len()), d.len() * (SCALE * SCALE))
}

/// `∂J/∂b = (1/m) · Σ (w·x + b − y)` on the grid `SCALE`, rounded toward zero.
pub open spec fn grad_b(d: Seq<(i64, i64)>, w: int, b: int) -> int {
    trunc_div(sum_residual(d, w, b, d.len()), d.len() * SCALE)
}

pub proof fn lemma_sample_bounds(p: (i64, i64), w: int, b: int)
    requires
        valid_sample(p),
        in_range(w),
        in_range(b),
    ensures
        -RESIDUAL_BOUND <= residual(p, w, b) <= RESIDUAL_BOUND,
        -1_000_200_000_000_000_000_000_000_000_000int <= residual(p, w, b) * p.0
            <= 1_000_200_000_000_000_000_000_000_000_000int,
        -ERROR_BOUND <= away_div(residual(p, w, b), SCALE as int) <= ERROR_BOUND,
        0 <= sq_error(p, w, b) <= 10_004_000_400_000_000_000_000_000_000int,
{
    let x = p.0 as int;
    let lim = VALUE_LIMIT as int;
    assert(-lim * lim <= w * x <= lim * lim) by (nonlinear_arith)
        requires
            -lim <= w <= lim,
            -lim <= x <= lim,
    ;
    let r = residual(p, w, b);
    let rb = RESIDUAL_BOUND as int;
    assert(-rb * lim <= r * x <= rb * lim) by (nonlinear_arith)
        requires
            -rb <= r <= rb,
            -lim <= x <= lim,
    ;
    let s = SCALE as int;
    if r >= 0 {
        lemma_div_is_ordered(r + s - 1, rb + s - 1, s);
    } else {
        lemma_div_is_ordered(-r + s - 1, rb + s - 1, s);
    }
    let e = away_div(r, s);
    let eb = ERROR_BOUND as int;
    assert(0 <= e * e <= eb * eb) by (nonlinear_arith)
        requires
            -eb <= e <= eb,
    ;
}

/// `-(m·k) <= a <= m·k` divided by `m·c`, rounded toward zero, times `c`, lies in `[-k, k]`.
proof fn lemma_mean_bound(a: int, m: int, c: int, k: int)
    requires
        -(m * k) <= a <= m * k,
        m > 0,
        c > 0,
    ensures
        -k <= trunc_div(a, m * c) * c <= k,
{
    let d = m * c;
    assert(m * c > 0) by (nonlinear_arith)
        requires
            m > 0,
            c > 0,
    ;
    let n = if a >= 0 { a } else { -a };
    let q = n / d;
    lemma_fundamental_div_mod(n, d);
    assert(0 <= q * c <= k) by (nonlinear_arith)
        requires
            0 <= n <= m * k,
            n == d * q + n % d,
            0 <= n % d,
            d == m * c,
            m > 0,
            c > 0,
            q >= 0,
    ;
    assert((-q) * c == -(q * c)) by (nonlinear_arith);
}

/// The cost of the line `(w, b)` over `values`, on the grid `SCALE²`.
pub fn cost(values: &Vec<(i64, i64)>, w: i64, b: i64) -> (r: i128)
    requires
        valid_data(values@),
        in_range(w as int),
        in_range(b as int),
    ensures
        r == cost_of(values@, w as int, b as int),
        0 <= r <= 100_000_000_000_000_000_000_000_000_000_000_000i128,
{
    let m = values.len();
    let mut acc: i128 = 0;
    let mut i: usize = 0;
    while i < m
        invariant
            0 <= i <= m,
            m == values@.len(),
            valid_data(values@),
            in_range(w as int),
            in_range(b as int),
            acc == sum_sq(values@, w as int, b as int, i as nat),
            0 <= acc <= i * 10_004_000_400_000_000_000_000_000_000int,
        decreases m - i,
    {
        let (x, y) = values[i];
        proof {
            lemma_sample_bounds(values@[i as int], w as int, b as int);
        }
        let r: i128 = (w as i128) * (x as i128) + ((b as i128) - (y as i128)) * (SCALE as i128);
        let e = away_div_exec(r, SCALE as i128);
        acc = acc + e * e;
        i = i + 1;
    }
    let m2: i128 = 2 * (m as i128);
    let total: i128 = acc + m2 - 1;
    assert(total / m2 <= total) by (nonlinear_arith)
        requires
            total >= 0,
            m2 >= 1,
    ;
    total / m2
}

/// The gradient `(∂J/∂w, ∂J/∂b)` of the cost at `(w, b)`, on the grid `SCALE`.
pub fn gradient(values: &Vec<(i64, i64)>, w: i64, b: i64) -> (r: (i128, i128))
    requires
        valid_data(values@),
        in_range(w as int),
        in_range(b as int),
    ensures
        r.0 == grad_w(values@, w as int, b as int),
        r.1 == grad_b(values@, w as int, b as int),
        -GRADIENT_BOUND <= r.0 <= GRADIENT_BOUND,
        -ERROR_BOUND <= r.1 <= ERROR_BOUND,
{
    let m = values.len();
    let mut dj_dw: i128 = 0;
    let mut dj_db: i128 = 0;
    let mut i: usize = 0;
    while i < m
        invariant
            0 <= i <= m,
            m == values@.len(),
            valid_data(values@),
            in_range(w as int),
            in_range(b as int),
            dj_dw == sum_weighted(values@, w as int, b as int, i as nat),
            dj_db == sum_residual(values@, w as int, b as int, i as nat),
            -(i * 1_000_200_000_000_000_000_000_000_000_000int) <= dj_dw <= i * 1_000_200_000_000_000_000_000_000_000_000int,
            -(i * 100_020_000_000_000_000_000int) <= dj_db <= i * 100_020_000_000_000_000_000int,
        decreases m - i,
    {
        let (x, y) = values[i];
        proof {
            lemma_sample_bounds(values@[i as int], w as int, b as int);
        }
        let r: i128 = (w as i128) * (x as i128) + ((b as i128) - (y as i128)) * (SCALE as i128);
        dj_dw = dj_dw + r * (x as i128);
        dj_db = dj_db + r;
        i = i + 1;
    }
    let mi: i128 = m as i128;
    proof {
        lemma_mean_bound(dj_dw as int, m as int, 1_000_000_000_000int, 1_000_200_000_000_000_000_000_000_000_000int);
        lemma_mean_bound(dj_db as int, m as int, 1_000_000int, 100_020_000_000_000_000_000int);
    }
    let gw = trunc_div_exec(dj_dw, mi * 1_000_000_000_000i128);
    let gb = trunc_div_exec(dj_db, mi * 1_000_000i128);
    (gw, gb)
}

proof fn lemma_sq_error_zero(p: (i64, i64), w: int, b: int)
    ensures
        sq_error(p, w, b) >= 0,
        sq_error(p, w, b) == 0 <==> residual(p, w, b) == 0,
{
    let r = residual(p, w, b);
    let s = SCALE as int;
    let e = away_div(r, s);
    if r > 0 {
        assert((r + s - 1) / s >= 1) by {
            lemma_div_is_ordered(s, r + s - 1, s);
        }
    } else if r < 0 {
        assert((-r + s - 1) / s >= 1) by {
            lemma_div_is_ordered(s, -r + s - 1, s);
        }
    } else {
        assert((s - 1) / s == 0);
    }
    assert(e * e >= 0 && (e * e == 0 <==> e == 0)) by (nonlinear_arith);
}

proof fn lemma_sum_sq_zero(d: Seq<(i64, i64)>, w: int, b: int, n: nat)
    requires
        n <= d.len(),
    ensures
        sum_sq(d, w, b, n) >= 0,
        sum_sq(d, w, b, n) == 0 <==> forall|k: int| 0 <= k < n ==> residual(#[trigger] d[k], w, b) == 0,
    decreases n,
{
    if n > 0 {
        lemma_sum_sq_zero(d, w, b, (n - 1) as nat);
        lemma_sq_error_zero(d[n - 1], w, b);
        if sum_sq(d, w, b, n) == 0 {
            assert forall|k: int| 0 <= k < n implies residual(#[trigger] d[k], w, b) == 0 by {}
        }
    }
}

/// The cost of any line over a non-empty dataset is never negative, and it
/// is zero exactly when every sample lies on the line, that is
/// `w·x + b = y` holds exactly for each sample.
pub proof fn lemma_cost_zero_iff_on_line(d: Seq<(i64, i64)>, w: int, b: int)
    requires
        d.len() >= 1,
    ensures
        cost_of(d, w, b) >= 0,
        cost_of(d, w, b) == 0 <==> forall|k: int| 0 <= k < d.len() ==> residual(#[trigger] d[k], w, b) == 0,
{
    lemma_sum_sq_zero(d, w, b, d.len());
    let m2 = 2 * (d.len() as int);
    let total = sum_sq(d, w, b, d.len());
    lemma_div_is_ordered(m2 - 1, total + m2 - 1, m2);
    lemma_basic_div(m2 - 1, m2);
    if total > 0 {
        lemma_div_is_ordered(m2, total + m2 - 1, m2);
        lemma_div_by_self(m2);
    }
}

/// Where the residuals satisfy the normal equations `Σ r·x = 0` and
/// `Σ r = 0`, which hold at the minimum of the exact cost, and more
/// generally wherever both sums stay within one grid step of zero, the
/// gradient is exactly `(0, 0)`.
pub proof fn lemma_gradient_vanishes_at_minimum(d: Seq<(i64, i64)>, w: int, b: int)
    requires
        d.len() >= 1,
        -(d.len() * (SCALE * SCALE)) < sum_weighted(d, w, b, d.len()) < d.len() * (SCALE * SCALE),
        -(d.len() * SCALE) < sum_residual(d, w, b, d.len()) < d.len() * SCALE,
    ensures
        grad_w(d, w, b) == 0,
        grad_b(d, w, b) == 0,
{
    let m = d.len() as int;
    let sw = sum_weighted(d, w, b, d.len());
    let sr = sum_residual(d, w, b, d.len());
    let qw = m * (SCALE * SCALE);
    let qb = m * SCALE;
    assert(qw > 0 && qb > 0) by (nonlinear_arith)
        requires
            m >= 1,
            qw == m * 1_000_000_000_000,
            qb == m * 1_000_000,
    ;
    if sw >= 0 {
        lemma_div_is_ordered(sw, qw - 1, qw);
        lemma_div_is_ordered(0, sw, qw);
        lemma_basic_div(qw - 1, qw);
    } else {
        lemma_div_is_ordered(-sw, qw - 1, qw);
        lemma_div_is_ordered(0, -sw, qw);
        lemma_basic_div(qw - 1, qw);
    }
    if sr >= 0 {
        lemma_div_is_ordered(sr, qb - 1, qb);
        lemma_div_is_ordered(0, sr, qb);
        lemma_basic_div(qb - 1, qb);
    } else {
        lemma_div_is_ordered(-sr, qb - 1, qb);
        lemma_div_is_ordered(0, -sr, qb);
        lemma_basic_div(qb - 1, qb);
    }
}

/// Cost and gradient are functions of the dataset and the parameters alone:
/// two evaluations on the same inputs agree.
pub proof fn lemma_cost_gradient_deterministic(
    d1: Seq<(i64, i64)>,
    w1: int,
    b1: int,
    d2: Seq<(i64, i64)>,
    w2: int,
    b2: int,
)
    requires
        d1 == d2,
        w1 == w2,
        b1 == b2,
    ensures
        cost_of(d1, w1, b1) == cost_of(d2, w2, b2),
        grad_w(d1, w1, b1) == grad_w(d2, w2, b2),
        grad_b(d1, w1, b1) == grad_b(d2, w2, b2),
{
}

} // verus!
