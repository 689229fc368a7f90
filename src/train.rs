use vstd::prelude::*;

use crate::error::TrainingError;
use crate::fixed::{SCALE, VALUE_LIMIT, in_range, trunc_div, trunc_div_exec};
use crate::model::{MAX_SAMPLES, valid_sample, valid_data, cost_of, grad_w, grad_b, cost, gradient};

verus! {

/// Iterations that one training run may take before it gives up.
pub const MAX_ITERATIONS: u64 = 1_000_000;

/// A progress record is kept for every iteration whose index is a multiple of this.
pub const LOG_INTERVAL: u64 = 1000;

/// A rise of the cost by more than this (1000.0 on the grid `SCALE²`) means divergence.
pub const DIVERGENCE_MARGIN: i128 = 1_000_000_000_000_000;

/// The learning rate that the search starts from: 1.0.
pub const INITIAL_ALPHA: i64 = 1_000_000;

/// The state of one training iteration, as kept for the log.
#[derive(Debug, Clone, Copy, PartialEq, Eq, Structural)]
pub struct IterationRecord {
    pub index: u64,
    /// The cost after the update, on the grid `SCALE²`.
    pub cost: i128,
    /// The gradient before the update, on the grid `SCALE`.
    pub dj_dw: i128,
    pub dj_db: i128,
    /// The parameters after the update.
    pub w: i64,
    pub b: i64,
}

/// One entry of the training log.
#[derive(Debug, Clone, Copy, PartialEq, Eq, Structural)]
pub enum LogEntry {
    Progress(IterationRecord),
    /// A run diverged and the search retries with a rate ten times smaller.
    Retry,
}

/// `alpha · g` on the grid `SCALE`, rounded toward zero.
pub open spec fn scaled_step(alpha: int, g: int) -> int {
    trunc_div(alpha * g, SCALE as int)
}

/// The training run from parameters `(w, b)` at iteration `i`, the previous
/// cost being `prev`, with `fuel` iterations left: its outcome and the log
/// entries it makes.
pub open spec fn descend(
    d: Seq<(i64, i64)>,
    alpha: int,
    w: int,
    b: int,
    prev: int,
    i: nat,
    fuel: nat,
) -> (Result<(i64, i64), TrainingError>, Seq<LogEntry>)
    decreases fuel,
{
    if fuel == 0 {
        (Err(TrainingError::NotSettled), seq![])
    } else {
        let gw = grad_w(d, w, b);
        let gb = grad_b(d, w, b);
        let nb = b - scaled_step(alpha, gb);
        let nw = w - scaled_step(alpha, gw);
        if !in_range(nw) || !in_range(nb) {
            (Err(TrainingError::AlphaTooLarge), seq![])
        } else {
            let c = cost_of(d, nw, nb);
            let rec = if i % (LOG_INTERVAL as nat) == 0 {
                seq![
                    LogEntry::Progress(
                        IterationRecord {
                            index: i as u64,
                            cost: c as i128,
                            dj_dw: gw as i128,
                            dj_db: gb as i128,
                            w: nw as i64,
                            b: nb as i64,
                        },
                    ),
                ]
            } else {
                seq![]
            };
            if c == prev {
                (Ok((nw as i64, nb as i64)), rec)
            } else if c > prev + DIVERGENCE_MARGIN {
                (Err(TrainingError::AlphaTooLarge), rec)
            } else {
                let rest = descend(d, alpha, nw, nb, c, i + 1, (fuel - 1) as nat);
                (rest.0, rec + rest.1)
            }
        }
    }
}

/// A whole training run with rate `alpha` from `(w, b)`.
pub open spec fn train(d: Seq<(i64, i64)>, alpha: int, w: int, b: int) -> (
    Result<(i64, i64), TrainingError>,
    Seq<LogEntry>,
) {
    descend(d, alpha, w, b, 0, 0, MAX_ITERATIONS as nat)
}

/// Trains from `(0, 0)` with rate `alpha`; after a divergence, again with
/// `alpha / 10`, until a run ends otherwise or the rate reaches zero.
pub open spec fn search(d: Seq<(i64, i64)>, alpha: int) -> (
    Result<(i64, i64), TrainingError>,
    Seq<LogEntry>,
)
    decreases alpha,
{
    if alpha <= 0 {
        (Err(TrainingError::AlphaExhausted), seq![])
    } else {
        let t = train(d, alpha, 0, 0);
        if t.0 == Err::<(i64, i64), TrainingError>(TrainingError::AlphaTooLarge) {
            let s = search(d, alpha / 10);
            (s.0, t.1.push(LogEntry::Retry) + s.1)
        } else {
            t
        }
    }
}

/// Runs gradient descent with rate `alpha` from `(w, b)`, appending progress
/// records to `log`.  `Ok` holds the parameters at which the cost stopped
/// changing.
pub fn gradient_descent(
    values: &Vec<(i64, i64)>,
    alpha: i64,
    w: i64,
    b: i64,
    log: &mut Vec<LogEntry>,
) -> (r: Result<(i64, i64), TrainingError>)
    requires
        valid_data(values@),
        0 < alpha <= VALUE_LIMIT,
        in_range(w as int),
        in_range(b as int),
    ensures
        r == train(values@, alpha as int, w as int, b as int).0,
        final(log)@ == old(log)@ + train(values@, alpha as int, w as int, b as int).1,
{
    let ghost d = values@;
    let ghost full = train(d, alpha as int, w as int, b as int);
    let mut cw = w;
    let mut cb = b;
    let mut prev: i128 = 0;
    let mut i: u64 = 0;
    while i < MAX_ITERATIONS
        invariant
            d == values@,
            valid_data(d),
            0 < alpha <= VALUE_LIMIT,
            in_range(cw as int),
            in_range(cb as int),
            0 <= prev <= 100_000_000_000_000_000_000_000_000_000_000_000i128,
            i <= MAX_ITERATIONS,
            full == train(d, alpha as int, w as int, b as int),
            full.0 == descend(d, alpha as int, cw as int, cb as int, prev as int, i as nat, (MAX_ITERATIONS - i) as nat).0,
            old(log)@ + full.1 == log@ + descend(d, alpha as int, cw as int, cb as int, prev as int, i as nat, (MAX_ITERATIONS - i) as nat).1,
        decreases MAX_ITERATIONS - i,
    {
        let ghost cur = descend(d, alpha as int, cw as int, cb as int, prev as int, i as nat, (MAX_ITERATIONS - i) as nat);
        let ghost log0 = log@;
        let (dj_dw, dj_db) = gradient(values, cw, cb);
        let a: i128 = alpha as i128;
        assert(-10_002_000_000_000_000_000_000_000_000i128 <= a * dj_dw <= 10_002_000_000_000_000_000_000_000_000i128) by (nonlinear_arith)
            requires
                0 < a <= 10_000_000_000i128,
                -1_000_200_000_000_000_000i128 <= dj_dw <= 1_000_200_000_000_000_000i128,
        ;
        assert(-1_000_200_000_000_000_000_000_000i128 <= a * dj_db <= 1_000_200_000_000_000_000_000_000i128) by (nonlinear_arith)
            requires
                0 < a <= 10_000_000_000i128,
                -100_020_000_000_000i128 <= dj_db <= 100_020_000_000_000i128,
        ;
        let nb: i128 = (cb as i128) - trunc_div_exec(a * dj_db, SCALE as i128);
        let nw: i128 = (cw as i128) - trunc_div_exec(a * dj_dw, SCALE as i128);
        if nw < -(VALUE_LIMIT as i128) || nw > VALUE_LIMIT as i128 || nb < -(VALUE_LIMIT as i128) || nb > VALUE_LIMIT as i128 {
            return Err(TrainingError::AlphaTooLarge);
        }
        let nw: i64 = nw as i64;
        let nb: i64 = nb as i64;
        let c = cost(values, nw, nb);
        if i % LOG_INTERVAL == 0 {
            log.push(LogEntry::Progress(IterationRecord { index: i, cost: c, dj_dw, dj_db, w: nw, b: nb }));
        }
        let ghost rest = descend(d, alpha as int, nw as int, nb as int, c as int, (i + 1) as nat, (MAX_ITERATIONS - i - 1) as nat);
        if c == prev {
            return Ok((nw, nb));
        }
        if c > prev + DIVERGENCE_MARGIN {
            return Err(TrainingError::AlphaTooLarge);
        }
        proof {
            assert(log0 + cur.1 =~= log@ + rest.1);
        }
        prev = c;
        cw = nw;
        cb = nb;
        i = i + 1;
    }
    Err(TrainingError::NotSettled)
}

/// The first fault of the input to a search, if any.
pub open spec fn input_fault(d: Seq<(i64, i64)>, alpha: int) -> Option<TrainingError> {
    if d.len() == 0 {
        Some(TrainingError::NoValues)
    } else if d.len() > MAX_SAMPLES {
        Some(TrainingError::TooManyValues)
    } else if exists|k: int| 0 <= k < d.len() && !valid_sample(#[trigger] d[k]) {
        Some(TrainingError::ValueOutOfRange)
    } else if alpha <= 0 {
        Some(TrainingError::AlphaExhausted)
    } else if alpha > VALUE_LIMIT {
        Some(TrainingError::ValueOutOfRange)
    } else {
        None
    }
}

/// Searches for a learning rate that does not diverge: trains from `(0, 0)`
/// with `alpha`, and after each divergence logs a retry and trains again with
/// a rate ten times smaller.  Input faults are reported before any training.
pub fn alpha_search(values: &Vec<(i64, i64)>, alpha: i64, log: &mut Vec<LogEntry>) -> (r: Result<
    (i64, i64),
    TrainingError,
>)
    ensures
        input_fault(values@, alpha as int) is Some ==> r == Err::<(i64, i64), TrainingError>(
            input_fault(values@, alpha as int)->0,
        ) && final(log)@ == old(log)@,
        input_fault(values@, alpha as int) is None ==> r == search(values@, alpha as int).0
            && final(log)@ == old(log)@ + search(values@, alpha as int).1,
{
    let m = values.len();
    if m == 0 {
        return Err(TrainingError::NoValues);
    }
    if m > MAX_SAMPLES {
        return Err(TrainingError::TooManyValues);
    }
    let mut k: usize = 0;
    while k < m
        invariant
            0 <= k <= m,
            0 < m <= MAX_SAMPLES,
            m == values@.len(),
            forall|j: int| 0 <= j < k ==> valid_sample(#[trigger] values@[j]),
        decreases m - k,
    {
        let (x, y) = values[k];
        if x < -VALUE_LIMIT || x > VALUE_LIMIT || y < -VALUE_LIMIT || y > VALUE_LIMIT {
            assert(!valid_sample(values@[k as int]));
            assert(exists|j: int| 0 <= j < values@.len() && !valid_sample(#[trigger] values@[j]));
            return Err(TrainingError::ValueOutOfRange);
        }
        k = k + 1;
    }
    if alpha <= 0 {
        return Err(TrainingError::AlphaExhausted);
    }
    if alpha > VALUE_LIMIT {
        return Err(TrainingError::ValueOutOfRange);
    }
    let ghost d = values@;
    let ghost full = search(d, alpha as int);
    assert(input_fault(d, alpha as int) is None);
    let mut a = alpha;
    while a > 0
        invariant
            d == values@,
            valid_data(d),
            0 <= a <= VALUE_LIMIT,
            full == search(d, alpha as int),
            input_fault(d, alpha as int) is None,
            full.0 == search(d, a as int).0,
            old(log)@ + full.1 == log@ + search(d, a as int).1,
        decreases a,
    {
        let ghost log0 = log@;
        let r = gradient_descent(values, a, 0, 0, log);
        match r {
            Err(TrainingError::AlphaTooLarge) => {
                log.push(LogEntry::Retry);
                proof {
                    let s = search(d, a / 10);
                    assert(log0 + search(d, a as int).1 =~= log@ + s.1);
                }
                a = a / 10;
            },
            _ => {
                return r;
            },
        }
    }
    Err(TrainingError::AlphaExhausted)
}

/// The rate after `k` retries from `alpha`: divided by ten `k` times.
pub open spec fn shrunk(alpha: int, k: nat) -> int
    decreases k,
{
    if k == 0 {
        alpha
    } else {
        shrunk(alpha / 10, (k - 1) as nat)
    }
}

proof fn lemma_shrunk_nonpos(alpha: int, k: nat)
    requires
        alpha <= 0,
    ensures
        shrunk(alpha, k) <= 0,
    decreases k,
{
    if k > 0 {
        lemma_shrunk_nonpos(alpha / 10, (k - 1) as nat);
    }
}

/// If training from `(0, 0)` converges at the rate reached after `k`
/// retries from `alpha`, and diverges at every rate before it, the search
/// from `alpha` returns exactly what training at that rate returns.
pub proof fn lemma_search_reaches_converging_rate(d: Seq<(i64, i64)>, alpha: int, k: nat)
    requires
        forall|j: nat| j < k ==> train(d, #[trigger] shrunk(alpha, j), 0, 0).0 == Err::<
            (i64, i64),
            TrainingError,
        >(TrainingError::AlphaTooLarge),
        shrunk(alpha, k) > 0,
        train(d, shrunk(alpha, k), 0, 0).0 is Ok,
    ensures
        search(d, alpha).0 == train(d, shrunk(alpha, k), 0, 0).0,
    decreases k,
{
    if alpha <= 0 {
        lemma_shrunk_nonpos(alpha, k);
    }
    if k > 0 {
        assert(shrunk(alpha, 0) == alpha);
        assert forall|j: nat| j < (k - 1) as nat implies train(d, #[trigger] shrunk(alpha / 10, j), 0, 0).0
            == Err::<(i64, i64), TrainingError>(TrainingError::AlphaTooLarge) by {
            assert(shrunk(alpha, j + 1) == shrunk(alpha / 10, j));
        }
        lemma_search_reaches_converging_rate(d, alpha / 10, (k - 1) as nat);
    }
}

} // verus!
