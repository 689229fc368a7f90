use linfit::{
    alpha_search, gradient_descent, IterationRecord, LogEntry, TrainingError, INITIAL_ALPHA, SCALE,
};

fn line_y_eq_x() -> Vec<(i64, i64)> {
    vec![(SCALE, SCALE), (2 * SCALE, 2 * SCALE), (3 * SCALE, 3 * SCALE)]
}

fn near(v: i64, target: i64) -> bool {
    (v - target).abs() <= 1_000
}

#[test]
fn single_sample_at_rate_one_converges_in_two_steps() {
    let mut log = Vec::new();
    let r = gradient_descent(&vec![(SCALE, 5 * SCALE)], SCALE, 0, 0, &mut log);
    // (0,0) → (5,5) → (0,0): the cost 12.5 repeats, so the run stops
    assert_eq!(r, Ok((0, 0)));
    assert_eq!(
        log,
        vec![LogEntry::Progress(IterationRecord {
            index: 0,
            cost: 12_500_000_000_000,
            dj_dw: -5_000_000,
            dj_db: -5_000_000,
            w: 5_000_000,
            b: 5_000_000,
        })]
    );
}

#[test]
fn first_cost_above_the_margin_is_divergence() {
    // the previous cost starts at zero, so a first cost above 1000 diverges
    let mut log = Vec::new();
    let r = gradient_descent(&vec![(0, 50 * SCALE)], 1, 0, 0, &mut log);
    assert_eq!(r, Err(TrainingError::AlphaTooLarge));
    assert_eq!(log.len(), 1);
}

#[test]
fn large_rate_diverges() {
    let mut log = Vec::new();
    let r = gradient_descent(&line_y_eq_x(), SCALE, 0, 0, &mut log);
    assert_eq!(r, Err(TrainingError::AlphaTooLarge));
    assert_eq!(log.len(), 1);
}

#[test]
fn leaving_the_range_is_divergence() {
    let mut log = Vec::new();
    let r = gradient_descent(&vec![(10_000 * SCALE, 10_000 * SCALE)], SCALE, 0, 0, &mut log);
    assert_eq!(r, Err(TrainingError::AlphaTooLarge));
    assert!(log.is_empty());
}

#[test]
fn small_rate_fits_the_line() {
    let mut log = Vec::new();
    let r = gradient_descent(&line_y_eq_x(), SCALE / 10, 0, 0, &mut log);
    assert_eq!(r, Ok((999_959, 91)));
    let (w, b) = r.unwrap();
    assert!(near(w, SCALE) && near(b, 0));
    assert_eq!(log.len(), 1);
}

#[test]
fn smaller_rate_fits_the_line_too() {
    let mut log = Vec::new();
    let (w, b) = gradient_descent(&line_y_eq_x(), SCALE / 100, 0, 0, &mut log).unwrap();
    assert!(near(w, SCALE) && near(b, 0));
    assert_eq!(log.len(), 6);
    assert!(log.iter().enumerate().all(|(k, e)| matches!(e, LogEntry::Progress(r) if r.index == 1000 * k as u64)));
}

#[test]
fn slow_run_does_not_settle() {
    let mut log = Vec::new();
    // the residual of 40 shrinks by a millionth per step and never settles
    let r = gradient_descent(&vec![(0, 40 * SCALE)], 1, 0, 0, &mut log);
    assert_eq!(r, Err(TrainingError::NotSettled));
    assert_eq!(log.len(), 1000);
}

#[test]
fn search_fits_the_line_y_eq_x() {
    let mut log = Vec::new();
    let (w, b) = alpha_search(&line_y_eq_x(), INITIAL_ALPHA, &mut log).unwrap();
    assert!(near(w, SCALE) && near(b, 0));
    assert_eq!(log.iter().filter(|e| **e == LogEntry::Retry).count(), 1);
}

#[test]
fn search_returns_what_training_at_the_first_good_rate_returns() {
    let mut search_log = Vec::new();
    let mut direct_log = Vec::new();
    let searched = alpha_search(&line_y_eq_x(), INITIAL_ALPHA, &mut search_log);
    let direct = gradient_descent(&line_y_eq_x(), INITIAL_ALPHA / 10, 0, 0, &mut direct_log);
    assert_eq!(searched, direct);
    assert!(search_log.ends_with(&direct_log));
}

#[test]
fn search_stops_on_a_run_that_converges_at_once() {
    let mut log = Vec::new();
    assert_eq!(alpha_search(&vec![(SCALE, 5 * SCALE)], INITIAL_ALPHA, &mut log), Ok((0, 0)));
    assert!(!log.contains(&LogEntry::Retry));
}

#[test]
fn search_reports_input_faults() {
    let mut log = Vec::new();
    assert_eq!(alpha_search(&vec![], INITIAL_ALPHA, &mut log), Err(TrainingError::NoValues));
    assert_eq!(
        alpha_search(&vec![(0, 10_000 * SCALE + 1)], INITIAL_ALPHA, &mut log),
        Err(TrainingError::ValueOutOfRange)
    );
    assert_eq!(alpha_search(&line_y_eq_x(), 0, &mut log), Err(TrainingError::AlphaExhausted));
    assert_eq!(
        alpha_search(&line_y_eq_x(), 10_000 * SCALE + 1, &mut log),
        Err(TrainingError::ValueOutOfRange)
    );
    assert_eq!(
        alpha_search(&vec![(0, 0); 1_000_001], INITIAL_ALPHA, &mut log),
        Err(TrainingError::TooManyValues)
    );
    assert!(log.is_empty());
}

#[test]
fn search_runs_out_of_rates() {
    // on this scale the first cost exceeds the margin at every rate
    let mut log = Vec::new();
    let r = alpha_search(&vec![(10_000 * SCALE, -10_000 * SCALE)], 10, &mut log);
    assert_eq!(r, Err(TrainingError::AlphaExhausted));
    assert_eq!(log.len(), 4);
    assert_eq!(log[1], LogEntry::Retry);
    assert_eq!(log[3], LogEntry::Retry);
}

#[test]
fn cost_falls_across_a_converging_run() {
    let mut log = Vec::new();
    assert!(gradient_descent(&line_y_eq_x(), SCALE / 100, 0, 0, &mut log).is_ok());
    let costs: Vec<i128> = log
        .iter()
        .map(|e| match e {
            LogEntry::Progress(r) => r.cost,
            LogEntry::Retry => panic!("no retry inside one run"),
        })
        .collect();
    assert!(costs.windows(2).all(|p| p[1] <= p[0]));
}
