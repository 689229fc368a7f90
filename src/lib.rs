//! Fitting a straight line `f(x) = w·x + b` to sample pairs by batch
//! gradient descent, with a search for a learning rate that converges.
//!
//! All quantities are fixed-point integers: a value `v` stands for the real
//! number `v / SCALE`.  Costs use the finer grid `SCALE * SCALE`.

pub mod error;
pub mod fixed;
pub mod input;
pub mod model;
pub mod train;

pub use error::TrainingError;
pub use fixed::{SCALE, VALUE_LIMIT};
pub use input::parse_values;
pub use model::{MAX_SAMPLES, cost, gradient};
pub use train::{
    DIVERGENCE_MARGIN, INITIAL_ALPHA, IterationRecord, LOG_INTERVAL, LogEntry, MAX_ITERATIONS,
    alpha_search, gradient_descent,
};
