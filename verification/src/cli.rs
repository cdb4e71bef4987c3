//! Progress accounting for the command-line tools.

pub mod counters;
pub mod progress;
