//! Estimates how strongly a host randomizes ephemeral UDP source ports.
//!
//! A [`Trial`] tallies the local ports observed over a run of connect attempts
//! and keeps only those that repeated. [`find_repeated_used_ports`] ranks ports
//! by the number of trials in which they repeated, and [`classify`] maps that
//! ranking to a [`Verdict`].
pub mod ranking;
pub mod tally;
pub mod verdict;

pub use ranking::{
    TOP_PORTS, TRIPLE_REPEAT, any_triple_repeat, cross_trial_frequency_of,
    find_repeated_used_ports,
};
pub use tally::{DEFAULT_ITERATIONS, PortCounts, SLEEP_MILLIS, TOTAL_TRIALS, Trial};
pub use verdict::{Assessment, HIGH_ABOVE, VERY_HIGH_ABOVE, Verdict, assess, classify};
