//! Building blocks of a lock-contention microbenchmark: a Collatz-style
//! transition function, the baseline workload, the state machine of the shared
//! counter that the locked workloads step, and the low/mid/high summary of a
//! series of timed trials.
pub mod counter;
pub mod transition;
pub mod trials;

pub use counter::Counter;
pub use transition::{baseline, checked_stopping_time, collatz, ODD_LIMIT};
pub use trials::{sort_ascending, summarize, Summary};
