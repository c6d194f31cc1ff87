//! A sliding-window aggregator: a FIFO window of values with amortized O(1)
//! append and evict and O(1) query of the fold of the whole window under a
//! user-supplied associative operator.

pub mod aggregator;
pub mod semigroup;

pub use aggregator::SWAg;
