//! The verified core of a histogram that exponentially favours recent values.
//!
//! A stream of integer measurements is sampled into a bounded reservoir. Each
//! update gets a decay weight that grows with the time since the start of the
//! current epoch, and a priority: that weight divided by a uniform draw from
//! the open interval (0, 1). The reservoir keeps the samples of highest
//! priority. Once an hour the epoch restarts and every stored priority and
//! weight is decayed by the same factor.
//!
//! Priorities, weights and quantiles are non-negative reals. This library
//! never computes with them: it compares them, orders by them and carries
//! them, each held as an *order key*, a `u64` whose integer order is the order
//! of the reals it stands for. The bit pattern of a non-negative IEEE-754
//! double is such a key. The arithmetic (the exponentials, the draws, the
//! normalisation) is left to the caller.
//!
//! - [`clock`]: the epochs, the rescale deadline and the policy for
//!   timestamps that run backwards.
//! - [`reservoir`]: the bounded set of samples keyed by priority, with the
//!   admission and eviction rule and the rescale.
//! - [`snapshot`]: the samples ordered by value, with quantile lookup and the
//!   grouping of equal values.
use vstd::prelude::*;

pub mod clock;
pub mod reservoir;
pub mod snapshot;

verus! {

/// Why a reservoir could not be made.
#[derive(Clone, Copy, Debug, PartialEq, Eq)]
pub enum HistogramError {
    /// A reservoir must be able to keep at least one sample.
    InvalidConfiguration,
}

} // verus!
