//! Error taxonomy of the solver core.

use vstd::prelude::*;

verus! {

/// Errors that the solver core can report.
///
/// No I/O happens in the core, so every variant describes a logical
/// condition of the computation itself.
#[derive(Clone, Copy, Debug, PartialEq, Eq, Structural)]
pub enum SolverError {
    /// A feedback string had the wrong length or held an invalid symbol.
    Decode,
    /// A letter with count zero was popped from a `Counter`; this signals a
    /// broken caller invariant and never occurs in verified call sites.
    Underflow,
    /// The candidate pool became empty after a reduction; the secret lies
    /// outside the assumed dictionary and the guess history should be
    /// replayed against the extended dictionary.
    EmptyPool,
}

} // verus!
