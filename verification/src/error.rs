//! Why the verifier turns an operation down.

use vstd::prelude::*;

verus! {

/// The reasons for which the verifier refuses to act.
#[derive(Clone, Copy, Debug, PartialEq, Eq, Structural)]
pub enum VerifierError {
    /// A challenge that is due names a block that is not in the log, or a
    /// transfer that is not in its block.
    MalformedChallenge,
    /// The clock would pass the largest time it can show.
    ClockOverflow,
    /// The baseline would hold more than the largest balance there is.
    SupplyOverflow,
}

} // verus!
