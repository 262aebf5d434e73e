//! The ways in which sharing and reconstruction fail.

use vstd::prelude::*;

verus! {

/// Why a secret could not be shared or reconstructed.
#[derive(Debug, Clone, Copy, PartialEq, Eq)]
pub enum SharingError {
    /// The threshold is zero, or larger than the number of shares.
    InvalidParameters,
    /// Fewer shares than the threshold were given.
    InsufficientShares,
    /// The shares do not belong together: an identifier is zero or occurs
    /// twice, or lengths disagree.
    InconsistentShares,
    /// The source of random bytes reported an error.
    RngFailure,
    /// The stream cipher could not be set up or cannot take the data.
    CipherFailure,
}

} // verus!
