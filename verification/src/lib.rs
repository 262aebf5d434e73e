//! Threshold sharing of byte strings over GF(2^8): Rabin's information
//! dispersal, Shamir's secret sharing, and Krawczyk's combination of the
//! two with a stream cipher.

use vstd::prelude::*;

pub mod error;
pub mod field;
pub mod ids;
pub mod laws;
pub mod linear;
pub mod outside;
pub mod poly;
pub mod secret;
pub mod secret_iter;
pub mod share;

pub use crate::ids::RabinInformationDispersal;
pub use crate::secret::{KrawczykSecretSharing, ShamirSecretSharing};
pub use crate::secret_iter::ShamirIterSecretSharing;

use crate::error::SharingError;
use crate::share::Share;

verus! {

/// A threshold `k` and a number of shares `n` that a scheme can work with:
/// the identifiers `1..=n` are nonzero field elements, so `n` is at most 255.
pub open spec fn valid_parameters(n: nat, k: nat) -> bool {
    1 <= k <= n <= 255
}

/// A scheme that splits a secret into `n` shares of which any `k` give it
/// back.
pub trait Sharing {
    type Share: Share;

    /// The number `n` of shares that `share` makes.
    spec fn share_count(&self) -> nat;

    /// The number `k` of shares that `recontruct` needs.
    spec fn threshold(&self) -> nat;

    /// The shares can be put together.
    spec fn consistent(&self, shares: Seq<Self::Share>) -> bool;

    /// The secret that consistent shares stand for.
    spec fn decoded(&self, shares: Seq<Self::Share>) -> Seq<u8>;

    /// Splits `data` into `n` shares, which carry the identifiers `1..=n` in
    /// this order.
    fn share(&self, data: Vec<u8>) -> (r: Result<Vec<Self::Share>, SharingError>)
        ensures
            !valid_parameters(self.share_count(), self.threshold()) ==> r == Err::<
                Vec<Self::Share>,
                SharingError,
            >(SharingError::InvalidParameters),
            r matches Ok(shares) ==> {
                &&& shares@.len() == self.share_count()
                &&& forall|i: int|
                    0 <= i < shares@.len() ==> (#[trigger] shares@[i]).share_id() == i + 1
            },
    ;

    /// Puts the secret together again from the first `k` of the shares given.
    fn recontruct(&self, shares: Vec<Self::Share>) -> (r: Result<Vec<u8>, SharingError>)
        ensures
            !valid_parameters(self.share_count(), self.threshold()) ==> r == Err::<
                Vec<u8>,
                SharingError,
            >(SharingError::InvalidParameters),
            valid_parameters(self.share_count(), self.threshold()) && shares@.len()
                < self.threshold() ==> r == Err::<Vec<u8>, SharingError>(
                SharingError::InsufficientShares,
            ),
            valid_parameters(self.share_count(), self.threshold()) && shares@.len()
                >= self.threshold() && !self.consistent(shares@) ==> r is Err,
            valid_parameters(self.share_count(), self.threshold()) && self.consistent(shares@)
                ==> (r matches Ok(secret) && secret@ == self.decoded(shares@)),
    ;
}

} // verus!
