//! Bearer tokens with an expiry on a monotonic clock.

use vstd::prelude::*;

pub use crate::secret::Secret;

verus! {

/// A bearer token with its expiration time, in nanoseconds of one monotonic clock.
///
/// Without an expiration time the token never expires.
pub struct BearerToken {
    pub token: Secret,
    pub expires_on: Option<u128>,
}

impl Clone for BearerToken {
    fn clone(&self) -> (r: Self)
        ensures
            r == *self,
    {
        BearerToken { token: self.token.clone(), expires_on: self.expires_on }
    }
}

impl BearerToken {
    /// A token that expires at the given time.
    pub fn new(token: Secret, expires_on: u128) -> (r: Self)
        ensures
            r.token == token,
            r.expires_on == Some(expires_on),
    {
        BearerToken { token, expires_on: Some(expires_on) }
    }

    /// A token that never expires.
    pub fn non_expiring(token: Secret) -> (r: Self)
        ensures
            r.token == token,
            r.expires_on is None,
    {
        BearerToken { token, expires_on: None }
    }
}

} // verus!
