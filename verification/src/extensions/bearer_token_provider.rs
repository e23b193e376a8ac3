//! Bearer tokens with an expiry in UNIX time.

use vstd::prelude::*;

pub use crate::secret::Secret;

verus! {

/// Represents a bearer token with its expiration time.
pub struct BearerToken {
    /// The token value.
    pub token: Secret,
    /// The expiration time as a UNIX timestamp (seconds since epoch).
    pub expires_on: i64,
}

impl Clone for BearerToken {
    fn clone(&self) -> (r: Self)
        ensures
            r == *self,
    {
        BearerToken { token: self.token.clone(), expires_on: self.expires_on }
    }
}

impl BearerToken {
    /// Creates a new bearer token.
    pub fn new(token: Secret, expires_on: i64) -> (r: Self)
        ensures
            r.token == token,
            r.expires_on == expires_on,
    {
        BearerToken { token, expires_on }
    }
}

} // verus!
