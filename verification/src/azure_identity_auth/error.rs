//! Errors of Azure identity.

use vstd::prelude::*;

use super::config::AuthMethod;

verus! {

/// What went wrong.
#[derive(Debug)]
pub enum AuthError {
    /// The configuration is invalid.
    InvalidConfig { message: String },
    /// A credential could not be made.
    CreateCredential { method: AuthMethod, cause: azure_core::Error },
    /// The credential gave no token.
    TokenAcquisition { source: azure_core::Error },
}

} // verus!
