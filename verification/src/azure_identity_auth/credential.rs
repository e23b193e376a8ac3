//! Credentials of `azure_identity`.

use std::sync::Arc;
use vstd::prelude::*;

use azure_identity::{
    DeveloperToolsCredential, DeveloperToolsCredentialOptions, ManagedIdentityCredential,
    ManagedIdentityCredentialOptions, UserAssignedId,
};

use super::config::AuthMethod;

verus! {

/// The error type of `azure_core`, opaque.
#[verifier::external_type_specification]
#[verifier::external_body]
pub struct ExAzureError(azure_core::Error);

/// `azure_identity::ManagedIdentityCredential`, opaque.
#[verifier::external_type_specification]
#[verifier::external_body]
pub struct ExManagedIdentityCredential(ManagedIdentityCredential);

/// `azure_identity::DeveloperToolsCredential`, opaque.
#[verifier::external_type_specification]
#[verifier::external_body]
pub struct ExDeveloperToolsCredential(DeveloperToolsCredential);

/// The client of the user-assigned identity that a credential asks for tokens with. A
/// credential of the system-assigned identity has none.
pub uninterp spec fn client_of(c: ManagedIdentityCredential) -> Option<Seq<char>>;

/// The text of a client, if there is one.
pub open spec fn client_text(client_id: Option<String>) -> Option<Seq<char>> {
    match client_id {
        Some(id) => Some(id@),
        None => None,
    }
}

/// `azure_identity::ManagedIdentityCredential::new` with default options, but for the client of
/// a user-assigned identity, if there is one: a credential asks for tokens with that client.
/// The environment decides whether there is a credential and from where it gets tokens, so
/// nothing is claimed of that.
#[verifier::external_body]
pub(crate) fn managed_identity(client_id: Option<String>) -> (r: Result<
    Arc<ManagedIdentityCredential>,
    azure_core::Error,
>)
    ensures
        r matches Ok(c) ==> client_of(*c) == client_text(client_id),
{
    let user_assigned_id = client_id.map(UserAssignedId::ClientId);
    let options = ManagedIdentityCredentialOptions { user_assigned_id, ..Default::default() };
    ManagedIdentityCredential::new(Some(options))
}

/// `azure_identity::DeveloperToolsCredential::new` with default options. With them it does not
/// fail: it only fails for a tenant or a subscription that is not valid, and they name none.
#[verifier::external_body]
pub(crate) fn developer_tools() -> (r: Result<Arc<DeveloperToolsCredential>, azure_core::Error>)
    ensures
        r is Ok,
{
    DeveloperToolsCredential::new(Some(DeveloperToolsCredentialOptions::default()))
}

/// A credential of one of the methods.
pub enum Credential {
    ManagedIdentity(Arc<ManagedIdentityCredential>),
    DeveloperTools(Arc<DeveloperToolsCredential>),
}

impl Credential {
    /// The method that the credential belongs to.
    pub open spec fn method(&self) -> AuthMethod {
        match *self {
            Credential::ManagedIdentity(_) => AuthMethod::ManagedIdentity,
            Credential::DeveloperTools(_) => AuthMethod::Development,
        }
    }

    /// The credential is one of the client, if it belongs to a managed identity.
    pub open spec fn is_of_client(&self, client_id: Option<String>) -> bool {
        *self matches Credential::ManagedIdentity(c) ==> client_of(*c) == client_text(client_id)
    }
}

/// A credential of a managed identity is that of the client that was asked for, and the
/// system-assigned one if none was.
pub proof fn credentials_are_of_their_client(
    credential: Arc<ManagedIdentityCredential>,
    client_id: Option<String>,
)
    requires
        Credential::ManagedIdentity(credential).is_of_client(client_id),
    ensures
        client_id matches Some(id) ==> client_of(*credential) == Some(id@),
        client_id is None ==> client_of(*credential) is None,
{
}

} // verus!
