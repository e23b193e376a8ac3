//! Azure credentials for a configuration.

use vstd::prelude::*;

use super::config::{AuthMethod, Config};
use super::credential;
use super::error::AuthError;

pub use super::credential::Credential;

verus! {

/// Which credential flow a configuration asks for.
pub open spec fn flow(method: AuthMethod, has_client: bool) -> Seq<char> {
    match method {
        AuthMethod::ManagedIdentity => if has_client {
            "user_assigned_managed_identity"@
        } else {
            "system_assigned_managed_identity"@
        },
        AuthMethod::Development => "developer_tools"@,
    }
}

/// A credential to be made.
#[derive(Debug)]
pub enum CredentialRequest {
    /// Of a managed identity: the user-assigned one of that client, or the system-assigned one.
    ManagedIdentity { client_id: Option<String> },
    /// Of the tools of a developer, with their defaults.
    DeveloperTools,
}

/// A credential, the scope that it requests tokens for, and a label for its flow.
pub struct Auth {
    credential: Credential,
    scope: String,
    credential_type: &'static str,
}

impl Auth {
    pub closed spec fn held(&self) -> Credential {
        self.credential
    }

    pub closed spec fn requests(&self) -> Seq<char> {
        self.scope@
    }

    pub closed spec fn flow(&self) -> Seq<char> {
        self.credential_type@
    }

    /// An `Auth` for the configuration: a managed identity is that of the configured client,
    /// or the system-assigned one. Developer tools never fail.
    pub fn new(config: &Config) -> (r: Result<Self, AuthError>)
        ensures
            config.method is Development ==> r is Ok,
            match r {
                Ok(auth) => {
                    &&& auth.held().method() == config.method
                    &&& auth.held().is_of_client(config.client_id)
                    &&& auth.requests() == config.scope@
                    &&& auth.flow() == flow(config.method, config.client_id is Some)
                },
                Err(e) => e matches AuthError::CreateCredential { method, .. } && method
                    == config.method,
            },
    {
        match Self::create_credential(config) {
            Ok(credential) => Ok(Self::with_credential(config, credential)),
            Err(e) => Err(e),
        }
    }

    /// An `Auth` for the configuration with that credential.
    pub fn with_credential(config: &Config, credential: Credential) -> (r: Self)
        ensures
            r.held() == credential,
            r.requests() == config.scope@,
            r.flow() == flow(config.method, config.client_id is Some),
    {
        let credential_type: &'static str = match config.method {
            AuthMethod::ManagedIdentity => {
                if config.client_id.is_some() {
                    "user_assigned_managed_identity"
                } else {
                    "system_assigned_managed_identity"
                }
            },
            AuthMethod::Development => "developer_tools",
        };
        Auth { credential, scope: config.scope.clone(), credential_type }
    }

    fn create_credential(config: &Config) -> (r: Result<Credential, AuthError>)
        ensures
            config.method is Development ==> r is Ok,
            match r {
                Ok(c) => c.method() == config.method && c.is_of_client(config.client_id),
                Err(e) => e matches AuthError::CreateCredential { method, .. } && method
                    == config.method,
            },
    {
        match Self::credential_request(config) {
            CredentialRequest::ManagedIdentity { client_id } => {
                match credential::managed_identity(client_id) {
                    Ok(c) => Ok(Credential::ManagedIdentity(c)),
                    Err(cause) => Err(
                        AuthError::CreateCredential { method: AuthMethod::ManagedIdentity, cause },
                    ),
                }
            },
            CredentialRequest::DeveloperTools => {
                match credential::developer_tools() {
                    Ok(c) => Ok(Credential::DeveloperTools(c)),
                    Err(cause) => Err(
                        AuthError::CreateCredential { method: AuthMethod::Development, cause },
                    ),
                }
            },
        }
    }

    /// The credential that a configuration asks for.
    pub fn credential_request(config: &Config) -> (r: CredentialRequest)
        ensures
            match config.method {
                AuthMethod::ManagedIdentity => r == (CredentialRequest::ManagedIdentity {
                    client_id: config.client_id,
                }),
                AuthMethod::Development => r is DeveloperTools,
            },
    {
        match config.method {
            AuthMethod::ManagedIdentity => {
                let client_id: Option<String> = match &config.client_id {
                    Some(id) => Some(id.clone()),
                    None => None,
                };
                CredentialRequest::ManagedIdentity { client_id }
            },
            AuthMethod::Development => CredentialRequest::DeveloperTools,
        }
    }

    /// The scope that tokens are requested for.
    pub fn scope(&self) -> (r: &str)
        ensures
            r@ == self.requests(),
    {
        self.scope.as_str()
    }

    /// A label for the flow of the credential.
    pub fn credential_type(&self) -> (r: &'static str)
        ensures
            r@ == self.flow(),
    {
        self.credential_type
    }

    /// The credential.
    pub fn credential(&self) -> (r: &Credential)
        ensures
            *r == self.held(),
    {
        &self.credential
    }
}

/// The label tells the flows apart: developer tools, and a managed identity with or without a
/// client.
pub proof fn labels_tell_the_flows_apart(method: AuthMethod, has_client: bool)
    ensures
        flow(method, has_client) == "developer_tools"@ <==> method is Development,
        flow(method, has_client) == "user_assigned_managed_identity"@ <==> method is ManagedIdentity
            && has_client,
        flow(method, has_client) == "system_assigned_managed_identity"@
            <==> method is ManagedIdentity && !has_client,
{
    reveal_strlit("developer_tools");
    reveal_strlit("user_assigned_managed_identity");
    reveal_strlit("system_assigned_managed_identity");
    assert("developer_tools"@.len() == 15);
    assert("user_assigned_managed_identity"@.len() == 30);
    assert("system_assigned_managed_identity"@.len() == 32);
}

} // verus!
