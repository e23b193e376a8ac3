//! Configuration for Azure identity.

use vstd::prelude::*;
use vstd::string::*;

use super::error::AuthError;
use crate::order;
use crate::text;

verus! {

/// Authentication method for Azure.
#[derive(Debug, Clone, Copy, PartialEq, Eq, Structural)]
pub enum AuthMethod {
    /// System- or user-assigned managed identity.
    ManagedIdentity,
    /// Developer tooling.
    Development,
}

impl AuthMethod {
    /// The method of that name in a configuration.
    pub open spec fn named(name: Seq<char>) -> Option<AuthMethod> {
        if name == "managedidentity"@ || name == "msi"@ || name == "managed_identity"@ {
            Some(AuthMethod::ManagedIdentity)
        } else if name == "development"@ || name == "dev"@ || name == "developer"@ || name
            == "cli"@ {
            Some(AuthMethod::Development)
        } else {
            None
        }
    }

    /// The method of that name in a configuration.
    pub fn from_name(name: &str) -> (r: Option<AuthMethod>)
        ensures
            r == Self::named(name@),
    {
        if order::str_same(name, "managedidentity") || order::str_same(name, "msi")
            || order::str_same(name, "managed_identity") {
            Some(AuthMethod::ManagedIdentity)
        } else if order::str_same(name, "development") || order::str_same(name, "dev")
            || order::str_same(name, "developer") || order::str_same(name, "cli") {
            Some(AuthMethod::Development)
        } else {
            None
        }
    }

    /// How the method is shown.
    pub open spec fn shown(self) -> Seq<char> {
        match self {
            AuthMethod::ManagedIdentity => "managed_identity"@,
            AuthMethod::Development => "development"@,
        }
    }

    /// How the method is shown.
    pub fn label(&self) -> (r: &'static str)
        ensures
            r@ == self.shown(),
    {
        match self {
            AuthMethod::ManagedIdentity => "managed_identity",
            AuthMethod::Development => "development",
        }
    }
}

impl Default for AuthMethod {
    fn default() -> (r: Self)
        ensures
            r is ManagedIdentity,
    {
        AuthMethod::ManagedIdentity
    }
}

/// The configuration.
#[derive(Debug)]
pub struct Config {
    pub method: AuthMethod,
    /// The client of a user-assigned managed identity. Without one the identity is
    /// system-assigned.
    pub client_id: Option<String>,
    /// The scope that tokens are requested for.
    pub scope: String,
}

/// The scope that tokens are requested for if none is configured.
pub fn default_scope() -> (r: String)
    ensures
        r@ == "https://monitor.azure.com/.default"@,
{
    String::from_str("https://monitor.azure.com/.default")
}

impl Default for Config {
    fn default() -> (r: Self)
        ensures
            r.method is ManagedIdentity,
            r.client_id is None,
            r.scope@ == "https://monitor.azure.com/.default"@,
    {
        Config { method: AuthMethod::ManagedIdentity, client_id: None, scope: default_scope() }
    }
}

impl Config {
    /// Whether the scope has anything but white space.
    pub open spec fn valid(&self) -> bool {
        text::trimmed(self.scope@).len() > 0
    }

    /// Validates the configuration.
    pub fn validate(&self) -> (r: Result<(), AuthError>)
        ensures
            match r {
                Ok(_) => self.valid(),
                Err(e) => !self.valid() && (e matches AuthError::InvalidConfig { message } && message@
                    == "oauth scope cannot be empty"@),
            },
    {
        if text::trim(self.scope.as_str()).unicode_len() == 0 {
            return Err(
                AuthError::InvalidConfig { message: String::from_str("oauth scope cannot be empty") },
            );
        }
        Ok(())
    }
}

/// Each name stands for its method and for no other, and what a method is shown as is one of its
/// names.
pub proof fn each_name_stands_for_its_method(name: Seq<char>)
    ensures
        AuthMethod::named(name) == Some(AuthMethod::ManagedIdentity) <==> name
            == "managed_identity"@ || name == "managedidentity"@ || name == "msi"@,
        AuthMethod::named(name) == Some(AuthMethod::Development) <==> name == "development"@
            || name == "developer"@ || name == "dev"@ || name == "cli"@,
        AuthMethod::named(AuthMethod::ManagedIdentity.shown()) == Some(
            AuthMethod::ManagedIdentity,
        ),
        AuthMethod::named(AuthMethod::Development.shown()) == Some(AuthMethod::Development),
{
    reveal_strlit("managed_identity");
    reveal_strlit("managedidentity");
    reveal_strlit("msi");
    reveal_strlit("development");
    reveal_strlit("developer");
    reveal_strlit("dev");
    reveal_strlit("cli");
    assert("managed_identity"@.len() == 16);
    assert("managedidentity"@.len() == 15);
    assert("msi"@.len() == 3 && "msi"@[0] == 'm');
    assert("development"@.len() == 11);
    assert("developer"@.len() == 9);
    assert("dev"@.len() == 3 && "dev"@[0] == 'd');
    assert("cli"@.len() == 3 && "cli"@[0] == 'c');
}

/// A scope is refused exactly if it is empty or has nothing but white space.
pub proof fn blank_scopes_are_refused(config: Config)
    ensures
        config.valid() <==> exists|i: int|
            0 <= i < config.scope@.len() && !text::is_white(#[trigger] config.scope@[i]),
{
    text::blank_text_trims_to_nothing(config.scope@);
}

} // verus!
