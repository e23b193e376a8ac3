//! Extensions: tokens, errors, and the registry that all components share.

use vstd::prelude::*;

use crate::text;

pub mod bearer_token_provider;
pub mod registry;

verus! {

/// Error when retrieving an extension trait.
#[derive(Debug)]
pub enum ExtensionError {
    /// Extension not found by name.
    NotFound {
        /// The name of the extension that was not found.
        name: String,
    },
    /// Extension found but doesn't implement the requested trait.
    TraitNotImplemented {
        /// The name of the extension.
        name: String,
        /// The expected trait name.
        expected: &'static str,
    },
}

impl ExtensionError {
    /// The message of the error.
    pub open spec fn text(&self) -> Seq<char> {
        match *self {
            ExtensionError::NotFound { name } => "extension '"@ + name@ + "' not found"@,
            ExtensionError::TraitNotImplemented { name, expected } => "extension '"@ + name@
                + "' does not implement trait "@ + expected@,
        }
    }

    /// The message of the error.
    pub fn message(&self) -> (r: String)
        ensures
            r@ == self.text(),
    {
        match self {
            ExtensionError::NotFound { name } => text::joined3(
                "extension '",
                name.as_str(),
                "' not found",
            ),
            ExtensionError::TraitNotImplemented { name, expected } => {
                let r: String = text::joined3(
                    "extension '",
                    name.as_str(),
                    "' does not implement trait ",
                );
                text::joined2(r.as_str(), *expected)
            },
        }
    }
}

} // verus!
