//! Capabilities that extensions provide.

pub mod bearer_token_provider;
pub mod error;
pub mod key_value_store;
pub mod registry;
