//! Azure identity: tokens from a managed identity or from developer tools.

pub mod auth;
pub mod config;
pub mod credential;
pub mod error;
pub mod extension;
pub mod metrics;
pub mod refresh;
