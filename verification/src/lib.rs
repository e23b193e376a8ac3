//! Verified building blocks of a dataflow engine's extension system.

pub mod order;
pub mod text;
pub mod walk;
pub mod digraph;
pub mod dependency_graph;
pub mod azure_monitor_exporter;
pub mod kql;
pub mod handles;
pub mod secret;
pub mod extensions;
pub mod shared;
pub mod local;
pub mod providers;
pub mod id_table;
pub mod capability;
pub mod extension;
pub mod config;
pub mod shared_kv_exporter;
pub mod azure_identity_auth;
pub mod azure_identity_auth_extension;
pub mod capability_macro;
