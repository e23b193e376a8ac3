//! Extensions of a pipeline: registry, dependencies, lifecycle.

pub mod control;
pub mod dependencies;
pub mod dependency;
pub mod hierarchy;
pub mod host;
pub mod prepare;
pub mod registry;
pub mod wrapper;
