//! What components on any thread may use.

pub mod extensions;
