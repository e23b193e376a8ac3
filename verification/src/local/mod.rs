//! What components on one thread may use.

pub mod extensions;
