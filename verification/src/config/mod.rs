//! Configuration of extensions.

pub mod extension;
