//! Parts of a query parser: arithmetic, diagnostics, parse trees.

pub mod arithmetic;
pub mod errors;
pub mod primary;
pub mod repl;
pub mod tree;
