//! Azure Monitor exporter: batching of log entries and bookkeeping of what was sent.

pub mod auth_header;
pub mod encoder;
pub mod error;
pub mod gzip_batcher;
pub mod schedule;
pub mod state;
pub mod exporter;
pub mod otlp_field;
