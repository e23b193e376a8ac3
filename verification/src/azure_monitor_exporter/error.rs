//! Errors of the Azure Monitor exporter.

use vstd::prelude::*;

use crate::extension::control::RecvError;

verus! {

/// Why the exporter could not take or send log entries.
#[derive(Debug)]
pub enum ExporterError {
    /// The encoder failed while an entry was pushed.
    BatchPushFailed(std::io::Error),
    /// A batch could not be finalized: the encoder failed, or the batch exceeds the hard limit
    /// after oversize recovery.
    BatchFinalizeFailed(std::io::Error),
    /// A log entry is too large for any batch.
    LogEntryTooLarge,
    /// The log records of a message could not be read.
    LogsViewCreationFailed { source: String },
    /// Nothing can be received any more.
    ChannelRecv(RecvError),
}

} // verus!
