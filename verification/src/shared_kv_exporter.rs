//! An exporter that counts what it exports and keeps the count in a key-value store.

use vstd::prelude::*;

verus! {

/// The name of the exporter's plugin.
pub const SHARED_KV_EXPORTER_URN: &'static str = "urn:otel:exporter:shared_kv";

/// The key of the count in the store.
pub const EXPORTED_COUNT_KEY: &'static str = "exported_count";

/// The count as it is stored: eight bytes, the lowest first.
pub open spec fn stored(count: u64) -> Seq<u8> {
    vstd::bytes::spec_u64_to_le_bytes(count)
}

/// The count that the stored bytes stand for: none but eight bytes stand for one.
pub open spec fn restored(bytes: Seq<u8>) -> u64 {
    if bytes.len() == 8 {
        vstd::bytes::spec_u64_from_le_bytes(bytes)
    } else {
        0
    }
}

/// What is stored is what is restored.
pub proof fn count_survives_a_restart(count: u64)
    ensures
        restored(stored(count)) == count,
{
    vstd::bytes::lemma_auto_spec_u64_to_from_le_bytes();
}

/// What the exporter does with a message.
#[derive(Debug)]
pub enum KvStep {
    /// Nothing.
    Ignore,
    /// Store the bytes and acknowledge the data. That storing them fails does not matter.
    Acknowledge { persist: Vec<u8> },
    /// Store the bytes and end.
    Stop { last: Vec<u8> },
}

/// A message for the exporter.
#[derive(Debug, Clone, Copy, PartialEq, Eq, Structural)]
pub enum KvMessage {
    Shutdown,
    Data,
    OtherControl,
}

/// The exporter with what it has counted.
#[derive(Debug)]
pub struct SharedKvExporter {
    pub count: u64,
}

impl SharedKvExporter {
    /// An exporter that goes on from the stored count, if the store gave one.
    pub fn restore(stored: Option<Vec<u8>>) -> (r: Self)
        ensures
            r.count == match stored {
                Some(bytes) => restored(bytes@),
                None => 0,
            },
    {
        match stored {
            Some(bytes) if bytes.len() == 8 => {
                SharedKvExporter { count: vstd::bytes::u64_from_le_bytes(bytes.as_slice()) }
            },
            _ => SharedKvExporter { count: 0 },
        }
    }

    /// Takes a message and says what to do: every message with data is counted, and the new
    /// count is stored.
    pub fn start(&mut self, message: KvMessage) -> (step: KvStep)
        requires
            message is Data ==> old(self).count < u64::MAX,
        ensures
            match message {
                KvMessage::Shutdown => {
                    &&& final(self).count == old(self).count
                    &&& step matches KvStep::Stop { last } && last@ == stored(
                        old(self).count,
                    )
                },
                KvMessage::Data => {
                    &&& final(self).count == old(self).count + 1
                    &&& step matches KvStep::Acknowledge { persist } && persist@ == stored(
                        final(self).count,
                    )
                },
                KvMessage::OtherControl => final(self).count == old(self).count && step is Ignore,
            },
    {
        match message {
            KvMessage::Shutdown => {
                KvStep::Stop { last: vstd::bytes::u64_to_le_bytes(self.count) }
            },
            KvMessage::Data => {
                self.count = self.count + 1;
                KvStep::Acknowledge { persist: vstd::bytes::u64_to_le_bytes(self.count) }
            },
            KvMessage::OtherControl => KvStep::Ignore,
        }
    }
}

/// Eight bytes are stored, and bytes that are not eight stand for no count.
pub proof fn counts_take_eight_bytes(count: u64, bytes: Seq<u8>)
    ensures
        stored(count).len() == 8,
        bytes.len() != 8 ==> restored(bytes) == 0,
        bytes.len() == 8 ==> stored(restored(bytes)) == bytes,
{
    vstd::bytes::lemma_auto_spec_u64_to_from_le_bytes();
}

} // verus!
