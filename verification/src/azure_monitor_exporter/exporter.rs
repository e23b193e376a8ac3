//! What the exporter decides: which entries go into which batch, which messages are answered
//! when, and what is done next.
//!
//! The functions here decide; the caller receives, sends, waits, and hands back what happened.

use bytes::Bytes;
use reqwest::header::HeaderValue;
use std::collections::VecDeque;
use vstd::prelude::*;
use vstd::string::*;

use super::auth_header;
use super::encoder;
use super::error::ExporterError;
use super::gzip_batcher;
use super::gzip_batcher::{BatcherView, FinalizeResult, GzipBatcher, GzipResult, PushResult};
use super::schedule::{Guards, Schedule};
use super::state;
use super::state::AzureMonitorExporterState;
use crate::capability::bearer_token_provider::BearerToken;
use crate::extension::control::RecvError;

verus! {

/// `n` more, or the largest count there is.
pub open spec fn more(count: u64, n: int) -> u64 {
    if count + n > u64::MAX {
        u64::MAX
    } else {
        (count + n) as u64
    }
}

/// Counts of what was exported and what was not.
#[derive(Debug, Clone, Copy, PartialEq, Eq, Structural)]
pub struct ExportCounts {
    pub messages: u64,
    pub rows: u64,
    pub batches: u64,
    pub failed_messages: u64,
    pub failed_rows: u64,
    pub failed_batches: u64,
    pub log_entries_too_large: u64,
    pub heartbeats: u64,
}

impl ExportCounts {
    /// Nothing was counted yet.
    pub open spec fn none() -> ExportCounts {
        ExportCounts {
            messages: 0,
            rows: 0,
            batches: 0,
            failed_messages: 0,
            failed_rows: 0,
            failed_batches: 0,
            log_entries_too_large: 0,
            heartbeats: 0,
        }
    }
}

/// The form in which the data of a message comes.
#[derive(Debug, Clone, Copy, PartialEq, Eq, Structural)]
pub enum PayloadKind {
    ArrowLogs,
    ArrowMetrics,
    ArrowTraces,
    OtlpLogs,
    OtlpMetrics,
    OtlpTraces,
}

impl PayloadKind {
    /// Only logs are exported.
    pub open spec fn is_logs(self) -> bool {
        self is ArrowLogs || self is OtlpLogs
    }

    /// Whether data of this form is exported.
    pub fn is_exported(&self) -> (r: bool)
        ensures
            r == self.is_logs(),
    {
        match self {
            PayloadKind::ArrowLogs => true,
            PayloadKind::OtlpLogs => true,
            _ => false,
        }
    }
}

/// What the outcome of a push means for the message that the entry belongs to.
pub enum Noted<P> {
    /// The entry stands in a batch.
    Entered,
    /// The entry stands in a batch, and the batch before it is ready.
    EnteredNext,
    /// The message is refused.
    Refused(Option<P>, ExporterError),
}

impl<P> AzureMonitorExporterState<P> {
    /// Takes note of the outcome of pushing an entry of the message.
    pub fn note_push(&mut self, msg_id: u64, outcome: Result<PushResult, ExporterError>) -> (r: Noted<P>)
        requires
            old(self).wf(),
        ensures
            final(self).wf(),
            match outcome {
                Ok(PushResult::Accepted(id)) => {
                    &&& r is Entered
                    &&& final(self).messages() == old(self).messages()
                    &&& final(self).relation() == old(self).relation().insert((id, msg_id))
                },
                Ok(PushResult::BatchReady(id)) => {
                    &&& r is EnteredNext
                    &&& final(self).messages() == old(self).messages()
                    &&& final(self).relation() == old(self).relation().insert((id, msg_id))
                },
                _ => {
                    &&& r is Refused
                    &&& final(self).relation() == old(self).relation()
                    &&& final(self).messages() == state::without(
                        old(self).messages(),
                        state::is_msg(msg_id),
                    )
                    &&& r->Refused_0 is Some == state::has_id(old(self).messages(), msg_id)
                    &&& r->Refused_0 is Some ==> old(self).messages().contains(
                        (msg_id, r->Refused_0->0),
                    )
                    &&& r->Refused_1 == match outcome {
                        Err(e) => e,
                        Ok(_) => ExporterError::LogEntryTooLarge,
                    }
                },
            },
    {
        match outcome {
            Ok(PushResult::Accepted(id)) => {
                self.add_batch_msg_relationship(id, msg_id);
                Noted::Entered
            },
            Ok(PushResult::BatchReady(id)) => {
                self.add_batch_msg_relationship(id, msg_id);
                Noted::EnteredNext
            },
            Ok(PushResult::TooLarge) => Noted::Refused(
                self.remove_msg_to_data(msg_id),
                ExporterError::LogEntryTooLarge,
            ),
            Err(e) => Noted::Refused(self.remove_msg_to_data(msg_id), e),
        }
    }
}

/// A message whose entries are being batched.
pub struct LogsJob {
    entries: VecDeque<Bytes>,
    msg_id: u64,
}

impl LogsJob {
    /// The entries that are still to be batched.
    pub closed spec fn left(&self) -> Seq<Seq<u8>> {
        gzip_batcher::contents(self.entries@)
    }

    /// The id of the message.
    pub closed spec fn id(&self) -> u64 {
        self.msg_id
    }
}

/// What has to be done before a message is dealt with.
pub enum LogsStep<P> {
    /// A batch is to be exported; more entries may follow.
    Queue(GzipResult),
    /// All entries stand in batches. A message without any is refused.
    Finished(Option<P>),
    /// An entry could not be batched: the message is refused, and the exporter stops.
    Failed(Option<P>, ExporterError),
}

/// An export that has ended: with success, or with that error.
#[derive(Debug)]
pub struct CompletedExport {
    pub batch_id: u64,
    pub row_count: u64,
    pub result: Result<(), String>,
}

/// A message with data.
pub struct Incoming<P> {
    pub kind: PayloadKind,
    /// Whether the payload may go back to where it came from with the answer.
    pub may_return_payload: bool,
    pub payload: P,
    /// The payload without its data.
    pub empty: P,
    /// The log entries that the data was made into, or why it could not be read.
    pub entries: Result<Vec<Bytes>, String>,
}

/// Why a message is refused.
#[derive(Debug)]
pub enum Refusal {
    /// A batch with one of its entries could not be exported, for that reason.
    ExportFailed(String),
    /// It has no usable entries.
    NoValidEntries,
    /// The exporter stops with an error, which is the reason.
    Stopped,
    /// The exporter is shut down first.
    Shutdown,
}

/// The answer to a message.
#[derive(Debug)]
pub enum Answer<P> {
    Ack(P),
    Nack(P, Refusal),
}

/// What happens to the exporter.
pub enum ExporterEvent<P> {
    /// A token came, or the provider failed to give one.
    Token(Result<BearerToken, String>),
    /// A heartbeat is due.
    HeartbeatDue,
    /// An export has ended, or none is under way.
    Completed(Option<CompletedExport>),
    /// It is time to look at the open batch.
    PeriodicExportDue,
    CollectTelemetry,
    Shutdown,
    /// A control message that means nothing here.
    OtherControl,
    Data(Incoming<P>),
    /// Nothing can be received any more.
    ReceiveFailed(RecvError),
    /// The batch was queued. If there was no free slot, an export was waited for.
    Queued(Option<CompletedExport>),
    /// The exports under way have ended, in that order.
    Drained(Vec<CompletedExport>),
}

/// What the exporter has to do next, once it has given its answers.
pub enum ExporterAction {
    /// Wait for an event.
    Wait,
    /// Use the header from now on, then wait.
    UpdateAuth { header: HeaderValue, first: bool },
    /// Send a heartbeat, then wait. That sending fails does not matter.
    SendHeartbeat,
    /// Report the counts, then wait. That reporting fails does not matter.
    ReportMetrics,
    /// Queue the batch for export.
    Export(GzipResult),
    /// Wait for all exports under way.
    Drain,
    /// End.
    Stop,
    /// End with that error.
    Fail(ExporterError),
}

/// The answers to give, in order, and what to do then. An answer that cannot be given ends the
/// exporter.
pub struct Step<P> {
    pub answers: Vec<Answer<P>>,
    pub action: ExporterAction,
}

/// What the exporter is in the middle of.
enum Activity {
    /// Nothing.
    Idle,
    /// A batch is queued, and the message has entries left.
    Batching(LogsJob),
    /// A batch is queued because it did not fill.
    Flushing,
    /// The last batch is queued.
    StoppingFlush,
    /// The exports under way are waited for.
    StoppingDrain,
    /// It is over.
    Ended,
}

/// What the exporter is in the middle of, as mathematics.
pub enum ActivityView {
    Idle,
    Batching { id: u64, left: Seq<Seq<u8>> },
    Flushing,
    StoppingFlush,
    StoppingDrain,
    Ended,
}

/// The exporter as mathematics.
pub struct ExporterView<P> {
    pub batcher: GzipBatcher,
    /// The messages that wait for an answer, in the order in which they came.
    pub messages: Seq<(u64, P)>,
    /// The pairs of a batch and a message with an entry in it.
    pub relation: Set<(u64, u64)>,
    pub counts: ExportCounts,
    /// The id of the last message.
    pub last_msg: u64,
    pub schedule: Schedule,
    /// The nanoseconds between two heartbeats, if there are any.
    pub heartbeat: Option<u128>,
    pub activity: ActivityView,
}

/// The message has an entry in some batch.
pub open spec fn in_some_batch(relation: Set<(u64, u64)>, msg_id: u64) -> bool {
    exists|b: u64| #[trigger] relation.contains((b, msg_id))
}

/// The messages are acknowledged.
pub open spec fn acks<P>(messages: Seq<(u64, P)>) -> Seq<Answer<P>> {
    Seq::new(messages.len(), |i: int| Answer::Ack(messages[i].1))
}

/// The messages are refused.
pub open spec fn nacks<P>(messages: Seq<(u64, P)>, why: Refusal) -> Seq<Answer<P>> {
    Seq::new(messages.len(), |i: int| Answer::Nack(messages[i].1, why))
}

/// The message, if there is one, is refused.
pub open spec fn nack<P>(message: Option<P>, why: Refusal) -> Seq<Answer<P>> {
    match message {
        Some(p) => seq![Answer::Nack(p, why)],
        None => Seq::empty(),
    }
}

impl<P> ExporterView<P> {
    /// Ids are not used twice, and a finished batch does not wait to be taken.
    pub open spec fn wf(self) -> bool {
        &&& state::distinct_ids(self.messages)
        &&& forall|i: int|
            0 <= i < self.messages.len() ==> (#[trigger] self.messages[i]).0 <= self.last_msg
        &&& !(self.activity is Ended) ==> self.batcher.pending() is None
        &&& self.activity matches ActivityView::Batching { id, .. } ==> id <= self.last_msg
    }

    /// There are ids left for another message and for its batches.
    pub open spec fn has_room(self) -> bool {
        &&& self.last_msg < u64::MAX
        &&& self.batcher.last_id() + 3 <= u64::MAX
    }

    /// The exporter once the message waits for its answer.
    pub open spec fn with_message(self, msg_id: u64, data: P) -> ExporterView<P> {
        ExporterView {
            messages: state::without(self.messages, state::is_msg(msg_id)).push((msg_id, data)),
            ..self
        }
    }

    /// The exporter without the message.
    pub open spec fn without_message(self, msg_id: u64) -> ExporterView<P> {
        ExporterView { messages: state::without(self.messages, state::is_msg(msg_id)), ..self }
    }

    /// The message waits and is `data`, or it does not wait.
    pub open spec fn is_taken(self, msg_id: u64, data: Option<P>) -> bool {
        &&& data is Some == state::has_id(self.messages, msg_id)
        &&& data matches Some(p) ==> self.messages.contains((msg_id, p))
    }

    /// The exporter after a batch was exported.
    pub open spec fn exported(self, batch_id: u64, row_count: u64) -> ExporterView<P> {
        let done = state::completed(self.relation, batch_id);
        ExporterView {
            messages: state::without(self.messages, done),
            relation: state::without_batch(self.relation, batch_id),
            counts: ExportCounts {
                messages: more(
                    self.counts.messages,
                    state::only(self.messages, done).len() as int,
                ),
                rows: more(self.counts.rows, row_count as int),
                batches: more(self.counts.batches, 1),
                ..self.counts
            },
            ..self
        }
    }

    /// The exporter after a batch could not be exported.
    pub open spec fn unexported(self, batch_id: u64, row_count: u64) -> ExporterView<P> {
        let lost = state::touched(self.relation, batch_id);
        ExporterView {
            messages: state::without(self.messages, lost),
            relation: state::without_touched(self.relation, batch_id),
            counts: ExportCounts {
                failed_messages: more(
                    self.counts.failed_messages,
                    state::only(self.messages, lost).len() as int,
                ),
                failed_rows: more(self.counts.failed_rows, row_count as int),
                failed_batches: more(self.counts.failed_batches, 1),
                ..self.counts
            },
            ..self
        }
    }

    /// The exporter after an export has ended.
    pub open spec fn settled(self, export: CompletedExport) -> ExporterView<P> {
        match export.result {
            Ok(_) => self.exported(export.batch_id, export.row_count),
            Err(_) => self.unexported(export.batch_id, export.row_count),
        }
    }

    /// What is answered when an export has ended: the messages that have all their entries in
    /// exported batches now are acknowledged; those with an entry in a lost batch are refused.
    pub open spec fn answers(self, export: CompletedExport) -> Seq<Answer<P>> {
        match export.result {
            Ok(_) => acks(state::only(self.messages, state::completed(self.relation, export.batch_id))),
            Err(e) => nacks(
                state::only(self.messages, state::touched(self.relation, export.batch_id)),
                Refusal::ExportFailed(e),
            ),
        }
    }

    /// The messages that are answered when an export has ended.
    pub open spec fn decided(self, export: CompletedExport) -> Seq<(u64, P)> {
        match export.result {
            Ok(_) => state::only(
                self.messages,
                state::completed(self.relation, export.batch_id),
            ),
            Err(_) => state::only(self.messages, state::touched(self.relation, export.batch_id)),
        }
    }

    /// The messages that are answered when the exports have ended, one after another.
    pub open spec fn all_decided(self, exports: Seq<CompletedExport>) -> Seq<(u64, P)>
        decreases exports.len(),
    {
        if exports.len() == 0 {
            Seq::empty()
        } else {
            self.all_decided(exports.drop_last()) + self.all_settled(exports.drop_last()).decided(
                exports.last(),
            )
        }
    }

    /// Data is accepted at that time, with so many exports under way: the token is good for a
    /// while, and a slot is free.
    pub open spec fn accepts_data(self, now: u128, in_flight: int) -> bool {
        &&& self.schedule.token_expiry_at > now + super::schedule::secs(
            super::schedule::TOKEN_EXPIRY_BUFFER_SECS,
        )
        &&& in_flight < super::schedule::MAX_IN_FLIGHT_EXPORTS
    }

    /// The exporter after an export has ended, if one has.
    pub open spec fn maybe_settled(self, export: Option<CompletedExport>) -> ExporterView<P> {
        match export {
            Some(c) => self.settled(c),
            None => self,
        }
    }

    /// What is answered when an export has ended, if one has.
    pub open spec fn maybe_answers(self, export: Option<CompletedExport>) -> Seq<Answer<P>> {
        match export {
            Some(c) => self.answers(c),
            None => Seq::empty(),
        }
    }

    /// The exporter after the exports have ended, one after another.
    pub open spec fn all_settled(self, exports: Seq<CompletedExport>) -> ExporterView<P>
        decreases exports.len(),
    {
        if exports.len() == 0 {
            self
        } else {
            self.all_settled(exports.drop_last()).settled(exports.last())
        }
    }

    /// What is answered when the exports have ended, one after another.
    pub open spec fn all_answers(self, exports: Seq<CompletedExport>) -> Seq<Answer<P>>
        decreases exports.len(),
    {
        if exports.len() == 0 {
            Seq::empty()
        } else {
            self.all_answers(exports.drop_last()) + self.all_settled(exports.drop_last()).answers(
                exports.last(),
            )
        }
    }

    /// The exporter after it was asked to queue the batch that was queued.
    pub open spec fn queued(self, export: Option<CompletedExport>, now: u128) -> ExporterView<P> {
        let settled = self.maybe_settled(export);
        ExporterView {
            schedule: settled.schedule.with_batch_queued(now),
            activity: ActivityView::Idle,
            ..settled
        }
    }

    /// The open batch was closed, if it held entries, and `r` is what came of it.
    pub open spec fn closes_batch(
        self,
        after: ExporterView<P>,
        r: Result<Option<GzipResult>, ExporterError>,
    ) -> bool {
        let (closed, result) = self.batcher@.finalized();
        &&& after == (ExporterView { batcher: after.batcher, ..self })
        &&& after.batcher@ == (BatcherView { pending: None, ..closed })
        &&& after.batcher.pending() is None
        &&& after.batcher.level() == self.batcher.level()
        &&& after.batcher.rows().len() == 0
        &&& after.batcher.last_id() == self.batcher.last_id()
        &&& match r {
            Ok(None) => {
                &&& result == Some(FinalizeResult::Empty)
                &&& self.batcher.rows().len() == 0
                &&& after.batcher.kept() == self.batcher.kept()
            },
            Ok(Some(batch)) => {
                &&& result == Some(FinalizeResult::Finalized)
                &&& closed.pending == Some(batch@)
                &&& self.batcher.rows().len() > 0
                &&& batch.batch_id == self.batcher.last_id()
                &&& gzip_batcher::sends_front(batch, self.batcher.kept(), after.batcher.kept())
                &&& self.batcher@.overlong() || (batch.delivers(
                    self.batcher.rows(),
                ) && after.batcher.spillover() == self.batcher.spillover())
            },
            Err(e) => {
                &&& result is None
                &&& gzip_batcher::is_oversize_failure(e)
                &&& self.batcher.rows().len() > 0
                &&& self.batcher@.overlong()
                &&& gzip_batcher::overlong_alone(self.batcher.level(), self.batcher.rows()[0])
                &&& after.batcher.kept() == self.batcher.kept().skip(1)
            },
        }
    }

    /// The first `k` of the entries went into the batches, and the last of them completed
    /// `batch` and started the next one; the message is noted for the batches that it is in.
    /// If rows that waited completed the batch, a first entry that fits into no batch is passed
    /// over.
    pub open spec fn queues_at(
        self,
        after: ExporterView<P>,
        msg_id: u64,
        left0: Seq<Seq<u8>>,
        left1: Seq<Seq<u8>>,
        batch: GzipResult,
        k: int,
    ) -> bool {
        let open = self.batcher.open_id();
        let filled = self.batcher@.with_rows(left0.take(k - 1));
        let full = filled.measured_for(left0[k - 1].len());
        let (ready, result) = filled.pushed(left0[k - 1]);
        &&& 1 <= k <= left0.len()
        &&& left1 == left0.skip(k)
        &&& self.batcher@.accepts(left0.take(k - 1))
        &&& result == Some(PushResult::BatchReady((open + 1) as u64))
        &&& ready.pending == Some(batch@)
        &&& after.batcher@ == (BatcherView { pending: None, ..ready })
        &&& after.batcher.level() == self.batcher.level()
        &&& batch.batch_id == open
        &&& gzip_batcher::sends_front(
            batch,
            self.batcher.kept() + (if gzip_batcher::fits(left0[k - 1]) {
                left0.take(k)
            } else {
                left0.take(k - 1)
            }),
            after.batcher.kept(),
        )
        &&& gzip_batcher::fits(left0[k - 1]) || (k == 1 && self.batcher.spillover().len() > 0)
        &&& self.batcher.spillover().len() == 0 || k > 1 ==> full.overlong() || (batch.delivers(
            self.batcher.kept() + left0.take(k - 1),
        ) && after.batcher.rows() == seq![left0[k - 1]] && after.batcher.spillover().len() == 0)
        &&& after.batcher.last_id() == open + 1
        &&& after == (ExporterView {
            batcher: after.batcher,
            relation: if k == 1 {
                self.relation.insert(((open + 1) as u64, msg_id))
            } else {
                self.relation.insert((open as u64, msg_id)).insert(((open + 1) as u64, msg_id))
            },
            ..self
        })
    }

    /// The relation once the first `k` entries of the message went into the open batch.
    pub open spec fn entered(self, msg_id: u64, k: int) -> Set<(u64, u64)> {
        if k == 0 {
            self.relation
        } else {
            self.relation.insert((self.batcher.open_id() as u64, msg_id))
        }
    }

    /// The first `k` entries went into the open batch, and the next one could not be batched:
    /// it fits into no batch, or the batch that it completes cannot be finished.
    pub open spec fn fails_at(
        self,
        after: ExporterView<P>,
        msg_id: u64,
        left: Seq<Seq<u8>>,
        error: ExporterError,
        k: int,
    ) -> bool {
        let (stopped, result) = self.batcher@.with_rows(left.take(k)).pushed(left[k]);
        &&& 0 <= k < left.len()
        &&& self.batcher@.accepts(left.take(k))
        &&& gzip_batcher::all_fit(left.take(k))
        &&& after.batcher@ == stopped
        &&& after.batcher.level() == self.batcher.level()
        &&& after.relation == self.entered(msg_id, k)
        &&& match result {
            Some(PushResult::TooLarge) => {
                &&& error is LogEntryTooLarge
                &&& !gzip_batcher::fits(left[k])
                &&& after.counts == (ExportCounts {
                    log_entries_too_large: more(self.counts.log_entries_too_large, 1),
                    ..self.counts
                })
                &&& after.batcher.pending() is None
                &&& after.batcher.kept() == self.batcher.kept() + left.take(k)
            },
            Some(_) => false,
            None => {
                &&& gzip_batcher::is_oversize_failure(error)
                &&& gzip_batcher::overlong_alone(
                    self.batcher.level(),
                    (self.batcher.kept() + left.take(k))[0],
                )
                &&& self.batcher.spillover().len() == 0 || k > 0 ==> self.batcher@.with_rows(
                    left.take(k),
                ).measured_for(left[k].len()).overlong()
                &&& after.counts == self.counts
            },
        }
    }

    /// Entries of the message were batched until `step` was to be done.
    pub open spec fn batches(
        self,
        after: ExporterView<P>,
        msg_id: u64,
        left0: Seq<Seq<u8>>,
        left1: Seq<Seq<u8>>,
        step: LogsStep<P>,
    ) -> bool {
        match step {
            LogsStep::Queue(batch) => {
                &&& after.batcher.pending() is None
                &&& exists|k: int| #[trigger] self.queues_at(after, msg_id, left0, left1, batch, k)
            },
            LogsStep::Finished(orphan) => {
                let now = ExporterView {
                    batcher: after.batcher,
                    relation: self.entered(msg_id, left0.len() as int),
                    ..self
                };
                &&& after.batcher.pending() is None
                &&& after.batcher.level() == self.batcher.level()
                &&& left1.len() == 0
                &&& gzip_batcher::all_fit(left0)
                &&& self.batcher@.accepts(left0)
                &&& after.batcher@ == self.batcher@.with_rows(left0)
                &&& after.batcher.kept() == self.batcher.kept() + left0
                &&& if in_some_batch(now.relation, msg_id) {
                    orphan is None && after == now
                } else {
                    self.is_taken(msg_id, orphan) && after == now.without_message(msg_id)
                }
            },
            LogsStep::Failed(refused, error) => {
                &&& self.is_taken(msg_id, refused)
                &&& after == (ExporterView {
                    batcher: after.batcher,
                    relation: after.relation,
                    counts: after.counts,
                    ..self
                }).without_message(msg_id)
                &&& exists|k: int| #[trigger] self.fails_at(after, msg_id, left0, error, k)
            },
        }
    }

    /// Entries of the message are batched, and the exporter goes on with what comes of it.
    /// `answered` was answered before.
    pub open spec fn goes_on(
        self,
        after: ExporterView<P>,
        msg_id: u64,
        left: Seq<Seq<u8>>,
        answered: Seq<Answer<P>>,
        answers: Seq<Answer<P>>,
        action: ExporterAction,
    ) -> bool {
        exists|left1: Seq<Seq<u8>>, step: LogsStep<P>| #[trigger]
            self.batches(
                ExporterView { activity: self.activity, ..after },
                msg_id,
                left,
                left1,
                step,
            ) && match step {
                LogsStep::Queue(batch) => {
                    &&& after.activity == (ActivityView::Batching { id: msg_id, left: left1 })
                    &&& answers == answered
                    &&& action == ExporterAction::Export(batch)
                },
                LogsStep::Finished(orphan) => {
                    &&& after.activity is Idle
                    &&& answers == answered + nack(orphan, Refusal::NoValidEntries)
                    &&& action is Wait
                },
                LogsStep::Failed(refused, error) => {
                    &&& after.activity is Ended
                    &&& answers == answered + nack(refused, Refusal::Stopped)
                    &&& action == ExporterAction::Fail(error)
                },
            }
    }

    /// A message with data comes.
    pub open spec fn handles(
        self,
        message: Incoming<P>,
        after: ExporterView<P>,
        answers: Seq<Answer<P>>,
        action: ExporterAction,
    ) -> bool {
        let id = (self.last_msg + 1) as u64;
        let now = ExporterView { last_msg: id, ..self };
        if !message.kind.is_logs() {
            after == now && answers.len() == 0 && action is Wait
        } else {
            match message.entries {
                Err(source) => {
                    &&& after == (ExporterView { activity: ActivityView::Ended, ..now })
                    &&& answers.len() == 0
                    &&& action == ExporterAction::Fail(
                        ExporterError::LogsViewCreationFailed { source },
                    )
                },
                Ok(entries) => {
                    let data = if message.may_return_payload {
                        message.payload
                    } else {
                        message.empty
                    };
                    now.with_message(id, data).goes_on(
                        after,
                        id,
                        gzip_batcher::contents(entries@),
                        Seq::empty(),
                        answers,
                        action,
                    )
                },
            }
        }
    }

    /// The open batch is exported, if it holds entries, before the exporter is in the middle
    /// of `flushing`; otherwise it goes on with `idle` and `idle_action`.
    pub open spec fn flushes(
        self,
        after: ExporterView<P>,
        action: ExporterAction,
        flushing: ActivityView,
        idle: ActivityView,
        idle_action: ExporterAction,
    ) -> bool {
        exists|r: Result<Option<GzipResult>, ExporterError>| #[trigger]
            self.closes_batch(ExporterView { activity: self.activity, ..after }, r) && match r {
                Ok(Some(batch)) => after.activity == flushing && action == ExporterAction::Export(
                    batch,
                ),
                Ok(None) => after.activity == idle && action == idle_action,
                Err(e) => after.activity is Ended && action == ExporterAction::Fail(e),
            }
    }

    /// The events that may come now: while the exporter is in the middle of something, only
    /// what it waits for.
    pub open spec fn expects(self, event: ExporterEvent<P>) -> bool {
        match self.activity {
            ActivityView::Idle => !(event is Queued) && !(event is Drained),
            ActivityView::StoppingDrain => event is Drained,
            ActivityView::Ended => false,
            _ => event is Queued,
        }
    }

    /// The exporter takes the event, gives the answers and goes on with the action.
    pub open spec fn takes(
        self,
        event: ExporterEvent<P>,
        now: u128,
        after: ExporterView<P>,
        answers: Seq<Answer<P>>,
        action: ExporterAction,
    ) -> bool {
        match event {
            ExporterEvent::Token(Ok(token)) => {
                &&& answers.len() == 0
                &&& if auth_header::is_header_text(token.token@) {
                    &&& after == (ExporterView {
                        schedule: self.schedule.with_token(now, token.expires_on),
                        ..self
                    })
                    &&& action matches ExporterAction::UpdateAuth { header, first }
                        && auth_header::header_text(header) == "Bearer "@ + token.token@ && first
                        == !self.schedule.first_token_seen
                } else {
                    after == self && action is Wait
                }
            },
            ExporterEvent::HeartbeatDue if self.heartbeat is Some => {
                &&& answers.len() == 0
                &&& action is SendHeartbeat
                &&& after == (ExporterView {
                    schedule: self.schedule.with_heartbeat(now, self.heartbeat->0),
                    counts: ExportCounts {
                        heartbeats: more(self.counts.heartbeats, 1),
                        ..self.counts
                    },
                    ..self
                })
            },
            ExporterEvent::Completed(export) => {
                &&& after == self.maybe_settled(export)
                &&& answers == self.maybe_answers(export)
                &&& action is Wait
            },
            ExporterEvent::PeriodicExportDue => {
                let looked = ExporterView {
                    schedule: self.schedule.with_periodic_export(now),
                    ..self
                };
                &&& answers.len() == 0
                &&& if self.schedule.is_overdue(now) {
                    looked.flushes(
                        after,
                        action,
                        ActivityView::Flushing,
                        ActivityView::Idle,
                        ExporterAction::Wait,
                    )
                } else {
                    after == looked && action is Wait
                }
            },
            ExporterEvent::CollectTelemetry => {
                &&& after == self
                &&& answers.len() == 0
                &&& action is ReportMetrics
            },
            ExporterEvent::Shutdown => {
                &&& answers.len() == 0
                &&& self.flushes(
                    after,
                    action,
                    ActivityView::StoppingFlush,
                    ActivityView::StoppingDrain,
                    ExporterAction::Drain,
                )
            },
            ExporterEvent::Data(message) => self.handles(message, after, answers, action),
            ExporterEvent::ReceiveFailed(e) => {
                &&& after == (ExporterView { activity: ActivityView::Ended, ..self })
                &&& answers.len() == 0
                &&& action == ExporterAction::Fail(ExporterError::ChannelRecv(e))
            },
            ExporterEvent::Queued(export) => {
                let queued = self.queued(export, now);
                let answered = self.maybe_answers(export);
                match self.activity {
                    ActivityView::Batching { id, left } => queued.goes_on(
                        after,
                        id,
                        left,
                        answered,
                        answers,
                        action,
                    ),
                    ActivityView::StoppingFlush => {
                        &&& after == (ExporterView {
                            activity: ActivityView::StoppingDrain,
                            ..queued
                        })
                        &&& answers == answered
                        &&& action is Drain
                    },
                    _ => after == queued && answers == answered && action is Wait,
                }
            },
            ExporterEvent::Drained(exports) => {
                let settled = self.all_settled(exports@);
                &&& after == (ExporterView {
                    messages: Seq::empty(),
                    relation: Set::empty(),
                    activity: ActivityView::Ended,
                    ..settled
                })
                &&& answers == self.all_answers(exports@) + nacks(
                    settled.messages,
                    Refusal::Shutdown,
                )
                &&& action is Stop
            },
            _ => after == self && answers.len() == 0 && action is Wait,
        }
    }
}

/// Azure Monitor exporter: batches, waiting messages, counts and times.
pub struct AzureMonitorExporter<P> {
    gzip_batcher: GzipBatcher,
    state: AzureMonitorExporterState<P>,
    counts: ExportCounts,
    msg_id: u64,
    schedule: Schedule,
    heartbeat: Option<u128>,
    activity: Activity,
}

impl<P> View for AzureMonitorExporter<P> {
    type V = ExporterView<P>;

    closed spec fn view(&self) -> ExporterView<P> {
        ExporterView {
            batcher: self.gzip_batcher,
            messages: self.state.messages(),
            relation: self.state.relation(),
            counts: self.counts,
            last_msg: self.msg_id,
            schedule: self.schedule,
            heartbeat: self.heartbeat,
            activity: match self.activity {
                Activity::Idle => ActivityView::Idle,
                Activity::Batching(job) => ActivityView::Batching {
                    id: job.id(),
                    left: job.left(),
                },
                Activity::Flushing => ActivityView::Flushing,
                Activity::StoppingFlush => ActivityView::StoppingFlush,
                Activity::StoppingDrain => ActivityView::StoppingDrain,
                Activity::Ended => ActivityView::Ended,
            },
        }
    }
}

impl<P> AzureMonitorExporter<P> {
    /// The parts are sound.
    closed spec fn sound(&self) -> bool {
        self.gzip_batcher.wf() && self.state.wf()
    }

    /// The exporter is sound.
    pub closed spec fn wf(&self) -> bool {
        self.sound() && self@.wf()
    }

    /// Build a new exporter with the given gzip compression level, which sends a heartbeat
    /// every so many nanoseconds, if any.
    pub fn new(gzip_compression_level: u32, heartbeat: Option<u128>, now: u128) -> (r: Self)
        requires
            gzip_compression_level <= 9,
        ensures
            r.wf(),
            r@.batcher@ == BatcherView::empty(gzip_compression_level),
            r@.batcher.pending() is None,
            r@.messages.len() == 0,
            r@.relation == Set::<(u64, u64)>::empty(),
            r@.last_msg == 0,
            r@.counts == ExportCounts::none(),
            r@.schedule == (Schedule {
                token_expiry_at: now,
                first_token_seen: false,
                next_periodic_export: super::schedule::later(
                    now,
                    super::schedule::secs(super::schedule::PERIODIC_EXPORT_INTERVAL),
                ),
                next_heartbeat_send: now,
                last_batch_queued_at: now,
            }),
            r@.heartbeat == heartbeat,
            r@.activity is Idle,
    {
        AzureMonitorExporter {
            gzip_batcher: GzipBatcher::new(gzip_compression_level),
            state: AzureMonitorExporterState::new(),
            counts: ExportCounts {
                messages: 0,
                rows: 0,
                batches: 0,
                failed_messages: 0,
                failed_rows: 0,
                failed_batches: 0,
                log_entries_too_large: 0,
                heartbeats: 0,
            },
            msg_id: 0,
            schedule: Schedule::new(now),
            heartbeat,
            activity: Activity::Idle,
        }
    }

    /// The counts so far.
    pub fn metrics(&self) -> (r: ExportCounts)
        ensures
            r == self@.counts,
    {
        self.counts
    }

    /// When things are due.
    pub fn schedule(&self) -> (r: Schedule)
        ensures
            r == self@.schedule,
    {
        self.schedule
    }

    /// What may happen now, with so many exports under way.
    pub fn guards(&self, now: u128, in_flight: usize) -> (r: Guards)
        ensures
            r.has_token == (self@.schedule.token_expiry_at > now + super::schedule::secs(
                super::schedule::TOKEN_EXPIRY_BUFFER_SECS,
            )),
            r.at_capacity == (in_flight >= super::schedule::MAX_IN_FLIGHT_EXPORTS),
            r.accepting_pdata == self@.accepts_data(now, in_flight as int),
            r.heartbeat == (r.has_token && self@.heartbeat is Some),
    {
        self.schedule.guards(now, in_flight, self.heartbeat.is_some())
    }

    /// Whether there are ids left for another message and for its batches.
    pub fn has_room(&self) -> (r: bool)
        ensures
            r == self@.has_room(),
    {
        self.msg_id < u64::MAX && self.gzip_batcher.batch_count() <= u64::MAX - 3
    }

    /// Whether the event may come now.
    pub fn expects(&self, event: &ExporterEvent<P>) -> (r: bool)
        ensures
            r == self@.expects(*event),
    {
        let (is_queued, is_drained): (bool, bool) = match event {
            ExporterEvent::Queued(_) => (true, false),
            ExporterEvent::Drained(_) => (false, true),
            _ => (false, false),
        };
        match &self.activity {
            Activity::Idle => !is_queued && !is_drained,
            Activity::StoppingDrain => is_drained,
            Activity::Ended => false,
            _ => is_queued,
        }
    }

    /// The number of messages that wait for an answer.
    pub fn waiting_count(&self) -> (n: usize)
        ensures
            n == self@.messages.len(),
    {
        self.state.message_count()
    }

    /// Whether the open batch holds entries.
    pub fn has_pending_data(&self) -> (r: bool)
        requires
            self.wf(),
        ensures
            r == (self@.batcher.rows().len() > 0),
    {
        self.gzip_batcher.has_pending_data()
    }

    /// Begins to batch the entries of a message, which waits for its answer from now on.
    fn begin_logs(&mut self, msg_id: u64, data: P, log_entries: Vec<Bytes>) -> (job: LogsJob)
        requires
            old(self).sound(),
        ensures
            final(self).sound(),
            final(self)@ == old(self)@.with_message(msg_id, data),
            job.id() == msg_id,
            job.left() == gzip_batcher::contents(log_entries@),
    {
        self.state.add_msg_to_data(msg_id, data);
        let ghost all = log_entries@;
        let mut from: Vec<Bytes> = log_entries;
        let mut entries: VecDeque<Bytes> = VecDeque::new();
        while from.len() > 0
            invariant
                from@ + entries@ == all,
            decreases from@.len(),
        {
            let ghost f0 = from@;
            let ghost e0 = entries@;
            match from.pop() {
                Some(x) => {
                    entries.push_front(x);
                    assert(from@ + entries@ =~= f0 + e0);
                },
                None => {},
            }
        }
        assert(entries@ =~= all);
        LogsJob { entries, msg_id }
    }

    /// Batches entries of the message until something is to be done.
    fn step_logs(&mut self, job: &mut LogsJob) -> (step: LogsStep<P>)
        requires
            old(self).sound(),
            old(self)@.batcher.pending() is None,
            old(self)@.batcher.open_id() + 2 <= u64::MAX,
        ensures
            final(self).sound(),
            final(job).id() == old(job).id(),
            old(self)@.batches(
                final(self)@,
                old(job).id(),
                old(job).left(),
                final(job).left(),
                step,
            ),
    {
        let ghost v0 = self@;
        let ghost open0 = self.gzip_batcher.open_id();
        let ghost kept0 = self.gzip_batcher.kept();
        let ghost left0 = job.left();
        let ghost mut k: int = 0;
        proof {
            assert(left0.take(0) =~= Seq::<Seq<u8>>::empty());
            assert(left0.skip(0) =~= left0);
            assert(kept0 + left0.take(0) =~= kept0);
        }
        let ghost batcher0 = self.gzip_batcher@;
        while job.entries.len() > 0
            invariant
                self.sound(),
                self.gzip_batcher.pending() is None,
                v0 == old(self)@,
                left0 == old(job).left(),
                job.msg_id == old(job).id(),
                open0 == v0.batcher.open_id(),
                open0 + 2 <= u64::MAX,
                kept0 == v0.batcher.kept(),
                0 <= k <= left0.len(),
                gzip_batcher::all_fit(left0.take(k)),
                job.left() == left0.skip(k),
                batcher0 == v0.batcher@,
                batcher0.accepts(left0.take(k)),
                self.gzip_batcher@ == batcher0.with_rows(left0.take(k)),
                self.gzip_batcher.level() == batcher0.level,
                batcher0.spillover.len() == 0 || k > 0 ==> self.gzip_batcher.spillover().len() == 0,
                self.gzip_batcher.kept() == kept0 + left0.take(k),
                self.gzip_batcher.open_id() == open0,
                self@ == (ExporterView {
                    batcher: self.gzip_batcher,
                    relation: v0.entered(job.msg_id, k),
                    ..v0
                }),
            decreases job.entries@.len(),
        {
            let ghost e0 = job.entries@;
            let ghost kept1 = self.gzip_batcher.kept();
            let entry: Bytes = match job.entries.pop_front() {
                Some(entry) => entry,
                None => vstd::pervasive::unreached(),
            };
            let ghost bytes = encoder::octets(entry);
            proof {
                assert(gzip_batcher::contents(e0) == left0.skip(k));
                assert(e0.len() > 0);
                assert(gzip_batcher::contents(e0)[0] == bytes);
                assert(left0.skip(k).len() > 0);
                assert(bytes == left0[k]);
                assert forall|i: int| 0 <= i < job.left().len() implies job.left()[i]
                    == left0.skip(k + 1)[i] by {
                    assert(gzip_batcher::contents(e0)[i + 1] == left0.skip(k)[i + 1]);
                }
                assert(job.left() =~= left0.skip(k + 1));
                assert(left0.take(k + 1) =~= left0.take(k).push(bytes));
                assert(left0.take(k + 1).drop_last() =~= left0.take(k));
                assert(kept1.push(bytes) =~= kept0 + left0.take(k + 1));
            }
            let outcome: Result<PushResult, ExporterError> = self.gzip_batcher.push(entry);
            match self.state.note_push(job.msg_id, outcome) {
                Noted::Entered => {
                    proof {
                        k = k + 1;
                        assert(self.gzip_batcher.kept() =~= kept0 + left0.take(k));
                        assert(self@.relation =~= v0.entered(job.msg_id, k));
                    }
                },
                Noted::EnteredNext => {
                    match self.gzip_batcher.take_pending_batch() {
                        Some(batch) => {
                            proof {
                                lemma_queues(
                                    v0,
                                    self@,
                                    job.msg_id,
                                    left0,
                                    job.left(),
                                    batch,
                                    k + 1,
                                );
                            }
                            return LogsStep::Queue(batch);
                        },
                        None => {
                            assert(false);
                        },
                    }
                },
                Noted::Refused(refused, error) => {
                    if matches!(error, ExporterError::LogEntryTooLarge) {
                        self.counts.log_entries_too_large =
                            self.counts.log_entries_too_large.saturating_add(1);
                    }
                    proof {
                        lemma_fails(v0, self@, job.msg_id, left0, job.left(), refused, error, k);
                    }
                    return LogsStep::Failed(refused, error);
                },
            }
        }
        proof {
            assert(left0.take(k) =~= left0);
        }
        assert(self.state.related(job.msg_id) == in_some_batch(self@.relation, job.msg_id));
        let orphan: Option<P> = self.state.delete_msg_data_if_orphaned(job.msg_id);
        LogsStep::Finished(orphan)
    }

    /// Batches entries of the message and goes on with what comes of it.
    fn go_on(&mut self, job: LogsJob, answered: Vec<Answer<P>>) -> (r: Step<P>)
        requires
            old(self).wf(),
            old(self)@.activity is Idle,
            old(self)@.batcher.last_id() + 3 <= u64::MAX,
            job.id() <= old(self)@.last_msg,
        ensures
            final(self).wf(),
            old(self)@.goes_on(
                final(self)@,
                job.id(),
                job.left(),
                answered@,
                r.answers@,
                r.action,
            ),
    {
        let mut job: LogsJob = job;
        let mut answers: Vec<Answer<P>> = answered;
        let ghost v0 = self@;
        let ghost id = job.id();
        let ghost left = job.left();
        let step: LogsStep<P> = self.step_logs(&mut job);
        let ghost left1 = job.left();
        let ghost mid = self@;
        let ghost step0 = step;
        proof {
            if mid.messages != v0.messages {
                let v1 = v0.without_message(id);
                lemma_without_wf(v0, v1, state::is_msg(id));
            }
        }
        let action: ExporterAction = match step {
            LogsStep::Queue(batch) => {
                self.activity = Activity::Batching(job);
                ExporterAction::Export(batch)
            },
            LogsStep::Finished(orphan) => {
                match orphan {
                    Some(p) => {
                        answers.push(Answer::Nack(p, Refusal::NoValidEntries));
                        assert(answers@ =~= answered@ + nack(orphan, Refusal::NoValidEntries));
                    },
                    None => {
                        assert(answers@ =~= answered@ + nack(orphan, Refusal::NoValidEntries));
                    },
                }
                ExporterAction::Wait
            },
            LogsStep::Failed(refused, error) => {
                self.activity = Activity::Ended;
                match refused {
                    Some(p) => {
                        answers.push(Answer::Nack(p, Refusal::Stopped));
                        assert(answers@ =~= answered@ + nack(refused, Refusal::Stopped));
                    },
                    None => {
                        assert(answers@ =~= answered@ + nack(refused, Refusal::Stopped));
                    },
                }
                ExporterAction::Fail(error)
            },
        };
        assert((ExporterView { activity: v0.activity, ..self@ }) == mid);
        assert(v0.batches(mid, id, left, left1, step0));
        Step { answers, action }
    }

    /// Takes a message with data: gives it the next id and, if its data is exported at all,
    /// batches its entries. It waits for its answer from then on.
    pub fn handle_message(&mut self, message: Incoming<P>) -> (r: Step<P>)
        requires
            old(self).wf(),
            old(self)@.activity is Idle,
            old(self)@.has_room(),
        ensures
            final(self).wf(),
            old(self)@.handles(message, final(self)@, r.answers@, r.action),
    {
        self.msg_id = self.msg_id + 1;
        if !message.kind.is_exported() {
            return Step { answers: Vec::new(), action: ExporterAction::Wait };
        }
        match message.entries {
            Err(source) => {
                self.activity = Activity::Ended;
                Step {
                    answers: Vec::new(),
                    action: ExporterAction::Fail(ExporterError::LogsViewCreationFailed { source }),
                }
            },
            Ok(entries) => {
                let data: P = if message.may_return_payload {
                    message.payload
                } else {
                    message.empty
                };
                self.handle_logs(self.msg_id, data, entries)
            },
        }
    }

    /// Takes the entries of a message, which waits for its answer from now on.
    pub fn handle_logs(&mut self, msg_id: u64, data: P, log_entries: Vec<Bytes>) -> (r: Step<P>)
        requires
            old(self).wf(),
            old(self)@.activity is Idle,
            old(self)@.batcher.last_id() + 3 <= u64::MAX,
            msg_id <= old(self)@.last_msg,
        ensures
            final(self).wf(),
            old(self)@.with_message(msg_id, data).goes_on(
                final(self)@,
                msg_id,
                gzip_batcher::contents(log_entries@),
                Seq::empty(),
                r.answers@,
                r.action,
            ),
    {
        let ghost v0 = self@;
        let job: LogsJob = self.begin_logs(msg_id, data, log_entries);
        proof {
            lemma_with_message_wf(v0, msg_id, data);
        }
        let answers: Vec<Answer<P>> = Vec::new();
        assert(answers@ =~= Seq::<Answer<P>>::empty());
        self.go_on(job, answers)
    }

    /// The batch was exported: returns the messages to acknowledge, those that have all their
    /// entries in exported batches now.
    pub fn handle_export_success(&mut self, batch_id: u64, row_count: u64) -> (r: Vec<(u64, P)>)
        requires
            old(self).wf(),
        ensures
            final(self).wf(),
            final(self)@ == old(self)@.exported(batch_id, row_count),
            r@ == state::only(old(self)@.messages, state::completed(old(self)@.relation, batch_id)),
    {
        let ghost v0 = self@;
        let r: Vec<(u64, P)> = self.state.remove_batch_success(batch_id);
        self.counts.messages = self.counts.messages.saturating_add(r.len() as u64);
        self.counts.rows = self.counts.rows.saturating_add(row_count);
        self.counts.batches = self.counts.batches.saturating_add(1);
        proof {
            lemma_without_wf(v0, self@, state::completed(v0.relation, batch_id));
        }
        r
    }

    /// The batch could not be exported: returns the messages to refuse, all those with an
    /// entry in it.
    pub fn handle_export_failure(&mut self, batch_id: u64, row_count: u64) -> (r: Vec<(u64, P)>)
        requires
            old(self).wf(),
        ensures
            final(self).wf(),
            final(self)@ == old(self)@.unexported(batch_id, row_count),
            r@ == state::only(old(self)@.messages, state::touched(old(self)@.relation, batch_id)),
    {
        let ghost v0 = self@;
        let r: Vec<(u64, P)> = self.state.remove_batch_failure(batch_id);
        self.counts.failed_messages = self.counts.failed_messages.saturating_add(r.len() as u64);
        self.counts.failed_rows = self.counts.failed_rows.saturating_add(row_count);
        self.counts.failed_batches = self.counts.failed_batches.saturating_add(1);
        proof {
            lemma_without_wf(v0, self@, state::touched(v0.relation, batch_id));
        }
        r
    }

    /// An export has ended: adds the answers to those messages that it decides.
    fn finalize_export(&mut self, export: CompletedExport, answers: &mut Vec<Answer<P>>)
        requires
            old(self).wf(),
        ensures
            final(self).wf(),
            final(self)@ == old(self)@.settled(export),
            final(answers)@ == old(answers)@ + old(self)@.answers(export),
    {
        let ghost v0 = self@;
        match export.result {
            Ok(_) => {
                let done: Vec<(u64, P)> = self.handle_export_success(
                    export.batch_id,
                    export.row_count,
                );
                push_acks(done, answers);
            },
            Err(reason) => {
                let lost: Vec<(u64, P)> = self.handle_export_failure(
                    export.batch_id,
                    export.row_count,
                );
                push_nacks(lost, &Refusal::ExportFailed(reason), answers);
            },
        }
    }

    /// The exports under way have ended: adds the answers to those messages that they decide.
    fn drain_in_flight_exports(
        &mut self,
        exports: Vec<CompletedExport>,
        answers: &mut Vec<Answer<P>>,
    )
        requires
            old(self).wf(),
        ensures
            final(self).wf(),
            final(self)@ == old(self)@.all_settled(exports@),
            final(answers)@ == old(answers)@ + old(self)@.all_answers(exports@),
    {
        let ghost v0 = self@;
        let ghost all = exports@;
        let ghost before = answers@;
        let ghost mut k: int = 0;
        let mut exports: Vec<CompletedExport> = exports;
        proof {
            assert(all.take(0) =~= Seq::<CompletedExport>::empty());
            assert(all.skip(0) =~= all);
            assert(before + v0.all_answers(all.take(0)) =~= before);
        }
        while exports.len() > 0
            invariant
                self.wf(),
                0 <= k <= all.len(),
                exports@ == all.skip(k),
                self@ == v0.all_settled(all.take(k)),
                answers@ == before + v0.all_answers(all.take(k)),
            decreases exports@.len(),
        {
            let ghost rest = exports@;
            let export: CompletedExport = exports.remove(0);
            proof {
                assert(export == all[k]);
                assert(exports@ =~= all.skip(k + 1));
                assert(all.take(k + 1).drop_last() =~= all.take(k));
                assert(all.take(k + 1).last() == export);
            }
            self.finalize_export(export, answers);
            proof {
                assert(answers@ =~= before + v0.all_answers(all.take(k + 1)));
                k = k + 1;
            }
        }
        assert(all.take(k) =~= all);
    }

    /// Closes the open batch, if it holds entries, and returns it for export.
    fn queue_current_batch(&mut self) -> (r: Result<Option<GzipResult>, ExporterError>)
        requires
            old(self).wf(),
            old(self)@.batcher.pending() is None,
        ensures
            final(self).wf(),
            old(self)@.closes_batch(final(self)@, r),
    {
        match self.gzip_batcher.finalize() {
            Ok(FinalizeResult::Finalized) => {
                let batch: Option<GzipResult> = self.gzip_batcher.take_pending_batch();
                assert(self.gzip_batcher.kept() =~= self.gzip_batcher.spillover());
                Ok(batch)
            },
            Ok(FinalizeResult::Empty) => {
                proof {
                    self.gzip_batcher.lemma_pending();
                }
                assert(self.gzip_batcher.kept() =~= old(self).gzip_batcher.kept());
                Ok(None)
            },
            Err(e) => {
                proof {
                    self.gzip_batcher.lemma_pending();
                }
                assert(self.gzip_batcher.kept() =~= self.gzip_batcher.spillover());
                Err(e)
            },
        }
    }

    /// Looks at the open batch, which is exported if it did not fill for a whole interval.
    fn flush_overdue(&mut self, now: u128) -> (action: ExporterAction)
        requires
            old(self).wf(),
            old(self)@.activity is Idle,
        ensures
            final(self).wf(),
            ({
                let looked = ExporterView {
                    schedule: old(self)@.schedule.with_periodic_export(now),
                    ..old(self)@
                };
                if old(self)@.schedule.is_overdue(now) {
                    looked.flushes(
                        final(self)@,
                        action,
                        ActivityView::Flushing,
                        ActivityView::Idle,
                        ExporterAction::Wait,
                    )
                } else {
                    final(self)@ == looked && action is Wait
                }
            }),
    {
        let has_data: bool = self.has_pending_data();
        let flush: bool = self.schedule.on_periodic_export(now, has_data);
        let ghost looked = self@;
        if !flush {
            proof {
                if old(self)@.schedule.is_overdue(now) {
                    self.gzip_batcher.lemma_pending();
                    assert(looked.closes_batch(self@, Ok::<Option<GzipResult>, ExporterError>(None)));
                }
            }
            return ExporterAction::Wait;
        }
        let r: Result<Option<GzipResult>, ExporterError> = self.queue_current_batch();
        let ghost closed = self@;
        let ghost r0 = r;
        let action: ExporterAction = match r {
            Ok(Some(batch)) => {
                self.activity = Activity::Flushing;
                ExporterAction::Export(batch)
            },
            Ok(None) => ExporterAction::Wait,
            Err(e) => {
                self.activity = Activity::Ended;
                ExporterAction::Fail(e)
            },
        };
        assert((ExporterView { activity: looked.activity, ..self@ }) == closed);
        assert(looked.closes_batch(closed, r0));
        action
    }

    /// Begins to shut down: the open batch is exported first, if it holds entries, then all
    /// exports under way are waited for.
    pub fn handle_shutdown(&mut self) -> (action: ExporterAction)
        requires
            old(self).wf(),
            old(self)@.activity is Idle,
        ensures
            final(self).wf(),
            old(self)@.flushes(
                final(self)@,
                action,
                ActivityView::StoppingFlush,
                ActivityView::StoppingDrain,
                ExporterAction::Drain,
            ),
    {
        let ghost v0 = self@;
        let r: Result<Option<GzipResult>, ExporterError> = self.queue_current_batch();
        let ghost closed = self@;
        let ghost r0 = r;
        let action: ExporterAction = match r {
            Ok(Some(batch)) => {
                self.activity = Activity::StoppingFlush;
                ExporterAction::Export(batch)
            },
            Ok(None) => {
                self.activity = Activity::StoppingDrain;
                ExporterAction::Drain
            },
            Err(e) => {
                self.activity = Activity::Ended;
                ExporterAction::Fail(e)
            },
        };
        assert((ExporterView { activity: v0.activity, ..self@ }) == closed);
        assert(v0.closes_batch(closed, r0));
        action
    }

    /// A token came, or the provider failed to give one.
    fn handle_token(&mut self, item: Result<BearerToken, String>, now: u128) -> (action:
        ExporterAction)
        requires
            old(self).wf(),
        ensures
            final(self).wf(),
            old(self)@.takes(
                ExporterEvent::Token(item),
                now,
                final(self)@,
                Seq::empty(),
                action,
            ),
    {
        let token: BearerToken = match item {
            Ok(token) => token,
            Err(_) => {
                return ExporterAction::Wait;
            },
        };
        match auth_header::bearer_header(&token.token) {
            Some(header) => {
                let first: bool = self.schedule.on_token(now, token.expires_on);
                ExporterAction::UpdateAuth { header, first }
            },
            None => ExporterAction::Wait,
        }
    }

    /// The batch that was to be queued is queued, and the exporter goes on with what it was in
    /// the middle of.
    fn queue_pending_batch(&mut self, export: Option<CompletedExport>, now: u128) -> (r: Step<P>)
        requires
            old(self).wf(),
            old(self)@.has_room(),
            old(self)@.expects(ExporterEvent::Queued(export)),
        ensures
            final(self).wf(),
            old(self)@.takes(
                ExporterEvent::Queued(export),
                now,
                final(self)@,
                r.answers@,
                r.action,
            ),
    {
        let ghost v0 = self@;
        let mut answers: Vec<Answer<P>> = Vec::new();
        match export {
            Some(c) => self.finalize_export(c, &mut answers),
            None => {},
        }
        proof {
            assert(answers@ =~= v0.maybe_answers(export));
        }
        self.schedule.on_batch_queued(now);
        let mut activity: Activity = Activity::Idle;
        std::mem::swap(&mut activity, &mut self.activity);
        assert(self@ == v0.queued(export, now));
        match activity {
            Activity::Batching(job) => self.go_on(job, answers),
            Activity::StoppingFlush => {
                self.activity = Activity::StoppingDrain;
                Step { answers, action: ExporterAction::Drain }
            },
            _ => Step { answers, action: ExporterAction::Wait },
        }
    }

    /// All exports have ended: every message that still waits is refused.
    fn finish(&mut self, exports: Vec<CompletedExport>) -> (answers: Vec<Answer<P>>)
        requires
            old(self).wf(),
        ensures
            final(self).wf(),
            forall|now: u128| #[trigger]
                old(self)@.takes(
                    ExporterEvent::Drained(exports),
                    now,
                    final(self)@,
                    answers@,
                    ExporterAction::Stop,
                ),
    {
        let mut answers: Vec<Answer<P>> = Vec::new();
        self.drain_in_flight_exports(exports, &mut answers);
        let ghost settled = self@;
        let rest: Vec<(u64, P)> = self.state.drain_all();
        self.activity = Activity::Ended;
        push_nacks(rest, &Refusal::Shutdown, &mut answers);
        proof {
            assert(self@.messages =~= Seq::empty());
            assert(answers@ =~= old(self)@.all_answers(exports@) + nacks(
                settled.messages,
                Refusal::Shutdown,
            ));
        }
        answers
    }

    /// Runs the exporter: takes what happened, gives the answers to messages and says what
    /// comes next.
    ///
    /// Data is taken while [`guards`](Self::guards) say so; control messages, tokens and
    /// exports that have ended are taken at any time. While a batch is being queued, or the
    /// exports under way are waited for, nothing else is taken.
    pub fn start(&mut self, event: ExporterEvent<P>, now: u128) -> (r: Step<P>)
        requires
            old(self).wf(),
            old(self)@.has_room(),
            old(self)@.expects(event),
        ensures
            final(self).wf(),
            old(self)@.takes(event, now, final(self)@, r.answers@, r.action),
    {
        let mut answers: Vec<Answer<P>> = Vec::new();
        assert(answers@ =~= Seq::<Answer<P>>::empty());
        match event {
            ExporterEvent::Token(item) => {
                let action: ExporterAction = self.handle_token(item, now);
                Step { answers, action }
            },
            ExporterEvent::HeartbeatDue => {
                match self.heartbeat {
                    Some(frequency) => {
                        self.schedule.on_heartbeat(now, frequency);
                        self.counts.heartbeats = self.counts.heartbeats.saturating_add(1);
                        Step { answers, action: ExporterAction::SendHeartbeat }
                    },
                    None => Step { answers, action: ExporterAction::Wait },
                }
            },
            ExporterEvent::Completed(export) => {
                let ghost v0 = self@;
                match export {
                    Some(c) => self.finalize_export(c, &mut answers),
                    None => {},
                }
                assert(answers@ =~= v0.maybe_answers(export));
                Step { answers, action: ExporterAction::Wait }
            },
            ExporterEvent::PeriodicExportDue => {
                let action: ExporterAction = self.flush_overdue(now);
                Step { answers, action }
            },
            ExporterEvent::CollectTelemetry => {
                Step { answers, action: ExporterAction::ReportMetrics }
            },
            ExporterEvent::Shutdown => {
                let action: ExporterAction = self.handle_shutdown();
                Step { answers, action }
            },
            ExporterEvent::OtherControl => Step { answers, action: ExporterAction::Wait },
            ExporterEvent::Data(message) => self.handle_message(message),
            ExporterEvent::ReceiveFailed(e) => {
                self.activity = Activity::Ended;
                Step { answers, action: ExporterAction::Fail(ExporterError::ChannelRecv(e)) }
            },
            ExporterEvent::Queued(export) => self.queue_pending_batch(export, now),
            ExporterEvent::Drained(exports) => {
                let answers: Vec<Answer<P>> = self.finish(exports);
                Step { answers, action: ExporterAction::Stop }
            },
        }
    }
}

impl Refusal {
    /// The text that goes with the refusal. An exporter that stops with an error gives the text
    /// of that error.
    pub open spec fn text(self) -> Option<Seq<char>> {
        match self {
            Refusal::ExportFailed(reason) => Some(reason@),
            Refusal::NoValidEntries => Some("No valid log entries produced"@),
            Refusal::Stopped => None,
            Refusal::Shutdown => Some("Shutdown before export completed"@),
        }
    }

    /// The text that goes with the refusal, unless it is that of the error with which the
    /// exporter stops.
    pub fn message(&self) -> (r: Option<String>)
        ensures
            match self.text() {
                Some(text) => r matches Some(message) && message@ == text,
                None => r is None,
            },
    {
        match self {
            Refusal::ExportFailed(reason) => Some(reason.clone()),
            Refusal::NoValidEntries => Some(String::from_str("No valid log entries produced")),
            Refusal::Stopped => None,
            Refusal::Shutdown => Some(String::from_str("Shutdown before export completed")),
        }
    }
}

impl Clone for Refusal {
    fn clone(&self) -> (r: Self)
        ensures
            r == *self,
    {
        match self {
            Refusal::ExportFailed(reason) => Refusal::ExportFailed(reason.clone()),
            Refusal::NoValidEntries => Refusal::NoValidEntries,
            Refusal::Stopped => Refusal::Stopped,
            Refusal::Shutdown => Refusal::Shutdown,
        }
    }
}

/// Acknowledges the messages.
fn push_acks<P>(messages: Vec<(u64, P)>, answers: &mut Vec<Answer<P>>)
    ensures
        final(answers)@ == old(answers)@ + acks(messages@),
{
    let ghost all = messages@;
    let ghost before = answers@;
    let ghost mut k: int = 0;
    let mut messages: Vec<(u64, P)> = messages;
    assert(all.skip(0) =~= all);
    assert(before + acks(all.take(0)) =~= before);
    while messages.len() > 0
        invariant
            0 <= k <= all.len(),
            messages@ == all.skip(k),
            answers@ == before + acks(all.take(k)),
        decreases messages@.len(),
    {
        let m: (u64, P) = messages.remove(0);
        proof {
            assert(m == all[k]);
            assert(messages@ =~= all.skip(k + 1));
            assert(acks(all.take(k + 1)) =~= acks(all.take(k)).push(Answer::Ack(m.1)));
            k = k + 1;
        }
        answers.push(Answer::Ack(m.1));
        assert(answers@ =~= before + acks(all.take(k)));
    }
    assert(all.take(k) =~= all);
}

/// Refuses the messages.
fn push_nacks<P>(messages: Vec<(u64, P)>, why: &Refusal, answers: &mut Vec<Answer<P>>)
    ensures
        final(answers)@ == old(answers)@ + nacks(messages@, *why),
{
    let ghost all = messages@;
    let ghost before = answers@;
    let ghost mut k: int = 0;
    let mut messages: Vec<(u64, P)> = messages;
    assert(all.skip(0) =~= all);
    assert(before + nacks(all.take(0), *why) =~= before);
    while messages.len() > 0
        invariant
            0 <= k <= all.len(),
            messages@ == all.skip(k),
            answers@ == before + nacks(all.take(k), *why),
        decreases messages@.len(),
    {
        let m: (u64, P) = messages.remove(0);
        proof {
            assert(m == all[k]);
            assert(messages@ =~= all.skip(k + 1));
            assert(nacks(all.take(k + 1), *why) =~= nacks(all.take(k), *why).push(
                Answer::Nack(m.1, *why),
            ));
            k = k + 1;
        }
        answers.push(Answer::Nack(m.1, why.clone()));
        assert(answers@ =~= before + nacks(all.take(k), *why));
    }
    assert(all.take(k) =~= all);
}

proof fn lemma_queues<P>(
    v0: ExporterView<P>,
    v1: ExporterView<P>,
    msg_id: u64,
    left0: Seq<Seq<u8>>,
    left1: Seq<Seq<u8>>,
    batch: GzipResult,
    k: int,
)
    requires
        v0.queues_at(v1, msg_id, left0, left1, batch, k),
        v1.batcher.pending() is None,
    ensures
        v0.batches(v1, msg_id, left0, left1, LogsStep::Queue(batch)),
{
    let step = LogsStep::<P>::Queue(batch);
    assert(step is Queue && step->Queue_0 == batch);
    assert(exists|j: int| #[trigger] v0.queues_at(v1, msg_id, left0, left1, step->Queue_0, j));
    assert(v0.batches(v1, msg_id, left0, left1, step));
}

proof fn lemma_fails<P>(
    v0: ExporterView<P>,
    v1: ExporterView<P>,
    msg_id: u64,
    left0: Seq<Seq<u8>>,
    left1: Seq<Seq<u8>>,
    refused: Option<P>,
    error: ExporterError,
    k: int,
)
    requires
        v0.fails_at(v1, msg_id, left0, error, k),
        v0.is_taken(msg_id, refused),
        v1 == (ExporterView {
            batcher: v1.batcher,
            relation: v1.relation,
            counts: v1.counts,
            ..v0
        }).without_message(msg_id),
    ensures
        v0.batches(v1, msg_id, left0, left1, LogsStep::Failed(refused, error)),
{
    let step = LogsStep::<P>::Failed(refused, error);
    assert(step is Failed && step->Failed_1 == error && step->Failed_0 == refused);
    assert(exists|j: int| #[trigger] v0.fails_at(v1, msg_id, left0, step->Failed_1, j));
}

/// Without some of its messages an exporter stays sound.
proof fn lemma_without_wf<P>(v0: ExporterView<P>, v1: ExporterView<P>, p: spec_fn(u64) -> bool)
    requires
        v0.wf(),
        v1.messages == state::without(v0.messages, p),
        v1.last_msg == v0.last_msg,
        v1.batcher == v0.batcher,
        v1.activity == v0.activity,
    ensures
        v1.wf(),
{
    let q = |id: u64| !p(id);
    state::lemma_only(v0.messages, q);
    assert forall|i: int| 0 <= i < v1.messages.len() implies (#[trigger] v1.messages[i]).0
        <= v1.last_msg by {
        assert(v0.messages.contains(v1.messages[i]));
        let j = v0.messages.index_of(v1.messages[i]);
        assert(v0.messages[j].0 <= v0.last_msg);
    }
}

/// With another message an exporter stays sound.
proof fn lemma_with_message_wf<P>(v: ExporterView<P>, msg_id: u64, data: P)
    requires
        v.wf(),
        msg_id <= v.last_msg,
    ensures
        v.with_message(msg_id, data).wf(),
{
    let v1 = ExporterView { messages: state::without(v.messages, state::is_msg(msg_id)), ..v };
    lemma_without_wf(v, v1, state::is_msg(msg_id));
    let q = |id: u64| !state::is_msg(msg_id)(id);
    state::lemma_only(v.messages, q);
    let v2 = v.with_message(msg_id, data);
    assert forall|i: int| 0 <= i < v1.messages.len() implies (#[trigger] v1.messages[i]).0
        != msg_id by {}
    assert forall|i: int, j: int|
        0 <= i < v2.messages.len() && 0 <= j < v2.messages.len() && i != j implies (
    #[trigger] v2.messages[i]).0 != (#[trigger] v2.messages[j]).0 by {
        if i < v1.messages.len() && j < v1.messages.len() {
            assert(v1.messages[i].0 != v1.messages[j].0);
        } else if i < v1.messages.len() {
            assert(v1.messages[i].0 != msg_id);
        } else {
            assert(v1.messages[j].0 != msg_id);
        }
    }
    assert forall|i: int| 0 <= i < v2.messages.len() implies (#[trigger] v2.messages[i]).0
        <= v2.last_msg by {
        if i < v1.messages.len() {
            assert(v1.messages[i].0 <= v1.last_msg);
        }
    }
}

impl<P> Answer<P> {
    /// What goes back with the answer.
    pub open spec fn payload(self) -> P {
        match self {
            Answer::Ack(p) => p,
            Answer::Nack(p, _) => p,
        }
    }
}

impl<P> ExporterEvent<P> {
    /// The message that comes to wait with the event, under the id after `last_msg`: one with
    /// logs that can be read.
    pub open spec fn arrivals(self, last_msg: u64) -> Seq<(u64, P)> {
        match self {
            ExporterEvent::Data(m) if m.kind.is_logs() && m.entries is Ok => seq![
                (
                    (last_msg + 1) as u64,
                    if m.may_return_payload {
                        m.payload
                    } else {
                        m.empty
                    },
                ),
            ],
            _ => Seq::empty(),
        }
    }
}

impl<P> ExporterEvent<P> {
    /// The exports that have ended with the event, in order.
    pub open spec fn ended_exports(self) -> Seq<CompletedExport> {
        match self {
            ExporterEvent::Completed(Some(c)) => seq![c],
            ExporterEvent::Queued(Some(c)) => seq![c],
            ExporterEvent::Drained(exports) => exports@,
            _ => Seq::empty(),
        }
    }
}

/// One of the exports is that of the batch, and it ended with success.
pub open spec fn succeeded(exports: Seq<CompletedExport>, batch_id: u64) -> bool {
    exists|k: int|
        0 <= k < exports.len() && (#[trigger] exports[k]).batch_id == batch_id
            && exports[k].result is Ok
}

/// Each of the messages either waits or is answered, and none does both.
pub open spec fn splits<P>(
    all: Seq<(u64, P)>,
    waiting: Seq<(u64, P)>,
    answered: Seq<(u64, P)>,
) -> bool {
    &&& state::distinct_ids(waiting)
    &&& state::distinct_ids(answered)
    &&& forall|i: int, j: int|
        0 <= i < waiting.len() && 0 <= j < answered.len() ==> (#[trigger] waiting[i]).0 != (
        #[trigger] answered[j]).0
    &&& forall|m: (u64, P)|
        #![trigger all.contains(m)]
        #![trigger waiting.contains(m)]
        #![trigger answered.contains(m)]
        all.contains(m) <==> waiting.contains(m) || answered.contains(m)
}

/// The answers go to those messages, in order.
pub open spec fn answers_go_to<P>(answers: Seq<Answer<P>>, to: Seq<(u64, P)>) -> bool {
    &&& answers.len() == to.len()
    &&& forall|i: int|
        0 <= i < answers.len() ==> (#[trigger] answers[i]).payload() == (#[trigger] to[i]).1
}

/// The message waits, has an entry in some batch, and the exports that have ended are, with
/// success, those of all batches that hold its entries.
pub open spec fn acknowledged_rightly<P>(
    before: ExporterView<P>,
    exports: Seq<CompletedExport>,
    msg_id: u64,
) -> bool {
    &&& state::has_id(before.messages, msg_id)
    &&& in_some_batch(before.relation, msg_id)
    &&& forall|b: u64| #[trigger]
        before.relation.contains((b, msg_id)) ==> succeeded(exports, b)
}

/// No message is lost and none is answered twice: with every step, each message that waited
/// before, and the one that came, either waits afterwards or is answered, and none does both.
/// One that is acknowledged has no entry in a batch whose export has not ended with success.
/// Returns the messages that are answered.
pub proof fn every_message_waits_or_is_answered<P>(
    before: ExporterView<P>,
    event: ExporterEvent<P>,
    now: u128,
    after: ExporterView<P>,
    answers: Seq<Answer<P>>,
    action: ExporterAction,
) -> (answered: Seq<(u64, P)>)
    requires
        before.wf(),
        before.has_room(),
        before.takes(event, now, after, answers, action),
    ensures
        state::distinct_ids(before.messages + event.arrivals(before.last_msg)),
        splits(before.messages + event.arrivals(before.last_msg), after.messages, answered),
        answers_go_to(answers, answered),
        forall|i: int|
            0 <= i < answers.len() && #[trigger] answers[i] is Ack ==> acknowledged_rightly(
                before,
                event.ended_exports(),
                answered[i].0,
            ),
{
    let none = Seq::<(u64, P)>::empty();
    assert(before.messages + none =~= before.messages);
    lemma_all_wait(before.messages);
    lemma_ended_acks(before, event.ended_exports());
    match event {
        ExporterEvent::Completed(Some(c)) => {
            lemma_settled_splits(before, c);
            before.decided(c)
        },
        ExporterEvent::Queued(export) => {
            let settled = before.maybe_settled(export);
            let decided = match export {
                Some(c) => before.decided(c),
                None => none,
            };
            if let Some(c) = export {
                lemma_settled_splits(before, c);
                lemma_settled_wf(before, c);
            }
            if let ActivityView::Batching { id, left } = before.activity {
                let last = lemma_goes_on_splits(
                    before.queued(export, now),
                    after,
                    id,
                    left,
                    before.maybe_answers(export),
                    answers,
                    action,
                    decided,
                );
                lemma_splits_twice(
                    before.messages,
                    settled.messages,
                    decided,
                    after.messages,
                    last,
                );
                decided + last
            } else {
                decided
            }
        },
        ExporterEvent::Drained(exports) => {
            let settled = before.all_settled(exports@);
            let decided = before.all_decided(exports@);
            lemma_all_settled_splits(before, exports@);
            lemma_none_waits(settled.messages);
            lemma_splits_twice(
                before.messages,
                settled.messages,
                decided,
                none,
                settled.messages,
            );
            decided + settled.messages
        },
        ExporterEvent::Data(m) if m.kind.is_logs() && m.entries is Ok => {
            let id = (before.last_msg + 1) as u64;
            let arrivals = event.arrivals(before.last_msg);
            let data = arrivals[0].1;
            let numbered = ExporterView { last_msg: id, ..before };
            let with = numbered.with_message(id, data);
            assert(numbered.wf());
            lemma_with_message_wf(numbered, id, data);
            assert(!state::has_id(before.messages, id));
            lemma_without_none(before.messages, id);
            assert(with.messages =~= before.messages + arrivals);
            let last = lemma_goes_on_splits(
                with,
                after,
                id,
                gzip_batcher::contents(m.entries->Ok_0@),
                Seq::empty(),
                answers,
                action,
                none,
            );
            last
        },
        _ => none,
    }
}

proof fn lemma_all_wait<P>(s: Seq<(u64, P)>)
    requires
        state::distinct_ids(s),
    ensures
        splits(s, s, Seq::empty()),
{
}

proof fn lemma_none_waits<P>(s: Seq<(u64, P)>)
    requires
        state::distinct_ids(s),
    ensures
        splits(s, Seq::empty(), s),
{
}

proof fn lemma_splits_twice<P>(
    all: Seq<(u64, P)>,
    between: Seq<(u64, P)>,
    first: Seq<(u64, P)>,
    waiting: Seq<(u64, P)>,
    second: Seq<(u64, P)>,
)
    requires
        splits(all, between, first),
        splits(between, waiting, second),
    ensures
        splits(all, waiting, first + second),
{
    let both = first + second;
    assert forall|m: (u64, P)| #[trigger] both.contains(m) == (first.contains(m)
        || second.contains(m)) by {
        if first.contains(m) {
            assert(both[first.index_of(m)] == m);
        }
        if second.contains(m) {
            assert(both[first.len() + second.index_of(m)] == m);
        }
        if both.contains(m) {
            let i = both.index_of(m);
            if i < first.len() {
                assert(first[i] == m);
            } else {
                assert(second[i - first.len()] == m);
            }
        }
    }
    assert forall|i: int| 0 <= i < second.len() implies between.contains(#[trigger] second[i]) by {
        assert(second.contains(second[i]));
    }
    assert forall|i: int| 0 <= i < waiting.len() implies between.contains(
        #[trigger] waiting[i],
    ) by {
        assert(waiting.contains(waiting[i]));
    }
    assert forall|i: int, j: int|
        0 <= i < both.len() && 0 <= j < both.len() && i != j implies (#[trigger] both[i]).0 != (
    #[trigger] both[j]).0 by {
        if i < first.len() && j < first.len() {
            assert(first[i].0 != first[j].0);
        } else if i >= first.len() && j >= first.len() {
            assert(second[i - first.len()].0 != second[j - first.len()].0);
        } else if i < first.len() {
            let k = between.index_of(second[j - first.len()]);
            assert(between[k].0 != first[i].0);
        } else {
            let k = between.index_of(second[i - first.len()]);
            assert(between[k].0 != first[j].0);
        }
    }
    assert forall|i: int, j: int| 0 <= i < waiting.len() && 0 <= j < both.len() implies (
    #[trigger] waiting[i]).0 != (#[trigger] both[j]).0 by {
        if j < first.len() {
            let k = between.index_of(waiting[i]);
            assert(between[k].0 != first[j].0);
        } else {
            assert(waiting[i].0 != second[j - first.len()].0);
        }
    }
}

proof fn lemma_without_none<P>(s: Seq<(u64, P)>, id: u64)
    requires
        !state::has_id(s, id),
    ensures
        state::without(s, state::is_msg(id)) == s,
    decreases s.len(),
{
    if s.len() > 0 {
        let front = s.drop_last();
        assert forall|i: int| 0 <= i < front.len() implies (#[trigger] front[i]).0 != id by {
            assert(s[i] == front[i]);
        }
        lemma_without_none(front, id);
        assert(s[s.len() - 1].0 != id);
        assert(front.push(s.last()) =~= s);
    }
}

/// Those that have a property are answered, the others wait.
proof fn lemma_only_splits<P>(s: Seq<(u64, P)>, p: spec_fn(u64) -> bool)
    requires
        state::distinct_ids(s),
    ensures
        splits(s, state::without(s, p), state::only(s, p)),
{
    let q = |id: u64| !p(id);
    state::lemma_only(s, p);
    state::lemma_only(s, q);
    let yes = state::only(s, p);
    let no = state::without(s, p);
    assert(no == state::only(s, q));
    assert forall|m: (u64, P)|
        #![trigger s.contains(m)]
        #![trigger no.contains(m)]
        #![trigger yes.contains(m)]
        s.contains(m) <==> no.contains(m) || yes.contains(m) by {
        if s.contains(m) {
            let i = s.index_of(m);
            assert(s[i] == m);
        }
        if no.contains(m) {
            assert(no[no.index_of(m)] == m);
        }
        if yes.contains(m) {
            assert(yes[yes.index_of(m)] == m);
        }
    }
}

/// The message is answered if it waited, the others wait.
proof fn lemma_taken_splits<P>(v: ExporterView<P>, id: u64, taken: Option<P>)
    requires
        v.wf(),
        v.is_taken(id, taken),
    ensures
        splits(
            v.messages,
            v.without_message(id).messages,
            match taken {
                Some(p) => seq![(id, p)],
                None => Seq::empty(),
            },
        ),
{
    let p = state::is_msg(id);
    let s = v.messages;
    let yes = state::only(s, p);
    lemma_only_splits(s, p);
    state::lemma_only(s, p);
    match taken {
        Some(data) => {
            let i = s.index_of((id, data));
            assert(s[i].0 == id);
            assert(yes.contains((id, data)));
            assert(yes.len() == 1) by {
                if yes.len() > 1 {
                    assert(yes[0].0 != yes[1].0);
                }
            }
            assert(yes =~= seq![(id, data)]);
        },
        None => {
            if yes.len() > 0 {
                assert(s.contains(yes[0]));
                assert(s[s.index_of(yes[0])].0 == id);
            }
            assert(yes =~= Seq::<(u64, P)>::empty());
        },
    }
}

proof fn lemma_settled_splits<P>(v: ExporterView<P>, c: CompletedExport)
    requires
        state::distinct_ids(v.messages),
    ensures
        splits(v.messages, v.settled(c).messages, v.decided(c)),
        answers_go_to(v.answers(c), v.decided(c)),
        state::distinct_ids(v.settled(c).messages),
{
    lemma_only_splits(v.messages, state::completed(v.relation, c.batch_id));
    lemma_only_splits(v.messages, state::touched(v.relation, c.batch_id));
}

/// A message that goes on waiting keeps its batches but for one that was exported; one that is
/// acknowledged had no other.
proof fn lemma_settled_links<P>(v: ExporterView<P>, c: CompletedExport, m: u64)
    ensures
        forall|b: u64| #[trigger]
            v.settled(c).relation.contains((b, m)) ==> v.relation.contains((b, m)),
        state::has_id(v.settled(c).messages, m) ==> state::has_id(v.messages, m) && forall|b: u64|
            #[trigger]
            v.relation.contains((b, m)) ==> v.settled(c).relation.contains((b, m)) || (
            c.batch_id == b && c.result is Ok),
        state::has_id(v.decided(c), m) ==> state::has_id(v.messages, m) && v.relation.contains(
            (c.batch_id, m),
        ),
        c.result is Ok && state::has_id(v.decided(c), m) ==> forall|b: u64| #[trigger]
            v.relation.contains((b, m)) ==> b == c.batch_id,
{
    let done = state::completed(v.relation, c.batch_id);
    let lost = state::touched(v.relation, c.batch_id);
    state::lemma_only_ids(v.messages, done, m);
    state::lemma_only_ids(v.messages, lost, m);
    state::lemma_only_ids(v.messages, |id: u64| !done(id), m);
    state::lemma_only_ids(v.messages, |id: u64| !lost(id), m);
}

/// The same of exports that end one after another.
proof fn lemma_all_settled_links<P>(v: ExporterView<P>, exports: Seq<CompletedExport>, m: u64)
    ensures
        forall|b: u64| #[trigger]
            v.all_settled(exports).relation.contains((b, m)) ==> v.relation.contains((b, m)),
        state::has_id(v.all_settled(exports).messages, m) ==> state::has_id(v.messages, m)
            && forall|b: u64| #[trigger]
            v.relation.contains((b, m)) ==> v.all_settled(exports).relation.contains((b, m))
                || succeeded(exports, b),
        forall|i: int|
            0 <= i < v.all_answers(exports).len() && #[trigger] v.all_answers(exports)[i] is Ack
                && v.all_decided(exports)[i].0 == m ==> acknowledged_rightly(v, exports, m),
        v.all_answers(exports).len() == v.all_decided(exports).len(),
    decreases exports.len(),
{
    if exports.len() > 0 {
        let rest = exports.drop_last();
        let c = exports.last();
        let between = v.all_settled(rest);
        lemma_all_settled_links(v, rest, m);
        lemma_settled_links(between, c, m);
        assert forall|b: u64| #[trigger] succeeded(rest, b) implies succeeded(exports, b) by {
            let k = choose|k: int|
                0 <= k < rest.len() && (#[trigger] rest[k]).batch_id == b && rest[k].result is Ok;
            assert(exports[k] == rest[k]);
        }
        assert(exports[exports.len() - 1] == c);
        let n = v.all_answers(rest).len() as int;
        let answers = v.all_answers(exports);
        let decided = v.all_decided(exports);
        assert forall|i: int| 0 <= i < answers.len() && #[trigger] answers[i] is Ack
            && decided[i].0 == m implies acknowledged_rightly(v, exports, m) by {
            if i < n {
                assert(v.all_answers(rest)[i] == answers[i]);
                assert(v.all_decided(rest)[i] == decided[i]);
            } else {
                assert(between.answers(c)[i - n] == answers[i]);
                assert(between.decided(c)[i - n] == decided[i]);
                assert(state::has_id(between.decided(c), m));
                assert(v.relation.contains((c.batch_id, m)));
            }
        }
    }
}

/// Whoever is acknowledged when exports end, is so rightly.
proof fn lemma_ended_acks<P>(v: ExporterView<P>, exports: Seq<CompletedExport>)
    ensures
        v.all_answers(exports).len() == v.all_decided(exports).len(),
        forall|i: int|
            0 <= i < v.all_answers(exports).len() && #[trigger] v.all_answers(exports)[i] is Ack
                ==> acknowledged_rightly(v, exports, v.all_decided(exports)[i].0),
        exports.len() == 1 ==> v.all_answers(exports) == v.answers(exports[0])
            && v.all_decided(exports) == v.decided(exports[0]),
{
    lemma_all_settled_links(v, exports, 0);
    assert forall|i: int|
        0 <= i < v.all_answers(exports).len() && #[trigger] v.all_answers(
            exports,
        )[i] is Ack implies acknowledged_rightly(v, exports, v.all_decided(exports)[i].0) by {
        lemma_all_settled_links(v, exports, v.all_decided(exports)[i].0);
    }
    if exports.len() == 1 {
        let rest = exports.drop_last();
        assert(v.all_answers(rest) =~= Seq::empty());
        assert(v.all_decided(rest) =~= Seq::empty());
        assert(v.all_answers(exports) =~= v.answers(exports[0]));
        assert(v.all_decided(exports) =~= v.decided(exports[0]));
    }
}

proof fn lemma_settled_wf<P>(v: ExporterView<P>, c: CompletedExport)
    requires
        v.wf(),
    ensures
        v.settled(c).wf(),
{
    match c.result {
        Ok(_) => lemma_without_wf(v, v.settled(c), state::completed(v.relation, c.batch_id)),
        Err(_) => lemma_without_wf(v, v.settled(c), state::touched(v.relation, c.batch_id)),
    }
}

proof fn lemma_all_settled_splits<P>(v: ExporterView<P>, exports: Seq<CompletedExport>)
    requires
        state::distinct_ids(v.messages),
    ensures
        splits(v.messages, v.all_settled(exports).messages, v.all_decided(exports)),
        answers_go_to(v.all_answers(exports), v.all_decided(exports)),
        state::distinct_ids(v.all_settled(exports).messages),
    decreases exports.len(),
{
    if exports.len() == 0 {
        lemma_all_wait(v.messages);
    } else {
        let rest = exports.drop_last();
        let between = v.all_settled(rest);
        lemma_all_settled_splits(v, rest);
        lemma_settled_splits(between, exports.last());
        lemma_splits_twice(
            v.messages,
            between.messages,
            v.all_decided(rest),
            v.all_settled(exports).messages,
            between.decided(exports.last()),
        );
    }
}

proof fn lemma_goes_on_splits<P>(
    v: ExporterView<P>,
    after: ExporterView<P>,
    id: u64,
    left: Seq<Seq<u8>>,
    answered: Seq<Answer<P>>,
    answers: Seq<Answer<P>>,
    action: ExporterAction,
    before: Seq<(u64, P)>,
) -> (last: Seq<(u64, P)>)
    requires
        v.wf(),
        v.goes_on(after, id, left, answered, answers, action),
        answers_go_to(answered, before),
    ensures
        splits(v.messages, after.messages, last),
        answers_go_to(answers, before + last),
        answered.len() <= answers.len(),
        forall|i: int|
            0 <= i < answers.len() && #[trigger] answers[i] is Ack ==> i < answered.len()
                && answers[i] == answered[i],
{
    let none = Seq::<(u64, P)>::empty();
    let (left1, step) = choose|left1: Seq<Seq<u8>>, step: LogsStep<P>| #[trigger]
        v.batches(ExporterView { activity: v.activity, ..after }, id, left, left1, step)
            && match step {
            LogsStep::Queue(batch) => {
                &&& after.activity == (ActivityView::Batching { id, left: left1 })
                &&& answers == answered
                &&& action == ExporterAction::Export(batch)
            },
            LogsStep::Finished(orphan) => {
                &&& after.activity is Idle
                &&& answers == answered + nack(orphan, Refusal::NoValidEntries)
                &&& action is Wait
            },
            LogsStep::Failed(refused, error) => {
                &&& after.activity is Ended
                &&& answers == answered + nack(refused, Refusal::Stopped)
                &&& action == ExporterAction::Fail(error)
            },
        };
    lemma_all_wait(v.messages);
    let taken = match step {
        LogsStep::Queue(_) => None,
        LogsStep::Finished(orphan) => orphan,
        LogsStep::Failed(refused, _) => refused,
    };
    let last = match taken {
        Some(p) => seq![(id, p)],
        None => none,
    };
    if after.messages != v.messages || taken is Some {
        lemma_taken_splits(v, id, taken);
    }
    last
}

/// A step of the exporter: what happened, when, and what it did.
pub struct Moment<P> {
    pub event: ExporterEvent<P>,
    pub now: u128,
    pub answers: Seq<Answer<P>>,
    pub action: ExporterAction,
}

impl<P> Moment<P> {
    /// The step leads from the one state to the other.
    pub open spec fn leads(self, before: ExporterView<P>, after: ExporterView<P>) -> bool {
        before.takes(self.event, self.now, after, self.answers, self.action)
    }
}

/// The exporter went through those states with those steps.
pub open spec fn is_run<P>(states: Seq<ExporterView<P>>, moments: Seq<Moment<P>>) -> bool {
    &&& states.len() == moments.len() + 1
    &&& forall|i: int|
        0 <= i < moments.len() ==> (#[trigger] moments[i]).leads(states[i], states[i + 1])
}

/// When the newest token expires that came and makes a header. One that does not expire counts
/// as good for a year.
pub open spec fn newest_expiry<P>(moments: Seq<Moment<P>>) -> Option<u128>
    decreases moments.len(),
{
    if moments.len() == 0 {
        None
    } else {
        match moments.last().event {
            ExporterEvent::Token(Ok(token)) if auth_header::is_header_text(token.token@) => Some(
                match token.expires_on {
                    Some(at) => at,
                    None => super::schedule::later(
                        moments.last().now,
                        super::schedule::secs(super::schedule::NON_EXPIRING_TOKEN_SECS),
                    ),
                },
            ),
            _ => newest_expiry(moments.drop_last()),
        }
    }
}

/// Data is accepted exactly while the newest usable token is more than the buffer away from its
/// expiry and an export slot is free: not before the first token, not after a refresh that
/// stalls, and a failure to get a token changes nothing.
pub proof fn data_is_accepted_with_a_good_token<P>(
    states: Seq<ExporterView<P>>,
    moments: Seq<Moment<P>>,
    now: u128,
    in_flight: int,
)
    requires
        is_run(states, moments),
        states[0].schedule.token_expiry_at <= now,
    ensures
        states.last().accepts_data(now, in_flight) == ((newest_expiry(moments) matches Some(at)
            && at > now + super::schedule::secs(super::schedule::TOKEN_EXPIRY_BUFFER_SECS))
            && in_flight < super::schedule::MAX_IN_FLIGHT_EXPORTS),
{
    lemma_expiry(states, moments);
}

proof fn lemma_expiry<P>(states: Seq<ExporterView<P>>, moments: Seq<Moment<P>>)
    requires
        is_run(states, moments),
    ensures
        states.last().schedule.token_expiry_at == match newest_expiry(moments) {
            Some(at) => at,
            None => states[0].schedule.token_expiry_at,
        },
    decreases moments.len(),
{
    if moments.len() > 0 {
        let n = moments.len() - 1;
        let m = moments[n];
        let rest = moments.drop_last();
        let front = states.drop_last();
        assert(is_run(front, rest)) by {
            assert forall|i: int| 0 <= i < rest.len() implies (#[trigger] rest[i]).leads(
                front[i],
                front[i + 1],
            ) by {
                assert(moments[i].leads(states[i], states[i + 1]));
            }
        }
        lemma_expiry(front, rest);
        assert(m.leads(states[n], states[n + 1]));
        assert(front.last() == states[n]);
        assert(states.last() == states[n + 1]);
        if let ExporterEvent::Drained(exports) = m.event {
            lemma_all_settled_schedule(states[n], exports@);
        }
    }
}

proof fn lemma_all_settled_schedule<P>(v: ExporterView<P>, exports: Seq<CompletedExport>)
    ensures
        v.all_settled(exports).schedule == v.schedule,
    decreases exports.len(),
{
    if exports.len() > 0 {
        lemma_all_settled_schedule(v, exports.drop_last());
    }
}

/// In one of the steps the export of the batch ended with success.
pub open spec fn was_exported<P>(moments: Seq<Moment<P>>, batch_id: u64) -> bool {
    exists|i: int|
        0 <= i < moments.len() && succeeded(
            (#[trigger] moments[i]).event.ended_exports(),
            batch_id,
        )
}

/// An exporter that began without messages went through those states with those steps, each
/// with an event that it waited for.
pub open spec fn is_whole_run<P>(states: Seq<ExporterView<P>>, moments: Seq<Moment<P>>) -> bool {
    &&& is_run(states, moments)
    &&& states[0].messages.len() == 0
    &&& states[0].relation == Set::<(u64, u64)>::empty()
    &&& forall|i: int|
        0 <= i < moments.len() ==> (#[trigger] states[i]).wf() && states[i].has_room()
            && states[i].expects(moments[i].event)
}

/// A message is acknowledged only when every batch that ever held one of its entries has been
/// exported with success: whenever an answer is an acknowledgement, the exports of all those
/// batches have ended so. Returns the messages that are answered with step `n`.
pub proof fn acknowledged_messages_are_exported<P>(
    states: Seq<ExporterView<P>>,
    moments: Seq<Moment<P>>,
    n: int,
) -> (answered: Seq<(u64, P)>)
    requires
        is_whole_run(states, moments),
        0 <= n < moments.len(),
    ensures
        splits(
            states[n].messages + moments[n].event.arrivals(states[n].last_msg),
            states[n + 1].messages,
            answered,
        ),
        answers_go_to(moments[n].answers, answered),
        forall|i: int, j: int, b: u64|
            0 <= i < moments[n].answers.len() && #[trigger] moments[n].answers[i] is Ack && 0 <= j
                <= n && #[trigger] states[j].relation.contains((b, answered[i].0))
                ==> was_exported(moments.take(n + 1), b),
{
    let before = states[n];
    let m = moments[n];
    assert(m.leads(states[n], states[n + 1]));
    let answered = every_message_waits_or_is_answered(
        before,
        m.event,
        m.now,
        states[n + 1],
        m.answers,
        m.action,
    );
    lemma_batches_kept(states, moments, n);
    assert forall|i: int, j: int, b: u64|
        0 <= i < m.answers.len() && #[trigger] m.answers[i] is Ack && 0 <= j <= n
            && #[trigger] states[j].relation.contains((b, answered[i].0)) implies was_exported(
        moments.take(n + 1),
        b,
    ) by {
        let id = answered[i].0;
        assert(acknowledged_rightly(before, m.event.ended_exports(), id));
        if before.relation.contains((b, id)) {
            assert(moments.take(n + 1)[n] == m);
        } else {
            assert(was_exported(moments.take(n), b));
            lemma_exported_earlier(moments, n, b);
        }
    }
    answered
}

/// No message waits for nothing: each that waits has an entry in some batch whose export has
/// not ended yet, so the end of an export will answer it.
pub proof fn waiting_messages_wait_for_a_batch<P>(
    states: Seq<ExporterView<P>>,
    moments: Seq<Moment<P>>,
    n: int,
    id: u64,
)
    requires
        is_whole_run(states, moments),
        0 <= n <= moments.len(),
        state::has_id(states[n].messages, id),
    ensures
        exists|b: u64| #[trigger] states[n].relation.contains((b, id)),
    decreases n,
{
    if n > 0 {
        let m = moments[n - 1];
        let before = states[n - 1];
        assert(m.leads(before, states[n]));
        lemma_batches_kept(states, moments, n - 1);
        if state::has_id(before.messages, id) {
            waiting_messages_wait_for_a_batch(states, moments, n - 1, id);
            assert(in_some_batch(before.relation, id));
        }
        lemma_step_related(before, m, states[n], id);
    }
}

/// A message with an entry in a lost batch is refused with the reason, forgotten, and does not
/// wait any more; one without any is not.
pub proof fn lost_batch_refuses_its_messages<P>(
    before: ExporterView<P>,
    export: CompletedExport,
    id: u64,
    data: P,
)
    requires
        before.wf(),
        before.messages.contains((id, data)),
        export.result is Err,
    ensures
        before.relation.contains((export.batch_id, id)) ==> {
            &&& before.answers(export).contains(
                Answer::Nack(data, Refusal::ExportFailed(export.result->Err_0)),
            )
            &&& !state::has_id(before.settled(export).messages, id)
            &&& forall|b: u64| !(#[trigger] before.settled(export).relation.contains((b, id)))
        },
        !before.relation.contains((export.batch_id, id)) ==> before.settled(
            export,
        ).messages.contains((id, data)),
        forall|i: int|
            0 <= i < before.answers(export).len() ==> #[trigger] before.answers(export)[i] is Nack,
{
    let p = state::touched(before.relation, export.batch_id);
    let all = before.messages;
    let i = all.index_of((id, data));
    assert(all[i].0 == id);
    state::lost_batch_takes_its_messages_along(all, before.relation, export.batch_id, id);
    state::lemma_only(all, p);
    state::lemma_only(all, |m: u64| !p(m));
    if p(id) {
        let lost = state::only(all, p);
        assert(lost.contains(all[i]));
        let k = lost.index_of(all[i]);
        assert(before.answers(export)[k] == Answer::Nack(
            data,
            Refusal::ExportFailed(export.result->Err_0),
        ));
    }
}

/// A message all of whose batches but one were exported is acknowledged when that one is; with
/// another batch left it goes on waiting.
pub proof fn last_exported_batch_acknowledges<P>(
    before: ExporterView<P>,
    export: CompletedExport,
    id: u64,
    data: P,
)
    requires
        before.wf(),
        before.messages.contains((id, data)),
        before.relation.contains((export.batch_id, id)),
        export.result is Ok,
    ensures
        (forall|b: u64| !(#[trigger] before.settled(export).relation.contains((b, id)))) ==> {
            &&& before.answers(export).contains(Answer::Ack(data))
            &&& !state::has_id(before.settled(export).messages, id)
        },
        forall|b: u64|
            b != export.batch_id && #[trigger] before.relation.contains((b, id)) ==> {
                &&& before.settled(export).messages.contains((id, data))
                &&& before.settled(export).relation.contains((b, id))
            },
        forall|i: int|
            0 <= i < before.answers(export).len() ==> #[trigger] before.answers(export)[i] is Ack,
{
    let p = state::completed(before.relation, export.batch_id);
    let all = before.messages;
    let i = all.index_of((id, data));
    assert(all[i].0 == id);
    state::acknowledged_once_no_batch_is_left(all, before.relation, export.batch_id, id);
    state::each_message_is_answered_once(all, p, id);
    state::lemma_only_ids(all, p, id);
    state::lemma_only(all, p);
    state::lemma_only(all, |m: u64| !p(m));
    if p(id) {
        let done = state::only(all, p);
        assert(done.contains(all[i]));
        let k = done.index_of(all[i]);
        assert(before.answers(export)[k] == Answer::Ack(data));
    } else {
        let left = state::without_batch(before.relation, export.batch_id);
        let b = choose|b: u64| #[trigger] left.contains((b, id));
        assert(before.settled(export).relation.contains((b, id)));
    }
}

/// An export that has ended counts once, with its rows and with the messages that it decides:
/// as exported if it succeeded, as failed if it did not.
pub proof fn each_export_counts_once<P>(before: ExporterView<P>, export: CompletedExport)
    requires
        before.counts.messages + before.answers(export).len() <= u64::MAX,
        before.counts.failed_messages + before.answers(export).len() <= u64::MAX,
        before.counts.rows + export.row_count <= u64::MAX,
        before.counts.failed_rows + export.row_count <= u64::MAX,
        before.counts.batches < u64::MAX,
        before.counts.failed_batches < u64::MAX,
    ensures
        ({
            let c0 = before.counts;
            let c1 = before.settled(export).counts;
            let n = before.answers(export).len();
            &&& export.result is Ok ==> {
                &&& c1.messages == c0.messages + n
                &&& c1.rows == c0.rows + export.row_count
                &&& c1.batches == c0.batches + 1
                &&& c1.failed_messages == c0.failed_messages
                &&& c1.failed_rows == c0.failed_rows
                &&& c1.failed_batches == c0.failed_batches
            }
            &&& export.result is Err ==> {
                &&& c1.messages == c0.messages
                &&& c1.rows == c0.rows
                &&& c1.batches == c0.batches
                &&& c1.failed_messages == c0.failed_messages + n
                &&& c1.failed_rows == c0.failed_rows + export.row_count
                &&& c1.failed_batches == c0.failed_batches + 1
            }
            &&& c1.log_entries_too_large == c0.log_entries_too_large
            &&& c1.heartbeats == c0.heartbeats
        }),
{
}

proof fn lemma_exported_earlier<P>(moments: Seq<Moment<P>>, n: int, b: u64)
    requires
        0 <= n < moments.len(),
        was_exported(moments.take(n), b),
    ensures
        was_exported(moments.take(n + 1), b),
{
    let i = choose|i: int|
        0 <= i < n && succeeded((#[trigger] moments.take(n)[i]).event.ended_exports(), b);
    assert(moments.take(n + 1)[i] == moments.take(n)[i]);
}

/// What entries of a message being batched do to the messages and to the batches they are in.
proof fn lemma_goes_on_links<P>(
    v: ExporterView<P>,
    after: ExporterView<P>,
    id: u64,
    left: Seq<Seq<u8>>,
    answered: Seq<Answer<P>>,
    answers: Seq<Answer<P>>,
    action: ExporterAction,
)
    requires
        v.wf(),
        v.goes_on(after, id, left, answered, answers, action),
    ensures
        after.last_msg == v.last_msg,
        forall|m: u64|
            #[trigger] state::has_id(after.messages, m) ==> state::has_id(v.messages, m),
        forall|l: (u64, u64)| #[trigger] v.relation.contains(l) ==> after.relation.contains(l),
        forall|l: (u64, u64)| #[trigger]
            after.relation.contains(l) ==> v.relation.contains(l) || l.1 == id,
        state::has_id(after.messages, id) ==> in_some_batch(after.relation, id),
{
    let (left1, step) = choose|left1: Seq<Seq<u8>>, step: LogsStep<P>| #[trigger]
        v.batches(ExporterView { activity: v.activity, ..after }, id, left, left1, step);
    let p = state::is_msg(id);
    let q = |m: u64| !p(m);
    assert forall|m: u64| #[trigger] state::has_id(state::without(v.messages, p), m) == (
    state::has_id(v.messages, m) && m != id) by {
        state::lemma_only_ids(v.messages, q, m);
    }
    let end = ExporterView { activity: v.activity, ..after };
    match step {
        LogsStep::Queue(batch) => {
            let k = choose|k: int| #[trigger] v.queues_at(end, id, left, left1, batch, k);
            assert(after.relation.contains(((v.batcher.open_id() + 1) as u64, id)));
        },
        LogsStep::Finished(orphan) => {},
        LogsStep::Failed(refused, error) => {
            let k = choose|k: int| #[trigger] v.fails_at(end, id, left, error, k);
        },
    }
}

/// What a step does to the messages and to the batches they are in.
proof fn lemma_step_links<P>(before: ExporterView<P>, m: Moment<P>, after: ExporterView<P>)
    requires
        before.wf(),
        before.has_room(),
        m.leads(before, after),
        forall|l: (u64, u64)| #[trigger] before.relation.contains(l) ==> l.1 <= before.last_msg,
    ensures
        after.last_msg >= before.last_msg,
        forall|l: (u64, u64)| #[trigger] after.relation.contains(l) ==> l.1 <= after.last_msg,
        forall|id: u64| #[trigger]
            state::has_id(after.messages, id) ==> state::has_id(before.messages, id) || id
                == before.last_msg + 1,
        forall|b: u64, id: u64| #[trigger]
            before.relation.contains((b, id)) && state::has_id(after.messages, id)
                ==> after.relation.contains((b, id)) || succeeded(m.event.ended_exports(), b),
{
    match m.event {
        ExporterEvent::Completed(Some(c)) => {
            assert forall|id: u64| #[trigger] state::has_id(after.messages, id) implies
                state::has_id(before.messages, id) && forall|b: u64| #[trigger]
                before.relation.contains((b, id)) ==> after.relation.contains((b, id))
                    || succeeded(seq![c], b) by {
                lemma_settled_links(before, c, id);
                assert(seq![c][0] == c);
            }
            assert forall|l: (u64, u64)| #[trigger] after.relation.contains(l) implies
                before.relation.contains(l) by {
                lemma_settled_links(before, c, l.1);
                assert(l == (l.0, l.1));
            }
        },
        ExporterEvent::Queued(export) => {
            let settled = before.maybe_settled(export);
            let queued = before.queued(export, m.now);
            if let Some(c) = export {
                lemma_settled_wf(before, c);
                assert forall|id: u64| #[trigger] state::has_id(settled.messages, id) implies
                    state::has_id(before.messages, id) && forall|b: u64| #[trigger]
                    before.relation.contains((b, id)) ==> settled.relation.contains((b, id))
                        || succeeded(seq![c], b) by {
                    lemma_settled_links(before, c, id);
                    assert(seq![c][0] == c);
                }
                assert forall|l: (u64, u64)| #[trigger] settled.relation.contains(l) implies
                    before.relation.contains(l) by {
                    lemma_settled_links(before, c, l.1);
                    assert(l == (l.0, l.1));
                }
            }
            if let ActivityView::Batching { id, left } = before.activity {
                lemma_goes_on_links(
                    queued,
                    after,
                    id,
                    left,
                    before.maybe_answers(export),
                    m.answers,
                    m.action,
                );
            }
        },
        ExporterEvent::Drained(exports) => {
            lemma_all_settled_last(before, exports@);
        },
        ExporterEvent::Data(data) if data.kind.is_logs() && data.entries is Ok => {
            let id = (before.last_msg + 1) as u64;
            let numbered = ExporterView { last_msg: id, ..before };
            let payload = m.event.arrivals(before.last_msg)[0].1;
            let with = numbered.with_message(id, payload);
            assert(numbered.wf());
            lemma_with_message_wf(numbered, id, payload);
            lemma_goes_on_links(
                with,
                after,
                id,
                gzip_batcher::contents(data.entries->Ok_0@),
                Seq::empty(),
                m.answers,
                m.action,
            );
            let p = state::is_msg(id);
            assert forall|x: u64| #[trigger] state::has_id(with.messages, x) implies
                state::has_id(before.messages, x) || x == id by {
                let i = choose|i: int|
                    0 <= i < with.messages.len() && (#[trigger] with.messages[i]).0 == x;
                let rest = state::without(before.messages, p);
                if i < rest.len() {
                    assert(rest[i].0 == x);
                    state::lemma_only_ids(before.messages, |y: u64| !p(y), x);
                }
            }
        },
        _ => {},
    }
}

proof fn lemma_all_settled_last<P>(v: ExporterView<P>, exports: Seq<CompletedExport>)
    ensures
        v.all_settled(exports).last_msg == v.last_msg,
    decreases exports.len(),
{
    if exports.len() > 0 {
        lemma_all_settled_last(v, exports.drop_last());
    }
}

/// A message that waits keeps all its batches but those that were exported; ids of messages that
/// never came stand in no batch.
proof fn lemma_batches_kept<P>(states: Seq<ExporterView<P>>, moments: Seq<Moment<P>>, n: int)
    requires
        is_whole_run(states, moments),
        0 <= n <= moments.len(),
    ensures
        forall|j: int, l: (u64, u64)|
            0 <= j <= n && #[trigger] states[j].relation.contains(l) ==> l.1
                <= states[n].last_msg,
        forall|j: int, b: u64, id: u64|
            0 <= j <= n && #[trigger] states[j].relation.contains((b, id)) && state::has_id(
                states[n].messages,
                id,
            ) ==> states[n].relation.contains((b, id)) || was_exported(moments.take(n), b),
    decreases n,
{
    if n > 0 {
        let before = states[n - 1];
        let after = states[n];
        let m = moments[n - 1];
        lemma_batches_kept(states, moments, n - 1);
        assert(m.leads(before, after));
        lemma_step_links(before, m, after);
        assert forall|j: int, b: u64, id: u64|
            0 <= j <= n && #[trigger] states[j].relation.contains((b, id)) && state::has_id(
                after.messages,
                id,
            ) implies after.relation.contains((b, id)) || was_exported(moments.take(n), b) by {
            if j < n {
                assert(states[j].relation.contains((b, id)));
                assert(id <= before.last_msg);
                assert(state::has_id(before.messages, id));
                if before.relation.contains((b, id)) {
                    if succeeded(m.event.ended_exports(), b) {
                        assert(moments.take(n)[n - 1] == m);
                    }
                } else {
                    lemma_exported_earlier(moments, n - 1, b);
                }
            }
        }
    }
}

/// A message that goes on waiting, or begins to, has an entry in some batch.
proof fn lemma_step_related<P>(
    before: ExporterView<P>,
    m: Moment<P>,
    after: ExporterView<P>,
    id: u64,
)
    requires
        before.wf(),
        before.has_room(),
        m.leads(before, after),
        forall|l: (u64, u64)| #[trigger] before.relation.contains(l) ==> l.1 <= before.last_msg,
        state::has_id(before.messages, id) ==> in_some_batch(before.relation, id),
        state::has_id(after.messages, id),
    ensures
        in_some_batch(after.relation, id),
{
    match m.event {
        ExporterEvent::Completed(Some(c)) => lemma_settled_related(before, c, id),
        ExporterEvent::Queued(export) => {
            let queued = before.queued(export, m.now);
            if let Some(c) = export {
                lemma_settled_wf(before, c);
                if state::has_id(queued.messages, id) {
                    lemma_settled_related(before, c, id);
                }
            }
            if let ActivityView::Batching { id: batched, left } = before.activity {
                lemma_goes_on_links(
                    queued,
                    after,
                    batched,
                    left,
                    before.maybe_answers(export),
                    m.answers,
                    m.action,
                );
                assert(state::has_id(queued.messages, id));
                let b = choose|b: u64| #[trigger] queued.relation.contains((b, id));
                assert(after.relation.contains((b, id)));
            }
        },
        ExporterEvent::Data(data) if data.kind.is_logs() && data.entries is Ok => {
            let new = (before.last_msg + 1) as u64;
            let numbered = ExporterView { last_msg: new, ..before };
            let payload = m.event.arrivals(before.last_msg)[0].1;
            let with = numbered.with_message(new, payload);
            assert(numbered.wf());
            lemma_with_message_wf(numbered, new, payload);
            lemma_goes_on_links(
                with,
                after,
                new,
                gzip_batcher::contents(data.entries->Ok_0@),
                Seq::empty(),
                m.answers,
                m.action,
            );
            lemma_step_links(before, m, after);
            if id != new {
                let b = choose|b: u64| #[trigger] before.relation.contains((b, id));
                assert(after.relation.contains((b, id)));
            }
        },
        _ => {},
    }
}

proof fn lemma_settled_related<P>(v: ExporterView<P>, c: CompletedExport, id: u64)
    requires
        state::has_id(v.messages, id) ==> in_some_batch(v.relation, id),
        state::has_id(v.settled(c).messages, id),
    ensures
        in_some_batch(v.settled(c).relation, id),
{
    lemma_settled_links(v, c, id);
    let b = choose|b: u64| #[trigger] v.relation.contains((b, id));
    if !v.settled(c).relation.contains((b, id)) {
        state::acknowledged_once_no_batch_is_left(v.messages, v.relation, c.batch_id, id);
        let p = state::completed(v.relation, c.batch_id);
        state::lemma_only_ids(v.messages, p, id);
        state::lemma_only_ids(v.messages, |m: u64| !p(m), id);
    }
}

/// Only logs are exported, whichever form they come in.
pub proof fn only_logs_are_exported(kind: PayloadKind)
    ensures
        kind is ArrowLogs ==> kind.is_logs(),
        kind is OtlpLogs ==> kind.is_logs(),
        kind is ArrowMetrics || kind is ArrowTraces || kind is OtlpMetrics || kind is OtlpTraces
            ==> !kind.is_logs(),
{
}

/// A message without entries is refused at once, with its payload if that may go back and
/// without its data otherwise. No other message is touched.
pub proof fn message_without_entries_is_refused<P>(
    before: ExporterView<P>,
    message: Incoming<P>,
    now: u128,
    after: ExporterView<P>,
    answers: Seq<Answer<P>>,
    action: ExporterAction,
)
    requires
        before.wf(),
        before.has_room(),
        before.takes(ExporterEvent::Data(message), now, after, answers, action),
        message.kind is ArrowLogs || message.kind is OtlpLogs,
        message.entries matches Ok(entries) && entries@.len() == 0,
        forall|l: (u64, u64)| #[trigger] before.relation.contains(l) ==> l.1 <= before.last_msg,
    ensures
        answers.len() == 1,
        answers[0] is Nack,
        answers[0]->Nack_1 is NoValidEntries,
        message.may_return_payload ==> answers[0].payload() == message.payload,
        !message.may_return_payload ==> answers[0].payload() == message.empty,
        after.messages == before.messages,
        after.relation == before.relation,
        action is Wait,
{
    let event = ExporterEvent::Data(message);
    let id = (before.last_msg + 1) as u64;
    let numbered = ExporterView { last_msg: id, ..before };
    let data = event.arrivals(before.last_msg)[0].1;
    let with = numbered.with_message(id, data);
    assert(numbered.wf());
    lemma_with_message_wf(numbered, id, data);
    assert(!state::has_id(before.messages, id));
    lemma_without_none(before.messages, id);
    assert(with.messages == before.messages.push((id, data)));
    let left = gzip_batcher::contents(message.entries->Ok_0@);
    assert(left =~= Seq::<Seq<u8>>::empty());
    let (left1, step) = choose|left1: Seq<Seq<u8>>, step: LogsStep<P>| #[trigger]
        with.batches(
            ExporterView { activity: with.activity, ..after },
            id,
            left,
            left1,
            step,
        ) && match step {
            LogsStep::Queue(batch) => {
                &&& after.activity == (ActivityView::Batching { id, left: left1 })
                &&& answers == Seq::<Answer<P>>::empty()
                &&& action == ExporterAction::Export(batch)
            },
            LogsStep::Finished(orphan) => {
                &&& after.activity is Idle
                &&& answers == Seq::<Answer<P>>::empty() + nack(orphan, Refusal::NoValidEntries)
                &&& action is Wait
            },
            LogsStep::Failed(refused, error) => {
                &&& after.activity is Ended
                &&& answers == Seq::<Answer<P>>::empty() + nack(refused, Refusal::Stopped)
                &&& action == ExporterAction::Fail(error)
            },
        };
    match step {
        LogsStep::Queue(batch) => {
            let k = choose|k: int| #[trigger]
                with.queues_at(
                    ExporterView { activity: with.activity, ..after },
                    id,
                    left,
                    left1,
                    batch,
                    k,
                );
        },
        LogsStep::Finished(orphan) => {
            assert(!in_some_batch(with.relation, id));
            assert(with.messages[before.messages.len() as int] == (id, data));
            assert(state::has_id(with.messages, id));
            assert(orphan is Some);
            let i = with.messages.index_of((id, orphan->0));
            assert(with.messages[i].0 == id);
            if i < before.messages.len() {
                assert(before.messages[i].0 == id);
            }
            let q = |m: u64| !state::is_msg(id)(m);
            assert(with.messages.drop_last() =~= before.messages);
            lemma_without_none(before.messages, id);
            assert(state::without(with.messages, state::is_msg(id)) == before.messages);
        },
        LogsStep::Failed(refused, error) => {
            let k = choose|k: int| #[trigger]
                with.fails_at(
                    ExporterView { activity: with.activity, ..after },
                    id,
                    left,
                    error,
                    k,
                );
        },
    }
}

/// When the exports under way have ended, the exporter ends, and no message is left without an
/// answer: those that no export decided are refused.
pub proof fn nothing_waits_after_the_end<P>(
    before: ExporterView<P>,
    exports: Vec<CompletedExport>,
    now: u128,
    after: ExporterView<P>,
    answers: Seq<Answer<P>>,
    action: ExporterAction,
)
    requires
        before.wf(),
        before.takes(ExporterEvent::Drained(exports), now, after, answers, action),
    ensures
        action is Stop,
        after.messages.len() == 0,
        answers.len() == before.messages.len(),
        exports@.len() == 0 ==> forall|i: int|
            0 <= i < answers.len() ==> #[trigger] answers[i] == Answer::Nack(
                before.messages[i].1,
                Refusal::Shutdown,
            ),
{
    lemma_all_settled_count(before, exports@);
}

proof fn lemma_all_settled_count<P>(v: ExporterView<P>, exports: Seq<CompletedExport>)
    ensures
        v.all_settled(exports).messages.len() + v.all_answers(exports).len() == v.messages.len(),
    decreases exports.len(),
{
    if exports.len() > 0 {
        let rest = exports.drop_last();
        let between = v.all_settled(rest);
        let c = exports.last();
        lemma_all_settled_count(v, rest);
        lemma_only_count(between.messages, state::completed(between.relation, c.batch_id));
        lemma_only_count(between.messages, state::touched(between.relation, c.batch_id));
    }
}

proof fn lemma_only_count<P>(s: Seq<(u64, P)>, p: spec_fn(u64) -> bool)
    ensures
        state::only(s, p).len() + state::without(s, p).len() == s.len(),
    decreases s.len(),
{
    if s.len() > 0 {
        lemma_only_count(s.drop_last(), p);
    }
}

/// A shutdown loses no entry of the open batch: unless its stream is beyond the hard limit, the
/// batch is exported first, with all its entries; without entries the exporter waits for the
/// exports under way at once.
pub proof fn shutdown_exports_the_open_batch<P>(
    before: ExporterView<P>,
    now: u128,
    after: ExporterView<P>,
    answers: Seq<Answer<P>>,
    action: ExporterAction,
)
    requires
        before.takes(ExporterEvent::Shutdown, now, after, answers, action),
    ensures
        before.batcher.rows().len() == 0 ==> action is Drain,
        before.batcher.rows().len() > 0 && !before.batcher@.overlong() ==> {
            &&& action is Export
            &&& action->Export_0.delivers(before.batcher.rows())
            &&& action->Export_0.batch_id == before.batcher.last_id()
            &&& after.batcher.rows().len() == 0
        },
        after.messages == before.messages,
        after.relation == before.relation,
{
}

/// The open batch is exported when no batch was queued for three seconds, and not before: with
/// all its entries, unless its stream is beyond the hard limit.
pub proof fn overdue_batches_are_exported<P>(
    before: ExporterView<P>,
    now: u128,
    after: ExporterView<P>,
    answers: Seq<Answer<P>>,
    action: ExporterAction,
)
    requires
        before.takes(ExporterEvent::PeriodicExportDue, now, after, answers, action),
    ensures
        ({
            let overdue = now - before.schedule.last_batch_queued_at >= 3 * 1_000_000_000;
            &&& !overdue || before.batcher.rows().len() == 0 ==> action is Wait
            &&& overdue && before.batcher.rows().len() > 0 && !before.batcher@.overlong() ==> {
                &&& action is Export
                &&& action->Export_0.delivers(before.batcher.rows())
            }
        }),
        after.messages == before.messages,
        after.relation == before.relation,
        answers.len() == 0,
{
}

/// A heartbeat that is due is sent, counted, and due again after the configured time; without
/// one configured nothing happens.
pub proof fn heartbeats_come_as_configured<P>(
    before: ExporterView<P>,
    now: u128,
    after: ExporterView<P>,
    answers: Seq<Answer<P>>,
    action: ExporterAction,
)
    requires
        before.takes(ExporterEvent::HeartbeatDue, now, after, answers, action),
        before.counts.heartbeats < u64::MAX,
    ensures
        before.heartbeat matches Some(frequency) ==> {
            &&& action is SendHeartbeat
            &&& after.counts.heartbeats == before.counts.heartbeats + 1
            &&& now + frequency <= u128::MAX ==> after.schedule.next_heartbeat_send == now
                + frequency
        },
        before.heartbeat is None ==> action is Wait && after == before,
        answers.len() == 0,
        after.messages == before.messages,
        after.relation == before.relation,
{
}

/// A token that a header can hold is used from then on, as a bearer token, until it expires; any
/// other, and a failure to get one, changes nothing.
pub proof fn usable_tokens_are_used<P>(
    before: ExporterView<P>,
    item: Result<BearerToken, String>,
    now: u128,
    after: ExporterView<P>,
    answers: Seq<Answer<P>>,
    action: ExporterAction,
)
    requires
        before.takes(ExporterEvent::Token(item), now, after, answers, action),
    ensures
        item is Err ==> after == before && action is Wait,
        item matches Ok(token) ==> {
            let usable = forall|i: int|
                0 <= i < token.token@.len() ==> {
                    let c = #[trigger] token.token@[i];
                    c == '\t' || (c as u32 >= 32 && c as u32 != 127)
                };
            &&& !usable ==> after == before && action is Wait
            &&& usable ==> {
                &&& action is UpdateAuth
                &&& auth_header::header_text(action->UpdateAuth_header) == "Bearer "@
                    + token.token@
                &&& action->UpdateAuth_first == !before.schedule.first_token_seen
                &&& after.schedule.first_token_seen
                &&& token.expires_on matches Some(at) ==> after.schedule.token_expiry_at == at
            }
        },
        answers.len() == 0,
{
    if let Ok(token) = item {
        if auth_header::is_header_text(token.token@) {
            assert forall|i: int| 0 <= i < token.token@.len() implies ({
                let c = #[trigger] token.token@[i];
                c == '\t' || (c as u32 >= 32 && c as u32 != 127)
            }) by {
                assert(auth_header::is_header_char(token.token@[i]));
            }
        } else {
            let i = choose|i: int|
                0 <= i < token.token@.len() && !auth_header::is_header_char(
                    #[trigger] token.token@[i],
                );
            let c = token.token@[i];
            assert(!(c == '\t' || (c as u32 >= 32 && c as u32 != 127)));
        }
    }
}

/// Data is accepted exactly while the token is more than a minute away from its expiry and fewer
/// than sixteen exports are under way.
pub proof fn data_needs_a_token_and_a_slot<P>(v: ExporterView<P>, now: u128, in_flight: int)
    ensures
        v.accepts_data(now, in_flight) <==> v.schedule.token_expiry_at - now > 60 * 1_000_000_000
            && in_flight < 16,
{
}

/// A message is tied to the batches that took its entries: to the open one if it took any, and
/// to the next one if an entry started that. No other message and no other batch is tied.
pub proof fn messages_are_tied_to_the_batches_of_their_entries<P>(
    before: ExporterView<P>,
    after: ExporterView<P>,
    id: u64,
    left: Seq<Seq<u8>>,
    answered: Seq<Answer<P>>,
    answers: Seq<Answer<P>>,
    action: ExporterAction,
)
    requires
        before.wf(),
        before.batcher.open_id() + 1 <= u64::MAX,
        before.goes_on(after, id, left, answered, answers, action),
    ensures
        action is Wait && left.len() > 0 ==> after.relation.contains(
            (before.batcher.open_id() as u64, id),
        ),
        action matches ExporterAction::Export(batch) ==> {
            &&& batch.batch_id == before.batcher.open_id()
            &&& after.activity is Batching
            &&& after.activity->left.len() < left.len()
            &&& after.activity->left == left.skip(left.len() - after.activity->left.len())
            &&& after.relation.contains(((batch.batch_id + 1) as u64, id))
            &&& after.activity->left.len() < left.len() - 1 ==> after.relation.contains(
                (batch.batch_id, id),
            )
        },
        forall|l: (u64, u64)| #[trigger] before.relation.contains(l) ==> after.relation.contains(l),
        forall|l: (u64, u64)| #[trigger]
            after.relation.contains(l) && !before.relation.contains(l) ==> l.1 == id && (l.0
                == before.batcher.open_id() || l.0 == before.batcher.open_id() + 1),
{
    let (left1, step) = choose|left1: Seq<Seq<u8>>, step: LogsStep<P>| #[trigger]
        before.batches(
            ExporterView { activity: before.activity, ..after },
            id,
            left,
            left1,
            step,
        ) && match step {
            LogsStep::Queue(batch) => {
                &&& after.activity == (ActivityView::Batching { id, left: left1 })
                &&& answers == answered
                &&& action == ExporterAction::Export(batch)
            },
            LogsStep::Finished(orphan) => {
                &&& after.activity is Idle
                &&& answers == answered + nack(orphan, Refusal::NoValidEntries)
                &&& action is Wait
            },
            LogsStep::Failed(refused, error) => {
                &&& after.activity is Ended
                &&& answers == answered + nack(refused, Refusal::Stopped)
                &&& action == ExporterAction::Fail(error)
            },
        };
    let end = ExporterView { activity: before.activity, ..after };
    match step {
        LogsStep::Queue(batch) => {
            let k = choose|k: int| #[trigger] before.queues_at(end, id, left, left1, batch, k);
            assert(left1.len() == left.len() - k);
        },
        LogsStep::Finished(orphan) => {},
        LogsStep::Failed(refused, error) => {
            let k = choose|k: int| #[trigger] before.fails_at(end, id, left, error, k);
        },
    }
}

/// A batch that was queued starts the interval anew after which the next one is overdue. What
/// was to be done last before the exporter ends is then over, and the exports under way are
/// waited for.
pub proof fn queued_batches_start_the_interval_anew<P>(
    before: ExporterView<P>,
    export: Option<CompletedExport>,
    now: u128,
    after: ExporterView<P>,
    answers: Seq<Answer<P>>,
    action: ExporterAction,
)
    requires
        before.takes(ExporterEvent::Queued(export), now, after, answers, action),
    ensures
        after.schedule.last_batch_queued_at == now,
        after.schedule.token_expiry_at == before.schedule.token_expiry_at,
        before.activity is StoppingFlush ==> action is Drain && after.activity is StoppingDrain,
        before.activity is Flushing ==> action is Wait && after.activity is Idle,
{
}

/// While a batch is being queued the exporter waits for that alone, and while exports under way
/// are waited for, for their end alone; a batch is queued and exports are drained only then. An
/// exporter that has ended takes nothing.
pub proof fn exporter_waits_for_what_it_asked_for<P>(v: ExporterView<P>, event: ExporterEvent<P>)
    ensures
        v.activity is Idle ==> (v.expects(event) <==> !(event is Queued || event is Drained)),
        v.activity is Batching || v.activity is Flushing || v.activity is StoppingFlush ==> (
        v.expects(event) <==> event is Queued),
        v.activity is StoppingDrain ==> (v.expects(event) <==> event is Drained),
        v.activity is Ended ==> !v.expects(event),
{
}

/// A message of a lost batch is refused with the reason for which that was lost, and one that
/// the end of the exporter leaves with that of the exporter.
pub proof fn refusals_give_their_reason(reason: String)
    ensures
        Refusal::ExportFailed(reason).text() == Some(reason@),
        Refusal::Stopped.text() is None,
{
}

} // verus!
