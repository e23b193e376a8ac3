use bytes::Bytes;
use dataflow_extensions::azure_monitor_exporter::auth_header::bearer_header;
use dataflow_extensions::azure_monitor_exporter::error::ExporterError;
use dataflow_extensions::azure_monitor_exporter::exporter::{
    Answer, AzureMonitorExporter, CompletedExport, ExporterAction, ExporterEvent, Incoming,
    PayloadKind, Refusal, Step,
};
use dataflow_extensions::azure_monitor_exporter::gzip_batcher::{Budget, GzipResult, TARGET_LIMIT};
use dataflow_extensions::azure_monitor_exporter::schedule::{
    MAX_IN_FLIGHT_EXPORTS, NANOS_PER_SEC, Schedule,
};
use dataflow_extensions::azure_monitor_exporter::state::AzureMonitorExporterState;
use dataflow_extensions::capability::bearer_token_provider::{BearerToken, Secret};
use dataflow_extensions::extension::control::RecvError;

type Exporter = AzureMonitorExporter<&'static str>;

fn entries(rows: &[&'static [u8]]) -> Vec<Bytes> {
    rows.iter().map(|row| Bytes::from_static(row)).collect()
}

fn logs(payload: &'static str, rows: Vec<Bytes>) -> Incoming<&'static str> {
    Incoming {
        kind: PayloadKind::OtlpLogs,
        may_return_payload: true,
        payload,
        empty: "empty",
        entries: Ok(rows),
    }
}

fn waits(step: &Step<&'static str>) -> bool {
    matches!(step.action, ExporterAction::Wait) && step.answers.is_empty()
}

fn export_of(action: ExporterAction) -> GzipResult {
    match action {
        ExporterAction::Export(batch) => batch,
        _ => panic!("a batch should be exported"),
    }
}

fn done(batch: &GzipResult) -> CompletedExport {
    CompletedExport { batch_id: batch.batch_id, row_count: batch.row_count, result: Ok(()) }
}

/// An exporter with one message in a batch that is on its way.
fn one_message_in_a_batch() -> (Exporter, GzipResult) {
    let mut exporter = Exporter::new(6, None, 0);
    let step = exporter.start(ExporterEvent::Data(logs("test", entries(&[b"1", b"2"]))), 0);
    assert!(waits(&step));
    assert!(exporter.has_pending_data());
    let later = 3 * NANOS_PER_SEC;
    let batch = export_of(exporter.start(ExporterEvent::PeriodicExportDue, later).action);
    assert_eq!(batch.row_count, 2);
    assert!(waits(&exporter.start(ExporterEvent::Queued(None), later)));
    (exporter, batch)
}

#[test]
fn test_new_validates_config() {
    let exporter = Exporter::new(6, None, 0);
    assert_eq!(exporter.waiting_count(), 0);
    assert!(!exporter.has_pending_data());
}

#[test]
fn test_handle_export_success() {
    let mut state: AzureMonitorExporterState<&'static str> = AzureMonitorExporterState::new();
    state.add_msg_to_data(100, "test");
    state.add_batch_msg_relationship(1, 100);
    assert_eq!(state.remove_batch_success(1), vec![(100, "test")]);
    assert_eq!(state.message_count(), 0);

    let (mut exporter, batch) = one_message_in_a_batch();
    assert_eq!(exporter.handle_export_success(batch.batch_id, 10), vec![(1, "test")]);
    let m = exporter.metrics();
    assert_eq!(m.batches, 1);
    assert_eq!(m.messages, 1);
    assert_eq!(m.rows, 10);
    assert_eq!(exporter.waiting_count(), 0);
}

#[test]
fn test_handle_export_failure() {
    let mut state: AzureMonitorExporterState<&'static str> = AzureMonitorExporterState::new();
    state.add_msg_to_data(100, "test");
    state.add_batch_msg_relationship(1, 100);
    assert_eq!(state.remove_batch_failure(1), vec![(100, "test")]);
    assert_eq!(state.message_count(), 0);

    let (mut exporter, batch) = one_message_in_a_batch();
    assert_eq!(exporter.handle_export_failure(batch.batch_id, 10), vec![(1, "test")]);
    let m = exporter.metrics();
    assert_eq!(m.failed_batches, 1);
    assert_eq!(m.failed_messages, 1);
    assert_eq!(m.failed_rows, 10);
    assert_eq!(exporter.waiting_count(), 0);
}

#[test]
fn a_message_in_two_batches_is_acknowledged_after_both() {
    let mut state: AzureMonitorExporterState<u8> = AzureMonitorExporterState::new();
    state.add_msg_to_data(7, 70);
    state.add_msg_to_data(8, 80);
    state.add_batch_msg_relationship(1, 7);
    state.add_batch_msg_relationship(2, 7);
    state.add_batch_msg_relationship(2, 8);
    assert_eq!(state.remove_batch_success(1), vec![]);
    let mut done = state.remove_batch_success(2);
    done.sort();
    assert_eq!(done, vec![(7, 70), (8, 80)]);
    assert_eq!(state.drain_all(), vec![]);
}

#[test]
fn a_message_is_answered_once_when_one_of_its_batches_fails() {
    let mut state: AzureMonitorExporterState<u8> = AzureMonitorExporterState::new();
    state.add_msg_to_data(7, 70);
    state.add_batch_msg_relationship(1, 7);
    state.add_batch_msg_relationship(2, 7);
    assert_eq!(state.remove_batch_failure(1), vec![(7, 70)]);
    assert_eq!(state.remove_batch_success(2), vec![]);
    assert_eq!(state.message_count(), 0);
}

#[test]
fn messages_without_a_batch_are_orphans() {
    let mut state: AzureMonitorExporterState<u8> = AzureMonitorExporterState::new();
    state.add_msg_to_data(7, 70);
    state.add_msg_to_data(8, 80);
    state.add_batch_msg_relationship(1, 8);
    assert_eq!(state.delete_msg_data_if_orphaned(7), Some(70));
    assert_eq!(state.delete_msg_data_if_orphaned(8), None);
    assert_eq!(state.remove_msg_to_data(8), Some(80));
    assert_eq!(state.remove_msg_to_data(8), None);
}

#[test]
fn only_logs_are_exported() {
    let mut exporter = Exporter::new(1, None, 0);
    for kind in [
        PayloadKind::ArrowMetrics,
        PayloadKind::ArrowTraces,
        PayloadKind::OtlpMetrics,
        PayloadKind::OtlpTraces,
    ] {
        let message = Incoming { kind, ..logs("test", entries(&[b"1"])) };
        assert!(waits(&exporter.handle_message(message)));
        assert_eq!(exporter.waiting_count(), 0);
    }
    let message = Incoming { kind: PayloadKind::ArrowLogs, ..logs("test", entries(&[b"1"])) };
    assert!(waits(&exporter.handle_message(message)));
    assert_eq!(exporter.waiting_count(), 1);
    let batch = export_of(exporter.handle_shutdown());
    let _ = exporter.start(ExporterEvent::Queued(None), 0);
    assert_eq!(exporter.handle_export_success(batch.batch_id, 1), vec![(5, "test")]);
}

#[test]
fn a_message_without_entries_is_refused() {
    let mut exporter = Exporter::new(1, None, 0);
    let step = exporter.start(ExporterEvent::Data(logs("none", vec![])), 0);
    assert!(matches!(step.action, ExporterAction::Wait));
    assert!(matches!(step.answers[..], [Answer::Nack("none", Refusal::NoValidEntries)]));
    assert_eq!(exporter.waiting_count(), 0);
    assert!(!exporter.has_pending_data());
}

#[test]
fn a_payload_that_may_not_return_is_kept_without_its_data() {
    let mut exporter = Exporter::new(1, None, 0);
    let message = Incoming { may_return_payload: false, ..logs("full", vec![]) };
    let step = exporter.start(ExporterEvent::Data(message), 0);
    assert!(matches!(step.answers[..], [Answer::Nack("empty", Refusal::NoValidEntries)]));
}

#[test]
fn an_entry_that_is_too_large_fails_its_message() {
    let mut exporter = Exporter::new(1, None, 0);
    let huge = Bytes::from(vec![b'x'; TARGET_LIMIT]);
    let message = logs("huge", vec![Bytes::from_static(b"1"), huge]);
    let step = exporter.start(ExporterEvent::Data(message), 0);
    assert!(matches!(step.answers[..], [Answer::Nack("huge", Refusal::Stopped)]));
    assert!(matches!(step.action, ExporterAction::Fail(ExporterError::LogEntryTooLarge)));
    assert_eq!(exporter.metrics().log_entries_too_large, 1);
    assert_eq!(exporter.waiting_count(), 0);
    assert!(!exporter.expects(&ExporterEvent::OtherControl), "it is over");
}

#[test]
fn data_that_cannot_be_read_ends_the_exporter() {
    let mut exporter = Exporter::new(1, None, 0);
    let message = Incoming { entries: Err("bad".to_string()), ..logs("x", vec![]) };
    let step = exporter.start(ExporterEvent::Data(message), 0);
    assert!(step.answers.is_empty());
    assert!(matches!(
        step.action,
        ExporterAction::Fail(ExporterError::LogsViewCreationFailed { source }) if source == "bad"
    ));
}

#[test]
fn a_closed_channel_ends_the_exporter() {
    let mut exporter = Exporter::new(1, None, 0);
    let step = exporter.start(ExporterEvent::ReceiveFailed(RecvError::Closed), 0);
    assert!(matches!(
        step.action,
        ExporterAction::Fail(ExporterError::ChannelRecv(RecvError::Closed))
    ));
}

#[test]
fn shutdown_exports_then_waits_then_refuses() {
    let (mut exporter, first) = one_message_in_a_batch();
    let step = exporter.start(ExporterEvent::Data(logs("late", entries(&[b"3"]))), 0);
    assert!(waits(&step));
    let last = export_of(exporter.start(ExporterEvent::Shutdown, 0).action);
    assert!(exporter.expects(&ExporterEvent::Queued(None)));
    assert!(!exporter.expects(&ExporterEvent::OtherControl));
    let step = exporter.start(ExporterEvent::Queued(None), 0);
    assert!(matches!(step.action, ExporterAction::Drain));
    let lost = CompletedExport {
        batch_id: last.batch_id,
        row_count: last.row_count,
        result: Err("503".to_string()),
    };
    let step = exporter.start(ExporterEvent::Drained(vec![lost, done(&first)]), 0);
    assert!(matches!(step.action, ExporterAction::Stop));
    match &step.answers[..] {
        [Answer::Nack("late", Refusal::ExportFailed(reason)), Answer::Ack("test")] => {
            assert_eq!(reason, "503")
        }
        other => panic!("unexpected answers {other:?}"),
    }
    assert_eq!(exporter.metrics().failed_batches, 1);
    assert_eq!(exporter.metrics().batches, 1);
}

#[test]
fn shutdown_refuses_what_still_waits() {
    let (mut exporter, _) = one_message_in_a_batch();
    let step = exporter.start(ExporterEvent::Shutdown, 0);
    assert!(matches!(step.action, ExporterAction::Drain), "no batch is open");
    let step = exporter.start(ExporterEvent::Drained(vec![]), 0);
    assert!(matches!(step.answers[..], [Answer::Nack("test", Refusal::Shutdown)]));
    assert!(matches!(step.action, ExporterAction::Stop));
    assert_eq!(exporter.waiting_count(), 0);
}

#[test]
fn a_full_batch_is_queued_while_entries_are_left() {
    let mut exporter = Exporter::new(1, None, 0);
    let mut seed: u64 = 1;
    let rows: Vec<Bytes> = (0..300)
        .map(|_| {
            let row: Vec<u8> = (0..16_000)
                .map(|_| {
                    seed = seed.wrapping_mul(6364136223846793005).wrapping_add(1442695040888963407);
                    b'0' + (seed >> 60) as u8
                })
                .collect();
            Bytes::from(row)
        })
        .collect();
    let mut queued = Vec::new();
    let mut step = exporter.start(ExporterEvent::Data(logs("many", rows)), 0);
    while let ExporterAction::Export(batch) = step.action {
        queued.push(batch);
        step = exporter.start(ExporterEvent::Queued(None), 7);
    }
    assert!(waits(&step));
    assert!(queued.len() >= 2);
    assert_eq!(exporter.schedule().last_batch_queued_at, 7);
    queued.push(export_of(exporter.handle_shutdown()));
    let _ = exporter.start(ExporterEvent::Queued(None), 8);
    assert_eq!(queued.iter().map(|b| b.row_count).sum::<u64>(), 300);
    let exports = queued.iter().map(done).collect();
    let step = exporter.start(ExporterEvent::Drained(exports), 9);
    assert!(matches!(step.answers[..], [Answer::Ack("many")]), "one answer, after the last batch");
    assert_eq!(exporter.metrics().rows, 300);
    assert_eq!(exporter.metrics().messages, 1);
}

#[test]
fn an_export_that_has_ended_is_answered_at_once() {
    let (mut exporter, batch) = one_message_in_a_batch();
    assert!(waits(&exporter.start(ExporterEvent::Completed(None), 0)));
    let step = exporter.start(ExporterEvent::Completed(Some(done(&batch))), 0);
    assert!(matches!(step.answers[..], [Answer::Ack("test")]));
    assert!(matches!(step.action, ExporterAction::Wait));
}

#[test]
fn tokens_become_headers() {
    let mut exporter = Exporter::new(1, None, 0);
    assert!(!exporter.guards(0, 0).accepting_pdata);
    let token = |text: &str| {
        ExporterEvent::Token(Ok(BearerToken::new(
            Secret::new(text.to_string()),
            100 * NANOS_PER_SEC,
        )))
    };
    assert!(waits(&exporter.start(token("two\nlines"), 0)), "no header holds that");
    assert!(waits(&exporter.start(ExporterEvent::Token(Err("down".to_string())), 0)));
    assert!(!exporter.guards(0, 0).has_token);
    match exporter.start(token("abc"), 0).action {
        ExporterAction::UpdateAuth { header, first } => {
            assert_eq!(header.to_str().unwrap(), "Bearer abc");
            assert!(first);
        }
        _ => panic!("the header should change"),
    }
    assert!(exporter.guards(0, 0).accepting_pdata);
    assert!(matches!(
        exporter.start(token("def"), 0).action,
        ExporterAction::UpdateAuth { first: false, .. }
    ));
    assert!(bearer_header(&Secret::new("tab\tand é".to_string())).is_some());
    assert!(bearer_header(&Secret::new("\u{7f}".to_string())).is_none());
}

#[test]
fn heartbeats_are_counted_and_scheduled() {
    let mut exporter = Exporter::new(1, Some(60 * NANOS_PER_SEC), 0);
    let step = exporter.start(ExporterEvent::HeartbeatDue, NANOS_PER_SEC);
    assert!(matches!(step.action, ExporterAction::SendHeartbeat));
    assert_eq!(exporter.schedule().next_heartbeat_send, 61 * NANOS_PER_SEC);
    assert_eq!(exporter.metrics().heartbeats, 1);
    let mut silent = Exporter::new(1, None, 0);
    assert!(waits(&silent.start(ExporterEvent::HeartbeatDue, 0)));
}

#[test]
fn control_messages_are_taken() {
    let mut exporter = Exporter::new(1, None, 0);
    assert!(exporter.has_room());
    assert!(waits(&exporter.start(ExporterEvent::OtherControl, 0)));
    assert!(matches!(
        exporter.start(ExporterEvent::CollectTelemetry, 0).action,
        ExporterAction::ReportMetrics
    ));
    assert!(waits(&exporter.start(ExporterEvent::PeriodicExportDue, 9 * NANOS_PER_SEC)));
    assert_eq!(exporter.schedule().next_periodic_export, 12 * NANOS_PER_SEC);
}

#[test]
fn data_is_accepted_with_a_good_token_and_a_free_slot() {
    let mut schedule = Schedule::new(0);
    assert!(!schedule.guards(0, 0, true).accepting_pdata);
    assert!(schedule.on_token(0, Some(100 * NANOS_PER_SEC)));
    assert!(!schedule.on_token(0, Some(100 * NANOS_PER_SEC)));
    assert!(schedule.guards(0, 0, true).accepting_pdata);
    assert!(schedule.guards(0, 0, true).heartbeat);
    assert!(!schedule.guards(0, 0, false).heartbeat);
    assert!(schedule.guards(40 * NANOS_PER_SEC - 1, 0, true).has_token);
    assert!(!schedule.guards(40 * NANOS_PER_SEC, 0, true).has_token);
    let full = schedule.guards(0, MAX_IN_FLIGHT_EXPORTS, true);
    assert!(full.at_capacity && !full.accepting_pdata && full.heartbeat);
    schedule.on_token(0, None);
    assert!(schedule.guards(1_000_000 * NANOS_PER_SEC, 0, false).has_token);
}

#[test]
fn a_slow_batch_is_exported_after_the_interval() {
    let mut schedule = Schedule::new(0);
    schedule.on_batch_queued(NANOS_PER_SEC);
    assert!(!schedule.on_periodic_export(3 * NANOS_PER_SEC, true));
    assert_eq!(schedule.next_periodic_export, 6 * NANOS_PER_SEC);
    assert!(!schedule.on_periodic_export(6 * NANOS_PER_SEC, false));
    assert!(schedule.on_periodic_export(6 * NANOS_PER_SEC, true));
    schedule.on_heartbeat(6 * NANOS_PER_SEC, 60 * NANOS_PER_SEC);
    assert_eq!(schedule.next_heartbeat_send, 66 * NANOS_PER_SEC);
}

#[test]
fn budgets_count_brackets_and_commas() {
    let mut budget = Budget::new();
    assert!(!budget.needs_flush(true, TARGET_LIMIT - 2));
    assert!(!budget.needs_flush(false, TARGET_LIMIT - 2));
    budget.accepted(true, 10);
    assert_eq!(budget.uncompressed_size, 10);
    budget.accepted(false, 10);
    assert_eq!(budget.uncompressed_size, 21);
    assert!(!budget.needs_flush(false, TARGET_LIMIT - 23));
    assert!(budget.needs_flush(false, TARGET_LIMIT - 22));
    budget.flushed(1000);
    assert_eq!(budget.remaining_size, TARGET_LIMIT - 1000);
    assert_eq!(budget.uncompressed_size, 0);
    assert_eq!(budget.flush_count, 1);
    assert!(!budget.needs_finalize(false, 10));
}

#[test]
fn refusals_say_why() {
    let failed = Refusal::ExportFailed("503".to_string());
    assert_eq!(failed.message().unwrap(), "503");
    assert_eq!(Refusal::NoValidEntries.message().unwrap(), "No valid log entries produced");
    assert_eq!(Refusal::Shutdown.message().unwrap(), "Shutdown before export completed");
    assert!(Refusal::Stopped.message().is_none());
}

#[test]
fn only_usable_tokens_change_whether_data_is_accepted() {
    let mut exporter = Exporter::new(1, None, 0);
    assert!(!exporter.guards(0, 0).accepting_pdata);
    let token = BearerToken::new(Secret::new("abc".to_string()), 100 * NANOS_PER_SEC);
    let _ = exporter.start(ExporterEvent::Token(Ok(token)), 0);
    assert!(exporter.guards(39 * NANOS_PER_SEC, 15).accepting_pdata);
    assert!(!exporter.guards(39 * NANOS_PER_SEC, 16).accepting_pdata);
    assert!(!exporter.guards(40 * NANOS_PER_SEC, 0).accepting_pdata);
    let _ = exporter.start(ExporterEvent::Token(Err("no token".to_string())), 1);
    let broken = BearerToken::new(Secret::new("two\nlines".to_string()), 900 * NANOS_PER_SEC);
    let _ = exporter.start(ExporterEvent::Token(Ok(broken)), 1);
    assert!(exporter.guards(39 * NANOS_PER_SEC, 0).accepting_pdata);
    assert!(!exporter.guards(40 * NANOS_PER_SEC, 0).accepting_pdata);
}
