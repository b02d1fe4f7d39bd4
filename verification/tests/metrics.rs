use warehouse_lab::api::RefusalKind;
use warehouse_lab::metrics::{
    lag, process_memory_bytes, record_error, record_results, render, stream_gauges, Report,
};
use warehouse_lab::model::{ApplyResult, ApplyStatus};

fn report() -> Report {
    Report {
        applied: 10,
        duplicates: 2,
        conflicts: 1,
        unavailable: 3,
        quorum_available: true,
        lease_owned: false,
        writer_epoch: 7,
        checkpoint: 90,
        last_sequence: 100,
        wal_bytes: 5,
        memory_bytes: 6,
        dedup_entries: 8,
        dedup_bytes: 9,
        history_entries: 11,
        history_bytes: 12,
        history_checkpoint: 120,
        stream_messages: 13,
        stream_bytes: 14,
        stream_max_bytes: 15,
        batch_requests: 16,
        pipeline_operations: 17,
        json_decode_seconds: "0.000000001".into(),
        preflight_seconds: "0.000000002".into(),
        quorum_seconds: "0.000000003".into(),
        apply_seconds: "0.000000004".into(),
        finish_seconds: "0.000000005".into(),
        handler_seconds: "0.000000006".into(),
    }
}

#[test]
fn report_is_rendered_line_by_line() {
    let text = render(&report());
    let lines = text.lines().collect::<Vec<_>>();
    assert_eq!(lines.len(), 58);
    assert!(text.starts_with(
        "# TYPE warehouse_operations_applied_total counter\nwarehouse_operations_applied_total 10\n# TYPE warehouse_operations_duplicate_total counter\nwarehouse_operations_duplicate_total 2\n"
    ));
    assert!(text.contains("# TYPE warehouse_quorum_available gauge\nwarehouse_quorum_available 1\n"));
    assert!(text.contains("warehouse_writer_lease_owned 0\n"));
    assert!(text.contains("warehouse_replication_lag 10\n"));
    assert!(text.contains("warehouse_history_lag 0\n"));
    assert!(text.contains("warehouse_stream_max_bytes 15\n# TYPE warehouse_pipeline_batch_requests_total counter\n"));
    assert!(text.ends_with(
        "# TYPE warehouse_pipeline_handler_seconds_total counter\nwarehouse_pipeline_handler_seconds_total 0.000000006\n"
    ));
}

#[test]
fn answers_are_counted_by_status() {
    let result = |status| ApplyResult { operation_id: "a".into(), status, balance: 0 };
    let results = [
        result(ApplyStatus::Applied),
        result(ApplyStatus::Duplicate),
        result(ApplyStatus::Applied),
    ];
    assert_eq!(record_results(&results), (2, 1));
    assert_eq!(record_results(&[]), (0, 0));
}

#[test]
fn refusals_are_counted_by_kind() {
    assert_eq!(record_error(RefusalKind::Conflict), (1, 0));
    assert_eq!(record_error(RefusalKind::Unavailable), (0, 1));
    assert_eq!(record_error(RefusalKind::BadRequest), (0, 0));
    assert_eq!(record_error(RefusalKind::NotFound), (0, 0));
}

#[test]
fn lag_is_never_negative() {
    assert_eq!(lag(10, 7), 3);
    assert_eq!(lag(7, 10), 0);
}

#[test]
fn silent_log_ends_at_the_checkpoint() {
    let gauges = stream_gauges(Some((9, 8, 7, 6)), 5);
    assert!(gauges.available);
    assert_eq!((gauges.last_sequence, gauges.messages, gauges.bytes, gauges.max_bytes), (9, 8, 7, 6));
    let gauges = stream_gauges(None, 5);
    assert!(!gauges.available);
    assert_eq!((gauges.last_sequence, gauges.messages), (5, 0));
}

#[test]
fn resident_memory_is_read_from_the_status() {
    let status = "Name:\twarehouse\nVmPeak:\t  99999 kB\nVmRSS:\t   12345 kB\nThreads:\t8\n";
    assert_eq!(process_memory_bytes(status), Some(12_345 * 1024));
    assert_eq!(process_memory_bytes("VmRSS: 1"), Some(1024));
    assert_eq!(process_memory_bytes("VmRSS:\n"), None);
    assert_eq!(process_memory_bytes("VmRSS: x kB\nVmRSS: 5 kB\n"), None);
    assert_eq!(process_memory_bytes("Name: x\n"), None);
    assert_eq!(process_memory_bytes(""), None);
    assert_eq!(process_memory_bytes("VmRSS: 18446744073709551615 kB"), None);
}
