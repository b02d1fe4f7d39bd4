use warehouse_lab::workload::{
    after_response, batch_end, is_transient, load_batch, load_operation, mixed_targets, page_delay_ms, pct,
    renamed_id, retry_delay_ms, schedule, still_wanted, Resend,
};

#[test]
fn operations_of_a_run_are_numbered() {
    let op = load_operation("run", 10_007, 10_000, 1_000);
    assert_eq!(op.operation_id, "run-10007");
    assert_eq!(op.owner_id, "owner-7");
    assert_eq!(op.sku, "sku-7");
    assert_eq!((op.delta, op.event_version), (1, 1));
    assert_eq!(renamed_id("mixed", "run-1"), "mixed-run-1");
}

#[test]
fn batches_cover_a_run() {
    let mut start = 0;
    let mut sizes = Vec::new();
    while start < 25 {
        let end = batch_end(start, 10, 25);
        sizes.push(load_batch("r", start, end, 3, 4).len());
        start = end;
    }
    assert_eq!(sizes, vec![10, 10, 5]);
    assert_eq!(load_batch("r", 3, 5, 10, 10)[1].operation_id, "r-4");
}

#[test]
fn one_in_five_is_written() {
    assert_eq!(mixed_targets(1003), (200, 803));
    assert_eq!(still_wanted(0, 10, 25), 10);
    assert_eq!(still_wanted(20, 10, 25), 5);
    assert_eq!(still_wanted(25, 10, 25), 0);
}

#[test]
fn four_reads_go_with_a_write() {
    assert_eq!(
        schedule(6, 3),
        vec![false, false, false, false, true, false, false, true, true]
    );
    let order = schedule(100, 7);
    assert_eq!(order.iter().filter(|write| **write).count(), 7);
    assert_eq!(order.iter().filter(|write| !**write).count(), 100);
    assert!(schedule(0, 0).is_empty());
}

#[test]
fn requests_are_sent_again_on_faults_of_the_server() {
    assert_eq!(after_response(Some(200), 0, 0), Resend::Done);
    assert_eq!(after_response(Some(299), 9, 0), Resend::Done);
    assert_eq!(after_response(Some(409), 0, 5), Resend::Fail);
    assert_eq!(after_response(Some(503), 0, 5), Resend::Again);
    assert_eq!(after_response(Some(503), 5, 5), Resend::Fail);
    assert_eq!(after_response(None, 4, 5), Resend::Again);
    assert_eq!(after_response(None, 5, 5), Resend::Fail);
    assert!(is_transient(502) && is_transient(503) && is_transient(504));
    assert!(!is_transient(500) && !is_transient(505));
}

#[test]
fn waits_grow_up_to_a_limit() {
    assert_eq!((0..7).map(retry_delay_ms).collect::<Vec<_>>(), vec![25, 50, 100, 200, 400, 400, 400]);
    assert_eq!((0..7).map(page_delay_ms).collect::<Vec<_>>(), vec![25, 50, 100, 200, 400, 800, 1600]);
}

#[test]
fn percentile_is_one_of_the_values() {
    let values = (1..=100).collect::<Vec<u64>>();
    assert_eq!(pct(&values, 50), 50);
    assert_eq!(pct(&values, 95), 95);
    assert_eq!(pct(&values, 100), 100);
    assert_eq!(pct(&[7], 99), 7);
    assert_eq!(pct(&[7], 150), 7);
    assert_eq!(pct(&[7, 8], 199), 8);
    assert_eq!(pct(&[], 500), 0);
    assert_eq!(pct(&[], 50), 0);
}
