use warehouse_lab::api::{
    accept_batch, bad_request, check_found, check_limit, check_read_batch, check_ready, conflict, ensure_history_complete,
    ensure_writer, first_commit_step, history_page, next_commit_step, status_code, storage_unavailable,
    total_balance, validate, validate_batch, CommitReply, CommitStep, Refusal, RefusalKind,
};
use warehouse_lab::dedup::ConflictError;
use warehouse_lab::model::Operation;

fn operation(id: &str, delta: i64) -> Operation {
    Operation { operation_id: id.into(), owner_id: "o".into(), sku: "s".into(), delta, event_version: 1 }
}

fn said<T>(result: Result<T, Refusal>) -> (RefusalKind, String) {
    match result {
        Ok(_) => panic!("not refused"),
        Err(refusal) => (refusal.kind, refusal.message),
    }
}

#[test]
fn refusals_have_their_status() {
    assert_eq!(status_code(RefusalKind::BadRequest), 400);
    assert_eq!(status_code(RefusalKind::NotFound), 404);
    assert_eq!(status_code(RefusalKind::Conflict), 409);
    assert_eq!(status_code(RefusalKind::Unavailable), 503);
}

#[test]
fn conflict_names_the_identifier() {
    let refusal = conflict(&ConflictError("op-7".into()));
    assert_eq!(refusal.kind, RefusalKind::Conflict);
    assert_eq!(refusal.message, "conflicting operation_id: op-7");
    let refusal = storage_unavailable();
    assert_eq!((refusal.kind, refusal.message.as_str()), (RefusalKind::Unavailable, "durable storage unavailable"));
    assert_eq!(bad_request("why").message, "why");
}

#[test]
fn batches_have_one_to_ten_thousand_operations() {
    let size = "batch must contain 1..=10000 operations";
    assert_eq!(said(validate_batch(&[])), (RefusalKind::BadRequest, size.into()));
    let many = (0..10_001).map(|i| operation(&format!("id-{i}"), 1)).collect::<Vec<_>>();
    assert_eq!(said(validate_batch(&many)).1, size);
    assert!(validate_batch(&many[..10_000]).is_ok());
    let expected = operation("b", 0).validate().unwrap_err();
    assert_eq!(said(validate_batch(&[operation("a", 1), operation("b", 0)])), (RefusalKind::BadRequest, expected.into()));
    assert_eq!(said(validate(&operation("b", 0))).1, expected);
    assert!(validate(&operation("b", 1)).is_ok());
}

#[test]
fn reads_have_their_limits() {
    assert_eq!(said(check_read_batch(0)), (RefusalKind::BadRequest, "read batch must contain 1..=10000 IDs".into()));
    assert!(check_read_batch(10_001).is_err());
    assert!(check_read_batch(10_000).is_ok());
    assert_eq!(said(check_found(2, 1)), (RefusalKind::NotFound, "one or more operations were not found".into()));
    assert!(check_found(2, 2).is_ok());
    assert_eq!(check_limit(None).unwrap(), 100);
    assert_eq!(check_limit(Some(1000)).unwrap(), 1000);
    assert_eq!(said(check_limit(Some(0))), (RefusalKind::BadRequest, "limit must be 1..=1000".into()));
    assert!(check_limit(Some(1001)).is_err());
}

#[test]
fn history_must_have_come_as_far_as_the_state() {
    assert!(ensure_history_complete(5, 5).is_ok());
    assert_eq!(
        said(ensure_history_complete(4, 15)),
        (RefusalKind::Unavailable, "history index rebuilding: checkpoint 4, required 15".into())
    );
}

#[test]
fn full_page_leads_on() {
    let page = history_page(vec![operation("a", 1), operation("b", 1)], 2);
    assert_eq!(page.next_cursor.as_deref(), Some("b"));
    assert_eq!(page.operations.len(), 2);
    assert_eq!(history_page(vec![operation("a", 1)], 2).next_cursor, None);
    assert_eq!(history_page(Vec::new(), 2).next_cursor, None);
}

#[test]
fn total_is_the_sum_where_it_can_be_held() {
    let rows = |values: &[i64]| values.iter().map(|value| ("s".to_string(), *value)).collect::<Vec<_>>();
    assert_eq!(total_balance(&rows(&[])), Some(0));
    assert_eq!(total_balance(&rows(&[1, -5, 10])), Some(6));
    assert_eq!(total_balance(&rows(&[i64::MAX, 1])), None);
    assert_eq!(total_balance(&rows(&[i64::MAX, -1, 1])), Some(i64::MAX));
}

#[test]
fn node_is_ready_with_quorum_and_lease() {
    assert!(check_ready(None, None).is_ok());
    assert!(check_ready(Some(true), Some(true)).is_ok());
    assert_eq!(said(check_ready(Some(false), Some(false))).1, "replicated quorum unavailable");
    assert_eq!(said(check_ready(Some(true), Some(false))), (RefusalKind::Unavailable, "node does not own the writer lease".into()));
}

#[test]
fn writer_has_an_epoch() {
    assert_eq!(ensure_writer(None).unwrap(), 0);
    assert_eq!(ensure_writer(Some(Some(7))).unwrap(), 7);
    assert_eq!(said(ensure_writer(Some(None))), (RefusalKind::Unavailable, "node does not own the writer lease".into()));
}

#[test]
fn success_follows_durability() {
    assert_eq!(first_commit_step(&[false, true]), CommitStep::Replicate);
    assert_eq!(first_commit_step(&[false, false]), CommitStep::Apply);
    let recheck = next_commit_step(CommitStep::Replicate, CommitReply::Done, 3);
    assert_eq!(recheck, CommitStep::Recheck);
    let apply = next_commit_step(recheck, CommitReply::Writer(Some(3)), 3);
    assert_eq!(apply, CommitStep::Apply);
    assert_eq!(next_commit_step(apply, CommitReply::Done, 3), CommitStep::Commit);
    assert_eq!(next_commit_step(CommitStep::Replicate, CommitReply::Failed, 3), CommitStep::Abort);
    assert_eq!(next_commit_step(recheck, CommitReply::Writer(Some(4)), 3), CommitStep::Abort);
    assert_eq!(next_commit_step(recheck, CommitReply::Writer(None), 3), CommitStep::Abort);
    assert_eq!(next_commit_step(apply, CommitReply::Failed, 3), CommitStep::Abort);
}

#[test]
fn writer_is_looked_at_before_the_batch() {
    let good = [operation("a", 1)];
    let no_writer = (RefusalKind::Unavailable, "node does not own the writer lease".to_string());
    assert_eq!(accept_batch(None, &good).unwrap(), 0);
    assert_eq!(accept_batch(Some(Some(7)), &good).unwrap(), 7);
    assert_eq!(said(accept_batch(Some(None), &good)), no_writer);
    assert_eq!(said(accept_batch(Some(None), &[])), no_writer);
    assert_eq!(said(accept_batch(Some(Some(7)), &[])), said(validate_batch(&[])));
    let bad = [operation("a", 0)];
    assert_eq!(said(accept_batch(None, &bad)), said(validate(&bad[0])));
}
