use warehouse_lab::binary::{encode_log_fence, encode_log_operations};
use warehouse_lab::cluster::{
    admit_record, after_attempt, dead_letter_id, decode_record, needs_update, poison_record, publication, reported_limit,
    stream_max_bytes, unfenced_record, verify_stream, Attempt, LogRecord, StreamError, StreamInfo,
    BUCKET_ATTEMPTS, CONNECT_ATTEMPTS,
};
use warehouse_lab::digest::publish_message_id;
use warehouse_lab::model::Operation;

fn operation(id: &str, delta: i64) -> Operation {
    Operation { operation_id: id.into(), owner_id: "o".into(), sku: "s".into(), delta, event_version: 1 }
}

#[test]
fn current_messages_are_read() {
    let payload = encode_log_operations(7, &[operation("a", 1)]).unwrap();
    match decode_record(&payload).unwrap() {
        LogRecord::Operations { epoch, operations } => {
            assert_eq!(epoch, 7);
            assert_eq!(operations, vec![operation("a", 1)]);
        }
        other => panic!("unexpected {other:?}"),
    }
    match decode_record(&encode_log_fence(9, "node").unwrap()).unwrap() {
        LogRecord::Fence { epoch, owner } => assert_eq!((epoch, owner.as_str()), (9, "node")),
        other => panic!("unexpected {other:?}"),
    }
    assert!(decode_record(b"{invalid-json").is_none());
}

#[test]
fn messages_are_let_in_or_refused_with_a_reason() {
    assert_eq!(admit_record(None).unwrap_err(), "invalid replicated log record");
    let bad = unfenced_record(vec![operation("a", 1), operation("b", 0), operation("", 1)]);
    let expected = operation("b", 0).validate().unwrap_err();
    assert_eq!(admit_record(Some(bad)).unwrap_err(), expected);
    match admit_record(Some(unfenced_record(vec![operation("a", 1)]))).unwrap() {
        LogRecord::Operations { epoch, operations } => {
            assert_eq!(epoch, 0);
            assert_eq!(operations.len(), 1);
        }
        other => panic!("unexpected {other:?}"),
    }
    assert!(admit_record(Some(LogRecord::Fence { epoch: 1, owner: "".into() })).is_ok());
}

#[test]
fn poison_stands_under_an_epoch_of_no_writer() {
    match poison_record() {
        LogRecord::Operations { epoch, operations } => {
            assert_eq!(epoch, u64::MAX);
            assert!(operations.is_empty());
        }
        other => panic!("unexpected {other:?}"),
    }
}

#[test]
fn batch_is_published_under_its_digest() {
    assert!(publication(3, &[]).unwrap().is_none());
    let published = publication(3, &[operation("a", 1)]).unwrap().unwrap();
    assert_eq!(published.payload, encode_log_operations(3, &[operation("a", 1)]).unwrap());
    assert_eq!(published.message_id, publish_message_id(&published.payload));
    let again = publication(3, &[operation("a", 1)]).unwrap().unwrap();
    assert_eq!(again.message_id, published.message_id);
    let other = publication(4, &[operation("a", 1)]).unwrap().unwrap();
    assert_ne!(other.message_id, published.message_id);
    let long = Operation { sku: "s".repeat(70_000), ..operation("a", 1) };
    assert!(publication(3, &[long]).is_err());
}

#[test]
fn dead_letters_are_named_by_their_sequence() {
    assert_eq!(dead_letter_id(42), "WAREHOUSE_OPERATIONS-42");
}

#[test]
fn stream_limit_is_read() {
    assert_eq!(stream_max_bytes(None), Ok(16 * 1024 * 1024 * 1024));
    assert_eq!(stream_max_bytes(Some("1048576")), Ok(1_048_576));
    assert_eq!(stream_max_bytes(Some("1048575")), Err(StreamError::LimitTooSmall));
    assert_eq!(stream_max_bytes(Some("-1")), Err(StreamError::LimitTooSmall));
    assert_eq!(stream_max_bytes(Some("much")), Err(StreamError::InvalidLimit));
    assert_eq!(stream_max_bytes(Some("")), Err(StreamError::InvalidLimit));
}

#[test]
fn stream_must_keep_what_it_must() {
    let good = StreamInfo { replicas: 3, max_bytes: 100, refuses_new: true };
    assert!(!needs_update(&good, 100));
    assert!(needs_update(&good, 200));
    assert!(needs_update(&StreamInfo { refuses_new: false, ..good }, 100));
    assert_eq!(verify_stream(&good, 100), Ok(()));
    assert_eq!(verify_stream(&StreamInfo { replicas: 1, ..good }, 200), Err(StreamError::WrongReplicas(1)));
    assert_eq!(verify_stream(&good, 200), Err(StreamError::WrongRetention));
    assert_eq!(reported_limit(-1), 0);
    assert_eq!(reported_limit(5), 5);
}

#[test]
fn attempts_end_with_the_last_one() {
    assert_eq!(after_attempt(false, 1, CONNECT_ATTEMPTS), Attempt::Done);
    assert_eq!(after_attempt(false, 120, CONNECT_ATTEMPTS), Attempt::Done);
    assert_eq!(after_attempt(true, 1, CONNECT_ATTEMPTS), Attempt::Again);
    assert_eq!(after_attempt(true, 119, CONNECT_ATTEMPTS), Attempt::Again);
    assert_eq!(after_attempt(true, 120, CONNECT_ATTEMPTS), Attempt::GiveUp);
    assert_eq!(after_attempt(true, 19, BUCKET_ATTEMPTS), Attempt::Again);
    assert_eq!(after_attempt(true, 20, BUCKET_ATTEMPTS), Attempt::GiveUp);
}

#[test]
fn equal_batches_are_published_alike() {
    let first = publication(3, &[operation("a", 1)]).unwrap().unwrap();
    let again = publication(3, &[operation("a", 1)]).unwrap().unwrap();
    let other = publication(4, &[operation("a", 1)]).unwrap().unwrap();
    assert_eq!((&first.payload, &first.message_id), (&again.payload, &again.message_id));
    assert_ne!(first.payload, other.payload);
    assert_ne!(first.message_id, other.message_id);
}
