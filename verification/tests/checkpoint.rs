use warehouse_lab::checkpoint::{Checkpoint, CheckpointError, OpenedCheckpoint};

fn reopen(record: &[u8]) -> Result<Checkpoint, CheckpointError> {
    match Checkpoint::open(record)? {
        OpenedCheckpoint::Record(checkpoint) => Ok(checkpoint),
        OpenedCheckpoint::Text(text) => Checkpoint::from_text(None, &text),
    }
}

#[test]
fn checkpoint_is_monotonic_and_survives_reopen() {
    let mut checkpoint = Checkpoint::new();
    assert!(checkpoint.advance(9, 3));
    assert!(!checkpoint.advance(4, 1));
    let stored = checkpoint.encode();
    let mut reopened = reopen(&stored).unwrap();
    assert_eq!(reopened.current(), 9);
    assert_eq!(reopened.writer_epoch(), 3);
    reopened.reset();
    assert_eq!(reopened.current(), 0);
}

#[test]
fn rejects_corrupt_checkpoint() {
    assert!(reopen(b"WCP1-short").is_err());
    assert_eq!(reopen(b"WCP1-short").unwrap_err(), CheckpointError::InvalidText);
}

#[test]
fn checkpoint_record_is_twenty_bytes() {
    let mut checkpoint = Checkpoint::new();
    checkpoint.advance(258, 1);
    let record = checkpoint.encode();
    assert_eq!(record.len(), 20);
    assert_eq!(&record[..4], b"WCP1");
    assert_eq!(&record[4..12], &258u64.to_le_bytes());
    assert_eq!(&record[12..], &1u64.to_le_bytes());
}

#[test]
fn bare_sequence_number_is_read() {
    assert_eq!(reopen(b" 17\n").unwrap().current(), 17);
    assert_eq!(reopen(b"17").unwrap().writer_epoch(), 0);
    assert!(reopen(b"").is_err());
    assert!(reopen(b"-1").is_err());
    assert_eq!(reopen(&[0xff, 0xfe]).unwrap_err(), CheckpointError::InvalidUtf8);
}

#[test]
fn reading_as_json_comes_first() {
    let parsed = Checkpoint { sequence: 5, writer_epoch: 2 };
    assert_eq!(Checkpoint::from_text(Some(parsed), "99").unwrap().current(), 5);
}
