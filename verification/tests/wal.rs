use warehouse_lab::binary::encode_operation;
use warehouse_lab::codec::CodecError;
use warehouse_lab::model::Operation;
use warehouse_lab::wal::{encode_payloads, recover, resolve_records, WalBatch, WalError, WalRecord};

fn operation(id: &str, delta: i64) -> Operation {
    Operation { operation_id: id.into(), owner_id: "owner".into(), sku: "sku".into(), delta, event_version: 1 }
}

fn log(operations: &[Operation]) -> Vec<u8> {
    let mut batch = WalBatch::new(4);
    batch.push(encode_payloads(operations).unwrap());
    batch.buffer()
}

fn recovered(data: &[u8]) -> (Vec<Operation>, usize) {
    let (records, valid) = recover(data).unwrap();
    let parsed = records.iter().map(|_| None).collect::<Vec<Option<Operation>>>();
    (resolve_records(&records, &parsed).unwrap(), valid)
}

#[test]
fn appended_operations_are_recovered_in_order() {
    let operations = vec![operation("a", 1), operation("b", -2), operation("c", 3)];
    let data = log(&operations);
    let (found, valid) = recovered(&data);
    assert_eq!(found, operations);
    assert_eq!(valid, data.len());
}

#[test]
fn batches_follow_each_other() {
    let mut data = log(&[operation("a", 1)]);
    data.extend(log(&[operation("b", 2)]));
    let (found, valid) = recovered(&data);
    assert_eq!(found, vec![operation("a", 1), operation("b", 2)]);
    assert_eq!(valid, data.len());
}

#[test]
fn record_has_length_checksum_and_payload() {
    let mut batch = WalBatch::new(1);
    batch.push(vec![b"123456789".to_vec()]);
    let data = batch.buffer();
    assert_eq!(&data[0..4], &9u32.to_le_bytes());
    assert_eq!(&data[4..8], &0xcbf4_3926u32.to_le_bytes());
    assert_eq!(&data[8..], b"123456789");
}

#[test]
fn torn_record_is_dropped() {
    let whole = log(&[operation("a", 1)]);
    let both = log(&[operation("a", 1), operation("b", 2)]);
    for cut in whole.len()..both.len() {
        let (found, valid) = recovered(&both[..cut]);
        assert_eq!(found, vec![operation("a", 1)]);
        assert_eq!(valid, whole.len());
    }
}

#[test]
fn recovery_of_the_cut_log_changes_nothing() {
    let both = log(&[operation("a", 1), operation("b", 2)]);
    let (_, valid) = recovered(&both[..both.len() - 1]);
    let (found, again) = recovered(&both[..valid]);
    assert_eq!(found, vec![operation("a", 1)]);
    assert_eq!(again, valid);
}

#[test]
fn empty_log_holds_nothing() {
    let (records, valid) = recover(&[]).unwrap();
    assert!(records.is_empty());
    assert_eq!(valid, 0);
    let (records, valid) = recover(&[1, 2, 3]).unwrap();
    assert!(records.is_empty());
    assert_eq!(valid, 0);
}

#[test]
fn damaged_record_stops_recovery() {
    let mut data = log(&[operation("a", 1), operation("b", 2)]);
    data[10] ^= 0xff;
    assert_eq!(recover(&data).unwrap_err(), WalError::ChecksumMismatch);
}

#[test]
fn oversized_record_stops_recovery() {
    let mut data = (1024u32 * 1024 + 1).to_le_bytes().to_vec();
    data.extend([0; 4]);
    assert_eq!(recover(&data).unwrap_err(), WalError::RecordTooLarge);
    let mut data = (1024u32 * 1024).to_le_bytes().to_vec();
    data.extend([0; 4]);
    assert_eq!(recover(&data).unwrap().1, 0);
}

#[test]
fn older_records_are_resolved_from_their_reading() {
    let mut batch = WalBatch::new(2);
    batch.push(vec![b"{\"operation_id\":\"x\"}".to_vec(), encode_operation(&operation("b", 2)).unwrap()]);
    let (records, _) = recover(&batch.buffer()).unwrap();
    assert!(matches!(&records[0], WalRecord::Legacy(payload) if payload == b"{\"operation_id\":\"x\"}"));
    assert!(matches!(&records[1], WalRecord::Operation(found) if *found == operation("b", 2)));
    let parsed = vec![Some(operation("x", 7)), None];
    assert_eq!(resolve_records(&records, &parsed).unwrap(), vec![operation("x", 7), operation("b", 2)]);
    assert_eq!(resolve_records(&records, &vec![None, None]).unwrap_err(), WalError::InvalidLegacyRecord);
}

#[test]
fn batch_is_full_at_its_size() {
    let mut batch = WalBatch::new(2);
    assert!(!batch.is_full());
    batch.push(vec![vec![1]]);
    assert!(!batch.is_full());
    batch.push(vec![vec![2], vec![3]]);
    assert!(batch.is_full());
}

#[test]
fn operation_that_fits_no_record_is_refused() {
    let mut long = operation("a", 1);
    long.sku = "s".repeat(65_536);
    assert_eq!(encode_payloads(&[long]).unwrap_err(), CodecError::StringTooLong);
}
