use warehouse_lab::binary::{
    decode_batch, decode_log, decode_operation, encode_batch, encode_log_fence, encode_log_operations,
    encode_operation, BinaryLogRecord,
};
use warehouse_lab::codec::CodecError;
use warehouse_lab::model::Operation;

fn operation(id: &str) -> Operation {
    Operation { operation_id: id.into(), owner_id: "owner".into(), sku: "sku".into(), delta: 17, event_version: 1 }
}

#[test]
fn operation_and_batch_round_trip() {
    let first = operation("op-1");
    assert_eq!(decode_operation(&encode_operation(&first).unwrap()).unwrap(), first);
    let values = vec![operation("op-1"), operation("op-2")];
    assert_eq!(decode_batch(&encode_batch(&values).unwrap()).unwrap(), values);
}

#[test]
fn rejects_truncation_and_trailing_bytes() {
    let mut encoded = encode_operation(&operation("op-1")).unwrap();
    assert!(decode_operation(&encoded[..encoded.len() - 1]).is_err());
    encoded.push(0);
    assert!(decode_operation(&encoded).is_err());
}

#[test]
fn replicated_records_round_trip() {
    match decode_log(&encode_log_operations(7, &[operation("op-1")]).unwrap()).unwrap() {
        BinaryLogRecord::Operations { epoch, operations } => {
            assert_eq!(epoch, 7);
            assert_eq!(operations, vec![operation("op-1")]);
        }
        _ => panic!("unexpected log record"),
    }
    match decode_log(&encode_log_fence(8, "writer-1").unwrap()).unwrap() {
        BinaryLogRecord::Fence { epoch, owner } => {
            assert_eq!(epoch, 8);
            assert_eq!(owner, "writer-1");
        }
        _ => panic!("unexpected log record"),
    }
}

#[test]
fn operation_record_bytes_are_exact() {
    let op = Operation {
        operation_id: "a".into(),
        owner_id: "bc".into(),
        sku: "\u{e9}".into(),
        delta: -2,
        event_version: 258,
    };
    let mut expected: Vec<u8> = b"WOP1".to_vec();
    expected.extend_from_slice(&[1, 0, b'a', 2, 0, b'b', b'c', 2, 0, 0xc3, 0xa9]);
    expected.extend_from_slice(&(-2_i64).to_le_bytes());
    expected.extend_from_slice(&258_u64.to_le_bytes());
    assert_eq!(encode_operation(&op).unwrap(), expected);
    assert_eq!(decode_operation(&expected).unwrap(), op);
}

#[test]
fn batch_and_log_record_bytes_are_exact() {
    let one = [operation("x")];
    let body = encode_operation(&one[0]).unwrap()[4..].to_vec();
    let mut batch = b"WBT1".to_vec();
    batch.extend_from_slice(&[1, 0, 0, 0]);
    batch.extend_from_slice(&body);
    assert_eq!(encode_batch(&one).unwrap(), batch);
    let mut log = b"WLG1".to_vec();
    log.push(2);
    log.extend_from_slice(&9_u64.to_le_bytes());
    log.extend_from_slice(&[1, 0, 0, 0]);
    log.extend_from_slice(&body);
    assert_eq!(encode_log_operations(9, &one).unwrap(), log);
    let mut fence = b"WLG1".to_vec();
    fence.push(1);
    fence.extend_from_slice(&10_u64.to_le_bytes());
    fence.extend_from_slice(&[2, 0, b'w', b'1']);
    assert_eq!(encode_log_fence(10, "w1").unwrap(), fence);
}

#[test]
fn every_decoding_error_has_an_input() {
    assert_eq!(decode_operation(b"WBT1").unwrap_err(), CodecError::WrongMagic);
    assert_eq!(decode_operation(b"WO").unwrap_err(), CodecError::WrongMagic);
    assert_eq!(decode_batch(b"WOP1").unwrap_err(), CodecError::WrongMagic);
    assert_eq!(decode_log(b"").unwrap_err(), CodecError::WrongMagic);
    assert_eq!(decode_operation(b"WOP1\x05\x00abc").unwrap_err(), CodecError::Truncated);
    assert_eq!(decode_operation(b"WOP1\x01\x00\xff").unwrap_err(), CodecError::InvalidUtf8);
    assert_eq!(decode_batch(b"WBT1\xa1\x86\x01\x00").unwrap_err(), CodecError::CountTooLarge);
    assert_eq!(decode_batch(b"WBT1\xa0\x86\x01\x00").unwrap_err(), CodecError::Truncated);
    assert_eq!(decode_batch(b"WBT1\x00\x00\x00\x00\x00").unwrap_err(), CodecError::TrailingBytes);
    assert_eq!(decode_log(b"WLG1\x03\x00\x00\x00\x00\x00\x00\x00\x00").unwrap_err(), CodecError::UnknownKind);
    assert!(decode_batch(b"WBT1\x00\x00\x00\x00").unwrap().is_empty());
}

#[test]
fn strings_fit_up_to_the_length_prefix() {
    let mut op = operation(&"x".repeat(65_535));
    assert_eq!(decode_operation(&encode_operation(&op).unwrap()).unwrap(), op);
    op.operation_id.push('x');
    assert_eq!(encode_operation(&op).unwrap_err(), CodecError::StringTooLong);
    assert_eq!(encode_batch(&[operation("a"), op]).unwrap_err(), CodecError::StringTooLong);
    assert_eq!(encode_log_fence(1, &"x".repeat(65_536)).unwrap_err(), CodecError::StringTooLong);
}
