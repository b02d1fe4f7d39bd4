use warehouse_lab::digest::{
    append_hex, fingerprint, operation_id_hash, parse_hex, publish_message_id, same_digest, HexError,
};
use warehouse_lab::model::Operation;

fn hex(bytes: &[u8]) -> String {
    let mut out = String::new();
    append_hex(&mut out, bytes);
    out
}

fn operation(id: &str, delta: i64) -> Operation {
    Operation { operation_id: id.into(), owner_id: "owner".into(), sku: "sku".into(), delta, event_version: 1 }
}

#[test]
fn identifier_key_is_its_digest() {
    assert_eq!(
        hex(&operation_id_hash("op-1")),
        "71a0ef7195df486543f63f0cb1dff83ee245c10fb566219b128a7fa99a8bbbac"
    );
    assert_eq!(
        hex(&operation_id_hash("abc")),
        "ba7816bf8f01cfea414140de5dae2223b00361a396177a9cb410ff61f20015ad"
    );
}

#[test]
fn fingerprint_leaves_out_the_identifier() {
    let expected = "005fa1aca9a4fc72fdcc78d4d5b1e52f5d7789340e4cead350cf9a79e36f00e2";
    assert_eq!(hex(&fingerprint(&operation("op-1", 17))), expected);
    assert_eq!(hex(&fingerprint(&operation("op-2", 17))), expected);
    assert_eq!(
        hex(&fingerprint(&operation("op-1", -17))),
        "43b4dd4f37fc8a888badb8bb2cf15555ce65e35897ac04b923380d9a4a6a6d5f"
    );
}

#[test]
fn fields_do_not_run_into_each_other() {
    let mut first = operation("a", 1);
    first.owner_id = "ab".into();
    first.sku = "c".into();
    let mut second = operation("a", 1);
    second.owner_id = "a".into();
    second.sku = "bc".into();
    assert!(!same_digest(&fingerprint(&first), &fingerprint(&second)));
}

#[test]
fn message_id_is_the_digest_of_the_payload() {
    assert_eq!(
        publish_message_id(b"abc"),
        "operations-ba7816bf8f01cfea414140de5dae2223b00361a396177a9cb410ff61f20015ad"
    );
}

#[test]
fn hexadecimal_reads_back() {
    let bytes = (0..=255u8).collect::<Vec<u8>>();
    assert_eq!(parse_hex(hex(&bytes).as_bytes()).unwrap(), bytes);
    assert_eq!(parse_hex(b"0aFF").unwrap(), vec![10, 255]);
}

#[test]
fn hexadecimal_faults_are_told_apart() {
    assert_eq!(parse_hex(b"abc").unwrap_err(), HexError::OddLength);
    assert_eq!(parse_hex(b"zz").unwrap_err(), HexError::InvalidDigit);
}
