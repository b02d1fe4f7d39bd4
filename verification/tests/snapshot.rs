use warehouse_lab::codec::CodecError;
use warehouse_lab::snapshot::{
    accept_legacy, decode, encode, legacy_file, load, save, BalanceSnapshot, DedupSnapshot, LoadedSnapshot,
    SnapshotData, SnapshotError,
};

fn current(loaded: LoadedSnapshot) -> SnapshotData {
    match loaded {
        LoadedSnapshot::Current(snapshot) => snapshot,
        LoadedSnapshot::Legacy(_) => panic!("unexpected older snapshot"),
    }
}

fn empty(version: u32) -> SnapshotData {
    SnapshotData { version, sequence: 1, balances: Vec::new(), dedup: Vec::new(), writer_epoch: 1 }
}

#[test]
fn snapshot_round_trip_preserves_state() {
    let value = SnapshotData {
        version: 3,
        sequence: 42,
        balances: vec![BalanceSnapshot { owner_id: "owner".into(), sku: "sku".into(), balance: 77 }],
        dedup: vec![DedupSnapshot { operation_id: "op-1".into(), fingerprint: [5; 32] }],
        writer_epoch: 8,
    };
    let file = save(&value).unwrap();
    let loaded = current(load(&file).unwrap());
    assert_eq!(loaded.sequence, 42);
    assert_eq!(loaded.writer_epoch, 8);
    assert_eq!(loaded.balances[0].balance, 77);
    assert_eq!(loaded.dedup[0].fingerprint, [5; 32]);
    assert_eq!(loaded.balances[0].owner_id, "owner");
    assert_eq!(loaded.balances[0].sku, "sku");
    assert_eq!(loaded.dedup[0].operation_id, "op-1");
}

#[test]
fn snapshot_checksum_detects_corruption() {
    let value = SnapshotData { version: 3, sequence: 1, balances: Vec::new(), dedup: Vec::new(), writer_epoch: 1 };
    let mut bytes = save(&value).unwrap();
    let last = bytes.len() - 1;
    bytes[last] ^= 0xff;
    assert!(load(&bytes).is_err());
    assert_eq!(load(&bytes).unwrap_err(), SnapshotError::ChecksumMismatch);
}

#[test]
fn each_damage_has_its_error() {
    let file = save(&empty(3)).unwrap();
    assert_eq!(load(&file[..47]).unwrap_err(), SnapshotError::HeaderTruncated);
    let mut wrong = file.clone();
    wrong[0] = b'X';
    assert_eq!(load(&wrong).unwrap_err(), SnapshotError::WrongMagic);
    let mut large = file.clone();
    large[8..16].copy_from_slice(&(4u64 * 1024 * 1024 * 1024 + 1).to_le_bytes());
    assert_eq!(load(&large).unwrap_err(), SnapshotError::TooLarge);
    assert_eq!(load(&file[..file.len() - 1]).unwrap_err(), SnapshotError::LengthMismatch);
    let mut longer = file.clone();
    longer.push(0);
    assert_eq!(load(&longer).unwrap_err(), SnapshotError::LengthMismatch);
}

#[test]
fn unsupported_versions_are_refused() {
    assert_eq!(load(&save(&empty(4)).unwrap()).unwrap_err(), SnapshotError::UnsupportedVersion(4));
    assert_eq!(load(&save(&empty(0)).unwrap()).unwrap_err(), SnapshotError::UnsupportedVersion(0));
    for version in 1..=3 {
        assert_eq!(current(load(&save(&empty(version)).unwrap()).unwrap()).version, version);
    }
}

#[test]
fn payload_that_is_cut_is_refused() {
    let payload = encode(&empty(3)).unwrap();
    assert_eq!(decode(&payload[..payload.len() - 1]).unwrap_err(), CodecError::Truncated);
    let mut longer = payload.clone();
    longer.push(0);
    assert_eq!(decode(&longer).unwrap_err(), CodecError::TrailingBytes);
}

#[test]
fn text_that_fits_no_record_is_refused() {
    let mut value = empty(3);
    value.balances.push(BalanceSnapshot { owner_id: "o".repeat(65_536), sku: "s".into(), balance: 1 });
    assert_eq!(save(&value).unwrap_err(), CodecError::StringTooLong);
}

#[test]
fn older_snapshot_hands_out_its_payload() {
    let file = legacy_file(b"{\"version\":1}");
    assert_eq!(&file[..8], b"WHSNAP01");
    assert_eq!(&file[8..16], &13u64.to_le_bytes());
    match load(&file).unwrap() {
        LoadedSnapshot::Legacy(payload) => assert_eq!(payload, b"{\"version\":1}"),
        LoadedSnapshot::Current(_) => panic!("unexpected current snapshot"),
    }
}

#[test]
fn older_snapshot_is_accepted_in_supported_versions() {
    assert_eq!(accept_legacy(Some(empty(2))).unwrap().version, 2);
    assert_eq!(accept_legacy(Some(empty(9))).unwrap_err(), SnapshotError::UnsupportedVersion(9));
    assert_eq!(accept_legacy(None).unwrap_err(), SnapshotError::InvalidLegacyPayload);
}
