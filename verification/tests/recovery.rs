use warehouse_lab::digest::{fingerprint, operation_id_hash};
use warehouse_lab::model::Operation;
use warehouse_lab::recovery::{batch_entries, keep_distinct, Batcher, DISK_BATCH};

fn operation(id: &str, delta: i64) -> Operation {
    Operation { operation_id: id.into(), owner_id: "o".into(), sku: "s".into(), delta, event_version: 1 }
}

#[test]
fn first_of_equal_identifiers_is_kept() {
    let kept = keep_distinct(&[operation("a", 1), operation("b", 2), operation("a", 3), operation("c", 4)]);
    assert_eq!(kept, vec![operation("a", 1), operation("b", 2), operation("c", 4)]);
}

#[test]
fn entries_are_put_into_full_batches() {
    let mut batcher = Batcher::new();
    let total = DISK_BATCH * 2 + 5;
    for i in 0..total {
        let mut key = [0; 32];
        key[..8].copy_from_slice(&(i as u64).to_le_bytes());
        batcher.push((key, [1; 32]));
    }
    let (full, rest) = batcher.take();
    assert_eq!(full.iter().map(|batch| batch.len()).collect::<Vec<_>>(), vec![DISK_BATCH, DISK_BATCH]);
    assert_eq!(rest.len(), 5);
    assert_eq!(&full[1][0].0[..8], &(DISK_BATCH as u64).to_le_bytes());
    assert_eq!(&rest[4].0[..8], &(total as u64 - 1).to_le_bytes());
}

#[test]
fn restart_without_anything_hands_over_empty_batches() {
    assert_eq!(batch_entries(&None, &[]), vec![Vec::new(), Vec::new()]);
    let op = operation("a", 1);
    assert_eq!(
        batch_entries(&None, &[op.clone()]),
        vec![vec![(operation_id_hash("a"), fingerprint(&op))], Vec::new()]
    );
}
