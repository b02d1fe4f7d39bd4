use warehouse_lab::balances::shard_for;
use warehouse_lab::dedup::{check_batch, dedup_shard, Preflight};
use warehouse_lab::digest::{fingerprint, operation_id_hash};
use warehouse_lab::model::{ApplyResult, ApplyStatus, Operation};
use warehouse_lab::snapshot::{BalanceSnapshot, DedupSnapshot, SnapshotData};
use warehouse_lab::state::{select_new, MissingResult, Store};

fn operation(id: &str, owner: &str, sku: &str, delta: i64) -> Operation {
    Operation { operation_id: id.into(), owner_id: owner.into(), sku: sku.into(), delta, event_version: 1 }
}

fn store() -> Store {
    Store::start(4, &[], &None).0
}

fn nothing_stored(operations: &[Operation]) -> Vec<Option<[u8; 32]>> {
    operations.iter().map(|_| None).collect()
}

fn ready(answer: Preflight) -> Vec<bool> {
    match answer {
        Preflight::Ready(new) => new,
        other => panic!("not ready: {other:?}"),
    }
}

fn deliver(store: &mut Store, operations: &[Operation], reservation: u64) -> Vec<ApplyResult> {
    let new = ready(store.preflight_batch(operations, &nothing_stored(operations), reservation));
    assert!(store.can_apply_new(operations, &new));
    assert!(store.can_publish_new(operations, &new));
    let results = store.apply_preflight_batch(operations, &new).unwrap();
    store.finish_batch(operations, &new, true);
    results
}

#[test]
fn operation_is_applied_and_published() {
    let mut store = store();
    let results = deliver(&mut store, &[operation("demo-1", "owner-1", "sku-1", 10)], 1);
    assert_eq!(results.len(), 1);
    assert_eq!(results[0].operation_id, "demo-1");
    assert_eq!(results[0].status, ApplyStatus::Applied);
    assert_eq!(results[0].balance, 10);
    assert_eq!(store.balance("owner-1".into(), "sku-1".into()), 10);
    assert_eq!(store.balance("owner-1".into(), "sku-2".into()), 0);
}

#[test]
fn redelivery_is_a_duplicate_and_changes_nothing() {
    let mut store = store();
    let batch = [operation("demo-1", "owner-1", "sku-1", 10)];
    deliver(&mut store, &batch, 1);
    for reservation in 2..5 {
        let results = deliver(&mut store, &batch, reservation);
        assert_eq!(results[0].status, ApplyStatus::Duplicate);
        assert_eq!(results[0].balance, 10);
    }
    assert_eq!(store.balance("owner-1".into(), "sku-1".into()), 10);
}

#[test]
fn repeats_within_a_batch_count_once() {
    let mut store = store();
    let batch = [operation("a", "o", "s", 3), operation("a", "o", "s", 3), operation("b", "o", "s", 4)];
    let new = ready(store.preflight_batch(&batch, &nothing_stored(&batch), 1));
    assert_eq!(new, vec![true, false, true]);
    let results = store.apply_preflight_batch(&batch, &new).unwrap();
    assert_eq!(results[0].balance, 3);
    assert_eq!(results[1].status, ApplyStatus::Duplicate);
    assert_eq!(results[1].balance, 0);
    assert_eq!(results[2].balance, 7);
    store.finish_batch(&batch, &new, true);
    assert_eq!(store.balance("o".into(), "s".into()), 7);
}

#[test]
fn contradiction_within_a_batch_is_a_conflict() {
    let mut store = store();
    let batch = [operation("a", "o", "s", 3), operation("b", "o", "s", 1), operation("a", "o", "s", 4)];
    match store.preflight_batch(&batch, &nothing_stored(&batch), 1) {
        Preflight::Conflict(error) => assert_eq!(error.0, "a"),
        other => panic!("no conflict: {other:?}"),
    }
    assert_eq!(store.runtime_cardinality(), (0, 0, 0));
}

#[test]
fn identifier_with_other_content_is_refused_as_a_whole() {
    let mut store = store();
    deliver(&mut store, &[operation("a", "o", "s", 3)], 1);
    let batch = [operation("fresh", "o", "s", 1), operation("a", "o", "s", 4)];
    match store.preflight_batch(&batch, &nothing_stored(&batch), 2) {
        Preflight::Conflict(error) => assert_eq!(error.0, "a"),
        other => panic!("no conflict: {other:?}"),
    }
    assert_eq!(store.runtime_cardinality(), (1, 0, 1));
    assert_eq!(store.balance("o".into(), "s".into()), 3);
}

#[test]
fn what_the_disk_holds_is_known() {
    let mut store = store();
    let known = operation("a", "o", "s", 3);
    let stored = vec![Some(fingerprint(&known))];
    assert_eq!(ready(store.preflight_batch(&[known.clone()], &stored, 1)), vec![false]);
    match store.preflight_batch(&[operation("a", "o", "s", 4)], &stored, 2) {
        Preflight::Conflict(error) => assert_eq!(error.0, "a"),
        other => panic!("no conflict: {other:?}"),
    }
}

#[test]
fn batch_waits_for_the_one_on_its_way() {
    let mut store = store();
    let batch = [operation("a", "o", "s", 3)];
    assert_eq!(ready(store.preflight_batch(&batch, &nothing_stored(&batch), 7)), vec![true]);
    let both = [operation("b", "o", "s", 1), operation("a", "o", "s", 3)];
    match store.preflight_batch(&both, &nothing_stored(&both), 8) {
        Preflight::Wait(reservation) => assert_eq!(reservation, 7),
        other => panic!("no wait: {other:?}"),
    }
    assert_eq!(store.runtime_cardinality(), (0, 1, 0));
    match store.preflight_batch(&[operation("a", "o", "s", 9)], &[None], 9) {
        Preflight::Conflict(error) => assert_eq!(error.0, "a"),
        other => panic!("no conflict: {other:?}"),
    }
}

#[test]
fn failed_batch_leaves_no_trace() {
    let mut store = store();
    let batch = [operation("a", "o", "s", 3), operation("b", "o", "s", 4)];
    let new = ready(store.preflight_batch(&batch, &nothing_stored(&batch), 5));
    let finished = store.finish_batch(&batch, &new, false);
    assert!(finished.disk_entries.is_empty());
    assert_eq!(finished.released, vec![5, 5]);
    assert_eq!(store.runtime_cardinality(), (0, 0, 0));
    assert_eq!(ready(store.preflight_batch(&batch, &nothing_stored(&batch), 6)), vec![true, true]);
}

#[test]
fn committed_batch_hands_its_entries_to_the_disk() {
    let mut store = store();
    let batch = [operation("a", "o", "s", 3), operation("b", "o", "t", 4)];
    let new = ready(store.preflight_batch(&batch, &nothing_stored(&batch), 5));
    store.apply_preflight_batch(&batch, &new).unwrap();
    let finished = store.finish_batch(&batch, &new, true);
    let mut expected = batch.iter().map(|op| (operation_id_hash(&op.operation_id), fingerprint(op))).collect::<Vec<_>>();
    expected.sort_by_key(|(key, _)| dedup_shard(key));
    assert_eq!(finished.disk_entries, expected);
    assert_eq!(store.runtime_cardinality(), (2, 0, 2));
    store.retire(&finished.disk_entries);
    assert_eq!(store.runtime_cardinality(), (0, 0, 2));
    let stored = batch.iter().map(|op| Some(fingerprint(op))).collect::<Vec<_>>();
    assert_eq!(ready(store.preflight_batch(&batch, &stored, 6)), vec![false, false]);
}

#[test]
fn other_entries_are_not_retired() {
    let mut store = store();
    deliver(&mut store, &[operation("a", "o", "s", 3)], 1);
    store.retire(&[(operation_id_hash("a"), [0; 32]), (operation_id_hash("b"), [0; 32])]);
    assert_eq!(store.runtime_cardinality(), (1, 0, 1));
}

#[test]
fn missing_flags_leave_operations_without_an_answer() {
    let mut store = store();
    let batch = [operation("a", "o", "s", 3), operation("b", "o", "s", 4)];
    assert_eq!(store.apply_preflight_batch(&batch, &[true]).unwrap_err(), MissingResult);
    let results = store.apply_preflight_batch(&batch, &[false, true, true]).unwrap();
    assert_eq!(results[1].balance, 7);
}

#[test]
fn overflow_is_foreseen() {
    let mut store = store();
    deliver(&mut store, &[operation("a", "o", "s", i64::MAX)], 1);
    assert!(!store.can_apply_new(&[operation("b", "o", "s", 1)], &[true]));
    assert!(store.can_apply_new(&[operation("b", "o", "s", 1)], &[false]));
    assert!(store.can_apply_new(&[operation("b", "o", "s", -1), operation("c", "o", "s", 1)], &[true, true]));
    assert!(!store.can_apply_new(&[operation("c", "o", "s", 1), operation("b", "o", "s", -1)], &[true, true]));
    assert!(!store.can_publish_new(&[operation("b", "o", "s", 1)], &[true]));
    store.apply_reserved_batch(&[operation("d", "o", "s", -1)]);
    assert!(store.can_apply_new(&[operation("b", "o", "s", 1)], &[true]));
    assert!(!store.can_publish_new(&[operation("b", "o", "s", 1)], &[true]));
}

#[test]
fn restored_chunk_is_applied_or_forgotten() {
    let mut store = store();
    let chunk = [operation("a", "o", "s", 3), operation("b", "o", "s", 4)];
    let new = ready(store.preflight_batch(&chunk, &nothing_stored(&chunk), 1));
    assert_eq!(select_new(&chunk, &new).len(), 2);
    store.restore_chunk(&chunk, &new, false);
    assert_eq!(store.balance("o".into(), "s".into()), 0);
    let new = ready(store.preflight_batch(&chunk, &nothing_stored(&chunk), 2));
    store.restore_chunk(&chunk, &new, true);
    assert_eq!(store.balance("o".into(), "s".into()), 7);
    let new = ready(store.preflight_batch(&chunk, &nothing_stored(&chunk), 3));
    store.restore_chunk(&chunk, &new, true);
    assert_eq!(store.balance("o".into(), "s".into()), 7);
}

#[test]
fn owner_rows_stand_in_order() {
    let mut store = store();
    let batch = [
        operation("1", "o", "sku-b", 2),
        operation("2", "o", "sku-a", 1),
        operation("3", "p", "sku-c", 9),
        operation("4", "o", "sku-\u{e9}", 4),
        operation("5", "o", "sku-aa", 3),
    ];
    deliver(&mut store, &batch, 1);
    let rows = store.balances_by_owner(&"o".to_string());
    assert_eq!(
        rows,
        vec![
            ("sku-a".to_string(), 1),
            ("sku-aa".to_string(), 3),
            ("sku-b".to_string(), 2),
            ("sku-\u{e9}".to_string(), 4),
        ]
    );
    assert!(store.balances_by_owner(&"nobody".to_string()).is_empty());
    let keys = vec![("p".to_string(), "sku-c".to_string()), ("p".to_string(), "x".to_string())];
    assert_eq!(store.balances(&keys), vec![9, 0]);
}

#[test]
fn many_rows_stand_in_order() {
    let mut store = store();
    let batch = (0..500).map(|i| operation(&format!("id-{i}"), "o", &format!("sku-{}", (i * 7919) % 500), i)).collect::<Vec<_>>();
    deliver(&mut store, &batch, 1);
    let rows = store.balances_by_owner(&"o".to_string());
    assert_eq!(rows.len(), 500);
    assert!(rows.windows(2).all(|pair| pair[0].0 < pair[1].0));
}

#[test]
fn snapshot_brings_back_balances() {
    let mut store = store();
    let batch = [operation("1", "o", "a", 2), operation("2", "p", "b", -5), operation("3", "o", "c", 7)];
    deliver(&mut store, &batch, 1);
    let snapshot = store.snapshot(12, 3);
    assert_eq!((snapshot.version, snapshot.sequence, snapshot.writer_epoch), (3, 12, 3));
    assert!(snapshot.dedup.is_empty());
    assert_eq!(snapshot.balances.len(), 3);
    let (again, _) = Store::start(8, &[], &Some(snapshot));
    assert_eq!(again.balance("o".into(), "a".into()), 2);
    assert_eq!(again.balance("p".into(), "b".into()), -5);
    assert_eq!(again.balance("o".into(), "c".into()), 7);
    assert_eq!(again.runtime_cardinality(), (0, 0, 3));
}

#[test]
fn restart_counts_each_logged_operation_once() {
    let snapshot = SnapshotData {
        version: 3,
        sequence: 1,
        balances: vec![BalanceSnapshot { owner_id: "o".into(), sku: "s".into(), balance: 100 }],
        dedup: vec![DedupSnapshot { operation_id: "old".into(), fingerprint: [9; 32] }],
        writer_epoch: 1,
    };
    let log = [operation("a", "o", "s", 1), operation("b", "o", "t", 2), operation("a", "o", "s", 1)];
    let snapshot = Some(snapshot);
    assert!(Store::can_start(&log, &snapshot));
    let (mut store, batches) = Store::start(2, &log, &snapshot);
    assert_eq!(store.balance("o".into(), "s".into()), 101);
    assert_eq!(store.balance("o".into(), "t".into()), 2);
    assert_eq!(
        batches,
        vec![
            vec![
                (operation_id_hash("a"), fingerprint(&log[0])),
                (operation_id_hash("b"), fingerprint(&log[1])),
            ],
            vec![(operation_id_hash("old"), [9; 32])],
        ]
    );
    let results = store.apply_reserved_batch(&[operation("c", "o", "s", 9)]);
    assert_eq!(results[0].balance, 110);
    assert_eq!(store.balance("o".into(), "s".into()), 101);
}

#[test]
fn restart_that_overflows_is_foreseen() {
    let log = [operation("a", "o", "s", i64::MAX), operation("b", "o", "s", 1)];
    assert!(!Store::can_start(&log, &None));
    assert!(Store::can_start(&log[..1], &None));
}

#[test]
fn shards_are_in_range() {
    for count in [1, 2, 16] {
        for i in 0..50 {
            let shard = shard_for(&format!("owner-{i}"), "sku", count);
            assert!(shard < count);
            assert_eq!(shard, shard_for(&format!("owner-{i}"), "sku", count));
        }
    }
    let spread = (0..50).map(|i| shard_for(&format!("owner-{i}"), "sku", 16)).collect::<std::collections::HashSet<_>>();
    assert!(spread.len() > 1);
    let mut key = [0; 32];
    key[0] = 3;
    key[1] = 1;
    assert_eq!(dedup_shard(&key), (3 + 256) % 64);
}

fn look_up(batches: &[Vec<([u8; 32], [u8; 32])>], operations: &[Operation]) -> Vec<Option<[u8; 32]>> {
    operations
        .iter()
        .map(|operation| {
            let key = operation_id_hash(&operation.operation_id);
            batches.iter().flatten().find(|entry| entry.0 == key).map(|entry| entry.1)
        })
        .collect()
}

#[test]
fn restarted_node_answers_a_repeat_as_a_duplicate() {
    let log = [operation("demo-1", "owner-1", "sku-1", 10)];
    let (mut store, batches) = Store::start(4, &log, &None);
    let new = ready(store.preflight_batch(&log, &look_up(&batches, &log), 1));
    assert_eq!(new, vec![false]);
    let results = store.apply_preflight_batch(&log, &new).unwrap();
    assert_eq!(results[0].status, ApplyStatus::Duplicate);
    assert_eq!(results[0].balance, 10);
    assert_eq!(store.balance("owner-1".into(), "sku-1".into()), 10);
}

#[test]
fn deliveries_agree_with_a_restart() {
    let deliveries = vec![
        vec![operation("a", "o", "s", 5), operation("b", "p", "s", 7)],
        vec![operation("a", "o", "s", 5)],
        vec![operation("c", "o", "s", -2), operation("b", "p", "s", 7), operation("d", "o", "t", 1)],
    ];
    let mut running = store();
    for (i, delivery) in deliveries.iter().enumerate() {
        deliver(&mut running, delivery, i as u64);
    }
    let log = deliveries.into_iter().flatten().collect::<Vec<_>>();
    assert!(Store::can_start(&log, &None));
    let (restarted, _) = Store::start(4, &log, &None);
    for (owner, sku, balance) in [("o", "s", 3), ("p", "s", 7), ("o", "t", 1), ("p", "t", 0)] {
        assert_eq!(running.balance(owner.into(), sku.into()), balance);
        assert_eq!(restarted.balance(owner.into(), sku.into()), balance);
    }
}

#[test]
fn redelivery_at_any_time_changes_nothing() {
    let mut store = store();
    let batch = [operation("a", "o", "s", 5), operation("b", "p", "s", 7), operation("a", "o", "s", 5)];
    deliver(&mut store, &batch, 0);
    for i in 1..20 {
        deliver(&mut store, &[operation(&format!("c-{i}"), "o", "s", 1), batch[1].clone()], i);
    }
    let results = deliver(&mut store, &batch, 99);
    assert!(results.iter().all(|result| result.status == ApplyStatus::Duplicate));
    assert_eq!(store.balance("o".into(), "s".into()), 24);
    assert_eq!(store.balance("p".into(), "s".into()), 7);
}

#[test]
fn other_content_is_refused_and_the_rest_goes_on() {
    let mut store = store();
    let first = [operation("a", "o", "s", 5)];
    let new = ready(store.preflight_batch(&first, &nothing_stored(&first), 1));
    let other = [operation("x", "o", "s", 1), operation("a", "o", "s", 6)];
    match store.preflight_batch(&other, &nothing_stored(&other), 2) {
        Preflight::Conflict(error) => assert_eq!(error.0, "a"),
        answer => panic!("no conflict: {answer:?}"),
    }
    assert_eq!(ready(store.preflight_batch(&other[..1], &nothing_stored(&other[..1]), 3)), vec![true]);
    store.apply_preflight_batch(&first, &new).unwrap();
    store.finish_batch(&first, &new, true);
    for content in [operation("a", "q", "s", 5), operation("a", "o", "t", 5), operation("a", "o", "s", -5)] {
        match store.preflight_batch(&[content], &[None], 4) {
            Preflight::Conflict(error) => assert_eq!(error.0, "a"),
            answer => panic!("no conflict: {answer:?}"),
        }
    }
    assert_eq!(ready(store.preflight_batch(&first, &[None], 5)), vec![false]);
}

#[test]
fn restarted_node_calls_nothing_logged_new() {
    let log = [operation("a", "o", "s", 1), operation("b", "o", "s", 2), operation("a", "o", "s", 4)];
    let (mut store, batches) = Store::start(4, &log, &None);
    assert_eq!(store.balance("o".into(), "s".into()), 3);
    let asked = [operation("b", "o", "s", 2), operation("c", "o", "s", 8), operation("a", "o", "s", 1)];
    assert_eq!(ready(store.preflight_batch(&asked, &look_up(&batches, &asked), 1)), vec![false, true, false]);
}

#[test]
fn batch_is_looked_at_by_itself() {
    let batch = [operation("a", "o", "s", 3), operation("a", "o", "s", 3), operation("b", "o", "s", 1)];
    assert!(check_batch(&batch).is_ok());
    assert!(check_batch(&[]).is_ok());
    let batch = [operation("a", "o", "s", 3), operation("b", "o", "s", 1), operation("b", "o", "t", 1), operation("a", "o", "s", 4)];
    assert_eq!(check_batch(&batch).unwrap_err().0, "b");
}

fn finish(store: &mut Store, operations: &[Operation], new: &[bool], committed: bool) -> Vec<([u8; 32], [u8; 32])> {
    if committed {
        assert!(store.can_apply_new(operations, new));
        assert!(store.can_publish_new(operations, new));
        store.apply_preflight_batch(operations, new).unwrap();
    }
    store.finish_batch(operations, new, committed).disk_entries
}

#[test]
fn overlapping_batches_count_once() {
    let mut store = store();
    let first = [operation("a", "o", "s", 1), operation("b", "o", "s", 2)];
    let second = [operation("c", "o", "s", 4), operation("d", "o", "s", 8)];
    let third = [operation("e", "o", "s", 16), operation("a", "o", "s", 1)];
    let first_new = ready(store.preflight_batch(&first, &nothing_stored(&first), 1));
    let second_new = ready(store.preflight_batch(&second, &nothing_stored(&second), 2));
    assert!(matches!(store.preflight_batch(&third, &nothing_stored(&third), 3), Preflight::Wait(1)));
    finish(&mut store, &second, &second_new, false);
    assert!(matches!(store.preflight_batch(&third, &nothing_stored(&third), 4), Preflight::Wait(1)));
    let second_new = ready(store.preflight_batch(&second, &nothing_stored(&second), 5));
    assert_eq!(second_new, vec![true, true]);
    let entries = finish(&mut store, &first, &first_new, true);
    assert_eq!(entries.len(), 2);
    let third_new = ready(store.preflight_batch(&third, &nothing_stored(&third), 6));
    assert_eq!(third_new, vec![true, false]);
    store.retire(&entries);
    assert_eq!(store.runtime_cardinality(), (0, 3, 1));
    let stored = look_up(&[entries.clone()], &first);
    assert_eq!(ready(store.preflight_batch(&first, &stored, 7)), vec![false, false]);
    finish(&mut store, &third, &third_new, true);
    finish(&mut store, &second, &second_new, true);
    assert_eq!(store.balance("o".into(), "s".into()), 31);
    assert_eq!(store.runtime_cardinality(), (3, 0, 1));
}
