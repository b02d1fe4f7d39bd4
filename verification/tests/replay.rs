use warehouse_lab::checkpoint::Checkpoint;
use warehouse_lab::cluster::LogRecord;
use warehouse_lab::model::Operation;
use warehouse_lab::replay::{first_sequence, history_is_complete, history_step, CatchUp, ReplayAction};

fn operation(id: &str) -> Operation {
    Operation { operation_id: id.into(), owner_id: "o".into(), sku: "s".into(), delta: 1, event_version: 1 }
}

fn batch(epoch: u64, ids: &[&str]) -> LogRecord {
    LogRecord::Operations { epoch, operations: ids.iter().map(|id| operation(id)).collect() }
}

fn fence(epoch: u64) -> LogRecord {
    LogRecord::Fence { epoch, owner: "node".into() }
}

fn restored(epoch: u64, records: &[LogRecord]) -> Vec<bool> {
    let mut catch_up = CatchUp::new(epoch);
    records.iter().map(|record| matches!(catch_up.decide(record), ReplayAction::Restore)).collect()
}

#[test]
fn batches_of_the_active_writer_count() {
    let records = [batch(0, &["a"]), fence(5), batch(5, &["b"]), batch(0, &["c"]), fence(3), batch(5, &["d"]), fence(9), batch(5, &["e"]), batch(9, &["f"])];
    assert_eq!(restored(0, &records), vec![true, false, true, false, false, true, false, false, true]);
}

#[test]
fn catch_up_resumes_at_a_checkpoint() {
    let records = [batch(0, &["a"]), fence(5), batch(5, &["b"]), batch(0, &["c"]), fence(9), batch(9, &["d"])];
    let all = restored(0, &records);
    assert_eq!(restored(0, &records[..2]), all[..2]);
    assert_eq!(restored(5, &records[2..]), all[2..]);
}

#[test]
fn stale_batches_are_set_aside_with_a_reason() {
    let mut catch_up = CatchUp::new(4);
    match catch_up.decide(&batch(3, &["a"])) {
        ReplayAction::Quarantine(reason) => assert_eq!(reason, "writer epoch 3 rejected; active epoch is 4"),
        other => panic!("unexpected {other:?}"),
    }
    match catch_up.decide(&batch(5, &[])) {
        ReplayAction::Quarantine(reason) => assert_eq!(reason, "writer epoch 5 rejected; active epoch is 4"),
        other => panic!("unexpected {other:?}"),
    }
    assert!(matches!(catch_up.decide(&batch(u64::MAX, &[])), ReplayAction::Skip));
    assert!(matches!(catch_up.decide(&batch(4, &[])), ReplayAction::Skip));
    assert!(matches!(catch_up.decide(&fence(4)), ReplayAction::Skip));
    assert!(matches!(catch_up.decide(&fence(6)), ReplayAction::Activate));
}

#[test]
fn checkpoint_follows_every_sixty_four_messages() {
    let mut catch_up = CatchUp::new(0);
    catch_up.decide(&fence(2));
    let mut advanced = Vec::new();
    for sequence in 1..=130 {
        if let Some(checkpoint) = catch_up.processed(sequence) {
            advanced.push(checkpoint);
        }
    }
    assert_eq!(advanced, vec![(64, 2), (128, 2)]);
    assert_eq!(catch_up.finish(), Some((130, 2)));
    let mut exact = CatchUp::new(0);
    for sequence in 1..=64 {
        exact.processed(sequence);
    }
    assert_eq!(exact.finish(), None);
    assert_eq!(CatchUp::new(0).finish(), None);
}

fn take_in(stored: &mut Checkpoint, log: &[LogRecord], stop: usize, restored: &mut Vec<usize>) {
    let mut catch_up = CatchUp::new(stored.writer_epoch());
    for sequence in first_sequence(stored.current())..=stop as u64 {
        if matches!(catch_up.decide(&log[sequence as usize - 1]), ReplayAction::Restore) {
            restored.push(sequence as usize);
        }
        if let Some((sequence, epoch)) = catch_up.processed(sequence) {
            stored.advance(sequence, epoch);
        }
    }
    if stop == log.len() {
        if let Some((sequence, epoch)) = catch_up.finish() {
            stored.advance(sequence, epoch);
        }
    }
}

#[test]
fn stopping_leaves_nothing_out() {
    let mut log = vec![fence(3)];
    for i in 2..=99 {
        log.push(batch(3, &[&format!("a-{i}")]));
    }
    log.push(fence(8));
    log.push(batch(3, &["stale"]));
    log.push(batch(8, &["b"]));
    let mut stored = Checkpoint::new();
    let mut restored = Vec::new();
    take_in(&mut stored, &log, 80, &mut restored);
    assert_eq!(stored, Checkpoint { sequence: 64, writer_epoch: 3 });
    take_in(&mut stored, &log, log.len(), &mut restored);
    assert_eq!(stored, Checkpoint { sequence: 102, writer_epoch: 8 });
    restored.sort();
    restored.dedup();
    let expected = (2..=99).chain([102]).collect::<Vec<usize>>();
    assert_eq!(restored, expected);
}

#[test]
fn history_takes_in_what_counts() {
    let (epoch, operations) = history_step(2, batch(2, &["a"]));
    assert_eq!((epoch, operations), (2, vec![operation("a")]));
    let (epoch, operations) = history_step(2, batch(1, &["a"]));
    assert_eq!((epoch, operations), (2, Vec::new()));
    assert_eq!(history_step(2, fence(7)).0, 7);
    assert_eq!(history_step(2, fence(1)).0, 2);
}

#[test]
fn log_is_taken_in_after_the_checkpoint() {
    assert_eq!(first_sequence(0), 1);
    assert_eq!(first_sequence(41), 42);
    assert_eq!(first_sequence(u64::MAX), u64::MAX);
    assert!(history_is_complete(7, 7));
    assert!(!history_is_complete(6, 7));
}
