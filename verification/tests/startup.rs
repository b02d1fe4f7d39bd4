use warehouse_lab::startup::{CheckpointAction, Opening, SnapshotMark, Startup};

fn mark(version: u32) -> SnapshotMark {
    SnapshotMark { version, sequence: 40, writer_epoch: 2 }
}

#[test]
fn sound_files_are_used() {
    let mut start = Startup::new(true, Ok(Some(mark(3))));
    assert!(!start.look_at_index(true, true));
    assert!(!start.check_index(true));
    assert_eq!(start.index_opened(true), Opening::Use);
    assert!(!start.check_snapshot());
    assert!(start.uses_snapshot());
    assert_eq!(start.wal_opened(true), Opening::Use);
    assert_eq!(start.checkpoint_action(10), CheckpointAction::Advance { sequence: 40, writer_epoch: 2 });
    assert_eq!(start.checkpoint_action(40), CheckpointAction::Keep);
}

#[test]
fn damaged_snapshot_means_rebuilding_from_the_cluster() {
    let mut start = Startup::new(true, Err(()));
    assert!(start.check_index(true));
    assert_eq!(start.checkpoint_action(10), CheckpointAction::Reset);
    let mut alone = Startup::new(false, Err(()));
    assert!(!alone.check_index(true));
    assert!(!alone.uses_snapshot());
    assert_eq!(alone.checkpoint_action(10), CheckpointAction::Keep);
}

#[test]
fn monolithic_index_is_archived_in_a_cluster() {
    let mut start = Startup::new(true, Ok(Some(mark(3))));
    assert!(start.look_at_index(true, false));
    assert!(!start.uses_snapshot());
    assert!(!start.check_index(false));
    assert_eq!(start.checkpoint_action(10), CheckpointAction::Reset);
    assert!(!Startup::new(false, Ok(None)).look_at_index(true, false));
    assert!(!Startup::new(true, Ok(None)).look_at_index(false, false));
}

#[test]
fn damaged_index_is_replaced_in_a_cluster() {
    let mut start = Startup::new(true, Ok(Some(mark(3))));
    start.check_index(true);
    assert_eq!(start.index_opened(false), Opening::Replace);
    assert!(!start.uses_snapshot());
    assert_eq!(start.checkpoint_action(10), CheckpointAction::Reset);
    let mut alone = Startup::new(false, Ok(Some(mark(3))));
    assert_eq!(alone.index_opened(false), Opening::Fail);
}

#[test]
fn snapshot_without_its_index_is_dropped() {
    let mut start = Startup::new(true, Ok(Some(mark(2))));
    start.check_index(false);
    start.index_opened(true);
    assert!(start.check_snapshot());
    assert!(!start.uses_snapshot());
    assert_eq!(start.checkpoint_action(10), CheckpointAction::Reset);
    let mut first = Startup::new(true, Ok(Some(mark(1))));
    first.check_index(false);
    assert!(!first.check_snapshot());
    assert!(first.uses_snapshot());
    let mut alone = Startup::new(false, Ok(Some(mark(2))));
    alone.check_index(false);
    assert!(alone.check_snapshot());
    assert_eq!(alone.checkpoint_action(10), CheckpointAction::Keep);
}

#[test]
fn damaged_log_is_replaced_in_a_cluster() {
    let mut start = Startup::new(true, Ok(Some(mark(3))));
    start.check_index(true);
    assert_eq!(start.wal_opened(false), Opening::Replace);
    assert!(start.uses_snapshot());
    assert_eq!(start.checkpoint_action(10), CheckpointAction::Reset);
    assert_eq!(Startup::new(false, Ok(None)).wal_opened(false), Opening::Fail);
}
